//! The Android keyboard's render record and its smart-refine settings.

use vstd::prelude::*;
use crate::ios::{card_matches, entry_views, IosPhraseCandidate, IosSegmentEntry};
use crate::session::{
    clone_opt_string, clone_strings, opt_str, strs, widen_index, widened, SegmentPreviewEntry, SessionResult,
    SessionSnapshot,
};
use crate::tsf_driver::SpanProposalMode;

verus! {

/// Latency budget of the smart refiner, in milliseconds: it runs after a
/// typing pause, off the keystroke path, and has one model inference to
/// make.
pub const SMART_REFINE_MAX_LATENCY_MS: u64 = 2_000;

/// The span-proposal provider and latency budget of the smart refiner.
pub fn smart_refiner_config() -> (c: (SpanProposalMode, u64))
    ensures
        c == (SpanProposalMode::Model, SMART_REFINE_MAX_LATENCY_MS),
{
    (SpanProposalMode::Model, SMART_REFINE_MAX_LATENCY_MS)
}

/// The record the Android keyboard receives after every session call: the
/// iOS keyboard's entries plus the selected phrase reading.
#[derive(Clone, Debug, Default)]
pub struct AndroidRenderState {
    pub candidates: Vec<String>,
    pub selected_index: Option<u64>,
    pub preedit: String,
    pub segments: Vec<IosSegmentEntry>,
    pub focused_segment_index: Option<u64>,
    pub commit_text: Option<String>,
    pub segment_edit_active: bool,
    pub segment_edit_index: Option<u64>,
    pub phrase_candidates: Vec<IosPhraseCandidate>,
    pub selected_phrase_index: u64,
}

/// `r` is the projection of a snapshot and a result for the keyboard.
pub open spec fn android_render_matches(r: AndroidRenderState, snapshot: SessionSnapshot, result: SessionResult) -> bool {
    &&& strs(r.candidates@) == strs(snapshot.candidates@)
    &&& r.selected_index == widened(snapshot.selected_index)
    &&& r.preedit@ == snapshot.preedit@
    &&& entry_views(r.segments@) == snapshot.segment_preview@.map_values(|e: SegmentPreviewEntry| e@)
    &&& r.focused_segment_index == widened(snapshot.focused_segment_index)
    &&& opt_str(r.commit_text) == opt_str(result.commit_text)
    &&& r.segment_edit_active == snapshot.segment_edit_active
    &&& r.segment_edit_index == widened(snapshot.segment_edit_index)
    &&& r.phrase_candidates@.len() == snapshot.phrase_candidates@.len()
    &&& forall|i: int|
        0 <= i < r.phrase_candidates@.len() ==> card_matches(
            #[trigger] r.phrase_candidates@[i],
            snapshot.phrase_candidates@[i],
        )
    &&& r.selected_phrase_index == snapshot.selected_phrase_index as u64
}

/// Projects a session snapshot and result into the keyboard's record.
pub fn make_render_state(snapshot: &SessionSnapshot, result: &SessionResult) -> (r: AndroidRenderState)
    ensures
        android_render_matches(r, *snapshot, *result),
{
    let mut segments: Vec<IosSegmentEntry> = Vec::new();
    for i in 0..snapshot.segment_preview.len()
        invariant
            segments@.len() == i,
            forall|j: int| 0 <= j < i ==> #[trigger] segments@[j]@ == snapshot.segment_preview@[j]@,
    {
        segments.push(IosSegmentEntry::from_preview(&snapshot.segment_preview[i]));
    }
    assert(entry_views(segments@) =~= snapshot.segment_preview@.map_values(|e: SegmentPreviewEntry| e@));
    let mut cards: Vec<IosPhraseCandidate> = Vec::new();
    for i in 0..snapshot.phrase_candidates.len()
        invariant
            cards@.len() == i,
            forall|j: int| 0 <= j < i ==> card_matches(#[trigger] cards@[j], snapshot.phrase_candidates@[j]),
    {
        cards.push(IosPhraseCandidate::from_phrase(&snapshot.phrase_candidates[i]));
    }
    AndroidRenderState {
        candidates: clone_strings(&snapshot.candidates),
        selected_index: widen_index(snapshot.selected_index),
        preedit: snapshot.preedit.clone(),
        segments,
        focused_segment_index: widen_index(snapshot.focused_segment_index),
        commit_text: clone_opt_string(&result.commit_text),
        segment_edit_active: snapshot.segment_edit_active,
        segment_edit_index: widen_index(snapshot.segment_edit_index),
        phrase_candidates: cards,
        selected_phrase_index: snapshot.selected_phrase_index as u64,
    }
}

} // verus!
