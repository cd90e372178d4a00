//! The records the iOS keyboard extension receives after every session call:
//! the phrase bar, the phrase wheel and the candidate strip.

use vstd::prelude::*;
use crate::session::{
    clone_opt_string, clone_strings, opt_str, strs, widen_index, widened, PhraseCandidate, PhraseSegment,
    SegmentPreviewEntry, SessionResult, SessionSnapshot,
};

verus! {

/// One entry of the phrase bar or of a phrase wheel card.
#[derive(Clone, Debug, Default)]
pub struct IosSegmentEntry {
    pub output: String,
    pub input: String,
    pub focused: bool,
}

impl View for IosSegmentEntry {
    type V = (Seq<char>, Seq<char>, bool);

    open spec fn view(&self) -> (Seq<char>, Seq<char>, bool) {
        (self.output@, self.input@, self.focused)
    }
}

/// The entry a phrase segment shows: never focused.
pub open spec fn phrase_segment_entry(s: PhraseSegment) -> (Seq<char>, Seq<char>, bool) {
    (s.output@, s.input@, false)
}

impl IosSegmentEntry {
    /// The phrase-bar entry for a segmented-preview chunk.
    pub fn from_preview(s: &SegmentPreviewEntry) -> (e: Self)
        ensures
            e@ == s@,
    {
        IosSegmentEntry { output: s.output.clone(), input: s.input.clone(), focused: s.focused }
    }

    /// The card entry for one segment of a phrase reading.
    pub fn from_phrase_segment(s: &PhraseSegment) -> (e: Self)
        ensures
            e@ == phrase_segment_entry(*s),
    {
        IosSegmentEntry { output: s.output.clone(), input: s.input.clone(), focused: false }
    }
}

/// One card of the phrase wheel: a whole-composition reading with its own
/// segmentation.
#[derive(Clone, Debug, Default)]
pub struct IosPhraseCandidate {
    pub text: String,
    pub segments: Vec<IosSegmentEntry>,
}

/// The views of a list of segment entries.
pub open spec fn entry_views(v: Seq<IosSegmentEntry>) -> Seq<(Seq<char>, Seq<char>, bool)> {
    v.map_values(|e: IosSegmentEntry| e@)
}

/// `p` is the card for phrase reading `c`.
pub open spec fn card_matches(p: IosPhraseCandidate, c: PhraseCandidate) -> bool {
    &&& p.text@ == c.text@
    &&& entry_views(p.segments@) == c.segments@.map_values(|s: PhraseSegment| phrase_segment_entry(s))
}

impl IosPhraseCandidate {
    /// The phrase wheel card for a reading.
    pub fn from_phrase(c: &PhraseCandidate) -> (p: Self)
        ensures
            card_matches(p, *c),
    {
        let mut segments: Vec<IosSegmentEntry> = Vec::new();
        for i in 0..c.segments.len()
            invariant
                segments@.len() == i,
                i <= c.segments@.len(),
                forall|k: int| 0 <= k < i ==> #[trigger] segments@[k]@ == phrase_segment_entry(c.segments@[k]),
        {
            segments.push(IosSegmentEntry::from_phrase_segment(&c.segments[i]));
        }
        let p = IosPhraseCandidate { text: c.text.clone(), segments };
        assert(entry_views(p.segments@) =~= c.segments@.map_values(|s: PhraseSegment| phrase_segment_entry(s)));
        p
    }
}

/// The record the keyboard extension receives after every session call.
#[derive(Clone, Debug, Default)]
pub struct IosRenderState {
    /// Candidates for the focused segment.
    pub candidates: Vec<String>,
    pub selected_index: Option<u64>,
    /// The roman text the user typed.
    pub preedit: String,
    /// Phrase bar entries; empty without a segmented composition.
    pub segments: Vec<IosSegmentEntry>,
    pub focused_segment_index: Option<u64>,
    /// Set only right after Enter.
    pub commit_text: Option<String>,
    pub segment_edit_active: bool,
    pub segment_edit_index: Option<u64>,
    /// Ranked whole-composition readings for the phrase wheel.
    pub phrase_candidates: Vec<IosPhraseCandidate>,
}

/// `r` is the projection of a snapshot and a result for the keyboard.
pub open spec fn ios_render_matches(r: IosRenderState, snapshot: SessionSnapshot, result: SessionResult) -> bool {
    &&& strs(r.candidates@) == strs(snapshot.candidates@)
    &&& r.selected_index == widened(snapshot.selected_index)
    &&& r.preedit@ == snapshot.preedit@
    &&& entry_views(r.segments@) == snapshot.segment_preview@.map_values(|e: SegmentPreviewEntry| e@)
    &&& r.focused_segment_index == widened(snapshot.focused_segment_index)
    &&& opt_str(r.commit_text) == opt_str(result.commit_text)
    &&& r.segment_edit_active == snapshot.segment_edit_active
    &&& r.segment_edit_index == widened(snapshot.segment_edit_index)
    &&& r.phrase_candidates@.len() == snapshot.phrase_candidates@.len()
    &&& forall|i: int|
        0 <= i < r.phrase_candidates@.len() ==> card_matches(
            #[trigger] r.phrase_candidates@[i],
            snapshot.phrase_candidates@[i],
        )
}

/// Projects a session snapshot and result into the keyboard's record.
pub fn render_state(snapshot: &SessionSnapshot, result: &SessionResult) -> (r: IosRenderState)
    ensures
        ios_render_matches(r, *snapshot, *result),
{
    let mut segments: Vec<IosSegmentEntry> = Vec::new();
    for i in 0..snapshot.segment_preview.len()
        invariant
            segments@.len() == i,
            forall|j: int| 0 <= j < i ==> #[trigger] segments@[j]@ == snapshot.segment_preview@[j]@,
    {
        segments.push(IosSegmentEntry::from_preview(&snapshot.segment_preview[i]));
    }
    assert(entry_views(segments@) =~= snapshot.segment_preview@.map_values(|e: SegmentPreviewEntry| e@));
    let mut cards: Vec<IosPhraseCandidate> = Vec::new();
    for i in 0..snapshot.phrase_candidates.len()
        invariant
            cards@.len() == i,
            forall|j: int| 0 <= j < i ==> card_matches(#[trigger] cards@[j], snapshot.phrase_candidates@[j]),
    {
        cards.push(IosPhraseCandidate::from_phrase(&snapshot.phrase_candidates[i]));
    }
    IosRenderState {
        candidates: clone_strings(&snapshot.candidates),
        selected_index: widen_index(snapshot.selected_index),
        preedit: snapshot.preedit.clone(),
        segments,
        focused_segment_index: widen_index(snapshot.focused_segment_index),
        commit_text: clone_opt_string(&result.commit_text),
        segment_edit_active: snapshot.segment_edit_active,
        segment_edit_index: widen_index(snapshot.segment_edit_index),
        phrase_candidates: cards,
    }
}

} // verus!
