//! The TSF candidate window's policy: one surface, projected from the session
//! snapshot, that says whether the rows are whole phrases or alternatives for
//! one segment, what each row shows, and which session command a candidate
//! key means.

use vstd::prelude::*;
use crate::index::wrap_index;
use crate::session::{
    clone_display, clone_strings, display_views, strs, CandidateDisplayEntry, PhraseCandidate,
    PhraseSegment, SegmentPreviewEntry, SessionCommand, SessionSnapshot,
};
use crate::text::{char_views, chars_of, join_chars, join_with, string_from_chars};
use crate::tsf_keys::{SESSION_KEY_DOWN, SESSION_KEY_SPACE, SESSION_KEY_UP};

verus! {

/// What the candidate window's rows stand for.
#[derive(Clone, Copy, Debug, PartialEq, Eq, Structural)]
pub enum CandidateSurfaceMode {
    /// Candidates of a single-segment composition.
    Flat,
    /// Whole-phrase readings of a segmented composition.
    Phrase,
    /// Alternatives for the one segment being edited.
    Segment,
}

impl Default for CandidateSurfaceMode {
    fn default() -> (m: Self)
        ensures
            m == CandidateSurfaceMode::Flat,
    {
        CandidateSurfaceMode::Flat
    }
}

/// The view of a display entry: output, recommended, hints, raw fallback,
/// model provenance.
pub type DisplayView = (Seq<char>, bool, Seq<Seq<char>>, bool, bool);

/// The view of a surface: mode, rows, selected row, display entries, and
/// the segmentation shown as context.
pub type SurfaceView = (
    CandidateSurfaceMode,
    Seq<Seq<char>>,
    Option<usize>,
    Seq<DisplayView>,
    Seq<(Seq<char>, Seq<char>, bool)>,
);

/// The first hint of each segment of a phrase.
pub open spec fn first_hints(segs: Seq<PhraseSegment>) -> Seq<Seq<char>> {
    segs.map_values(|s: PhraseSegment| s.roman_hints@[0]@)
}

/// The hints of a phrase row: a one-segment phrase shows every spelling of
/// its word; a longer phrase shows one spelling per segment, joined by
/// spaces, and nothing when any segment has none.
pub open spec fn phrase_hints(c: PhraseCandidate) -> Seq<Seq<char>> {
    let segs = c.segments@;
    if segs.len() == 1 {
        strs(segs[0].roman_hints@)
    } else if forall|k: int| 0 <= k < segs.len() ==> #[trigger] segs[k].roman_hints@.len() > 0 {
        seq![join_with(first_hints(segs), seq![' '])]
    } else {
        Seq::empty()
    }
}

/// The display entry of phrase row `index`.
pub open spec fn phrase_row_display(c: PhraseCandidate, index: int) -> DisplayView {
    (c.text@, index == 0, phrase_hints(c), false, c.from_model)
}

/// The views of segmented-preview entries.
pub open spec fn preview_views(v: Seq<SegmentPreviewEntry>) -> Seq<(Seq<char>, Seq<char>, bool)> {
    v.map_values(|e: SegmentPreviewEntry| e@)
}

/// The surface a snapshot projects to.
pub open spec fn surface_of(snapshot: SessionSnapshot) -> SurfaceView {
    let pcs = snapshot.phrase_candidates@;
    if snapshot.segmented_active && !snapshot.segment_edit_active {
        (
            CandidateSurfaceMode::Phrase,
            pcs.map_values(|c: PhraseCandidate| c.text@),
            Some(snapshot.selected_phrase_index),
            Seq::new(pcs.len(), |i: int| phrase_row_display(pcs[i], i)),
            preview_views(snapshot.segment_preview@),
        )
    } else {
        (
            if snapshot.segment_edit_active {
                CandidateSurfaceMode::Segment
            } else {
                CandidateSurfaceMode::Flat
            },
            strs(snapshot.candidates@),
            snapshot.selected_index,
            display_views(snapshot.candidate_display@),
            if snapshot.segmented_active {
                preview_views(snapshot.segment_preview@)
            } else {
                Seq::empty()
            },
        )
    }
}

/// The command for choosing visible phrase row `row`.
pub open spec fn select_row_spec(v: SurfaceView, row: int) -> Option<SessionCommand> {
    if v.0 == CandidateSurfaceMode::Phrase && 0 <= row < v.1.len() {
        Some(SessionCommand::SelectPhrase(row as usize))
    } else {
        None
    }
}

/// The command for moving the phrase selection `delta` rows, wrapping.
pub open spec fn cycle_spec(v: SurfaceView, delta: int) -> Option<SessionCommand> {
    if v.0 != CandidateSurfaceMode::Phrase || v.1.len() == 0 {
        None
    } else {
        let current = match v.2 {
            Some(i) => i as int,
            None => 0,
        } % (v.1.len() as int);
        Some(SessionCommand::SelectPhrase(((current + delta) % (v.1.len() as int)) as usize))
    }
}

/// The command a candidate key means; `None` hands the key to the session
/// unchanged.
pub open spec fn key_command_spec(v: SurfaceView, keyval: u32) -> Option<SessionCommand> {
    if keyval == SESSION_KEY_UP {
        cycle_spec(v, -1)
    } else if keyval == SESSION_KEY_DOWN || keyval == SESSION_KEY_SPACE {
        cycle_spec(v, 1)
    } else if 0x31 <= keyval <= 0x39 {
        select_row_spec(v, keyval - 0x31)
    } else if keyval == 0x30 {
        select_row_spec(v, 9)
    } else {
        None
    }
}

/// The candidate window's surface.
#[derive(Clone, Debug)]
pub struct CandidateSurface {
    mode: CandidateSurfaceMode,
    rows: Vec<String>,
    selected_index: Option<usize>,
    display: Vec<CandidateDisplayEntry>,
    context: Vec<SegmentPreviewEntry>,
}

impl View for CandidateSurface {
    type V = SurfaceView;

    closed spec fn view(&self) -> SurfaceView {
        (
            self.mode,
            strs(self.rows@),
            self.selected_index,
            display_views(self.display@),
            preview_views(self.context@),
        )
    }
}

/// Copies segmented-preview entries.
fn clone_preview(v: &Vec<SegmentPreviewEntry>) -> (out: Vec<SegmentPreviewEntry>)
    ensures
        preview_views(out@) == preview_views(v@),
{
    let mut out: Vec<SegmentPreviewEntry> = Vec::new();
    for i in 0..v.len()
        invariant
            out@.len() == i,
            i <= v@.len(),
            forall|j: int| 0 <= j < i ==> #[trigger] out@[j]@ == v@[j]@,
    {
        out.push(SegmentPreviewEntry { output: v[i].output.clone(), input: v[i].input.clone(), focused: v[i].focused });
    }
    assert(preview_views(out@) =~= preview_views(v@));
    out
}

/// The hints of one phrase row (see `phrase_hints`).
fn phrase_row_hints(c: &PhraseCandidate) -> (hints: Vec<String>)
    ensures
        strs(hints@) == phrase_hints(*c),
{
    let segs = &c.segments;
    if segs.len() == 1 {
        return clone_strings(&segs[0].roman_hints);
    }
    let mut firsts: Vec<Vec<char>> = Vec::new();
    for i in 0..segs.len()
        invariant
            segs@ == c.segments@,
            firsts@.len() == i,
            i <= segs@.len(),
            forall|k: int| 0 <= k < i ==> #[trigger] segs@[k].roman_hints@.len() > 0,
            forall|k: int| 0 <= k < i ==> #[trigger] firsts@[k]@ == segs@[k].roman_hints@[0]@,
    {
        if segs[i].roman_hints.len() == 0 {
            let empty: Vec<String> = Vec::new();
            assert(strs(empty@) =~= Seq::<Seq<char>>::empty());
            return empty;
        }
        firsts.push(chars_of(segs[i].roman_hints[0].as_str()));
    }
    assert(char_views(firsts@) =~= first_hints(segs@));
    let sep = vec![' '];
    assert(sep@ =~= seq![' ']);
    let joined = join_chars(&firsts, sep.as_slice());
    let mut hints: Vec<String> = Vec::new();
    hints.push(string_from_chars(joined.as_slice()));
    assert(strs(hints@) =~= seq![join_with(first_hints(segs@), seq![' '])]);
    hints
}

impl CandidateSurface {
    /// The surface for a snapshot: every whole-phrase reading for a live
    /// segmented composition that is not editing one segment, the ordinary
    /// candidate list otherwise.
    pub fn from_snapshot(snapshot: &SessionSnapshot) -> (s: Self)
        ensures
            s@ == surface_of(*snapshot),
    {
        if snapshot.segmented_active && !snapshot.segment_edit_active {
            let pcs = &snapshot.phrase_candidates;
            let mut rows: Vec<String> = Vec::new();
            let mut display: Vec<CandidateDisplayEntry> = Vec::new();
            for i in 0..pcs.len()
                invariant
                    pcs@ == snapshot.phrase_candidates@,
                    rows@.len() == i,
                    display@.len() == i,
                    i <= pcs@.len(),
                    forall|j: int| 0 <= j < i ==> #[trigger] rows@[j]@ == pcs@[j].text@,
                    forall|j: int| 0 <= j < i ==> #[trigger] display@[j]@ == phrase_row_display(pcs@[j], j),
            {
                let c = &pcs[i];
                rows.push(c.text.clone());
                display.push(
                    CandidateDisplayEntry {
                        output: c.text.clone(),
                        recommended: i == 0,
                        roman_hints: phrase_row_hints(c),
                        is_raw_fallback: false,
                        from_model: c.from_model,
                    },
                );
            }
            let s = CandidateSurface {
                mode: CandidateSurfaceMode::Phrase,
                rows,
                selected_index: Some(snapshot.selected_phrase_index),
                display,
                context: clone_preview(&snapshot.segment_preview),
            };
            assert(strs(s.rows@) =~= pcs@.map_values(|c: PhraseCandidate| c.text@));
            assert(display_views(s.display@) =~= Seq::new(pcs@.len(), |i: int| phrase_row_display(pcs@[i], i)));
            s
        } else {
            let context = if snapshot.segmented_active {
                clone_preview(&snapshot.segment_preview)
            } else {
                let empty: Vec<SegmentPreviewEntry> = Vec::new();
                assert(preview_views(empty@) =~= Seq::empty());
                empty
            };
            CandidateSurface {
                mode: if snapshot.segment_edit_active {
                    CandidateSurfaceMode::Segment
                } else {
                    CandidateSurfaceMode::Flat
                },
                rows: clone_strings(&snapshot.candidates),
                selected_index: snapshot.selected_index,
                display: clone_display(&snapshot.candidate_display),
                context,
            }
        }
    }

    /// What the rows stand for.
    pub fn mode(&self) -> (m: CandidateSurfaceMode)
        ensures
            m == self@.0,
    {
        self.mode
    }

    /// The visible rows.
    pub fn rows(&self) -> (r: &[String])
        ensures
            strs(r@) == self@.1,
    {
        self.rows.as_slice()
    }

    /// The highlighted row.
    pub fn selected_index(&self) -> (i: Option<usize>)
        ensures
            i == self@.2,
    {
        self.selected_index
    }

    /// Display metadata of the rows.
    pub fn display(&self) -> (d: &[CandidateDisplayEntry])
        ensures
            display_views(d@) == self@.3,
    {
        self.display.as_slice()
    }

    /// The segmentation shown as context above the rows.
    pub fn context(&self) -> (c: &[SegmentPreviewEntry])
        ensures
            preview_views(c@) == self@.4,
    {
        self.context.as_slice()
    }

    /// The session command for choosing visible phrase row `index`; flat
    /// and segment surfaces keep the session's own key behavior.
    pub fn select_phrase_row(&self, index: usize) -> (c: Option<SessionCommand>)
        ensures
            c == select_row_spec(self@, index as int),
    {
        if self.mode == CandidateSurfaceMode::Phrase && index < self.rows.len() {
            Some(SessionCommand::SelectPhrase(index))
        } else {
            None
        }
    }

    /// The session command for moving the phrase selection `delta` rows,
    /// wrapping around.
    pub fn cycle_phrase(&self, delta: isize) -> (c: Option<SessionCommand>)
        ensures
            c == cycle_spec(self@, delta as int),
    {
        if self.mode != CandidateSurfaceMode::Phrase || self.rows.len() == 0 {
            return None;
        }
        let n = self.rows.len();
        let current = match self.selected_index {
            Some(i) => i,
            None => 0,
        } % n;
        Some(SessionCommand::SelectPhrase(wrap_index(current, n, delta)))
    }

    /// The whole-phrase command for a candidate key; `None` delegates the key
    /// to the session unchanged.
    pub fn command_for_key(&self, keyval: u32) -> (c: Option<SessionCommand>)
        ensures
            c == key_command_spec(self@, keyval),
    {
        if keyval == SESSION_KEY_UP {
            self.cycle_phrase(-1)
        } else if keyval == SESSION_KEY_DOWN || keyval == SESSION_KEY_SPACE {
            self.cycle_phrase(1)
        } else if 0x31 <= keyval && keyval <= 0x39 {
            self.select_phrase_row((keyval - 0x31) as usize)
        } else if keyval == 0x30 {
            self.select_phrase_row(9)
        } else {
            None
        }
    }
}

} // verus!
