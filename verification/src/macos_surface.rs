//! The macOS candidate panel's policy: one surface, projected from the session
//! snapshot, that says whether the rows are whole phrases or alternatives for
//! one segment, and which session command a candidate key means.

use vstd::prelude::*;
use crate::index::wrap_index;
use crate::session::{
    clone_display, clone_strings, display_views, strs, CandidateDisplayEntry, PhraseCandidate,
    PhraseSegment, SessionCommand, SessionSnapshot,
};
use crate::text::{char_views, chars_of, join_chars, join_with, string_from_chars};

verus! {

/// Keysym of the Up arrow.
pub const KEY_UP: u32 = 0xFF52;

/// Keysym of the Down arrow.
pub const KEY_DOWN: u32 = 0xFF54;

/// Keysym of the space bar.
pub const KEY_SPACE: u32 = 0x20;

/// What the panel's rows stand for.
#[derive(Clone, Copy, Debug, PartialEq, Eq, Structural)]
pub enum CandidateSurfaceMode {
    /// Candidates of a single-segment composition.
    Flat,
    /// Whole-phrase readings of a segmented composition.
    Phrase,
    /// Alternatives for the one segment being edited.
    Segment,
}

impl Default for CandidateSurfaceMode {
    fn default() -> (m: Self)
        ensures
            m == CandidateSurfaceMode::Flat,
    {
        CandidateSurfaceMode::Flat
    }
}

/// The view of a display entry: output, recommended, hints, raw fallback,
/// model provenance.
pub type DisplayView = (Seq<char>, bool, Seq<Seq<char>>, bool, bool);

/// The view of a surface: mode, rows, selected row, display entries, and the
/// session phrase index behind each row.
pub type SurfaceView = (CandidateSurfaceMode, Seq<Seq<char>>, Option<usize>, Seq<DisplayView>, Seq<usize>);

/// A phrase candidate stays on the panel when it reads the whole
/// composition: two or more segments, or a model's one-word reading.
pub open spec fn keeps_phrase(c: PhraseCandidate) -> bool {
    c.segments@.len() >= 2 || c.from_model
}

/// The indices below `n` of the phrase candidates the panel keeps, in order.
pub open spec fn kept_indices(pcs: Seq<PhraseCandidate>, n: int) -> Seq<usize>
    decreases n,
{
    if n <= 0 {
        Seq::empty()
    } else if keeps_phrase(pcs[n - 1]) {
        kept_indices(pcs, n - 1).push((n - 1) as usize)
    } else {
        kept_indices(pcs, n - 1)
    }
}

/// The first position of `x` in `s`.
pub open spec fn position_in(s: Seq<usize>, x: usize) -> Option<usize>
    decreases s.len(),
{
    if s.len() == 0 {
        None
    } else {
        match position_in(s.drop_last(), x) {
            Some(k) => Some(k),
            None => if s.last() == x {
                Some((s.len() - 1) as usize)
            } else {
                None
            },
        }
    }
}

/// The roman inputs of a phrase's segments.
pub open spec fn segment_inputs(c: PhraseCandidate) -> Seq<Seq<char>> {
    c.segments@.map_values(|s: PhraseSegment| s.input@)
}

/// The display entry of a phrase row: its text, recommended when it is the
/// session's first reading, and one hint made of its segment inputs joined
/// by spaces.
pub open spec fn phrase_row_display(c: PhraseCandidate, orig: int) -> DisplayView {
    (c.text@, orig == 0, seq![join_with(segment_inputs(c), seq![' '])], false, false)
}

/// The surface a snapshot projects to.
pub open spec fn surface_of(snapshot: SessionSnapshot) -> SurfaceView {
    let pcs = snapshot.phrase_candidates@;
    if snapshot.segmented_active && !snapshot.segment_edit_active {
        let idx = kept_indices(pcs, pcs.len() as int);
        (
            CandidateSurfaceMode::Phrase,
            idx.map_values(|i: usize| pcs[i as int].text@),
            position_in(idx, snapshot.selected_phrase_index),
            idx.map_values(|i: usize| phrase_row_display(pcs[i as int], i as int)),
            idx,
        )
    } else {
        (
            if snapshot.segment_edit_active {
                CandidateSurfaceMode::Segment
            } else {
                CandidateSurfaceMode::Flat
            },
            strs(snapshot.candidates@),
            snapshot.selected_index,
            display_views(snapshot.candidate_display@),
            Seq::empty(),
        )
    }
}

/// The command for choosing visible phrase row `row`.
pub open spec fn select_row_spec(v: SurfaceView, row: int) -> Option<SessionCommand> {
    if v.0 == CandidateSurfaceMode::Phrase && 0 <= row < v.4.len() {
        Some(SessionCommand::SelectPhrase(v.4[row]))
    } else {
        None
    }
}

/// The command for moving the phrase selection `delta` rows, wrapping.
pub open spec fn cycle_spec(v: SurfaceView, delta: int) -> Option<SessionCommand> {
    if v.0 != CandidateSurfaceMode::Phrase || v.1.len() == 0 {
        None
    } else {
        let current = match v.2 {
            Some(i) => i as int,
            None => 0,
        } % (v.1.len() as int);
        select_row_spec(v, (current + delta) % (v.1.len() as int))
    }
}

/// The command a candidate key means on the panel; `None` hands the key to
/// the session unchanged.
pub open spec fn key_command_spec(v: SurfaceView, keyval: u32) -> Option<SessionCommand> {
    if keyval == KEY_UP {
        cycle_spec(v, -1)
    } else if keyval == KEY_DOWN || keyval == KEY_SPACE {
        cycle_spec(v, 1)
    } else if 0x31 <= keyval <= 0x39 {
        select_row_spec(v, keyval - 0x31)
    } else if keyval == 0x30 {
        select_row_spec(v, 9)
    } else {
        None
    }
}

/// The candidate panel's surface.
#[derive(Clone, Debug)]
pub struct CandidateSurface {
    mode: CandidateSurfaceMode,
    rows: Vec<String>,
    selected_index: Option<usize>,
    display: Vec<CandidateDisplayEntry>,
    phrase_indices: Vec<usize>,
}

impl View for CandidateSurface {
    type V = SurfaceView;

    closed spec fn view(&self) -> SurfaceView {
        (self.mode, strs(self.rows@), self.selected_index, display_views(self.display@), self.phrase_indices@)
    }
}

/// The display entry of one phrase row.
fn phrase_display_entry(c: &PhraseCandidate, orig: usize) -> (e: CandidateDisplayEntry)
    ensures
        e@ == phrase_row_display(*c, orig as int),
{
    let mut inputs: Vec<Vec<char>> = Vec::new();
    for i in 0..c.segments.len()
        invariant
            inputs@.len() == i,
            i <= c.segments@.len(),
            forall|k: int| 0 <= k < i ==> #[trigger] inputs@[k]@ == c.segments@[k].input@,
    {
        inputs.push(chars_of(c.segments[i].input.as_str()));
    }
    assert(char_views(inputs@) =~= segment_inputs(*c));
    let sep = vec![' '];
    assert(sep@ =~= seq![' ']);
    let joined = join_chars(&inputs, sep.as_slice());
    let mut hints: Vec<String> = Vec::new();
    hints.push(string_from_chars(joined.as_slice()));
    assert(strs(hints@) =~= seq![join_with(segment_inputs(*c), seq![' '])]);
    CandidateDisplayEntry {
        output: c.text.clone(),
        recommended: orig == 0,
        roman_hints: hints,
        is_raw_fallback: false,
        from_model: false,
    }
}

impl CandidateSurface {
    /// The surface for a snapshot: whole phrases for a live segmented
    /// composition that is not editing one segment, the ordinary candidate
    /// list otherwise.
    pub fn from_snapshot(snapshot: &SessionSnapshot) -> (s: Self)
        ensures
            s@ == surface_of(*snapshot),
    {
        if snapshot.segmented_active && !snapshot.segment_edit_active {
            let pcs = &snapshot.phrase_candidates;
            let mut rows: Vec<String> = Vec::new();
            let mut display: Vec<CandidateDisplayEntry> = Vec::new();
            let mut phrase_indices: Vec<usize> = Vec::new();
            let mut selected_index: Option<usize> = None;
            for i in 0..pcs.len()
                invariant
                    pcs@ == snapshot.phrase_candidates@,
                    phrase_indices@ == kept_indices(pcs@, i as int),
                    rows@.len() == phrase_indices@.len(),
                    display@.len() == phrase_indices@.len(),
                    forall|j: int|
                        0 <= j < rows@.len() ==> #[trigger] rows@[j]@ == pcs@[phrase_indices@[j] as int].text@,
                    forall|j: int|
                        0 <= j < display@.len() ==> #[trigger] display@[j]@ == phrase_row_display(
                            pcs@[phrase_indices@[j] as int],
                            phrase_indices@[j] as int,
                        ),
                    selected_index == position_in(phrase_indices@, snapshot.selected_phrase_index),
            {
                let c = &pcs[i];
                if c.segments.len() >= 2 || c.from_model {
                    let ghost before = phrase_indices@;
                    if selected_index.is_none() && i == snapshot.selected_phrase_index {
                        selected_index = Some(phrase_indices.len());
                    }
                    rows.push(c.text.clone());
                    display.push(phrase_display_entry(c, i));
                    phrase_indices.push(i);
                    proof {
                        assert(phrase_indices@.drop_last() =~= before);
                    }
                }
            }
            assert(strs(rows@) =~= phrase_indices@.map_values(|k: usize| pcs@[k as int].text@));
            assert(display_views(display@) =~= phrase_indices@.map_values(
                |k: usize| phrase_row_display(pcs@[k as int], k as int),
            ));
            CandidateSurface {
                mode: CandidateSurfaceMode::Phrase,
                rows,
                selected_index,
                display,
                phrase_indices,
            }
        } else {
            let s = CandidateSurface {
                mode: if snapshot.segment_edit_active {
                    CandidateSurfaceMode::Segment
                } else {
                    CandidateSurfaceMode::Flat
                },
                rows: clone_strings(&snapshot.candidates),
                selected_index: snapshot.selected_index,
                display: clone_display(&snapshot.candidate_display),
                phrase_indices: Vec::new(),
            };
            assert(s.phrase_indices@ =~= Seq::<usize>::empty());
            s
        }
    }

    /// What the rows stand for.
    pub fn mode(&self) -> (m: CandidateSurfaceMode)
        ensures
            m == self@.0,
    {
        self.mode
    }

    /// The visible rows.
    pub fn rows(&self) -> (r: &[String])
        ensures
            strs(r@) == self@.1,
    {
        self.rows.as_slice()
    }

    /// The highlighted row.
    pub fn selected_index(&self) -> (i: Option<usize>)
        ensures
            i == self@.2,
    {
        self.selected_index
    }

    /// Display metadata of the rows.
    pub fn display(&self) -> (d: &[CandidateDisplayEntry])
        ensures
            display_views(d@) == self@.3,
    {
        self.display.as_slice()
    }

    /// The session command for choosing visible row `row`; only the phrase
    /// level overrides selection, and a row maps back to its session index.
    pub fn select_phrase_row(&self, row: usize) -> (c: Option<SessionCommand>)
        ensures
            c == select_row_spec(self@, row as int),
    {
        if self.mode == CandidateSurfaceMode::Phrase && row < self.phrase_indices.len() {
            Some(SessionCommand::SelectPhrase(self.phrase_indices[row]))
        } else {
            None
        }
    }

    /// The session command for moving the phrase selection `delta` rows,
    /// wrapping around the visible rows.
    pub fn cycle_phrase(&self, delta: isize) -> (c: Option<SessionCommand>)
        ensures
            c == cycle_spec(self@, delta as int),
    {
        if self.mode != CandidateSurfaceMode::Phrase || self.rows.len() == 0 {
            return None;
        }
        let n = self.rows.len();
        let current = match self.selected_index {
            Some(i) => i,
            None => 0,
        } % n;
        let next = wrap_index(current, n, delta);
        self.select_phrase_row(next)
    }

    /// The whole-phrase command for a candidate key; `None` delegates the key
    /// to the session unchanged.
    pub fn command_for_key(&self, keyval: u32) -> (c: Option<SessionCommand>)
        ensures
            c == key_command_spec(self@, keyval),
    {
        if keyval == KEY_UP {
            self.cycle_phrase(-1)
        } else if keyval == KEY_DOWN || keyval == KEY_SPACE {
            self.cycle_phrase(1)
        } else if 0x31 <= keyval && keyval <= 0x39 {
            self.select_phrase_row((keyval - 0x31) as usize)
        } else if keyval == 0x30 {
            self.select_phrase_row(9)
        } else {
            None
        }
    }
}

} // verus!
