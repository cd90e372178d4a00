//! The session records the platform adapters read: key events, cursor
//! rectangles, commands, and the snapshot/result pair a session reports after
//! every call. Adapters only project these into their own render records, so
//! the records here hold exactly the fields those projections read.

use vstd::prelude::*;

verus! {

/// A key event in the shared session's keysym contract.
#[derive(Clone, Copy, Debug, Default, PartialEq, Eq, Structural)]
pub struct NativeKeyEvent {
    pub keyval: u32,
    pub keycode: u32,
    pub state: u32,
}

/// Caret rectangle in screen coordinates.
#[derive(Clone, Copy, Debug, Default, PartialEq, Eq, Structural)]
pub struct CursorLocation {
    pub x: i32,
    pub y: i32,
    pub width: i32,
    pub height: i32,
}

/// The commands an adapter hands to the shared session.
#[derive(Clone, Copy, Debug, PartialEq, Eq, Structural)]
pub enum SessionCommand {
    Enable,
    Disable,
    FocusIn,
    FocusOut,
    Reset,
    ProcessKeyEvent(NativeKeyEvent),
    SetCursorLocation(CursorLocation),
    SelectPhrase(usize),
}

/// One chunk of the segmented preview.
#[derive(Clone, Debug, Default, PartialEq, Eq)]
pub struct SegmentPreviewEntry {
    pub output: String,
    pub input: String,
    pub focused: bool,
}

impl View for SegmentPreviewEntry {
    type V = (Seq<char>, Seq<char>, bool);

    open spec fn view(&self) -> (Seq<char>, Seq<char>, bool) {
        (self.output@, self.input@, self.focused)
    }
}

/// One segment of a whole-phrase reading.
#[derive(Clone, Debug, Default, PartialEq, Eq)]
pub struct PhraseSegment {
    pub input: String,
    pub output: String,
    pub roman_hints: Vec<String>,
}

impl View for PhraseSegment {
    type V = (Seq<char>, Seq<char>, Seq<Seq<char>>);

    open spec fn view(&self) -> (Seq<char>, Seq<char>, Seq<Seq<char>>) {
        (self.input@, self.output@, strs(self.roman_hints@))
    }
}

/// A whole-composition reading with its own segmentation.
#[derive(Clone, Debug, Default, PartialEq, Eq)]
pub struct PhraseCandidate {
    pub text: String,
    pub segments: Vec<PhraseSegment>,
    pub from_model: bool,
    pub lexicon_verified: bool,
}

/// Display metadata for one candidate row.
#[derive(Clone, Debug, Default, PartialEq, Eq)]
pub struct CandidateDisplayEntry {
    pub output: String,
    pub recommended: bool,
    pub roman_hints: Vec<String>,
    pub is_raw_fallback: bool,
    pub from_model: bool,
}

impl View for CandidateDisplayEntry {
    type V = (Seq<char>, bool, Seq<Seq<char>>, bool, bool);

    open spec fn view(&self) -> (Seq<char>, bool, Seq<Seq<char>>, bool, bool) {
        (self.output@, self.recommended, strs(self.roman_hints@), self.is_raw_fallback, self.from_model)
    }
}

/// What a session shows after a call.
#[derive(Clone, Debug, Default)]
pub struct SessionSnapshot {
    pub preedit: String,
    pub raw_preedit: String,
    pub candidates: Vec<String>,
    pub selected_index: Option<usize>,
    pub candidate_display: Vec<CandidateDisplayEntry>,
    pub segment_preview: Vec<SegmentPreviewEntry>,
    pub phrase_candidates: Vec<PhraseCandidate>,
    pub selected_phrase_index: usize,
    pub segmented_active: bool,
    pub segment_edit_active: bool,
    pub focused_segment_index: Option<usize>,
    pub segment_edit_index: Option<usize>,
    pub cursor_location: CursorLocation,
}

/// What a session reports about one call.
#[derive(Clone, Debug, Default)]
pub struct SessionResult {
    pub consumed: bool,
    pub commit_text: Option<String>,
}

/// The character sequences of a list of strings.
pub open spec fn strs(v: Seq<String>) -> Seq<Seq<char>> {
    v.map_values(|s: String| s@)
}

/// The character sequence of an optional string.
pub open spec fn opt_str(o: Option<String>) -> Option<Seq<char>> {
    match o {
        Some(s) => Some(s@),
        None => None,
    }
}

/// An optional index widened to `u64`.
pub open spec fn widened(o: Option<usize>) -> Option<u64> {
    match o {
        Some(i) => Some(i as u64),
        None => None,
    }
}

/// Copies a list of strings.
pub fn clone_strings(v: &Vec<String>) -> (out: Vec<String>)
    ensures
        strs(out@) == strs(v@),
{
    let mut out: Vec<String> = Vec::new();
    for i in 0..v.len()
        invariant
            out@.len() == i,
            i <= v@.len(),
            forall|j: int| 0 <= j < i ==> #[trigger] out@[j]@ == v@[j]@,
    {
        out.push(v[i].clone());
    }
    assert(strs(out@) =~= strs(v@));
    out
}

/// The views of a list of display entries.
pub open spec fn display_views(v: Seq<CandidateDisplayEntry>) -> Seq<(Seq<char>, bool, Seq<Seq<char>>, bool, bool)> {
    v.map_values(|e: CandidateDisplayEntry| e@)
}

/// Copies one display entry.
pub fn clone_display_entry(e: &CandidateDisplayEntry) -> (out: CandidateDisplayEntry)
    ensures
        out@ == e@,
{
    CandidateDisplayEntry {
        output: e.output.clone(),
        recommended: e.recommended,
        roman_hints: clone_strings(&e.roman_hints),
        is_raw_fallback: e.is_raw_fallback,
        from_model: e.from_model,
    }
}

/// Copies a list of display entries.
pub fn clone_display(v: &Vec<CandidateDisplayEntry>) -> (out: Vec<CandidateDisplayEntry>)
    ensures
        display_views(out@) == display_views(v@),
{
    let mut out: Vec<CandidateDisplayEntry> = Vec::new();
    for i in 0..v.len()
        invariant
            out@.len() == i,
            i <= v@.len(),
            forall|j: int| 0 <= j < i ==> #[trigger] out@[j]@ == v@[j]@,
    {
        out.push(clone_display_entry(&v[i]));
    }
    assert(display_views(out@) =~= display_views(v@));
    out
}

/// Copies an optional string.
pub fn clone_opt_string(o: &Option<String>) -> (out: Option<String>)
    ensures
        opt_str(out) == opt_str(*o),
{
    match o {
        Some(s) => Some(s.clone()),
        None => None,
    }
}

/// Widens an optional index to `u64`.
pub fn widen_index(o: Option<usize>) -> (out: Option<u64>)
    ensures
        out == widened(o),
{
    match o {
        Some(i) => Some(i as u64),
        None => None,
    }
}

} // verus!
