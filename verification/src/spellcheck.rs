//! Advisory Khmer spelling review: the review state the editor shows, the
//! index arithmetic that keeps issues and segments aligned with the text
//! after a replacement, and the character-level helpers of the checker.
//!
//! Positions are character indices into the reviewed text.

use vstd::prelude::*;
use vstd::hash_map::StringHashMap;
use crate::checker::MAX_SPELL_ISSUES;
use crate::session::{clone_strings, strs};
use crate::text::{
    append_chars, chars_eq, chars_of, decimal, decimal_chars, string_from_chars, slice_to_vec,
};

verus! {

/// Where a review stands.
#[derive(Clone, Copy, Debug, PartialEq, Eq)]
pub enum SpellReviewStatus {
    Idle,
    Checking,
    Complete,
}

/// Whether a flagged span is a likely error or only a warning.
#[derive(Clone, Copy, Debug, PartialEq, Eq)]
pub enum SpellIssueKind {
    Error,
    Warning,
}

/// Whether the contextual error detector took part in a result.
#[derive(Clone, Copy, Debug, PartialEq, Eq)]
pub enum ContextDetectorStatus {
    NotChecked,
    Connected,
    Unavailable,
}

/// One flagged span `[start, end)` with the word found there and the
/// alternatives offered for it.
#[derive(Debug, PartialEq, Eq)]
pub struct SpellIssue {
    pub start: usize,
    pub end: usize,
    pub source: String,
    pub suggestions: Vec<String>,
    pub kind: SpellIssueKind,
    pub confidence_millis: Option<u16>,
}

/// One segmenter token span `[start, end)`.
#[derive(Clone, Copy, Debug, PartialEq, Eq)]
pub struct SpellSegment {
    pub start: usize,
    pub end: usize,
}

/// The outcome of one check of the text.
#[derive(Debug, PartialEq, Eq)]
pub struct SpellCheckResult {
    pub issues: Vec<SpellIssue>,
    pub segments: Vec<SpellSegment>,
    pub detector_status: ContextDetectorStatus,
}

/// The review the editor shows: its issues, the token segments, which issue
/// is active, whether its popover is open and which suggestion is chosen.
#[derive(Debug, PartialEq, Eq)]
pub struct SpellReview {
    pub status: SpellReviewStatus,
    pub issues: Vec<SpellIssue>,
    pub segments: Vec<SpellSegment>,
    pub active_index: usize,
    pub open_index: Option<usize>,
    pub choice_index: usize,
    pub detector_status: ContextDetectorStatus,
}

/// `index` moved by `delta`, kept within `0..=usize::MAX`.
pub open spec fn shifted(index: int, delta: int) -> int {
    if index + delta < 0 {
        0
    } else if index + delta > usize::MAX {
        usize::MAX as int
    } else {
        index + delta
    }
}

/// Moves `index` by `delta`, saturating at both ends of `usize`.
pub fn shift_index(index: usize, delta: isize) -> (r: usize)
    ensures
        r == shifted(index as int, delta as int),
{
    if delta < 0 {
        let amount: usize = if delta == isize::MIN {
            (isize::MAX as usize) + 1
        } else {
            (-delta) as usize
        };
        index.saturating_sub(amount)
    } else {
        index.saturating_add(delta as usize)
    }
}

/// Moves `index` up by `up` or down by `down` (one of them zero),
/// saturating; the same as `shift_index` with `delta = up - down`.
fn shift_by(index: usize, up: usize, down: usize) -> (r: usize)
    requires
        up == 0 || down == 0,
    ensures
        r == shifted(index as int, up - down),
{
    if down > 0 {
        index.saturating_sub(down)
    } else {
        index.saturating_add(up)
    }
}

/// Where the caret lands after `[replaced_start, replaced_end)` is replaced
/// by `replacement_len` characters: unchanged before the span, moved with
/// the text after it, and placed after the replacement inside it.
pub open spec fn caret_after(caret: int, replaced_start: int, replaced_end: int, replacement_len: int) -> int {
    if caret <= replaced_start {
        caret
    } else if caret >= replaced_end {
        let replaced_len = if replaced_end >= replaced_start {
            replaced_end - replaced_start
        } else {
            0
        };
        shifted(caret, replacement_len - replaced_len)
    } else {
        replaced_start + replacement_len
    }
}

/// The caret position after a replacement (see `caret_after`).
pub fn caret_after_replacement(
    caret: usize,
    replaced_start: usize,
    replaced_end: usize,
    replacement_len: usize,
) -> (r: usize)
    requires
        caret > replaced_start && caret < replaced_end ==> replaced_start + replacement_len <= usize::MAX,
    ensures
        r == caret_after(caret as int, replaced_start as int, replaced_end as int, replacement_len as int),
{
    if caret <= replaced_start {
        caret
    } else if caret >= replaced_end {
        let replaced_len = replaced_end.saturating_sub(replaced_start);
        if replacement_len >= replaced_len {
            shift_by(caret, replacement_len - replaced_len, 0)
        } else {
            shift_by(caret, 0, replaced_len - replacement_len)
        }
    } else {
        replaced_start + replacement_len
    }
}

/// Whether `[left_start, left_end)` and `[right_start, right_end)` share a
/// position.
pub open spec fn overlap(left_start: int, left_end: int, right_start: int, right_end: int) -> bool {
    left_start < right_end && right_start < left_end
}

/// Whether two spans overlap.
pub fn ranges_overlap(left_start: usize, left_end: usize, right_start: usize, right_end: usize) -> (r: bool)
    ensures
        r == overlap(left_start as int, left_end as int, right_start as int, right_end as int),
{
    left_start < right_end && right_start < left_end
}


/// Whether segment `g` shares a position with `[start, end)`.
pub open spec fn seg_overlaps(g: SpellSegment, start: int, end: int) -> bool {
    overlap(start, end, g.start as int, g.end as int)
}

/// The index of the first segment overlapping `[start, end)`.
pub open spec fn first_overlap(segs: Seq<SpellSegment>, start: int, end: int) -> Option<int>
    decreases segs.len(),
{
    if segs.len() == 0 {
        None
    } else if seg_overlaps(segs[0], start, end) {
        Some(0)
    } else {
        match first_overlap(segs.drop_first(), start, end) {
            Some(i) => Some(i + 1),
            None => None,
        }
    }
}

/// The index of the last segment overlapping `[start, end)`.
pub open spec fn last_overlap(segs: Seq<SpellSegment>, start: int, end: int) -> Option<int>
    decreases segs.len(),
{
    if segs.len() == 0 {
        None
    } else if seg_overlaps(segs.last(), start, end) {
        Some(segs.len() - 1)
    } else {
        last_overlap(segs.drop_last(), start, end)
    }
}

/// Segment `g` moved by `delta`.
pub open spec fn shifted_segment(g: SpellSegment, delta: int) -> SpellSegment {
    SpellSegment { start: shifted(g.start as int, delta) as usize, end: shifted(g.end as int, delta) as usize }
}

/// The segments after `[start, end)` was replaced by text `delta` characters
/// longer: the overlapping segments merge into one that ends where the
/// replacement ends, and every later segment moves by `delta`.
pub open spec fn segments_after(segs: Seq<SpellSegment>, start: int, end: int, delta: int) -> Seq<SpellSegment> {
    match (first_overlap(segs, start, end), last_overlap(segs, start, end)) {
        (Some(f), Some(l)) => segs.take(f) + seq![
            SpellSegment { start: segs[f].start, end: shifted(segs[l].end as int, delta) as usize },
        ] + segs.skip(l + 1).map_values(|g: SpellSegment| shifted_segment(g, delta)),
        _ => segs,
    }
}

pub proof fn lemma_first_overlap(segs: Seq<SpellSegment>, start: int, end: int, i: int)
    requires
        0 <= i <= segs.len(),
        forall|k: int| 0 <= k < i ==> !seg_overlaps(#[trigger] segs[k], start, end),
    ensures
        i < segs.len() && seg_overlaps(segs[i], start, end) ==> first_overlap(segs, start, end) == Some(i),
        i == segs.len() ==> first_overlap(segs, start, end) is None,
    decreases i,
{
    if i > 0 {
        lemma_first_overlap(segs.drop_first(), start, end, i - 1);
    }
}

pub proof fn lemma_last_overlap(segs: Seq<SpellSegment>, start: int, end: int, i: int)
    requires
        0 <= i <= segs.len(),
        forall|k: int| i <= k < segs.len() ==> !seg_overlaps(#[trigger] segs[k], start, end),
    ensures
        i > 0 && seg_overlaps(segs[i - 1], start, end) ==> last_overlap(segs, start, end) == Some(i - 1),
        i == 0 ==> last_overlap(segs, start, end) is None,
    decreases segs.len() - i,
{
    if i < segs.len() {
        lemma_last_overlap(segs.drop_last(), start, end, i);
        assert(segs.drop_last().len() == segs.len() - 1);
    } else if i > 0 {
    } else {
        if segs.len() > 0 {
            lemma_last_overlap(segs.drop_last(), start, end, 0);
        }
    }
}

/// Re-aligns `segments` after `[start, end)` was replaced by text that is
/// `up - down` characters longer (one of `up`, `down` zero).
fn realign_segments(segments: &mut Vec<SpellSegment>, start: usize, end: usize, up: usize, down: usize)
    requires
        up == 0 || down == 0,
    ensures
        final(segments)@ == segments_after(old(segments)@, start as int, end as int, up - down),
{
    let ghost segs = segments@;
    let n = segments.len();
    let mut f: usize = 0;
    while f < n && !(start < segments[f].end && segments[f].start < end)
        invariant
            f <= n,
            n == segments@.len(),
            segs == segments@,
            forall|k: int| 0 <= k < f ==> !seg_overlaps(#[trigger] segs[k], start as int, end as int),
        decreases n - f,
    {
        f = f + 1;
    }
    proof {
        lemma_first_overlap(segs, start as int, end as int, f as int);
    }
    if f == n {
        proof {
            lemma_last_overlap(segs, start as int, end as int, n as int);
        }
        return;
    }
    let mut l: usize = n;
    while l > f + 1 && !(start < segments[l - 1].end && segments[l - 1].start < end)
        invariant
            f < l <= n,
            n == segments@.len(),
            segs == segments@,
            seg_overlaps(segs[f as int], start as int, end as int),
            forall|k: int| l <= k < n ==> !seg_overlaps(#[trigger] segs[k], start as int, end as int),
        decreases l,
    {
        l = l - 1;
    }
    proof {
        lemma_last_overlap(segs, start as int, end as int, l as int);
    }
    let last = l - 1;
    let merged = SpellSegment { start: segments[f].start, end: shift_by(segments[last].end, up, down) };
    let mut out: Vec<SpellSegment> = Vec::new();
    let mut i: usize = 0;
    while i < f
        invariant
            i <= f < n,
            n == segments@.len(),
            segs == segments@,
            out@ == segs.take(i as int),
        decreases f - i,
    {
        out.push(segments[i]);
        i = i + 1;
        assert(out@ =~= segs.take(i as int));
    }
    out.push(merged);
    let ghost head = out@;
    let mut j: usize = last + 1;
    while j < n
        invariant
            last < n,
            last + 1 <= j <= n,
            n == segments@.len(),
            segs == segments@,
            up == 0 || down == 0,
            out@ == head + segs.subrange(last + 1, j as int).map_values(
                |g: SpellSegment| shifted_segment(g, up - down),
            ),
        decreases n - j,
    {
        let g = segments[j];
        out.push(SpellSegment { start: shift_by(g.start, up, down), end: shift_by(g.end, up, down) });
        j = j + 1;
        assert(out@ =~= head + segs.subrange(last + 1, j as int).map_values(
            |g: SpellSegment| shifted_segment(g, up - down),
        ));
    }
    assert(segs.subrange(last + 1, n as int) =~= segs.skip(last + 1));
    assert(out@ =~= segments_after(segs, start as int, end as int, up - down));
    *segments = out;
}

/// Re-aligns `segments` after `[start, end)` was replaced by text `delta`
/// characters longer (see `segments_after`).
pub fn update_segments_after_replacement(segments: &mut Vec<SpellSegment>, start: usize, end: usize, delta: isize)
    ensures
        final(segments)@ == segments_after(old(segments)@, start as int, end as int, delta as int),
{
    if delta < 0 {
        let down: usize = if delta == isize::MIN {
            (isize::MAX as usize) + 1
        } else {
            (-delta) as usize
        };
        realign_segments(segments, start, end, 0, down);
    } else {
        realign_segments(segments, start, end, delta as usize, 0);
    }
}


/// The smaller of two integers.
pub open spec fn min_int(a: int, b: int) -> int {
    if a <= b {
        a
    } else {
        b
    }
}

/// `text` with the characters `[start, end)` replaced by `replacement`; an
/// index past the end counts as the end.
pub open spec fn replaced_chars(text: Seq<char>, start: int, end: int, replacement: Seq<char>) -> Seq<char> {
    text.take(min_int(start, text.len() as int)) + replacement + text.skip(min_int(end, text.len() as int))
}

/// Replaces the characters `[start, end)` of `text` by `replacement`.
pub fn replace_char_range(text: &str, start: usize, end: usize, replacement: &str) -> (r: String)
    ensures
        r@ == replaced_chars(text@, start as int, end as int, replacement@),
{
    let chars = chars_of(text);
    let n = chars.len();
    let a = if start < n { start } else { n };
    let b = if end < n { end } else { n };
    let mut out = slice_to_vec(&chars, 0, a);
    let more = chars_of(replacement);
    append_chars(&mut out, &more);
    let tail = slice_to_vec(&chars, b, n);
    append_chars(&mut out, &tail);
    assert(chars@.subrange(0, a as int) =~= text@.take(a as int));
    assert(chars@.subrange(b as int, n as int) =~= text@.skip(b as int));
    string_from_chars(&out)
}

/// The characters of `text` from `start` for `end - start` characters (none
/// when `end <= start`), as far as the text reaches.
pub open spec fn sliced_chars(text: Seq<char>, start: int, end: int) -> Seq<char> {
    let a = min_int(start, text.len() as int);
    let b = if end > start {
        min_int(end, text.len() as int)
    } else {
        a
    };
    text.subrange(a, b)
}

/// The characters `[start, end)` of `text`, clipped to its length.
pub fn slice_char_range(text: &str, start: usize, end: usize) -> (r: String)
    ensures
        r@ == sliced_chars(text@, start as int, end as int),
{
    let chars = chars_of(text);
    let n = chars.len();
    let a = if start < n { start } else { n };
    let b = if end > start {
        if end < n { end } else { n }
    } else {
        a
    };
    let part = slice_to_vec(&chars, a, b);
    string_from_chars(&part)
}

/// The issues of `s` whose flagged word is not `w`, in order.
pub open spec fn issues_without_word(s: Seq<SpellIssue>, w: Seq<char>) -> Seq<SpellIssue>
    decreases s.len(),
{
    if s.len() == 0 {
        s
    } else {
        let rest = issues_without_word(s.drop_last(), w);
        if s.last().source@ == w {
            rest
        } else {
            rest.push(s.last())
        }
    }
}

/// Issue `i` moved by `delta` when it starts at or after `after`.
pub open spec fn moved_issue(i: SpellIssue, after: int, delta: int) -> SpellIssue {
    if i.start >= after {
        SpellIssue {
            start: shifted(i.start as int, delta) as usize,
            end: shifted(i.end as int, delta) as usize,
            source: i.source,
            suggestions: i.suggestions,
            kind: i.kind,
            confidence_millis: i.confidence_millis,
        }
    } else {
        i
    }
}

/// `a - 1` for a positive `a`, else 0 (`saturating_sub(1)`).
pub open spec fn less_one(a: int) -> int {
    if a > 0 {
        a - 1
    } else {
        0
    }
}

/// Whether a finished check's result is shown: only if the text is still
/// the one that was checked.
pub fn check_result_applies(text: &str, snapshot: &str) -> (b: bool)
    ensures
        b == (text@ == snapshot@),
{
    let a = chars_of(text);
    let c = chars_of(snapshot);
    chars_eq(a.as_slice(), c.as_slice())
}

impl SpellReview {
    /// A review that is waiting for the checker.
    pub fn checking() -> (r: Self)
        ensures
            r.status == SpellReviewStatus::Checking,
            r.issues@.len() == 0,
            r.segments@.len() == 0,
            r.active_index == 0,
            r.open_index is None,
            r.choice_index == 0,
            r.detector_status == ContextDetectorStatus::NotChecked,
    {
        SpellReview {
            status: SpellReviewStatus::Checking,
            issues: Vec::new(),
            segments: Vec::new(),
            active_index: 0,
            open_index: None,
            choice_index: 0,
            detector_status: ContextDetectorStatus::NotChecked,
        }
    }

    /// A finished review of `result`, with the first issue active and no
    /// popover open.
    pub fn complete(result: SpellCheckResult) -> (r: Self)
        ensures
            r.status == SpellReviewStatus::Complete,
            r.issues == result.issues,
            r.segments == result.segments,
            r.active_index == 0,
            r.open_index is None,
            r.choice_index == 0,
            r.detector_status == result.detector_status,
    {
        SpellReview {
            status: SpellReviewStatus::Complete,
            issues: result.issues,
            segments: result.segments,
            active_index: 0,
            open_index: None,
            choice_index: 0,
            detector_status: result.detector_status,
        }
    }

    /// Whether the result bar is shown: only for a finished review.
    pub fn result_bar_visible(&self) -> (b: bool)
        ensures
            b == (self.status == SpellReviewStatus::Complete),
    {
        match self.status {
            SpellReviewStatus::Complete => true,
            _ => false,
        }
    }

    /// Whether a clean review is cleared once the pause that shows it is
    /// over: only if the text is still the one that was checked and the
    /// review is still complete without issues.
    pub fn should_clear_after_confirmation(&self, text: &str, snapshot: &str) -> (b: bool)
        ensures
            b == (text@ == snapshot@ && self.status == SpellReviewStatus::Complete && self.issues@.len() == 0),
    {
        let complete = match self.status {
            SpellReviewStatus::Complete => true,
            _ => false,
        };
        complete && self.issues.len() == 0 && check_result_applies(text, snapshot)
    }

    /// Makes issue `index` (clamped to the last one) active, opening its
    /// popover when `open`; nothing happens without issues.
    pub fn select(&mut self, index: usize, open: bool)
        ensures
            final(self).status == old(self).status,
            final(self).issues == old(self).issues,
            final(self).segments == old(self).segments,
            final(self).detector_status == old(self).detector_status,
            old(self).issues@.len() == 0 ==> final(self).active_index == old(self).active_index
                && final(self).open_index == old(self).open_index && final(self).choice_index
                == old(self).choice_index,
            old(self).issues@.len() > 0 ==> {
                &&& final(self).active_index == min_int(index as int, old(self).issues@.len() - 1)
                &&& final(self).open_index == (if open {
                    Some(final(self).active_index)
                } else {
                    None
                })
                &&& final(self).choice_index == 0
            },
    {
        if self.issues.len() == 0 {
            return;
        }
        let last = self.issues.len() - 1;
        self.active_index = if index < last { index } else { last };
        self.open_index = if open { Some(self.active_index) } else { None };
        self.choice_index = 0;
    }

    /// Closes the popover and resets the chosen suggestion.
    pub fn dismiss_interaction(&mut self)
        ensures
            final(self).status == old(self).status,
            final(self).issues == old(self).issues,
            final(self).segments == old(self).segments,
            final(self).detector_status == old(self).detector_status,
            final(self).active_index == old(self).active_index,
            final(self).open_index is None,
            final(self).choice_index == 0,
    {
        self.open_index = None;
        self.choice_index = 0;
    }

    /// Moves the active issue one step back (`delta < 0`) or forward,
    /// wrapping around, and opens its popover; nothing happens without
    /// issues.
    pub fn move_selection(&mut self, delta: isize)
        requires
            old(self).issues@.len() > 0 ==> old(self).active_index + old(self).issues@.len() <= usize::MAX,
        ensures
            final(self).status == old(self).status,
            final(self).issues == old(self).issues,
            final(self).segments == old(self).segments,
            final(self).detector_status == old(self).detector_status,
            old(self).issues@.len() == 0 ==> final(self).active_index == old(self).active_index
                && final(self).open_index == old(self).open_index && final(self).choice_index
                == old(self).choice_index,
            old(self).issues@.len() > 0 ==> {
                &&& final(self).active_index == (if delta < 0 {
                    (old(self).active_index + old(self).issues@.len() - 1) % (old(self).issues@.len() as int)
                } else {
                    (old(self).active_index + 1) % (old(self).issues@.len() as int)
                })
                &&& final(self).open_index == Some(final(self).active_index)
                &&& final(self).choice_index == 0
            },
    {
        let len = self.issues.len();
        if len == 0 {
            return;
        }
        self.active_index = if delta < 0 {
            (self.active_index + len - 1) % len
        } else {
            (self.active_index + 1) % len
        };
        self.open_index = Some(self.active_index);
        self.choice_index = 0;
    }

    /// Chooses suggestion `index` (clamped to the last one) of the active
    /// issue; nothing happens when no issue is active.
    pub fn choose_suggestion(&mut self, index: usize)
        ensures
            final(self).status == old(self).status,
            final(self).issues == old(self).issues,
            final(self).segments == old(self).segments,
            final(self).detector_status == old(self).detector_status,
            final(self).active_index == old(self).active_index,
            final(self).open_index == old(self).open_index,
            old(self).active_index >= old(self).issues@.len() ==> final(self).choice_index
                == old(self).choice_index,
            old(self).active_index < old(self).issues@.len() ==> final(self).choice_index
                == min_int(
                index as int,
                less_one(old(self).issues@[old(self).active_index as int].suggestions@.len() as int),
            ),
    {
        if self.active_index >= self.issues.len() {
            return;
        }
        let n = self.issues[self.active_index].suggestions.len();
        let last = if n > 0 { n - 1 } else { 0 };
        self.choice_index = if index < last { index } else { last };
    }

    /// Drops issue `index`, keeps the active index in range and closes the
    /// popover; nothing happens for an index past the end.
    pub fn ignore(&mut self, index: usize)
        ensures
            final(self).status == old(self).status,
            final(self).segments == old(self).segments,
            final(self).detector_status == old(self).detector_status,
            index >= old(self).issues@.len() ==> *final(self) == *old(self),
            index < old(self).issues@.len() ==> {
                &&& final(self).issues@ == old(self).issues@.remove(index as int)
                &&& final(self).active_index == min_int(
                    old(self).active_index as int,
                    less_one(old(self).issues@.len() - 1),
                )
                &&& final(self).open_index is None
                &&& final(self).choice_index == 0
            },
    {
        if index >= self.issues.len() {
            return;
        }
        let _removed = self.issues.remove(index);
        let n = self.issues.len();
        let last = if n > 0 { n - 1 } else { 0 };
        self.active_index = if self.active_index < last { self.active_index } else { last };
        self.open_index = None;
        self.choice_index = 0;
    }

    /// Drops every issue whose flagged word is `word`, keeps the active
    /// index in range and closes the popover.
    pub fn ignore_word(&mut self, word: &str)
        ensures
            final(self).status == old(self).status,
            final(self).segments == old(self).segments,
            final(self).detector_status == old(self).detector_status,
            final(self).issues@ == issues_without_word(old(self).issues@, word@),
            final(self).active_index == min_int(
                old(self).active_index as int,
                less_one(final(self).issues@.len() as int),
            ),
            final(self).open_index is None,
            final(self).choice_index == 0,
    {
        let w = chars_of(word);
        let mut old_issues: Vec<SpellIssue> = Vec::new();
        std::mem::swap(&mut old_issues, &mut self.issues);
        let ghost all = old_issues@;
        let mut kept: Vec<SpellIssue> = Vec::new();
        for issue in it: old_issues
            invariant
                all == it.seq(),
                kept@ == issues_without_word(all.take(it.index() as int), w@),
        {
            let ghost k = it.index();
            assert(all.take(k + 1).drop_last() =~= all.take(k as int));
            assert(all.take(k + 1).last() == issue);
            let src = chars_of(issue.source.as_str());
            if !chars_eq(&src, &w) {
                kept.push(issue);
            }
        }
        assert(all.take(all.len() as int) =~= all);
        self.issues = kept;
        let n = self.issues.len();
        let last = if n > 0 { n - 1 } else { 0 };
        self.active_index = if self.active_index < last { self.active_index } else { last };
        self.open_index = None;
        self.choice_index = 0;
    }

    /// Accepts `replacement` for issue `index`: returns the new text and the
    /// caret after the replacement, drops the issue, moves the later issues
    /// and the segments by the change in length, keeps the active index in
    /// range and closes the popover. Returns `None`, changing nothing, for an
    /// index past the end.
    pub fn accept(&mut self, index: usize, replacement: &str, text: &str) -> (r: Option<(String, usize)>)
        requires
            index < old(self).issues@.len() ==> old(self).issues@[index as int].start + replacement@.len()
                <= usize::MAX,
        ensures
            index >= old(self).issues@.len() ==> r is None && *final(self) == *old(self),
            index < old(self).issues@.len() ==> {
                let a = old(self).issues@[index as int];
                let old_len = if a.end >= a.start {
                    a.end - a.start
                } else {
                    0
                };
                let delta = replacement@.len() - old_len;
                &&& r matches Some((t, c)) && t@ == replaced_chars(
                    text@,
                    a.start as int,
                    a.end as int,
                    replacement@,
                ) && c == a.start + replacement@.len()
                &&& final(self).issues@ == old(self).issues@.remove(index as int).map_values(
                    |i: SpellIssue| moved_issue(i, a.end as int, delta),
                )
                &&& final(self).segments@ == segments_after(
                    old(self).segments@,
                    a.start as int,
                    a.end as int,
                    delta,
                )
                &&& final(self).status == old(self).status
                &&& final(self).detector_status == old(self).detector_status
                &&& final(self).active_index == min_int(
                    old(self).active_index as int,
                    less_one(old(self).issues@.len() - 1),
                )
                &&& final(self).open_index is None
                &&& final(self).choice_index == 0
            },
    {
        if index >= self.issues.len() {
            return None;
        }
        let start = self.issues[index].start;
        let end = self.issues[index].end;
        let new_text = replace_char_range(text, start, end, replacement);
        let old_len = end.saturating_sub(start);
        let new_len = chars_of(replacement).len();
        let (up, down) = if new_len >= old_len {
            (new_len - old_len, 0)
        } else {
            (0, old_len - new_len)
        };
        let ghost delta: int = new_len - old_len;
        let _accepted = self.issues.remove(index);
        let mut rest: Vec<SpellIssue> = Vec::new();
        std::mem::swap(&mut rest, &mut self.issues);
        let ghost all = rest@;
        let mut moved: Vec<SpellIssue> = Vec::new();
        for issue in it: rest
            invariant
                all == it.seq(),
                up == 0 || down == 0,
                delta == up - down,
                moved@ == all.take(it.index() as int).map_values(
                    |i: SpellIssue| moved_issue(i, end as int, delta),
                ),
        {
            let ghost k = it.index();
            assert(all.take(k + 1) =~= all.take(k as int).push(issue));
            if issue.start >= end {
                let SpellIssue { start: s0, end: e0, source, suggestions, kind, confidence_millis } = issue;
                moved.push(
                    SpellIssue {
                        start: shift_by(s0, up, down),
                        end: shift_by(e0, up, down),
                        source,
                        suggestions,
                        kind,
                        confidence_millis,
                    },
                );
            } else {
                moved.push(issue);
            }
            assert(moved@ =~= all.take(k + 1).map_values(|i: SpellIssue| moved_issue(i, end as int, delta)));
        }
        assert(all.take(all.len() as int) =~= all);
        self.issues = moved;
        realign_segments(&mut self.segments, start, end, up, down);
        let n = self.issues.len();
        let last = if n > 0 { n - 1 } else { 0 };
        self.active_index = if self.active_index < last { self.active_index } else { last };
        self.open_index = None;
        self.choice_index = 0;
        Some((new_text, start + new_len))
    }
}


/// Characters that end a sentence: Khmer khan and bariyoosan, `?`, `!` and
/// newline.
pub open spec fn sentence_end(c: char) -> bool {
    c == '\u{17D4}' || c == '\u{17D5}' || c == '?' || c == '!' || c == '\n'
}

/// Whether `c` ends a sentence.
pub fn is_sentence_ending(c: char) -> (b: bool)
    ensures
        b == sentence_end(c),
{
    c == '\u{17D4}' || c == '\u{17D5}' || c == '?' || c == '!' || c == '\n'
}

/// Khmer letters, vowel signs and diacritics: U+1780 to U+17D3.
pub open spec fn khmer_word_char(c: char) -> bool {
    0x1780 <= (c as int) <= 0x17D3
}

/// Whether `c` can be part of a Khmer word.
pub fn is_khmer_word_char(c: char) -> (b: bool)
    ensures
        b == khmer_word_char(c),
{
    let u = c as u32;
    0x1780 <= u && u <= 0x17D3
}

/// Whether `input` is a non-empty run of Khmer word characters.
pub fn is_khmer_word(input: &str) -> (b: bool)
    ensures
        b == (input@.len() > 0 && forall|i: int| 0 <= i < input@.len() ==> khmer_word_char(#[trigger] input@[i])),
{
    let chars = chars_of(input);
    if chars.len() == 0 {
        return false;
    }
    let mut i: usize = 0;
    while i < chars.len()
        invariant
            i <= chars@.len(),
            chars@ == input@,
            forall|k: int| 0 <= k < i ==> khmer_word_char(#[trigger] input@[k]),
        decreases chars@.len() - i,
    {
        if !is_khmer_word_char(chars[i]) {
            return false;
        }
        i = i + 1;
    }
    true
}

/// The maximal runs of Khmer word characters in `s`, each with the index of
/// its first character: a Khmer character extends the run that ends just
/// before it, or starts a new one.
pub open spec fn khmer_runs_of(s: Seq<char>) -> Seq<(int, Seq<char>)>
    decreases s.len(),
{
    if s.len() == 0 {
        Seq::empty()
    } else {
        let p = khmer_runs_of(s.drop_last());
        let c = s.last();
        let i = s.len() - 1;
        if !khmer_word_char(c) {
            p
        } else if p.len() > 0 && p.last().0 + p.last().1.len() == i {
            p.update(p.len() - 1, (p.last().0, p.last().1.push(c)))
        } else {
            p.push((i, seq![c]))
        }
    }
}

/// The runs `[start, end)` of `s` as (start, characters) pairs.
pub open spec fn runs_view(s: Seq<char>, pairs: Seq<(usize, usize)>) -> Seq<(int, Seq<char>)> {
    pairs.map_values(|p: (usize, usize)| (p.0 as int, s.subrange(p.0 as int, p.1 as int)))
}

/// `out` lists the Khmer runs of `t`: each run's start and characters.
pub open spec fn runs_match<'a>(out: Seq<(usize, &'a str)>, t: Seq<char>) -> bool {
    &&& out.len() == khmer_runs_of(t).len()
    &&& forall|k: int| 0 <= k < out.len() ==> #[trigger] out[k].0 as int == khmer_runs_of(t)[k].0 && out[k].1@
        == khmer_runs_of(t)[k].1
}

/// The Khmer runs of `text`, each with the character index it starts at.
pub fn khmer_runs<'a>(text: &'a str) -> (out: Vec<(usize, &'a str)>)
    ensures
        runs_match(out@, text@),
{
    let chars = chars_of(text);
    let n = chars.len();
    let ghost s = chars@;
    let mut pairs: Vec<(usize, usize)> = Vec::new();
    let mut open: Option<usize> = None;
    let mut i: usize = 0;
    while i < n
        invariant
            i <= n,
            n == s.len(),
            s == chars@,
            pairs@.len() == 0 || pairs@.last().1 <= i,
            forall|k: int| 0 <= k < pairs@.len() ==> (#[trigger] pairs@[k]).0 <= pairs@[k].1 <= i,
            open matches Some(st) ==> st < i && (pairs@.len() == 0 || pairs@.last().1 < st),
            open is None ==> (pairs@.len() == 0 || pairs@.last().1 < i || i == 0),
            khmer_runs_of(s.take(i as int)) == runs_view(s, pairs@) + (match open {
                Some(st) => seq![(st as int, s.subrange(st as int, i as int))],
                None => Seq::empty(),
            }),
        decreases n - i,
    {
        let c = chars[i];
        let k = is_khmer_word_char(c);
        let ghost pre = s.take(i as int);
        assert(s.take(i + 1).drop_last() =~= pre);
        assert(s.take(i + 1).last() == c);
        let ghost before_pairs = pairs@;
        match open {
            Some(st) => {
                if !k {
                    pairs.push((st, i));
                    open = None;
                    assert(runs_view(s, pairs@) =~= runs_view(s, before_pairs).push(
                        (st as int, s.subrange(st as int, i as int)),
                    ));
                    assert(khmer_runs_of(s.take(i + 1)) =~= runs_view(s, pairs@));
                } else {
                    assert(s.subrange(st as int, i + 1) =~= s.subrange(st as int, i as int).push(c));
                    assert(khmer_runs_of(s.take(i + 1)) =~= runs_view(s, pairs@) + seq![
                        (st as int, s.subrange(st as int, i + 1)),
                    ]);
                }
            },
            None => {
                if k {
                    open = Some(i);
                    proof {
                        let p = khmer_runs_of(pre);
                        assert(p =~= runs_view(s, pairs@));
                        if p.len() > 0 {
                            assert(p.last().0 + p.last().1.len() == pairs@.last().1);
                        }
                    }
                    assert(s.subrange(i as int, i + 1) =~= seq![c]);
                    assert(khmer_runs_of(s.take(i + 1)) =~= runs_view(s, pairs@) + seq![
                        (i as int, s.subrange(i as int, i + 1)),
                    ]);
                } else {
                    assert(khmer_runs_of(s.take(i + 1)) =~= runs_view(s, pairs@));
                }
            },
        }
        i = i + 1;
    }
    if let Some(st) = open {
        let ghost before_pairs = pairs@;
        pairs.push((st, n));
        assert(runs_view(s, pairs@) =~= runs_view(s, before_pairs).push(
            (st as int, s.subrange(st as int, n as int)),
        ));
    }
    assert(s.take(n as int) =~= s);
    let ghost runs = runs_view(s, pairs@);
    assert(runs == khmer_runs_of(s));
    let mut out: Vec<(usize, &'a str)> = Vec::new();
    let mut j: usize = 0;
    while j < pairs.len()
        invariant
            j <= pairs@.len(),
            runs == runs_view(s, pairs@),
            s == text@,
            forall|k: int| 0 <= k < pairs@.len() ==> (#[trigger] pairs@[k]).0 <= pairs@[k].1 <= s.len(),
            out@.len() == j,
            forall|k: int| 0 <= k < j ==> #[trigger] out@[k].0 as int == runs[k].0 && out@[k].1@ == runs[k].1,
        decreases pairs@.len() - j,
    {
        let (a, b) = pairs[j];
        let piece = text.substring_char(a, b);
        out.push((a, piece));
        j = j + 1;
    }
    assert(runs_match(out@, text@));
    out
}

/// Whether `word[j..i)` is a usable piece of a compound: two to sixteen
/// characters and a known word.
pub open spec fn known_piece(word: Seq<char>, known: Map<Seq<char>, usize>, j: int, i: int) -> bool {
    2 <= i - j <= 16 && known.contains_key(word.subrange(j, i))
}

/// Whether the first `i` characters of `word` split into known pieces.
pub open spec fn coverable(word: Seq<char>, known: Map<Seq<char>, usize>, i: int) -> bool
    decreases i,
{
    if i <= 0 {
        i == 0
    } else {
        exists|j: int| 0 <= j < i && #[trigger] known_piece(word, known, j, i) && coverable(word, known, j)
    }
}

/// Whether `word` is a compound of two or more known words of two to sixteen
/// characters: it has at least four characters, splits into known pieces,
/// and is not itself a single such piece.
pub open spec fn compound_of_known(word: Seq<char>, known: Map<Seq<char>, usize>) -> bool {
    &&& word.len() >= 4
    &&& coverable(word, known, word.len() as int)
    &&& !known_piece(word, known, 0, word.len() as int)
}

/// Whether `word` decomposes into two or more known words (see
/// `compound_of_known`).
pub fn decomposes_into_known(word: &str, frequencies: &StringHashMap<usize>) -> (b: bool)
    ensures
        b == compound_of_known(word@, frequencies@),
{
    let chars = chars_of(word);
    let n = chars.len();
    if n < 4 {
        return false;
    }
    let ghost w = word@;
    let ghost known = frequencies@;
    let mut reach: Vec<bool> = Vec::new();
    reach.push(true);
    reach.push(false);
    while reach.len() <= n
        invariant
            2 <= reach@.len() <= n + 1,
            chars@ == w,
            n == w.len(),
            known == frequencies@,
            forall|k: int| 0 <= k < reach@.len() ==> #[trigger] reach@[k] == coverable(w, known, k),
        decreases n + 1 - reach@.len(),
    {
        let i = reach.len();
        let mut found = false;
        let lowest: usize = if i > 16 { i - 16 } else { 0 };
        let mut j: usize = lowest;
        while j <= i - 2
            invariant
                lowest <= j <= i - 1,
                2 <= i <= n,
                i == reach@.len(),
                chars@ == w,
                n == w.len(),
                known == frequencies@,
                lowest == (if i > 16 { i - 16 } else { 0 }),
                forall|k: int| 0 <= k < i ==> #[trigger] reach@[k] == coverable(w, known, k),
                found == exists|q: int| lowest <= q < j && #[trigger] known_piece(w, known, q, i as int)
                    && coverable(w, known, q),
            decreases i - j,
        {
            if reach[j] {
                let part = slice_to_vec(&chars, j, i);
                let piece = string_from_chars(&part);
                if frequencies.contains_key(piece.as_str()) {
                    found = true;
                    assert(known_piece(w, known, j as int, i as int));
                }
            }
            j = j + 1;
        }
        proof {
            assert(coverable(w, known, i as int) == found) by {
                if coverable(w, known, i as int) {
                    let q = choose|q: int| 0 <= q < i && #[trigger] known_piece(w, known, q, i as int) && coverable(w, known, q);
                    assert(lowest <= q <= i - 2);
                }
            }
        }
        reach.push(found);
    }
    let whole = frequencies.contains_key(word);
    assert(w.subrange(0, n as int) =~= w);
    reach[n] && !(n <= 16 && whole)
}


/// The length of the longest common prefix of `a` and `b`.
pub open spec fn common_prefix_len(a: Seq<char>, b: Seq<char>) -> nat
    decreases a.len(),
{
    if a.len() == 0 || b.len() == 0 || a[0] != b[0] {
        0
    } else {
        1 + common_prefix_len(a.drop_first(), b.drop_first())
    }
}

proof fn lemma_common_prefix(a: Seq<char>, b: Seq<char>, i: int)
    requires
        0 <= i <= a.len(),
        i <= b.len(),
        a.take(i) == b.take(i),
    ensures
        (i == a.len() || i == b.len() || a[i] != b[i]) ==> common_prefix_len(a, b) == i,
    decreases i,
{
    if i > 0 {
        assert(a[0] == a.take(i)[0]);
        assert(b[0] == b.take(i)[0]);
        assert(a.drop_first().take(i - 1) =~= a.take(i).drop_first());
        assert(b.drop_first().take(i - 1) =~= b.take(i).drop_first());
        lemma_common_prefix(a.drop_first(), b.drop_first(), i - 1);
    }
}

/// Whether the first difference between `source` and `candidate` falls in
/// the hotspot `[hotspot_start, hotspot_end)`; for a candidate longer than
/// the source an insertion right at the hotspot's end also counts.
pub open spec fn touches_hotspot(source: Seq<char>, candidate: Seq<char>, hotspot_start: int, hotspot_end: int) -> bool {
    let prefix = common_prefix_len(source, candidate) as int;
    if candidate.len() > source.len() {
        hotspot_start <= prefix && prefix <= hotspot_end
    } else {
        hotspot_start <= prefix && prefix < hotspot_end
    }
}

/// Whether the edit from `source` to `candidate` touches the hotspot.
pub fn edit_touches_hotspot(source: &str, candidate: &str, hotspot_start: usize, hotspot_end: usize) -> (b: bool)
    ensures
        b == touches_hotspot(source@, candidate@, hotspot_start as int, hotspot_end as int),
{
    let a = chars_of(source);
    let c = chars_of(candidate);
    let mut prefix: usize = 0;
    while prefix < a.len() && prefix < c.len() && a[prefix] == c[prefix]
        invariant
            prefix <= a@.len(),
            prefix <= c@.len(),
            a@.take(prefix as int) == c@.take(prefix as int),
        decreases a@.len() - prefix,
    {
        assert(a@.take(prefix + 1) =~= a@.take(prefix as int).push(a@[prefix as int]));
        assert(c@.take(prefix + 1) =~= c@.take(prefix as int).push(c@[prefix as int]));
        prefix = prefix + 1;
    }
    proof {
        lemma_common_prefix(a@, c@, prefix as int);
    }
    if c.len() > a.len() {
        hotspot_start <= prefix && prefix <= hotspot_end
    } else {
        hotspot_start <= prefix && prefix < hotspot_end
    }
}

/// The issue kind for a checker API label: `likely-typo` is an error,
/// anything else a warning.
pub fn api_kind(kind: &str) -> (k: SpellIssueKind)
    ensures
        k == (if kind@ == "likely-typo"@ {
            SpellIssueKind::Error
        } else {
            SpellIssueKind::Warning
        }),
{
    let given = chars_of(kind);
    let typo = chars_of("likely-typo");
    if chars_eq(&given, &typo) {
        SpellIssueKind::Error
    } else {
        SpellIssueKind::Warning
    }
}

/// One issue the checker API reports: its range, the word there, its
/// label, and its suggestions (a ranked list, or a single one from older
/// replies).
#[derive(Clone, Debug, PartialEq, Eq)]
pub struct ApiIssue {
    pub start: usize,
    pub end: usize,
    pub word: String,
    pub kind: String,
    pub suggestion: Option<String>,
    pub suggestions: Vec<String>,
}

/// The suggestions shown for an API issue: the ranked list, or the single
/// suggestion when the list is empty.
pub open spec fn api_suggestions(i: ApiIssue) -> Seq<Seq<char>> {
    if i.suggestions@.len() == 0 {
        match i.suggestion {
            Some(s) => seq![s@],
            None => Seq::empty(),
        }
    } else {
        i.suggestions@.map_values(|s: String| s@)
    }
}

/// `r` is the issue shown for API issue `a`.
pub open spec fn api_issue_shown(r: SpellIssue, a: ApiIssue) -> bool {
    &&& r.start == a.start
    &&& r.end == a.end
    &&& r.source@ == a.word@
    &&& r.suggestions@.map_values(|s: String| s@) == api_suggestions(a)
    &&& r.kind == (if a.kind@ == "likely-typo"@ {
        SpellIssueKind::Error
    } else {
        SpellIssueKind::Warning
    })
    &&& r.confidence_millis is None
}

/// The result of a check done by the checker API: its first issues up to
/// the issue limit, in order, with no segments, the detector connected.
pub fn api_check_result(issues: &Vec<ApiIssue>) -> (r: SpellCheckResult)
    ensures
        r.issues@.len() == if issues@.len() > MAX_SPELL_ISSUES {
            MAX_SPELL_ISSUES as nat
        } else {
            issues@.len()
        },
        forall|k: int| 0 <= k < r.issues@.len() ==> api_issue_shown(#[trigger] r.issues@[k], issues@[k]),
        r.segments@.len() == 0,
        r.detector_status == ContextDetectorStatus::Connected,
{
    let n = if issues.len() > MAX_SPELL_ISSUES { MAX_SPELL_ISSUES } else { issues.len() };
    let mut out: Vec<SpellIssue> = Vec::new();
    for k in 0..n
        invariant
            n <= issues@.len(),
            out@.len() == k,
            forall|q: int| 0 <= q < out@.len() ==> api_issue_shown(#[trigger] out@[q], issues@[q]),
    {
        let a = &issues[k];
        let kind = api_kind(a.kind.as_str());
        let shown = if a.suggestions.len() == 0 {
            let mut one: Vec<String> = Vec::new();
            match &a.suggestion {
                Some(s) => one.push(s.clone()),
                None => {},
            }
            assert(one@.map_values(|s: String| s@) =~= api_suggestions(*a));
            one
        } else {
            let copy = clone_strings(&a.suggestions);
            assert(copy@.map_values(|s: String| s@) =~= strs(copy@));
            assert(a.suggestions@.map_values(|s: String| s@) =~= strs(a.suggestions@));
            copy
        };
        let ghost prev = out@;
        out.push(
            SpellIssue {
                start: a.start,
                end: a.end,
                source: a.word.clone(),
                suggestions: shown,
                kind,
                confidence_millis: None,
            },
        );
        assert forall|q: int| 0 <= q < out@.len() implies api_issue_shown(#[trigger] out@[q], issues@[q]) by {
            if q < prev.len() {
                assert(out@[q] == prev[q]);
            }
        }
    }
    SpellCheckResult { issues: out, segments: Vec::new(), detector_status: ContextDetectorStatus::Connected }
}

/// The service URL: the configured one when there is one, else
/// `protocol//host:port path` on the page's host, an IPv6 host in brackets.
pub open spec fn service_endpoint(
    configured: Option<Seq<char>>,
    protocol: Seq<char>,
    hostname: Seq<char>,
    port: nat,
    path: Seq<char>,
) -> Seq<char> {
    match configured {
        Some(e) => e,
        None => {
            let host = if hostname.contains(':') {
                seq!['['] + hostname + seq![']']
            } else {
                hostname
            };
            protocol + seq!['/', '/'] + host + seq![':'] + decimal(port) + path
        },
    }
}

/// The URL of a local service, as the browser build resolves it.
pub fn resolve_service_endpoint(
    configured: Option<&str>,
    protocol: &str,
    hostname: &str,
    port: u16,
    path: &str,
) -> (url: String)
    ensures
        url@ == service_endpoint(
            match configured {
                Some(e) => Some(e@),
                None => None,
            },
            protocol@,
            hostname@,
            port as nat,
            path@,
        ),
{
    if let Some(endpoint) = configured {
        let e = chars_of(endpoint);
        return string_from_chars(&e);
    }
    let host = chars_of(hostname);
    let colon = crate::text::find_char(&host, 0, host.len(), ':');
    proof {
        assert(host@.subrange(0, host@.len() as int) =~= host@);
        if host@.contains(':') {
            let k = choose|k: int| 0 <= k < host@.len() && host@[k] == ':';
            crate::text::lemma_first_index_some(host@, ':', k);
        }
    }
    let mut out = chars_of(protocol);
    out.push('/');
    out.push('/');
    if colon.is_some() {
        out.push('[');
        append_chars(&mut out, &host);
        out.push(']');
    } else {
        append_chars(&mut out, &host);
    }
    out.push(':');
    let digits = decimal_chars(port as usize);
    append_chars(&mut out, &digits);
    let p = chars_of(path);
    append_chars(&mut out, &p);
    let ghost cfg: Option<Seq<char>> = None;
    assert(out@ =~= service_endpoint(cfg, protocol@, hostname@, port as nat, path@));
    string_from_chars(&out)
}

/// `result` marked as checked without the contextual detector.
pub fn mark_detector_unavailable(result: SpellCheckResult) -> (r: SpellCheckResult)
    ensures
        r.issues == result.issues,
        r.segments == result.segments,
        r.detector_status == ContextDetectorStatus::Unavailable,
{
    SpellCheckResult {
        issues: result.issues,
        segments: result.segments,
        detector_status: ContextDetectorStatus::Unavailable,
    }
}

/// A piece of the rendered text: plain (`None`) or the `k`th marked span
/// (`Some(k)`), with its characters.
pub type PieceView = (Option<usize>, Seq<char>);

/// The pieces of `text` up to the end of the first `k` spans, with the
/// position reached: before each span the plain text since the last one
/// (when there is any), then the span itself.
pub open spec fn pieces_upto(text: Seq<char>, spans: Seq<(usize, usize)>, k: int) -> (Seq<PieceView>, int)
    decreases k,
{
    if k <= 0 {
        (Seq::empty(), 0)
    } else {
        let (p, c) = pieces_upto(text, spans, k - 1);
        let s = spans[k - 1];
        let gap: Seq<PieceView> = if s.0 > c {
            seq![(None, sliced_chars(text, c, s.0 as int))]
        } else {
            Seq::empty()
        };
        (p + gap + seq![(Some((k - 1) as usize), sliced_chars(text, s.0 as int, s.1 as int))], s.1 as int)
    }
}

/// The pieces of `text` around the spans, in order, with the plain text
/// after the last span (when there is any).
pub open spec fn text_pieces(text: Seq<char>, spans: Seq<(usize, usize)>) -> Seq<PieceView> {
    let (p, c) = pieces_upto(text, spans, spans.len() as int);
    if c < text.len() {
        p.push((None, text.skip(c)))
    } else {
        p
    }
}

/// Splits `text` into plain pieces and marked spans (see `text_pieces`).
pub fn split_pieces(text: &str, spans: &Vec<(usize, usize)>) -> (out: Vec<(Option<usize>, String)>)
    ensures
        out@.map_values(|x: (Option<usize>, String)| (x.0, x.1@)) == text_pieces(text@, spans@),
{
    let n = chars_of(text).len();
    let mut out: Vec<(Option<usize>, String)> = Vec::new();
    let mut cursor: usize = 0;
    for k in 0..spans.len()
        invariant
            n == text@.len(),
            out@.map_values(|x: (Option<usize>, String)| (x.0, x.1@)) == pieces_upto(text@, spans@, k as int).0,
            cursor as int == pieces_upto(text@, spans@, k as int).1,
    {
        let ghost before = out@.map_values(|x: (Option<usize>, String)| (x.0, x.1@));
        let (start, end) = spans[k];
        if start > cursor {
            out.push((None, slice_char_range(text, cursor, start)));
        }
        let ghost mid = out@.map_values(|x: (Option<usize>, String)| (x.0, x.1@));
        out.push((Some(k), slice_char_range(text, start, end)));
        proof {
            let now = out@.map_values(|x: (Option<usize>, String)| (x.0, x.1@));
            assert(now =~= mid.push((Some(k), sliced_chars(text@, start as int, end as int))));
            if start > cursor {
                assert(mid =~= before.push((None, sliced_chars(text@, cursor as int, start as int))));
            } else {
                assert(mid =~= before);
            }
        }
        cursor = end;
    }
    if cursor < n {
        let chars = chars_of(text);
        let rest = slice_to_vec(chars.as_slice(), cursor, n);
        assert(rest@ =~= text@.skip(cursor as int));
        let ghost before = out@.map_values(|x: (Option<usize>, String)| (x.0, x.1@));
        out.push((None, string_from_chars(rest.as_slice())));
        assert(out@.map_values(|x: (Option<usize>, String)| (x.0, x.1@)) =~= before.push((None, text@.skip(cursor as int))));
    }
    out
}

/// A piece of the text with its spelling issues marked.
#[derive(Debug, PartialEq, Eq)]
pub enum SpellPiece {
    Plain(String),
    Issue { index: usize, text: String },
}

/// A piece of the text with its segments marked.
#[derive(Debug, PartialEq, Eq)]
pub enum SegmentPiece {
    Plain(String),
    Segment { index: usize, text: String },
}

/// The view of a spell piece.
pub open spec fn spell_piece_view(p: SpellPiece) -> PieceView {
    match p {
        SpellPiece::Plain(t) => (None, t@),
        SpellPiece::Issue { index, text } => (Some(index), text@),
    }
}

/// The view of a segment piece.
pub open spec fn segment_piece_view(p: SegmentPiece) -> PieceView {
    match p {
        SegmentPiece::Plain(t) => (None, t@),
        SegmentPiece::Segment { index, text } => (Some(index), text@),
    }
}

/// The issue ranges, in order.
pub open spec fn issue_spans(issues: Seq<SpellIssue>) -> Seq<(usize, usize)> {
    issues.map_values(|i: SpellIssue| (i.start, i.end))
}

/// The text split around its spelling issues, for the underlined editor
/// view (see `text_pieces`).
pub fn spell_pieces(text: &str, issues: &[SpellIssue]) -> (out: Vec<SpellPiece>)
    ensures
        out@.map_values(|p: SpellPiece| spell_piece_view(p)) == text_pieces(text@, issue_spans(issues@)),
{
    let mut spans: Vec<(usize, usize)> = Vec::new();
    for k in 0..issues.len()
        invariant
            spans@ == issue_spans(issues@.take(k as int)),
    {
        spans.push((issues[k].start, issues[k].end));
        assert(spans@ =~= issue_spans(issues@.take(k + 1)));
    }
    assert(issues@.take(issues@.len() as int) =~= issues@);
    let raw = split_pieces(text, &spans);
    let ghost rv = raw@.map_values(|x: (Option<usize>, String)| (x.0, x.1@));
    let mut out: Vec<SpellPiece> = Vec::new();
    for x in it: raw
        invariant
            rv == it.seq().map_values(|x: (Option<usize>, String)| (x.0, x.1@)),
            out@.map_values(|p: SpellPiece| spell_piece_view(p)) == rv.take(it.index() as int),
    {
        let ghost k = it.index();
        let ghost before = out@.map_values(|p: SpellPiece| spell_piece_view(p));
        let (index, text) = x;
        let piece = match index {
            Some(i) => SpellPiece::Issue { index: i, text },
            None => SpellPiece::Plain(text),
        };
        let ghost pv = spell_piece_view(piece);
        out.push(piece);
        assert(out@.map_values(|p: SpellPiece| spell_piece_view(p)) =~= before.push(pv));
        assert(rv.take(k + 1) =~= rv.take(k as int).push(rv[k as int]));
    }
    assert(rv.take(rv.len() as int) =~= rv);
    out
}

/// The segment ranges, in order.
pub open spec fn segment_spans(segments: Seq<SpellSegment>) -> Seq<(usize, usize)> {
    segments.map_values(|g: SpellSegment| (g.start, g.end))
}

/// The text split around its segments, for the segment overlay (see
/// `text_pieces`).
pub fn segment_pieces(text: &str, segments: &[SpellSegment]) -> (out: Vec<SegmentPiece>)
    ensures
        out@.map_values(|p: SegmentPiece| segment_piece_view(p)) == text_pieces(text@, segment_spans(segments@)),
{
    let mut spans: Vec<(usize, usize)> = Vec::new();
    for k in 0..segments.len()
        invariant
            spans@ == segment_spans(segments@.take(k as int)),
    {
        spans.push((segments[k].start, segments[k].end));
        assert(spans@ =~= segment_spans(segments@.take(k + 1)));
    }
    assert(segments@.take(segments@.len() as int) =~= segments@);
    let raw = split_pieces(text, &spans);
    let ghost rv = raw@.map_values(|x: (Option<usize>, String)| (x.0, x.1@));
    let mut out: Vec<SegmentPiece> = Vec::new();
    for x in it: raw
        invariant
            rv == it.seq().map_values(|x: (Option<usize>, String)| (x.0, x.1@)),
            out@.map_values(|p: SegmentPiece| segment_piece_view(p)) == rv.take(it.index() as int),
    {
        let ghost k = it.index();
        let ghost before = out@.map_values(|p: SegmentPiece| segment_piece_view(p));
        let (index, text) = x;
        let piece = match index {
            Some(i) => SegmentPiece::Segment { index: i, text },
            None => SegmentPiece::Plain(text),
        };
        let ghost pv = segment_piece_view(piece);
        out.push(piece);
        assert(out@.map_values(|p: SegmentPiece| segment_piece_view(p)) =~= before.push(pv));
        assert(rv.take(k + 1) =~= rv.take(k as int).push(rv[k as int]));
    }
    assert(rv.take(rv.len() as int) =~= rv);
    out
}

} // verus!
