//! Folding the contextual error detector's hotspots into a spell-check
//! result.
//!
//! The detector flags character spans it finds suspicious, each with a
//! confidence. Overlapping hotspots are merged; each merged hotspot is
//! matched against the token segments it touches. A dictionary repair that
//! edits the hotspot makes it an error with suggestions; a known word
//! covering it, or the touched segments themselves, make it a warning; a
//! weak hotspot with no repair is dropped when a stronger one sits in the
//! same sentence.

use vstd::prelude::*;
use crate::checker::{stable_sort, lemma_insert_stable_at, lemma_insert_stable_len, lemma_stable_sort_members, member, insert_stable};
use symspell_rs::SymSpell;
use crate::checker::{
    LexiconEntry, target_frequencies, build_dictionary, known_words, MAX_SPELL_ISSUES, lookup_all, dictionary_answer, LookupVerbosity, checker_dictionary, symspell_words, LOOKUP_MAX_RESULTS, WordFrequencies, MAX_WINDOW_TOKENS, MAX_SUGGESTIONS_PER_ISSUE, SuggestionRec, SuggView, sugg_views, dedup_terms,
    dedup_suggestions, sat_mul, str_views, suggestion_terms, all_near, lemma_dedup_terms_near, osa_distance, caseless_khmer,
};
use crate::spellcheck::{
    SpellIssue, SpellIssueKind, SpellCheckResult, ContextDetectorStatus, first_overlap, last_overlap, seg_overlaps,
    overlap, ranges_overlap, slice_char_range, lemma_first_overlap, lemma_last_overlap, sentence_end, is_sentence_ending, sliced_chars, SpellSegment, touches_hotspot, edit_touches_hotspot,
};
use crate::text::{chars_of, slice_to_vec, string_from_chars, chars_le, chars_le_exec, chars_eq};

verus! {

/// One span `[start, end)` the detector flags, with its confidence in
/// thousandths (rounded) and whether that confidence is under the warning
/// threshold of one half.
#[derive(Clone, Copy, Debug, PartialEq, Eq)]
pub struct DetectorSpan {
    pub start: usize,
    pub end: usize,
    pub confidence_millis: u16,
    pub below_warning: bool,
}

/// Span `a` starts strictly before `b`.
pub open spec fn span_start_order() -> spec_fn(DetectorSpan, DetectorSpan) -> bool {
    |a: DetectorSpan, b: DetectorSpan| a.start < b.start
}

/// `a` extended by `b`, which starts within it: the later end, the higher
/// confidence, and below the warning threshold only if both are.
pub open spec fn joined_span(a: DetectorSpan, b: DetectorSpan) -> DetectorSpan {
    DetectorSpan {
        start: a.start,
        end: if b.end > a.end { b.end } else { a.end },
        confidence_millis: if b.confidence_millis > a.confidence_millis {
            b.confidence_millis
        } else {
            a.confidence_millis
        },
        below_warning: a.below_warning && b.below_warning,
    }
}

/// Spans sorted by start, each joined into the one before it when it
/// starts no later than that one ends.
pub open spec fn merge_sorted(s: Seq<DetectorSpan>) -> Seq<DetectorSpan>
    decreases s.len(),
{
    if s.len() == 0 {
        s
    } else {
        let m = merge_sorted(s.drop_last());
        let x = s.last();
        if m.len() > 0 && x.start <= m.last().end {
            m.update(m.len() - 1, joined_span(m.last(), x))
        } else {
            m.push(x)
        }
    }
}

/// The hotspots of a set of detections: sorted stably by start, then
/// merged where they touch.
pub open spec fn merged_spans(ds: Seq<DetectorSpan>) -> Seq<DetectorSpan> {
    merge_sorted(stable_sort(ds, span_start_order()))
}

/// Sorts spans stably by start.
fn sort_spans_by_start(v: Vec<DetectorSpan>) -> (out: Vec<DetectorSpan>)
    ensures
        out@ == stable_sort(v@, span_start_order()),
{
    let ghost input = v@;
    let mut out: Vec<DetectorSpan> = Vec::new();
    assert(out@ =~= stable_sort(input.take(0), span_start_order()));
    for x in it: v
        invariant
            it.seq() == input,
            out@ == stable_sort(input.take(it.index() as int), span_start_order()),
    {
        let ghost k = it.index();
        assert(x == input[k as int]);
        let mut p: usize = 0;
        while p < out.len() && !(x.start < out[p].start)
            invariant
                p <= out@.len(),
                forall|q: int| 0 <= q < p ==> !(x.start < (#[trigger] out@[q]).start),
            decreases out@.len() - p,
        {
            p = p + 1;
        }
        proof {
            lemma_insert_stable_at(out@, x, span_start_order(), p as int);
            assert(input.take(k + 1).drop_last() =~= input.take(k as int));
            assert(input.take(k + 1).last() == x);
        }
        out.insert(p, x);
    }
    assert(input.take(input.len() as int) =~= input);
    out
}

/// Merges the detector's spans into hotspots (see `merged_spans`).
pub fn merge_detector_spans(detections: &[DetectorSpan]) -> (merged: Vec<DetectorSpan>)
    ensures
        merged@ == merged_spans(detections@),
{
    let mut copy: Vec<DetectorSpan> = Vec::new();
    for i in 0..detections.len()
        invariant
            copy@ == detections@.take(i as int),
    {
        copy.push(detections[i]);
        assert(copy@ =~= detections@.take(i + 1));
    }
    assert(copy@ =~= detections@);
    let sorted = sort_spans_by_start(copy);
    let ghost s = sorted@;
    let mut merged: Vec<DetectorSpan> = Vec::new();
    assert(merged@ =~= merge_sorted(s.take(0)));
    for i in 0..sorted.len()
        invariant
            s == sorted@,
            merged@ == merge_sorted(s.take(i as int)),
    {
        let span = sorted[i];
        assert(s.take(i + 1).drop_last() =~= s.take(i as int));
        assert(s.take(i + 1).last() == span);
        let n = merged.len();
        if n > 0 && span.start <= merged[n - 1].end {
            let prev = merged[n - 1];
            let joined = DetectorSpan {
                start: prev.start,
                end: if span.end > prev.end { span.end } else { prev.end },
                confidence_millis: if span.confidence_millis > prev.confidence_millis {
                    span.confidence_millis
                } else {
                    prev.confidence_millis
                },
                below_warning: prev.below_warning && span.below_warning,
            };
            merged.set(n - 1, joined);
        } else {
            merged.push(span);
        }
    }
    assert(s.take(s.len() as int) =~= s);
    merged
}

/// Where the sentence holding position `k` starts: just after the last
/// sentence-ending character before `k`, or at 0.
pub open spec fn sentence_start_before(t: Seq<char>, k: int) -> int
    decreases k,
{
    if k <= 0 {
        0
    } else if sentence_end(t[k - 1]) {
        k
    } else {
        sentence_start_before(t, k - 1)
    }
}

/// Where the sentence holding position `k` ends: just after the first
/// sentence-ending character at or after `k`, or at the end of the text.
pub open spec fn sentence_end_from(t: Seq<char>, k: int) -> int
    decreases t.len() - k,
{
    if k >= t.len() {
        t.len() as int
    } else if sentence_end(t[k]) {
        k + 1
    } else {
        sentence_end_from(t, k + 1)
    }
}

/// The lesser of two integers.
pub open spec fn min_of(a: int, b: int) -> int {
    if a < b {
        a
    } else {
        b
    }
}

/// Whether a detection at or above the warning threshold starts in the
/// sentence around `hotspot`.
pub open spec fn stronger_in_sentence(t: Seq<char>, hotspot: DetectorSpan, ds: Seq<DetectorSpan>) -> bool {
    let a = sentence_start_before(t, min_of(hotspot.start as int, t.len() as int));
    let b = sentence_end_from(t, min_of(hotspot.end as int, t.len() as int));
    exists|i: int| 0 <= i < ds.len() && !(#[trigger] ds[i]).below_warning && a <= ds[i].start && ds[i].start < b
}

/// Whether the sentence around `hotspot` holds a stronger detection (see
/// `stronger_in_sentence`).
pub fn sentence_has_stronger_detection(text: &str, hotspot: &DetectorSpan, detections: &[DetectorSpan]) -> (b:
    bool)
    ensures
        b == stronger_in_sentence(text@, *hotspot, detections@),
{
    let chars = chars_of(text);
    let n = chars.len();
    let lim = if hotspot.start < n { hotspot.start } else { n };
    let mut a = lim;
    while a > 0 && !is_sentence_ending(chars[a - 1])
        invariant
            a <= lim <= n,
            n == chars@.len(),
            chars@ == text@,
            sentence_start_before(text@, lim as int) == sentence_start_before(text@, a as int),
        decreases a,
    {
        a = a - 1;
    }
    let from = if hotspot.end < n { hotspot.end } else { n };
    let mut b = from;
    while b < n && !is_sentence_ending(chars[b])
        invariant
            from <= b <= n,
            n == chars@.len(),
            chars@ == text@,
            sentence_end_from(text@, from as int) == sentence_end_from(text@, b as int),
        decreases n - b,
    {
        b = b + 1;
    }
    let end = if b < n { b + 1 } else { n };
    let ghost sa = sentence_start_before(text@, lim as int);
    let ghost sb = sentence_end_from(text@, from as int);
    assert(sa == a);
    assert(sb == end);
    let mut found = false;
    for i in 0..detections.len()
        invariant
            sa == a,
            sb == end,
            found == exists|q: int|
                0 <= q < i && !(#[trigger] detections@[q]).below_warning && sa <= detections@[q].start
                    && detections@[q].start < sb,
    {
        let d = detections[i];
        if !d.below_warning && a <= d.start && d.start < end {
            found = true;
        }
    }
    found
}

/// Shortest window the model path looks up, in characters.
pub const MODEL_MIN_SOURCE_CHARS: usize = 2;

/// A stretch of text examined around a hotspot: its character range, its
/// text, whether it joins several segments, and the width of its widest
/// segment.
#[derive(Clone, Debug)]
pub struct HotspotWindow {
    pub start: usize,
    pub end: usize,
    pub source: String,
    pub joined_segments: bool,
    pub longest_component: usize,
}

/// The view of a window: start, end, text, joins segments, widest segment.
pub type WindowView = (usize, usize, Seq<char>, bool, usize);

impl View for HotspotWindow {
    type V = WindowView;

    open spec fn view(&self) -> WindowView {
        (self.start, self.end, self.source@, self.joined_segments, self.longest_component)
    }
}

/// The views of a list of windows.
pub open spec fn window_views(v: Seq<HotspotWindow>) -> Seq<WindowView> {
    v.map_values(|w: HotspotWindow| w@)
}

/// `a - b`, or 0 when `b` is larger.
pub open spec fn sat_sub(a: int, b: int) -> int {
    if a >= b {
        a - b
    } else {
        0
    }
}

/// Segments `s..e` follow each other with no gap.
pub open spec fn contiguous(segs: Seq<SpellSegment>, s: int, e: int) -> bool {
    forall|k: int| s <= k && k + 1 < e ==> #[trigger] segs[k].end == segs[k + 1].start
}

/// The width of the widest of segments `s..e`.
pub open spec fn longest_component(segs: Seq<SpellSegment>, s: int, e: int) -> int
    decreases e - s,
{
    if e <= s {
        0
    } else {
        let r = longest_component(segs, s, e - 1);
        let w = sat_sub(segs[e - 1].end as int, segs[e - 1].start as int);
        if w > r {
            w
        } else {
            r
        }
    }
}

/// The window made of segments `s..e`.
pub open spec fn segment_window(text: Seq<char>, segs: Seq<SpellSegment>, s: int, e: int) -> WindowView {
    let start = segs[s].start;
    let end = segs[e - 1].end;
    (start, end, sliced_chars(text, start as int, end as int), e - s > 1, longest_component(segs, s, e) as usize)
}

/// Segments `s..e` make a window worth looking at: at most four of them,
/// with no gap, covering at least two characters.
pub open spec fn segment_window_ok(text: Seq<char>, segs: Seq<SpellSegment>, s: int, e: int) -> bool {
    &&& e - s <= MAX_WINDOW_TOKENS
    &&& contiguous(segs, s, e)
    &&& sliced_chars(text, segs[s].start as int, segs[e - 1].end as int).len() >= MODEL_MIN_SOURCE_CHARS
}

/// The windows starting at segment `s` and ending after segments `e..=le`,
/// in that order.
pub open spec fn row_windows(text: Seq<char>, segs: Seq<SpellSegment>, s: int, e: int, le: int) -> Seq<WindowView>
    decreases le + 1 - e,
{
    if e > le {
        Seq::empty()
    } else {
        let rest = row_windows(text, segs, s, e + 1, le);
        if segment_window_ok(text, segs, s, e) {
            seq![segment_window(text, segs, s, e)] + rest
        } else {
            rest
        }
    }
}

/// The windows starting at segments `s..=first`, row by row.
pub open spec fn rows_from(text: Seq<char>, segs: Seq<SpellSegment>, s: int, first: int, last: int, le: int) -> Seq<
    WindowView,
>
    decreases first + 1 - s,
{
    if s > first {
        Seq::empty()
    } else {
        row_windows(text, segs, s, last + 1, le) + rows_from(text, segs, s + 1, first, last, le)
    }
}

/// The segment windows around segments `first..=last`: starting up to
/// three segments before `first` and ending up to four after `last`,
/// ordered by start and then by end.
pub open spec fn segment_windows(text: Seq<char>, segs: Seq<SpellSegment>, first: int, last: int) -> Seq<WindowView> {
    let fs = if first >= MAX_WINDOW_TOKENS - 1 {
        first - (MAX_WINDOW_TOKENS - 1)
    } else {
        0
    };
    let le = min_of(last + MAX_WINDOW_TOKENS, segs.len() as int);
    rows_from(text, segs, fs, first, last, le)
}

/// The characters `[start, end)` of `chars`, clipped to its length, with
/// their count.
fn window_source(chars: &Vec<char>, start: usize, end: usize) -> (r: (String, usize))
    ensures
        r.0@ == sliced_chars(chars@, start as int, end as int),
        r.1 == r.0@.len(),
{
    let n = chars.len();
    let a = if start < n { start } else { n };
    let b = if end > start {
        if end < n { end } else { n }
    } else {
        a
    };
    let part = slice_to_vec(chars.as_slice(), a, b);
    let count = part.len();
    (string_from_chars(&part), count)
}

/// Whether segments `s..e` follow each other with no gap.
fn contiguous_exec(segs: &[SpellSegment], s: usize, e: usize) -> (b: bool)
    requires
        s < e <= segs@.len(),
    ensures
        b == contiguous(segs@, s as int, e as int),
{
    let mut k = s;
    while k + 1 < e
        invariant
            s <= k < e <= segs@.len(),
            forall|q: int| s <= q < k ==> #[trigger] segs@[q].end == segs@[q + 1].start,
        decreases e - k,
    {
        if segs[k].end != segs[k + 1].start {
            return false;
        }
        k = k + 1;
    }
    true
}

/// The width of the widest of segments `s..e`.
fn longest_exec(segs: &[SpellSegment], s: usize, e: usize) -> (w: usize)
    requires
        s <= e <= segs@.len(),
    ensures
        w == longest_component(segs@, s as int, e as int),
{
    let mut best: usize = 0;
    let mut k = s;
    while k < e
        invariant
            s <= k <= e <= segs@.len(),
            best == longest_component(segs@, s as int, k as int),
        decreases e - k,
    {
        let w = segs[k].end.saturating_sub(segs[k].start);
        if w > best {
            best = w;
        }
        k = k + 1;
    }
    best
}

/// The segment windows around segments `first..=last` (see
/// `segment_windows`).
fn collect_segment_windows(chars: &Vec<char>, segs: &[SpellSegment], first: usize, last: usize) -> (out: Vec<
    HotspotWindow,
>)
    requires
        first <= last < segs@.len(),
    ensures
        window_views(out@) == segment_windows(chars@, segs@, first as int, last as int),
{
    let fs = first.saturating_sub(MAX_WINDOW_TOKENS - 1);
    let le = if segs.len() - last > MAX_WINDOW_TOKENS { last + MAX_WINDOW_TOKENS } else { segs.len() };
    let ghost t = chars@;
    let ghost sg = segs@;
    let ghost full = segment_windows(t, sg, first as int, last as int);
    let mut out: Vec<HotspotWindow> = Vec::new();
    assert(window_views(out@) + rows_from(t, sg, fs as int, first as int, last as int, le as int) =~= full);
    for i in 0..(first - fs + 1)
        invariant
            fs <= first <= last < le <= sg.len(),
            le <= last + MAX_WINDOW_TOKENS,
            first - fs <= MAX_WINDOW_TOKENS - 1,
            t == chars@,
            sg == segs@,
            window_views(out@) + rows_from(t, sg, fs + i, first as int, last as int, le as int) == full,
    {
        let s = fs + i;
        let ghost base = window_views(out@);
        assert(base + row_windows(t, sg, s as int, last + 1, le as int) + rows_from(
            t,
            sg,
            s + 1,
            first as int,
            last as int,
            le as int,
        ) =~= full);
        for j in 0..(le - last)
            invariant
                fs <= s <= first <= last < le <= sg.len(),
                le <= last + MAX_WINDOW_TOKENS,
                t == chars@,
                sg == segs@,
                window_views(out@) + row_windows(t, sg, s as int, last + 1 + j, le as int) + rows_from(
                    t,
                    sg,
                    s + 1,
                    first as int,
                    last as int,
                    le as int,
                ) == full,
        {
            let e = last + 1 + j;
            let ghost before = window_views(out@);
            let ghost rest = row_windows(t, sg, s as int, e + 1, le as int);
            let ghost tail = rows_from(t, sg, s + 1, first as int, last as int, le as int);
            if e - s <= MAX_WINDOW_TOKENS && contiguous_exec(segs, s, e) {
                let start = segs[s].start;
                let end = segs[e - 1].end;
                let (source, count) = window_source(chars, start, end);
                if count >= MODEL_MIN_SOURCE_CHARS {
                    let longest = longest_exec(segs, s, e);
                    let w = HotspotWindow { start, end, source, joined_segments: e - s > 1, longest_component: longest };
                    assert(w@ == segment_window(t, sg, s as int, e as int));
                    out.push(w);
                    assert(window_views(out@) =~= before.push(w@));
                    assert(window_views(out@) + rest + tail =~= before + (seq![w@] + rest) + tail);
                } else {
                    assert(before + rest + tail =~= before + row_windows(t, sg, s as int, e as int, le as int) + tail);
                }
            } else {
                assert(before + rest + tail =~= before + row_windows(t, sg, s as int, e as int, le as int) + tail);
            }
        }
        assert(row_windows(t, sg, s as int, last + 1 + (le - last), le as int) =~= Seq::<WindowView>::empty());
        assert(window_views(out@) + Seq::<WindowView>::empty() =~= window_views(out@));
    }
    assert(rows_from(t, sg, fs + (first - fs + 1), first as int, last as int, le as int) =~= Seq::<
        WindowView,
    >::empty());
    assert(window_views(out@) + Seq::<WindowView>::empty() =~= window_views(out@));
    out
}

/// The windows of `ws` whose text is a known word, in order.
pub open spec fn known_windows(ws: Seq<WindowView>, known: Map<Seq<char>, usize>) -> Seq<WindowView>
    decreases ws.len(),
{
    if ws.len() == 0 {
        ws
    } else {
        let p = known_windows(ws.drop_last(), known);
        if known.contains_key(ws.last().2) {
            p.push(ws.last())
        } else {
            p
        }
    }
}

/// The width of a window in characters (none when it would end before it
/// starts, which segments that each start before they end never give).
pub open spec fn window_width(w: WindowView) -> int {
    sat_sub(w.1 as int, w.0 as int)
}

/// The first of the narrowest windows of `ws`.
pub open spec fn narrowest(ws: Seq<WindowView>) -> Option<WindowView>
    decreases ws.len(),
{
    if ws.len() == 0 {
        None
    } else {
        match narrowest(ws.drop_last()) {
            Some(b) => if window_width(ws.last()) < window_width(b) {
                Some(ws.last())
            } else {
                Some(b)
            },
            None => Some(ws.last()),
        }
    }
}

/// The range of the narrowest known word made of segments around
/// `first..=last` (see `segment_windows`), the first such in window order.
pub open spec fn known_span(
    text: Seq<char>,
    segs: Seq<SpellSegment>,
    first: int,
    last: int,
    known: Map<Seq<char>, usize>,
) -> Option<(usize, usize)> {
    match narrowest(known_windows(segment_windows(text, segs, first, last), known)) {
        Some(w) => Some((w.0, w.1)),
        None => None,
    }
}

/// The narrowest known word that segments around the hotspot's segments
/// `first_segment..=last_segment` make up (see `known_span`).
pub fn smallest_known_covering_span(
    text: &str,
    segments: &[SpellSegment],
    first_segment: usize,
    last_segment: usize,
    frequencies: &WordFrequencies,
) -> (r: Option<(usize, usize)>)
    requires
        first_segment <= last_segment < segments@.len(),
    ensures
        r == known_span(text@, segments@, first_segment as int, last_segment as int, frequencies@),
{
    let chars = chars_of(text);
    let ws = collect_segment_windows(&chars, segments, first_segment, last_segment);
    let ghost wv = window_views(ws@);
    let ghost known = frequencies@;
    let mut best: Option<(usize, usize)> = None;
    assert(wv.take(0) =~= Seq::<WindowView>::empty());
    for k in 0..ws.len()
        invariant
            wv == window_views(ws@),
            known == frequencies@,
            match narrowest(known_windows(wv.take(k as int), known)) {
                Some(w) => best == Some((w.0, w.1)),
                None => best is None,
            },
    {
        let w = &ws[k];
        assert(wv.take(k + 1).drop_last() =~= wv.take(k as int));
        assert(wv.take(k + 1).last() == w@);
        if frequencies.contains(w.source.as_str()) {
            let ghost kw = known_windows(wv.take(k as int), known);
            assert(known_windows(wv.take(k + 1), known) == kw.push(w@));
            assert(kw.push(w@).drop_last() =~= kw);
            let width = w.end.saturating_sub(w.start);
            match best {
                Some((bs, be)) => {
                    if width < be.saturating_sub(bs) {
                        best = Some((w.start, w.end));
                    }
                },
                None => {
                    best = Some((w.start, w.end));
                },
            }
        }
    }
    assert(wv.take(ws@.len() as int) =~= wv);
    best
}

/// Edit distance of a model-guided lookup.
pub const MODEL_MAX_EDIT_DISTANCE: usize = 1;

/// Least frequency of a dominant model-guided repair.
pub const MODEL_MIN_FREQUENCY: usize = 10;

/// Shortest window whose single repair is trusted by where it edits.
pub const MODEL_UNIQUE_SOURCE_CHARS: usize = 8;

/// Longest character window searched inside a hotspot's segments.
pub const MODEL_MAX_SOURCE_CHARS: usize = 24;

/// How many times more frequent than the runner-up a dominant repair is.
pub const MODEL_FREQUENCY_LEAD: usize = 4;

/// A repair the dictionary offers for a window around a hotspot, with the
/// values candidates are ranked by.
#[derive(Clone, Debug)]
pub struct GuidedCandidate {
    pub start: usize,
    pub end: usize,
    pub suggestions: Vec<String>,
    pub distance: usize,
    pub length_gap: usize,
    pub frequency: usize,
}

/// The view of a candidate: start, end, suggestion texts, distance, length
/// gap, frequency.
pub type GuidedView = (usize, usize, Seq<Seq<char>>, usize, usize, usize);

impl View for GuidedCandidate {
    type V = GuidedView;

    open spec fn view(&self) -> GuidedView {
        (self.start, self.end, str_views(self.suggestions@), self.distance, self.length_gap, self.frequency)
    }
}

/// The view of an optional candidate.
pub open spec fn guided_option(o: Option<GuidedCandidate>) -> Option<GuidedView> {
    match o {
        Some(c) => Some(c@),
        None => None,
    }
}

/// `|a - b|`.
pub open spec fn abs_gap(a: int, b: int) -> int {
    if a >= b {
        a - b
    } else {
        b - a
    }
}

/// A suggestion is a repair of window `w` for the hotspot `[hs, he)`: a
/// real edit, longer than every segment it joins, whose first difference
/// from the window's text falls in the hotspot.
pub open spec fn guided_keep(x: SuggView, w: WindowView, hs: usize, he: usize) -> bool {
    &&& x.1 > 0
    &&& (!w.3 || x.0.len() > w.4)
    &&& touches_hotspot(w.2, x.0, sat_sub(hs as int, w.0 as int), sat_sub(he as int, w.0 as int))
}

/// The suggestions of `raw` that are repairs of `w`, in order.
pub open spec fn kept_repairs(raw: Seq<SuggView>, w: WindowView, hs: usize, he: usize) -> Seq<SuggView>
    decreases raw.len(),
{
    if raw.len() == 0 {
        raw
    } else {
        let p = kept_repairs(raw.drop_last(), w, hs, he);
        if guided_keep(raw.last(), w, hs, he) {
            p.push(raw.last())
        } else {
            p
        }
    }
}

/// Repair `a` ranks strictly before `b` for a window of `n` characters:
/// nearer, then more frequent, then closer in length, then earlier in code
/// point order.
pub open spec fn guided_before(n: int) -> spec_fn(SuggView, SuggView) -> bool {
    |a: SuggView, b: SuggView|
        {
            ||| a.1 < b.1
            ||| (a.1 == b.1 && a.2 > b.2)
            ||| (a.1 == b.1 && a.2 == b.2 && abs_gap(a.0.len() as int, n) < abs_gap(b.0.len() as int, n))
            ||| (a.1 == b.1 && a.2 == b.2 && abs_gap(a.0.len() as int, n) == abs_gap(b.0.len() as int, n)
                && chars_le(a.0, b.0) && a.0 != b.0)
        }
}

/// The repairs shown for window `w`: ranked, one per text, at most three.
pub open spec fn guided_shown(raw: Seq<SuggView>, w: WindowView, hs: usize, he: usize) -> Seq<SuggView> {
    let s = dedup_terms(stable_sort(kept_repairs(raw, w, hs, he), guided_before(w.2.len() as int)));
    if s.len() > MAX_SUGGESTIONS_PER_ISSUE {
        s.take(MAX_SUGGESTIONS_PER_ISSUE as int)
    } else {
        s
    }
}

/// The candidate window `w` gives when the dictionary answered `raw`: the
/// shown repairs when the best is dominant (frequent, and four times as
/// frequent as the runner-up) or the only one for a long window.
pub open spec fn guided_pick(raw: Seq<SuggView>, w: WindowView, hs: usize, he: usize) -> Option<GuidedView> {
    let shown = guided_shown(raw, w, hs, he);
    if shown.len() == 0 {
        None
    } else {
        let best = shown[0];
        let runner_up = if shown.len() > 1 {
            shown[1].2
        } else {
            0
        };
        let dominant = best.2 >= MODEL_MIN_FREQUENCY && best.2 >= sat_mul(runner_up, MODEL_FREQUENCY_LEAD);
        let unique = w.2.len() >= MODEL_UNIQUE_SOURCE_CHARS && shown.len() == 1;
        if !dominant && !unique {
            None
        } else {
            Some(
                (
                    w.0,
                    w.1,
                    shown.map_values(|x: SuggView| x.0),
                    best.1,
                    abs_gap(best.0.len() as int, w.2.len() as int) as usize,
                    best.2,
                ),
            )
        }
    }
}

proof fn lemma_kept_repairs_near(
    raw: Seq<SuggView>,
    w: WindowView,
    hs: usize,
    he: usize,
    words: Map<Seq<char>, usize>,
    d: usize,
)
    requires
        all_near(raw, words, w.2, d),
    ensures
        all_near(kept_repairs(raw, w, hs, he), words, w.2, d),
    decreases raw.len(),
{
    if raw.len() > 0 {
        let p = raw.drop_last();
        assert forall|i: int| 0 <= i < p.len() implies words.contains_key((#[trigger] p[i]).0) && osa_distance(w.2, p[i].0) <= d by {
            assert(p[i] == raw[i]);
        }
        lemma_kept_repairs_near(p, w, hs, he, words, d);
        assert(raw.last() == raw[raw.len() - 1]);
    }
}

/// Every suggestion of the repair a Khmer window gives is a dictionary word
/// within one edit of the window's text.
pub proof fn law_guided_suggestions_are_near_words(
    raw: Seq<SuggView>,
    w: WindowView,
    hs: usize,
    he: usize,
    words: Map<Seq<char>, usize>,
)
    requires
        dictionary_answer(words, w.2, MODEL_MAX_EDIT_DISTANCE, raw),
        caseless_khmer(w.2),
    ensures
        guided_pick(raw, w, hs, he) matches Some(c) ==> forall|i: int|
            0 <= i < c.2.len() ==> words.contains_key(#[trigger] c.2[i]) && osa_distance(w.2, c.2[i])
                <= MODEL_MAX_EDIT_DISTANCE,
{
    let d = MODEL_MAX_EDIT_DISTANCE;
    assert(all_near(raw, words, w.2, d));
    lemma_kept_repairs_near(raw, w, hs, he, words, d);
    let kept = kept_repairs(raw, w, hs, he);
    let order = guided_before(w.2.len() as int);
    lemma_stable_sort_members(kept, order);
    let sorted = stable_sort(kept, order);
    assert forall|i: int| 0 <= i < sorted.len() implies words.contains_key((#[trigger] sorted[i]).0) && osa_distance(
        w.2,
        sorted[i].0,
    ) <= d by {
        assert(member(kept, sorted[i]));
        let k = choose|k: int| 0 <= k < kept.len() && kept[k] == sorted[i];
        assert(kept[k] == sorted[i]);
    }
    lemma_dedup_terms_near(sorted, words, w.2, d);
    let shown = guided_shown(raw, w, hs, he);
    assert(all_near(shown, words, w.2, d));
    if guided_pick(raw, w, hs, he) is Some {
        let c = guided_pick(raw, w, hs, he)->0;
        assert(c.2 == shown.map_values(|x: SuggView| x.0));
        assert forall|i: int| 0 <= i < c.2.len() implies words.contains_key(#[trigger] c.2[i]) && osa_distance(w.2, c.2[i])
            <= d by {
            assert(c.2[i] == shown[i].0);
        }
    }
}

/// Whether repair `a` ranks strictly before `b` for a window of `n`
/// characters.
fn guided_before_exec(a: &SuggestionRec, b: &SuggestionRec, n: usize) -> (r: bool)
    ensures
        r == guided_before(n as int)(a@, b@),
{
    if a.distance != b.distance {
        return a.distance < b.distance;
    }
    if a.count != b.count {
        return a.count > b.count;
    }
    let ac = chars_of(a.term.as_str());
    let bc = chars_of(b.term.as_str());
    let ga = if ac.len() >= n { ac.len() - n } else { n - ac.len() };
    let gb = if bc.len() >= n { bc.len() - n } else { n - bc.len() };
    if ga != gb {
        return ga < gb;
    }
    chars_le_exec(ac.as_slice(), bc.as_slice()) && !chars_eq(ac.as_slice(), bc.as_slice())
}

/// Sorts repairs stably by rank for a window of `n` characters.
fn sort_repairs(v: Vec<SuggestionRec>, n: usize) -> (out: Vec<SuggestionRec>)
    ensures
        sugg_views(out@) == stable_sort(sugg_views(v@), guided_before(n as int)),
{
    let ghost input = sugg_views(v@);
    let mut out: Vec<SuggestionRec> = Vec::new();
    assert(sugg_views(out@) =~= stable_sort(input.take(0), guided_before(n as int)));
    for i in 0..v.len()
        invariant
            input == sugg_views(v@),
            sugg_views(out@) == stable_sort(input.take(i as int), guided_before(n as int)),
    {
        let x = v[i].duplicate();
        assert(x@ == input[i as int]);
        let mut p: usize = 0;
        while p < out.len() && !guided_before_exec(&x, &out[p], n)
            invariant
                p <= out@.len(),
                forall|q: int| 0 <= q < p ==> !guided_before(n as int)(x@, #[trigger] out@[q]@),
            decreases out@.len() - p,
        {
            p = p + 1;
        }
        let ghost before = sugg_views(out@);
        proof {
            assert forall|q: int| 0 <= q < p implies !guided_before(n as int)(x@, #[trigger] before[q]) by {
                assert(before[q] == out@[q]@);
            }
            if p < out@.len() {
                assert(before[p as int] == out@[p as int]@);
            }
            lemma_insert_stable_at(before, x@, guided_before(n as int), p as int);
            assert(input.take(i + 1).drop_last() =~= input.take(i as int));
            assert(input.take(i + 1).last() == x@);
        }
        out.insert(p, x);
        assert(sugg_views(out@) =~= before.insert(p as int, x@));
    }
    assert(input.take(v@.len() as int) =~= input);
    out
}

/// The candidate window `w` gives for the hotspot `[hs, he)` when the
/// dictionary answered `raw` (see `guided_pick`).
pub fn guided_from_answer(raw: &Vec<SuggestionRec>, w: &HotspotWindow, hs: usize, he: usize) -> (r: Option<
    GuidedCandidate,
>)
    ensures
        guided_option(r) == guided_pick(sugg_views(raw@), w@, hs, he),
{
    let ghost rv = sugg_views(raw@);
    let rel_start = hs.saturating_sub(w.start);
    let rel_end = he.saturating_sub(w.start);
    let mut kept: Vec<SuggestionRec> = Vec::new();
    assert(sugg_views(kept@) =~= kept_repairs(rv.take(0), w@, hs, he));
    for i in 0..raw.len()
        invariant
            rv == sugg_views(raw@),
            rel_start == sat_sub(hs as int, w.start as int),
            rel_end == sat_sub(he as int, w.start as int),
            sugg_views(kept@) == kept_repairs(rv.take(i as int), w@, hs, he),
    {
        let x = &raw[i];
        assert(rv.take(i + 1).drop_last() =~= rv.take(i as int));
        assert(rv.take(i + 1).last() == x@);
        let term_len = chars_of(x.term.as_str()).len();
        if x.distance > 0 && (!w.joined_segments || term_len > w.longest_component) && edit_touches_hotspot(
            w.source.as_str(),
            x.term.as_str(),
            rel_start,
            rel_end,
        ) {
            kept.push(x.duplicate());
            assert(sugg_views(kept@) =~= kept_repairs(rv.take(i as int), w@, hs, he).push(x@));
        }
    }
    assert(rv.take(raw@.len() as int) =~= rv);
    let n = chars_of(w.source.as_str()).len();
    let sorted = sort_repairs(kept, n);
    let mut shown = dedup_suggestions(&sorted);
    if shown.len() > MAX_SUGGESTIONS_PER_ISSUE {
        shown.truncate(MAX_SUGGESTIONS_PER_ISSUE);
    }
    let ghost sv = sugg_views(shown@);
    assert(sv == guided_shown(rv, w@, hs, he));
    if shown.len() == 0 {
        return None;
    }
    let best_distance = shown[0].distance;
    let best_count = shown[0].count;
    let best_len = chars_of(shown[0].term.as_str()).len();
    let runner_up = if shown.len() > 1 { shown[1].count } else { 0 };
    assert(sv[0] == shown@[0]@);
    assert(shown.len() > 1 ==> sv[1] == shown@[1]@);
    let lead: usize = if runner_up > usize::MAX / MODEL_FREQUENCY_LEAD {
        usize::MAX
    } else {
        runner_up * MODEL_FREQUENCY_LEAD
    };
    proof {
        if runner_up > usize::MAX / MODEL_FREQUENCY_LEAD {
            assert(runner_up * MODEL_FREQUENCY_LEAD > usize::MAX);
        }
        assert(lead == sat_mul(runner_up, MODEL_FREQUENCY_LEAD));
    }
    let dominant = best_count >= MODEL_MIN_FREQUENCY && best_count >= lead;
    let unique = n >= MODEL_UNIQUE_SOURCE_CHARS && shown.len() == 1;
    if !dominant && !unique {
        return None;
    }
    let gap = if best_len >= n { best_len - n } else { n - best_len };
    let suggestions = suggestion_terms(shown);
    Some(
        GuidedCandidate {
            start: w.start,
            end: w.end,
            suggestions,
            distance: best_distance,
            length_gap: gap,
            frequency: best_count,
        },
    )
}

/// The segment the character search starts from: the one before `first`
/// when it runs straight into `first`, else `first`.
pub open spec fn fallback_first(segs: Seq<SpellSegment>, first: int) -> int {
    if first >= 1 && segs[first - 1].end == segs[first].start {
        first - 1
    } else {
        first
    }
}

/// The character window `[start, end)`.
pub open spec fn char_window(text: Seq<char>, start: int, end: int) -> WindowView {
    (start as usize, end as usize, sliced_chars(text, start, end), false, 0usize)
}

/// A character window is searched when it is eight to twenty-four
/// characters wide.
pub open spec fn char_window_ok(start: int, end: int) -> bool {
    MODEL_UNIQUE_SOURCE_CHARS <= sat_sub(end, start) <= MODEL_MAX_SOURCE_CHARS
}

/// The character windows from `start` ending at `end..=ce`, in order.
pub open spec fn char_row(text: Seq<char>, start: int, end: int, ce: int) -> Seq<WindowView>
    decreases ce + 1 - end,
{
    if end > ce {
        Seq::empty()
    } else {
        let rest = char_row(text, start, end + 1, ce);
        if char_window_ok(start, end) {
            seq![char_window(text, start, end)] + rest
        } else {
            rest
        }
    }
}

/// The character windows starting at `start..=hs` and ending at
/// `he..=ce`, row by row.
pub open spec fn char_rows(text: Seq<char>, start: int, hs: int, he: int, ce: int) -> Seq<WindowView>
    decreases hs + 1 - start,
{
    if start > hs {
        Seq::empty()
    } else {
        char_row(text, start, he, ce) + char_rows(text, start + 1, hs, he, ce)
    }
}

/// The character windows searched inside the hotspot's segments, so that a
/// word boundary the segmenter misplaced can be recovered: starting from
/// the segment before the hotspot's (when it runs into it) up to the
/// hotspot's start, and ending from the hotspot's end up to three segments
/// after the last one it touches.
pub open spec fn fallback_windows(
    text: Seq<char>,
    segs: Seq<SpellSegment>,
    first: int,
    last: int,
    hs: int,
    he: int,
) -> Seq<WindowView> {
    let cs = segs[fallback_first(segs, first)].start;
    let ce = segs[min_of(last + MAX_WINDOW_TOKENS - 1, segs.len() - 1)].end;
    char_rows(text, cs as int, hs, he, ce as int)
}

/// Every window looked up for a hotspot: the segment windows, then the
/// character windows.
pub open spec fn hotspot_windows(
    text: Seq<char>,
    segs: Seq<SpellSegment>,
    first: int,
    last: int,
    hs: int,
    he: int,
) -> Seq<WindowView> {
    segment_windows(text, segs, first, last) + fallback_windows(text, segs, first, last, hs, he)
}

/// The character windows searched for a hotspot (see `fallback_windows`).
fn collect_fallback_windows(
    chars: &Vec<char>,
    segs: &[SpellSegment],
    first: usize,
    last: usize,
    hs: usize,
    he: usize,
) -> (out: Vec<HotspotWindow>)
    requires
        first <= last < segs@.len(),
        hs < usize::MAX,
    ensures
        window_views(out@) == fallback_windows(chars@, segs@, first as int, last as int, hs as int, he as int),
{
    let ff = if first >= 1 && segs[first - 1].end == segs[first].start { first - 1 } else { first };
    let cs = segs[ff].start;
    let li = if segs.len() - 1 - last >= MAX_WINDOW_TOKENS - 1 { last + (MAX_WINDOW_TOKENS - 1) } else { segs.len() - 1 };
    let ce = segs[li].end;
    let ghost t = chars@;
    let ghost full = fallback_windows(t, segs@, first as int, last as int, hs as int, he as int);
    assert(li == min_of(last + MAX_WINDOW_TOKENS - 1, segs@.len() - 1));
    assert(full == char_rows(t, cs as int, hs as int, he as int, ce as int));
    let mut out: Vec<HotspotWindow> = Vec::new();
    let mut st = cs;
    assert(window_views(out@) + char_rows(t, st as int, hs as int, he as int, ce as int) =~= full);
    while st <= hs
        invariant
            cs <= st,
            hs < usize::MAX,
            t == chars@,
            full == char_rows(t, cs as int, hs as int, he as int, ce as int),
            window_views(out@) + char_rows(t, st as int, hs as int, he as int, ce as int) == full,
        decreases hs + 1 - st,
    {
        let ghost tail = char_rows(t, st + 1, hs as int, he as int, ce as int);
        assert(window_views(out@) + char_row(t, st as int, he as int, ce as int) + tail =~= full);
        let mut en = he;
        let mut more = he <= ce;
        if !more {
            assert(char_row(t, st as int, he as int, ce as int) =~= Seq::<WindowView>::empty());
        }
        while more
            invariant
                more ==> he <= en <= ce,
                st <= hs,
                t == chars@,
                window_views(out@) + (if more {
                    char_row(t, st as int, en as int, ce as int)
                } else {
                    Seq::<WindowView>::empty()
                }) + tail == full,
            decreases (if more {
                ce - en + 1
            } else {
                0
            }),
        {
            let ghost before = window_views(out@);
            let ghost rest = char_row(t, st as int, en + 1, ce as int);
            let width = en.saturating_sub(st);
            if MODEL_UNIQUE_SOURCE_CHARS <= width && width <= MODEL_MAX_SOURCE_CHARS {
                let (source, _count) = window_source(chars, st, en);
                let w = HotspotWindow { start: st, end: en, source, joined_segments: false, longest_component: 0 };
                assert(w@ == char_window(t, st as int, en as int));
                out.push(w);
                assert(window_views(out@) =~= before.push(w@));
                assert(window_views(out@) + rest + tail =~= before + (seq![w@] + rest) + tail);
            } else {
                assert(before + rest + tail =~= before + char_row(t, st as int, en as int, ce as int) + tail);
            }
            if en < ce {
                en = en + 1;
            } else {
                more = false;
                assert(rest =~= Seq::<WindowView>::empty());
            }
        }
        assert(window_views(out@) + Seq::<WindowView>::empty() =~= window_views(out@));
        st = st + 1;
    }
    assert(char_rows(t, st as int, hs as int, he as int, ce as int) =~= Seq::<WindowView>::empty());
    assert(window_views(out@) + Seq::<WindowView>::empty() =~= window_views(out@));
    out
}

/// The candidates the windows `ws` give, the `k`th window getting the
/// `k`th answer of the dictionary.
pub open spec fn guided_candidates(ws: Seq<WindowView>, answers: Seq<Seq<SuggView>>, hs: usize, he: usize) -> Seq<
    GuidedView,
>
    decreases ws.len(),
{
    if ws.len() == 0 {
        Seq::empty()
    } else {
        let p = guided_candidates(ws.drop_last(), answers, hs, he);
        match guided_pick(answers[ws.len() - 1], ws.last(), hs, he) {
            Some(c) => p.push(c),
            None => p,
        }
    }
}

proof fn lemma_guided_candidates_prefix(
    ws: Seq<WindowView>,
    a: Seq<Seq<SuggView>>,
    b: Seq<Seq<SuggView>>,
    hs: usize,
    he: usize,
)
    requires
        ws.len() <= a.len(),
        ws.len() <= b.len(),
        forall|j: int| 0 <= j < ws.len() ==> a[j] == b[j],
    ensures
        guided_candidates(ws, a, hs, he) == guided_candidates(ws, b, hs, he),
    decreases ws.len(),
{
    if ws.len() > 0 {
        lemma_guided_candidates_prefix(ws.drop_last(), a, b, hs, he);
        assert(a[ws.len() - 1] == b[ws.len() - 1]);
    }
}

/// The width of a candidate's range.
pub open spec fn candidate_width(c: GuidedView) -> int {
    sat_sub(c.1 as int, c.0 as int)
}

/// Candidate `a` ranks strictly before `b`: nearer, then closer in length,
/// then wider, then more frequent.
pub open spec fn candidate_before() -> spec_fn(GuidedView, GuidedView) -> bool {
    |a: GuidedView, b: GuidedView|
        {
            ||| a.3 < b.3
            ||| (a.3 == b.3 && a.4 < b.4)
            ||| (a.3 == b.3 && a.4 == b.4 && candidate_width(a) > candidate_width(b))
            ||| (a.3 == b.3 && a.4 == b.4 && candidate_width(a) == candidate_width(b) && a.5 > b.5)
        }
}

/// The best candidate of the windows `ws` for the given answers: the first
/// after a stable sort by rank.
pub open spec fn best_guided(ws: Seq<WindowView>, answers: Seq<Seq<SuggView>>, hs: usize, he: usize) -> Option<
    GuidedView,
> {
    let cs = stable_sort(guided_candidates(ws, answers, hs, he), candidate_before());
    if cs.len() == 0 {
        None
    } else {
        Some(cs[0])
    }
}

/// `r` is the best repair of the hotspot `[hs, he)` touching segments
/// `first..=last`, for some answers the dictionary `words` may give to the
/// lookups of its windows (see `hotspot_windows`).
pub open spec fn guided_outcome(
    text: Seq<char>,
    segs: Seq<SpellSegment>,
    words: Map<Seq<char>, usize>,
    first: int,
    last: int,
    hs: usize,
    he: usize,
    r: Option<GuidedView>,
) -> bool {
    let ws = hotspot_windows(text, segs, first, last, hs as int, he as int);
    exists|answers: Seq<Seq<SuggView>>|
        #![trigger best_guided(ws, answers, hs, he)]
        answers.len() == ws.len() && (forall|k: int|
            0 <= k < answers.len() ==> dictionary_answer(
                words,
                ws[k].2,
                MODEL_MAX_EDIT_DISTANCE,
                #[trigger] answers[k],
            )) && r == best_guided(ws, answers, hs, he)
}

/// The views of a list of candidates.
pub open spec fn guided_views(v: Seq<GuidedCandidate>) -> Seq<GuidedView> {
    v.map_values(|c: GuidedCandidate| c@)
}

/// Sorts candidates stably by rank.
fn sort_candidates(v: Vec<GuidedCandidate>) -> (out: Vec<GuidedCandidate>)
    ensures
        guided_views(out@) == stable_sort(guided_views(v@), candidate_before()),
{
    let ghost input = guided_views(v@);
    let mut out: Vec<GuidedCandidate> = Vec::new();
    assert(guided_views(out@) =~= stable_sort(input.take(0), candidate_before()));
    for x in it: v
        invariant
            input == guided_views(it.seq()),
            guided_views(out@) == stable_sort(input.take(it.index() as int), candidate_before()),
    {
        let ghost k = it.index();
        assert(x@ == input[k as int]);
        let xw = x.end.saturating_sub(x.start);
        let mut p: usize = 0;
        while p < out.len() && !(x.distance < out[p].distance || (x.distance == out[p].distance && x.length_gap
            < out[p].length_gap) || (x.distance == out[p].distance && x.length_gap == out[p].length_gap && xw
            > out[p].end.saturating_sub(out[p].start)) || (x.distance == out[p].distance && x.length_gap
            == out[p].length_gap && xw == out[p].end.saturating_sub(out[p].start) && x.frequency > out[p].frequency))
            invariant
                p <= out@.len(),
                xw == candidate_width(x@),
                forall|q: int| 0 <= q < p ==> !candidate_before()(x@, #[trigger] out@[q]@),
            decreases out@.len() - p,
        {
            p = p + 1;
        }
        let ghost before = guided_views(out@);
        proof {
            assert forall|q: int| 0 <= q < p implies !candidate_before()(x@, #[trigger] before[q]) by {
                assert(before[q] == out@[q]@);
            }
            if p < out@.len() {
                assert(before[p as int] == out@[p as int]@);
            }
            lemma_insert_stable_at(before, x@, candidate_before(), p as int);
            assert(input.take(k + 1).drop_last() =~= input.take(k as int));
            assert(input.take(k + 1).last() == x@);
        }
        out.insert(p, x);
        assert(guided_views(out@) =~= before.insert(p as int, x@));
    }
    assert(input.take(input.len() as int) =~= input);
    out
}

/// The best dictionary repair of the hotspot `[hotspot_start,
/// hotspot_end)`, which touches segments `first_segment..=last_segment`:
/// every window around it is looked up, each answer is ranked into at most
/// one candidate, and the best candidate wins (see `guided_outcome`).
pub fn best_model_guided_candidate(
    text: &str,
    segments: &[SpellSegment],
    first_segment: usize,
    last_segment: usize,
    hotspot_start: usize,
    hotspot_end: usize,
    spell: &SymSpell,
) -> (r: Option<GuidedCandidate>)
    requires
        first_segment <= last_segment < segments@.len(),
        hotspot_start < usize::MAX,
        checker_dictionary(*spell),
    ensures
        guided_outcome(
            text@,
            segments@,
            symspell_words(*spell),
            first_segment as int,
            last_segment as int,
            hotspot_start,
            hotspot_end,
            guided_option(r),
        ),
{
    let chars = chars_of(text);
    let mut ws = collect_segment_windows(&chars, segments, first_segment, last_segment);
    let fallback = collect_fallback_windows(&chars, segments, first_segment, last_segment, hotspot_start, hotspot_end);
    let ghost seg_views = window_views(ws@);
    for x in it: fallback
        invariant
            window_views(ws@) == seg_views + window_views(it.seq().take(it.index() as int)),
    {
        let ghost k = it.index();
        let ghost pre = window_views(ws@);
        ws.push(x);
        assert(window_views(it.seq().take(k + 1)) =~= window_views(it.seq().take(k as int)).push(x@));
        assert(window_views(ws@) =~= pre.push(x@));
    }
    let ghost wv = window_views(ws@);
    assert(wv =~= hotspot_windows(
        text@,
        segments@,
        first_segment as int,
        last_segment as int,
        hotspot_start as int,
        hotspot_end as int,
    ));
    let ghost words = symspell_words(*spell);
    let ghost mut answers: Seq<Seq<SuggView>> = Seq::empty();
    let mut cands: Vec<GuidedCandidate> = Vec::new();
    assert(guided_views(cands@) =~= guided_candidates(wv.take(0), answers, hotspot_start, hotspot_end));
    for k in 0..ws.len()
        invariant
            wv == window_views(ws@),
            words == symspell_words(*spell),
            answers.len() == k,
            forall|j: int|
                0 <= j < k ==> dictionary_answer(words, wv[j].2, MODEL_MAX_EDIT_DISTANCE, #[trigger] answers[j]),
            checker_dictionary(*spell),
            guided_views(cands@) == guided_candidates(wv.take(k as int), answers, hotspot_start, hotspot_end),
    {
        let raw = lookup_all(
            spell,
            ws[k].source.as_str(),
            LookupVerbosity::All,
            MODEL_MAX_EDIT_DISTANCE,
            &None,
            LOOKUP_MAX_RESULTS,
            false,
        );
        let ghost prev = answers;
        proof {
            answers = answers.push(sugg_views(raw@));
            lemma_guided_candidates_prefix(wv.take(k as int), prev, answers, hotspot_start, hotspot_end);
            assert(wv.take(k + 1).drop_last() =~= wv.take(k as int));
            assert(wv.take(k + 1).last() == ws@[k as int]@);
            assert(answers[k as int] == sugg_views(raw@));
        }
        let c = guided_from_answer(&raw, &ws[k], hotspot_start, hotspot_end);
        match c {
            Some(c) => {
                let ghost before = guided_views(cands@);
                cands.push(c);
                assert(guided_views(cands@) =~= before.push(c@));
            },
            None => {},
        }
    }
    assert(wv.take(ws@.len() as int) =~= wv);
    let mut sorted = sort_candidates(cands);
    let r = if sorted.len() == 0 {
        None
    } else {
        let ghost sv = guided_views(sorted@);
        let best = sorted.remove(0);
        assert(best@ == sv[0]);
        Some(best)
    };
    assert(guided_option(r) == best_guided(wv, answers, hotspot_start, hotspot_end));
    r
}

/// The first and last segments a span overlaps, when it overlaps any.
pub open spec fn overlapping_range(segs: Seq<SpellSegment>, start: int, end: int) -> Option<(int, int)> {
    match (first_overlap(segs, start, end), last_overlap(segs, start, end)) {
        (Some(f), Some(l)) => Some((f, l)),
        _ => None,
    }
}

/// The first and last segments `[start, end)` overlaps.
fn overlap_bounds(segs: &Vec<SpellSegment>, start: usize, end: usize) -> (r: Option<(usize, usize)>)
    ensures
        match r {
            Some((f, l)) => overlapping_range(segs@, start as int, end as int) == Some((f as int, l as int))
                && f <= l < segs@.len() && seg_overlaps(segs@[f as int], start as int, end as int),
            None => overlapping_range(segs@, start as int, end as int) is None,
        },
{
    let ghost sg = segs@;
    let n = segs.len();
    let mut f: usize = 0;
    while f < n && !(start < segs[f].end && segs[f].start < end)
        invariant
            f <= n,
            n == sg.len(),
            sg == segs@,
            forall|k: int| 0 <= k < f ==> !seg_overlaps(#[trigger] sg[k], start as int, end as int),
        decreases n - f,
    {
        f = f + 1;
    }
    proof {
        lemma_first_overlap(sg, start as int, end as int, f as int);
    }
    if f == n {
        return None;
    }
    let mut l: usize = n;
    while l > f + 1 && !(start < segs[l - 1].end && segs[l - 1].start < end)
        invariant
            f < l <= n,
            n == sg.len(),
            sg == segs@,
            seg_overlaps(sg[f as int], start as int, end as int),
            forall|k: int| l <= k < n ==> !seg_overlaps(#[trigger] sg[k], start as int, end as int),
        decreases l,
    {
        l = l - 1;
    }
    proof {
        lemma_last_overlap(sg, start as int, end as int, l as int);
    }
    Some((f, l - 1))
}

/// The view of an issue: start, end, text, suggestion texts, kind,
/// confidence.
pub type IssueView = (usize, usize, Seq<char>, Seq<Seq<char>>, SpellIssueKind, Option<u16>);

/// The view of an issue.
pub open spec fn issue_view(i: SpellIssue) -> IssueView {
    (i.start, i.end, i.source@, str_views(i.suggestions@), i.kind, i.confidence_millis)
}

/// The views of a list of issues.
pub open spec fn issue_views(v: Seq<SpellIssue>) -> Seq<IssueView> {
    v.map_values(|i: SpellIssue| issue_view(i))
}

/// The model path is asked for a repair when no known word covers the
/// hotspot, or when the hotspot is weak.
pub open spec fn wants_guided(known: Option<(usize, usize)>, h: DetectorSpan) -> bool {
    known is None || h.below_warning
}

/// The issue a hotspot touching segments `f..=l` becomes: an error with
/// the repair's suggestions when there is one; otherwise a warning over
/// the known word covering it, or over the touched segments.
pub open spec fn hotspot_issue(
    text: Seq<char>,
    segs: Seq<SpellSegment>,
    f: int,
    l: int,
    known: Option<(usize, usize)>,
    h: DetectorSpan,
    g: Option<GuidedView>,
) -> IssueView {
    match g {
        Some(c) => (
            c.0,
            c.1,
            sliced_chars(text, c.0 as int, c.1 as int),
            c.2,
            SpellIssueKind::Error,
            Some(h.confidence_millis),
        ),
        None => {
            let (s, e) = match known {
                Some(k) => k,
                None => (segs[f].start, segs[l].end),
            };
            (s, e, sliced_chars(text, s as int, e as int), Seq::empty(), SpellIssueKind::Warning, Some(h.confidence_millis))
        },
    }
}

/// The issues of `s` that do not overlap `[a, b)`, in order.
pub open spec fn not_overlapping(s: Seq<IssueView>, a: int, b: int) -> Seq<IssueView>
    decreases s.len(),
{
    if s.len() == 0 {
        s
    } else {
        let p = not_overlapping(s.drop_last(), a, b);
        if overlap(s.last().0 as int, s.last().1 as int, a, b) {
            p
        } else {
            p.push(s.last())
        }
    }
}

/// Whether some issue of `s` overlaps `x`.
pub open spec fn any_overlap(s: Seq<IssueView>, x: IssueView) -> bool {
    exists|k: int| 0 <= k < s.len() && #[trigger] overlap(s[k].0 as int, s[k].1 as int, x.0 as int, x.1 as int)
}

/// The issues after hotspot `h` is folded in, the model path having
/// answered `g`: a hotspot touching no segment changes nothing; a weak one
/// with no repair is dropped when its sentence holds a stronger detection;
/// otherwise the issues overlapping the hotspot give way, and its issue is
/// added unless it overlaps one that stays.
pub open spec fn fold_hotspot(
    text: Seq<char>,
    segs: Seq<SpellSegment>,
    known: Map<Seq<char>, usize>,
    ds: Seq<DetectorSpan>,
    issues: Seq<IssueView>,
    h: DetectorSpan,
    g: Option<GuidedView>,
) -> Seq<IssueView> {
    match overlapping_range(segs, h.start as int, h.end as int) {
        None => issues,
        Some((f, l)) => {
            let ks = known_span(text, segs, f, l, known);
            let gg = if wants_guided(ks, h) {
                g
            } else {
                None
            };
            if gg is None && h.below_warning && stronger_in_sentence(text, h, ds) {
                issues
            } else {
                let issue = hotspot_issue(text, segs, f, l, ks, h, gg);
                let kept = not_overlapping(issues, h.start as int, h.end as int);
                if any_overlap(kept, issue) {
                    kept
                } else {
                    kept.push(issue)
                }
            }
        },
    }
}

/// The issues after the first `k` hotspots are folded in.
pub open spec fn fold_hotspots(
    text: Seq<char>,
    segs: Seq<SpellSegment>,
    known: Map<Seq<char>, usize>,
    ds: Seq<DetectorSpan>,
    issues: Seq<IssueView>,
    hs: Seq<DetectorSpan>,
    gs: Seq<Option<GuidedView>>,
    k: int,
) -> Seq<IssueView>
    decreases k,
{
    if k <= 0 {
        issues
    } else {
        fold_hotspot(text, segs, known, ds, fold_hotspots(text, segs, known, ds, issues, hs, gs, k - 1), hs[k - 1], gs[k - 1])
    }
}

proof fn lemma_fold_hotspots_prefix(
    text: Seq<char>,
    segs: Seq<SpellSegment>,
    known: Map<Seq<char>, usize>,
    ds: Seq<DetectorSpan>,
    issues: Seq<IssueView>,
    hs: Seq<DetectorSpan>,
    a: Seq<Option<GuidedView>>,
    b: Seq<Option<GuidedView>>,
    k: int,
)
    requires
        forall|j: int| 0 <= j < k ==> a[j] == b[j],
    ensures
        fold_hotspots(text, segs, known, ds, issues, hs, a, k) == fold_hotspots(text, segs, known, ds, issues, hs, b, k),
    decreases k,
{
    if k > 0 {
        lemma_fold_hotspots_prefix(text, segs, known, ds, issues, hs, a, b, k - 1);
        assert(a[k - 1] == b[k - 1]);
    }
}

/// Issue `a` starts strictly before `b`.
pub open spec fn issue_start_order() -> spec_fn(IssueView, IssueView) -> bool {
    |a: IssueView, b: IssueView| a.0 < b.0
}

/// The issues of a check after every hotspot is folded in: sorted stably
/// by start and cut to the issue limit.
pub open spec fn combined_issues(
    text: Seq<char>,
    segs: Seq<SpellSegment>,
    known: Map<Seq<char>, usize>,
    ds: Seq<DetectorSpan>,
    issues: Seq<IssueView>,
    gs: Seq<Option<GuidedView>>,
) -> Seq<IssueView> {
    let hs = merged_spans(ds);
    let sorted = stable_sort(fold_hotspots(text, segs, known, ds, issues, hs, gs, hs.len() as int), issue_start_order());
    if sorted.len() > MAX_SPELL_ISSUES {
        sorted.take(MAX_SPELL_ISSUES as int)
    } else {
        sorted
    }
}

/// `gs` holds, for each hotspot the model path is asked about, an answer it
/// may give (see `guided_outcome`).
pub open spec fn guided_answers_ok(
    text: Seq<char>,
    segs: Seq<SpellSegment>,
    known: Map<Seq<char>, usize>,
    hs: Seq<DetectorSpan>,
    gs: Seq<Option<GuidedView>>,
) -> bool {
    &&& gs.len() == hs.len()
    &&& forall|k: int|
        0 <= k < hs.len() ==> match overlapping_range(segs, hs[k].start as int, hs[k].end as int) {
            Some((f, l)) => wants_guided(known_span(text, segs, f, l, known), hs[k]) ==> guided_outcome(
                text,
                segs,
                known,
                f,
                l,
                hs[k].start,
                hs[k].end,
                #[trigger] gs[k],
            ),
            None => true,
        }
}

/// Sorts issues stably by start.
fn sort_issues_by_start(v: Vec<SpellIssue>) -> (out: Vec<SpellIssue>)
    ensures
        issue_views(out@) == stable_sort(issue_views(v@), issue_start_order()),
{
    let ghost input = issue_views(v@);
    let mut out: Vec<SpellIssue> = Vec::new();
    assert(issue_views(out@) =~= stable_sort(input.take(0), issue_start_order()));
    for x in it: v
        invariant
            input == issue_views(it.seq()),
            issue_views(out@) == stable_sort(input.take(it.index() as int), issue_start_order()),
    {
        let ghost k = it.index();
        assert(issue_view(x) == input[k as int]);
        let mut p: usize = 0;
        while p < out.len() && !(x.start < out[p].start)
            invariant
                p <= out@.len(),
                forall|q: int| 0 <= q < p ==> !(x.start < (#[trigger] out@[q]).start),
            decreases out@.len() - p,
        {
            p = p + 1;
        }
        let ghost before = issue_views(out@);
        proof {
            assert forall|q: int| 0 <= q < p implies !issue_start_order()(issue_view(x), #[trigger] before[q]) by {
                assert(before[q] == issue_view(out@[q]));
            }
            if p < out@.len() {
                assert(before[p as int] == issue_view(out@[p as int]));
            }
            lemma_insert_stable_at(before, issue_view(x), issue_start_order(), p as int);
            assert(input.take(k + 1).drop_last() =~= input.take(k as int));
            assert(input.take(k + 1).last() == issue_view(x));
        }
        let ghost xv = issue_view(x);
        out.insert(p, x);
        assert(issue_views(out@) =~= before.insert(p as int, xv));
    }
    assert(input.take(input.len() as int) =~= input);
    out
}

/// The issues of `issues` that do not overlap `[a, b)`, in order.
fn drop_overlapping(issues: Vec<SpellIssue>, a: usize, b: usize) -> (out: Vec<SpellIssue>)
    ensures
        issue_views(out@) == not_overlapping(issue_views(issues@), a as int, b as int),
{
    let ghost input = issue_views(issues@);
    let mut out: Vec<SpellIssue> = Vec::new();
    assert(issue_views(out@) =~= not_overlapping(input.take(0), a as int, b as int));
    for x in it: issues
        invariant
            input == issue_views(it.seq()),
            issue_views(out@) == not_overlapping(input.take(it.index() as int), a as int, b as int),
    {
        let ghost k = it.index();
        assert(issue_view(x) == input[k as int]);
        assert(input.take(k + 1).drop_last() =~= input.take(k as int));
        assert(input.take(k + 1).last() == issue_view(x));
        if !ranges_overlap(x.start, x.end, a, b) {
            let ghost before = issue_views(out@);
            let ghost xv = issue_view(x);
            out.push(x);
            assert(issue_views(out@) =~= before.push(xv));
        }
    }
    assert(input.take(input.len() as int) =~= input);
    out
}

/// Folds the contextual detector's `detections` into `result`, a check of
/// `text` against the lexicon `entries` and the user's `saved_words`: the
/// result is marked connected, and when there are detections and segments
/// each merged hotspot becomes an issue as `fold_hotspot` says, for some
/// answers the dictionary may give to the model path's lookups; the issues
/// are then sorted by start and cut to the issue limit.
pub fn combine_detector_result(
    text: &str,
    entries: &[LexiconEntry],
    saved_words: &[String],
    result: SpellCheckResult,
    detections: &[DetectorSpan],
) -> (r: SpellCheckResult)
    requires
        entries@.len() + saved_words@.len() <= u32::MAX,
    ensures
        r.detector_status == ContextDetectorStatus::Connected,
        r.segments@ == result.segments@,
        detections@.len() == 0 || result.segments@.len() == 0 ==> r.issues@ == result.issues@,
        detections@.len() > 0 && result.segments@.len() > 0 ==> exists|gs: Seq<Option<GuidedView>>|
            #![trigger combined_issues(
                text@,
                result.segments@,
                known_words(entries@, saved_words@),
                detections@,
                issue_views(result.issues@),
                gs,
            )]
            guided_answers_ok(
                text@,
                result.segments@,
                known_words(entries@, saved_words@),
                merged_spans(detections@),
                gs,
            ) && issue_views(r.issues@) == combined_issues(
                text@,
                result.segments@,
                known_words(entries@, saved_words@),
                detections@,
                issue_views(result.issues@),
                gs,
            ),
{
    let SpellCheckResult { issues, segments, detector_status: _ } = result;
    if detections.len() == 0 || segments.len() == 0 {
        return SpellCheckResult { issues, segments, detector_status: ContextDetectorStatus::Connected };
    }
    let freqs = target_frequencies(entries, saved_words);
    let spell = build_dictionary(&freqs);
    let hotspots = merge_detector_spans(detections);
    let ghost t = text@;
    let ghost sg = segments@;
    let ghost known = freqs@;
    let ghost ds = detections@;
    let ghost hs = hotspots@;
    let ghost base = issue_views(issues@);
    let ghost mut gs: Seq<Option<GuidedView>> = Seq::empty();
    let mut issues = issues;
    for k in 0..hotspots.len()
        invariant
            t == text@,
            sg == segments@,
            known == freqs@,
            known == symspell_words(spell),
            checker_dictionary(spell),
            ds == detections@,
            hs == hotspots@,
            gs.len() == k,
            forall|j: int|
                0 <= j < k ==> match overlapping_range(sg, hs[j].start as int, hs[j].end as int) {
                    Some((f, l)) => wants_guided(known_span(t, sg, f, l, known), hs[j]) ==> guided_outcome(
                        t,
                        sg,
                        known,
                        f,
                        l,
                        hs[j].start,
                        hs[j].end,
                        #[trigger] gs[j],
                    ),
                    None => true,
                },
            issue_views(issues@) == fold_hotspots(t, sg, known, ds, base, hs, gs, k as int),
    {
        let h = hotspots[k];
        let ghost prev = gs;
        let ghost before = issue_views(issues@);
        match overlap_bounds(&segments, h.start, h.end) {
            None => {
                proof {
                    gs = gs.push(None);
                    lemma_fold_hotspots_prefix(t, sg, known, ds, base, hs, prev, gs, k as int);
                }
            },
            Some((f, l)) => {
                let known_range = smallest_known_covering_span(text, &segments, f, l, &freqs);
                let wanted = known_range.is_none() || h.below_warning;
                let guided = if wanted {
                    best_model_guided_candidate(text, &segments, f, l, h.start, h.end, &spell)
                } else {
                    None
                };
                proof {
                    gs = gs.push(guided_option(guided));
                    lemma_fold_hotspots_prefix(t, sg, known, ds, base, hs, prev, gs, k as int);
                }
                let skip = guided.is_none() && h.below_warning && sentence_has_stronger_detection(text, &h, detections);
                if !skip {
                    let issue = match guided {
                        Some(c) => {
                            let source = slice_char_range(text, c.start, c.end);
                            SpellIssue {
                                start: c.start,
                                end: c.end,
                                source,
                                suggestions: c.suggestions,
                                kind: SpellIssueKind::Error,
                                confidence_millis: Some(h.confidence_millis),
                            }
                        },
                        None => {
                            let (s, e) = match known_range {
                                Some(p) => p,
                                None => (segments[f].start, segments[l].end),
                            };
                            let source = slice_char_range(text, s, e);
                            SpellIssue {
                                start: s,
                                end: e,
                                source,
                                suggestions: Vec::new(),
                                kind: SpellIssueKind::Warning,
                                confidence_millis: Some(h.confidence_millis),
                            }
                        },
                    };
                    assert(issue_view(issue) == hotspot_issue(t, sg, f as int, l as int, known_range, h, guided_option(guided)));
                    let mut kept = drop_overlapping(issues, h.start, h.end);
                    let ghost kv = issue_views(kept@);
                    let mut clash = false;
                    for j in 0..kept.len()
                        invariant
                            kv == issue_views(kept@),
                            clash == exists|q: int|
                                0 <= q < j && #[trigger] overlap(
                                    kv[q].0 as int,
                                    kv[q].1 as int,
                                    issue.start as int,
                                    issue.end as int,
                                ),
                    {
                        let hit = ranges_overlap(kept[j].start, kept[j].end, issue.start, issue.end);
                        proof {
                            assert(kv[j as int] == issue_view(kept@[j as int]));
                            if hit {
                                assert(overlap(kv[j as int].0 as int, kv[j as int].1 as int, issue.start as int, issue.end as int));
                            }
                        }
                        clash = clash || hit;
                    }
                    let ghost iv = issue_view(issue);
                    proof {
                        if clash {
                            let q = choose|q: int|
                                0 <= q < kv.len() && #[trigger] overlap(
                                    kv[q].0 as int,
                                    kv[q].1 as int,
                                    issue.start as int,
                                    issue.end as int,
                                );
                            assert(overlap(kv[q].0 as int, kv[q].1 as int, iv.0 as int, iv.1 as int));
                            assert(any_overlap(kv, iv));
                        } else {
                            assert(!any_overlap(kv, iv));
                        }
                    }
                    if !clash {
                        kept.push(issue);
                        assert(issue_views(kept@) =~= kv.push(iv));
                    }
                    issues = kept;
                    assert(issue_views(issues@) == fold_hotspot(t, sg, known, ds, before, h, gs[k as int]));
                } else {
                    assert(issue_views(issues@) == fold_hotspot(t, sg, known, ds, before, h, gs[k as int]));
                }
            },
        }
        assert(hs[k as int] == h);
        assert(issue_views(issues@) == fold_hotspot(t, sg, known, ds, before, h, gs[k as int]));
    }
    let sorted = sort_issues_by_start(issues);
    let mut out = sorted;
    if out.len() > MAX_SPELL_ISSUES {
        out.truncate(MAX_SPELL_ISSUES);
    }
    proof {
        let known_all = known_words(entries@, saved_words@);
        assert(known == known_all);
        assert(issue_views(out@) == combined_issues(t, sg, known, ds, base, gs));
        assert(guided_answers_ok(t, sg, known, merged_spans(ds), gs));
    }
    SpellCheckResult { issues: out, segments, detector_status: ContextDetectorStatus::Connected }
}

/// Strictly smaller key first.
pub open spec fn key_order<A>(key: spec_fn(A) -> int) -> spec_fn(A, A) -> bool {
    |a: A, b: A| key(a) < key(b)
}

/// The keys of `s` never decrease.
pub open spec fn key_sorted<A>(s: Seq<A>, key: spec_fn(A) -> int) -> bool {
    forall|i: int, j: int| 0 <= i < j < s.len() ==> key(#[trigger] s[i]) <= key(#[trigger] s[j])
}

proof fn lemma_insert_key_sorted<A>(s: Seq<A>, x: A, key: spec_fn(A) -> int)
    requires
        key_sorted(s, key),
    ensures
        key_sorted(insert_stable(s, x, key_order(key)), key),
    decreases s.len(),
{
    let lt = key_order(key);
    let r = insert_stable(s, x, lt);
    if s.len() == 0 {
    } else if lt(x, s[0]) {
        assert forall|i: int, j: int| 0 <= i < j < r.len() implies key(#[trigger] r[i]) <= key(#[trigger] r[j]) by {
            if i > 0 {
                assert(r[i] == s[i - 1] && r[j] == s[j - 1]);
            } else {
                assert(r[j] == s[j - 1]);
                if j > 1 {
                    assert(key(s[0]) <= key(s[j - 1]));
                }
            }
        }
    } else {
        let t = s.drop_first();
        assert forall|i: int, j: int| 0 <= i < j < t.len() implies key(#[trigger] t[i]) <= key(#[trigger] t[j]) by {
            assert(t[i] == s[i + 1] && t[j] == s[j + 1]);
        }
        lemma_insert_key_sorted(t, x, key);
        let it = insert_stable(t, x, lt);
        lemma_insert_stable_len(t, x, lt);
        assert forall|i: int, j: int| 0 <= i < j < r.len() implies key(#[trigger] r[i]) <= key(#[trigger] r[j]) by {
            if i > 0 {
                assert(r[i] == it[i - 1] && r[j] == it[j - 1]);
            } else {
                assert(r[0] == s[0]);
                assert(r[j] == it[j - 1]);
                if it[j - 1] != x {
                    assert(member(t, it[j - 1]));
                    let k = choose|k: int| 0 <= k < t.len() && t[k] == it[j - 1];
                    assert(s[k + 1] == t[k]);
                    assert(key(s[0]) <= key(s[k + 1]));
                }
            }
        }
    }
}

/// A stable sort by a key leaves the keys in order.
pub proof fn lemma_stable_sort_key_sorted<A>(xs: Seq<A>, key: spec_fn(A) -> int)
    ensures
        key_sorted(stable_sort(xs, key_order(key)), key),
    decreases xs.len(),
{
    if xs.len() > 0 {
        lemma_stable_sort_key_sorted(xs.drop_last(), key);
        lemma_insert_key_sorted(stable_sort(xs.drop_last(), key_order(key)), xs.last(), key);
    }
}

/// The start of a span, as a sort key.
pub open spec fn span_start_key() -> spec_fn(DetectorSpan) -> int {
    |d: DetectorSpan| d.start as int
}

/// Every span starts no later than it ends.
pub open spec fn spans_wf(s: Seq<DetectorSpan>) -> bool {
    forall|k: int| 0 <= k < s.len() ==> (#[trigger] s[k]).start <= s[k].end
}

/// Each span ends strictly before the next one starts.
pub open spec fn spans_apart(s: Seq<DetectorSpan>) -> bool {
    forall|i: int, j: int| 0 <= i < j < s.len() ==> (#[trigger] s[i]).end < (#[trigger] s[j]).start
}

proof fn lemma_merge_sorted_props(s: Seq<DetectorSpan>)
    requires
        key_sorted(s, span_start_key()),
        spans_wf(s),
    ensures
        spans_apart(merge_sorted(s)),
        spans_wf(merge_sorted(s)),
        s.len() > 0 ==> merge_sorted(s).len() > 0 && merge_sorted(s).last().start <= s.last().start,
    decreases s.len(),
{
    if s.len() > 0 {
        let d = s.drop_last();
        assert forall|i: int, j: int| 0 <= i < j < d.len() implies span_start_key()(#[trigger] d[i])
            <= span_start_key()(#[trigger] d[j]) by {
            assert(d[i] == s[i] && d[j] == s[j]);
            assert(span_start_key()(s[i]) <= span_start_key()(s[j]));
        }
        assert forall|k: int| 0 <= k < d.len() implies (#[trigger] d[k]).start <= d[k].end by {
            assert(d[k] == s[k]);
        }
        lemma_merge_sorted_props(d);
        let m = merge_sorted(d);
        let x = s.last();
        assert(x.start <= x.end);
        if d.len() > 0 {
            assert(d.last() == s[s.len() - 2]);
            assert(span_start_key()(s[s.len() - 2]) <= span_start_key()(s[s.len() - 1]));
        }
        let r = merge_sorted(s);
        if m.len() > 0 && x.start <= m.last().end {
            let n = m.len() - 1;
            assert(r == m.update(n, joined_span(m.last(), x)));
            assert forall|i: int, j: int| 0 <= i < j < r.len() implies (#[trigger] r[i]).end < (#[trigger] r[j]).start by {
                if j == n {
                    assert(r[j].start == m[n].start);
                    assert(r[i] == m[i]);
                } else {
                    assert(r[i] == m[i] && r[j] == m[j]);
                }
            }
            assert forall|k: int| 0 <= k < r.len() implies (#[trigger] r[k]).start <= r[k].end by {
                if k != n {
                    assert(r[k] == m[k]);
                } else {
                    assert(m[n].start <= m[n].end);
                }
            }
        } else {
            assert(r == m.push(x));
            if m.len() > 0 {
                assert(m.last().start <= d.last().start);
            }
            assert forall|i: int, j: int| 0 <= i < j < r.len() implies (#[trigger] r[i]).end < (#[trigger] r[j]).start by {
                if j == m.len() {
                    assert(r[i] == m[i]);
                    if i < m.len() - 1 {
                        assert(m[i].end < m[m.len() - 1].start);
                        assert(m[m.len() - 1].start <= m[m.len() - 1].end);
                    }
                } else {
                    assert(r[i] == m[i] && r[j] == m[j]);
                }
            }
            assert forall|k: int| 0 <= k < r.len() implies (#[trigger] r[k]).start <= r[k].end by {
                if k < m.len() {
                    assert(r[k] == m[k]);
                }
            }
        }
    }
}

/// The merged hotspots of well-formed detections come in text order, each
/// ending strictly before the next begins, and none ending before it
/// starts.
pub proof fn law_merged_hotspots_apart(ds: Seq<DetectorSpan>)
    requires
        spans_wf(ds),
    ensures
        spans_apart(merged_spans(ds)),
        spans_wf(merged_spans(ds)),
{
    let key = span_start_key();
    assert(span_start_order() =~= key_order(key));
    lemma_stable_sort_key_sorted(ds, key);
    lemma_stable_sort_members(ds, span_start_order());
    let s = stable_sort(ds, span_start_order());
    assert forall|k: int| 0 <= k < s.len() implies (#[trigger] s[k]).start <= s[k].end by {
        assert(member(ds, s[k]));
        let q = choose|q: int| 0 <= q < ds.len() && ds[q] == s[k];
        assert(ds[q].start <= ds[q].end);
    }
    lemma_merge_sorted_props(s);
}

/// The start of an issue, as a sort key.
pub open spec fn issue_start_key() -> spec_fn(IssueView) -> int {
    |v: IssueView| v.0 as int
}

/// However the detections and the dictionary's answers fall, the issues of
/// a combined result come in text order and number at most the issue
/// limit.
pub proof fn law_combined_issues_ordered_and_bounded(
    text: Seq<char>,
    segs: Seq<SpellSegment>,
    known: Map<Seq<char>, usize>,
    ds: Seq<DetectorSpan>,
    issues: Seq<IssueView>,
    gs: Seq<Option<GuidedView>>,
)
    ensures
        key_sorted(combined_issues(text, segs, known, ds, issues, gs), issue_start_key()),
        combined_issues(text, segs, known, ds, issues, gs).len() <= MAX_SPELL_ISSUES,
{
    let hs = merged_spans(ds);
    let folded = fold_hotspots(text, segs, known, ds, issues, hs, gs, hs.len() as int);
    let key = issue_start_key();
    assert(issue_start_order() =~= key_order(key));
    lemma_stable_sort_key_sorted(folded, key);
    let sorted = stable_sort(folded, issue_start_order());
    let r = combined_issues(text, segs, known, ds, issues, gs);
    if sorted.len() > MAX_SPELL_ISSUES {
        assert(r == sorted.take(MAX_SPELL_ISSUES as int));
        assert forall|i: int, j: int| 0 <= i < j < r.len() implies key(#[trigger] r[i]) <= key(#[trigger] r[j]) by {
            assert(r[i] == sorted[i] && r[j] == sorted[j]);
        }
    }
}

} // verus!
