//! The advisory Khmer spell checker: which words it knows and how often,
//! the SymSpell dictionary it looks candidates up in, how a window of
//! segmenter tokens becomes a ranked issue, and which issues are shown.
//!
//! Segmentation is a hint: the checker scans short, overlapping windows of
//! tokens so a typo that splits into unknown fragments is still found as
//! one word. Results are possible alternatives, never automatic fixes.

use vstd::prelude::*;
use vstd::relations::*;
use vstd::hash_map::StringHashMap;
use symspell_rs::{SymSpell, Verbosity};
use crate::spellcheck::{
    khmer_word_char, is_khmer_word, decomposes_into_known, compound_of_known, overlap, ranges_overlap,
    khmer_runs, khmer_runs_of, ContextDetectorStatus, SpellCheckResult, SpellIssue, SpellIssueKind, SpellSegment,
};
use crate::text::{
    append_chars, chars_eq, chars_le, chars_le_exec, chars_of, chars_order, lemma_chars_order_total,
    string_from_chars,
};

verus! {

/// Most tokens one window joins.
pub const MAX_WINDOW_TOKENS: usize = 4;

/// Edit distance of an ordinary lookup.
pub const MAX_EDIT_DISTANCE: usize = 1;

/// Edit distance of a guarded lookup, for long multi-token windows.
pub const GUARDED_MAX_EDIT_DISTANCE: usize = 2;

/// Shortest window that gets a guarded lookup.
pub const GUARDED_MIN_SOURCE_CHARS: usize = 6;

/// Least frequency of a distance-two suggestion.
pub const GUARDED_MIN_FREQUENCY: usize = 100;

/// How many times more frequent than any rival a distance-two suggestion
/// must be.
pub const GUARDED_FREQUENCY_LEAD: usize = 4;

/// Most suggestions shown for one issue.
pub const MAX_SUGGESTIONS_PER_ISSUE: usize = 3;

/// Most issues shown for one check.
pub const MAX_SPELL_ISSUES: usize = 20;

/// Frequency given to the user's saved words.
pub const SAVED_WORD_FREQUENCY: usize = 1_000_000;

/// Shortest window that is checked.
pub const MIN_SOURCE_CHARS: usize = 4;

/// Most suggestions one dictionary lookup returns.
pub const LOOKUP_MAX_RESULTS: usize = 12;

/// A Khmer word: non-empty, every character Khmer.
pub open spec fn khmer_word(s: Seq<char>) -> bool {
    s.len() > 0 && forall|i: int| 0 <= i < s.len() ==> #[trigger] khmer_word_char(s[i])
}

#[verifier::external_type_specification]
#[verifier::external_body]
pub struct ExSymSpell(SymSpell);

/// The words a SymSpell dictionary holds, each with its frequency count.
pub uninterp spec fn symspell_words(s: SymSpell) -> Map<Seq<char>, usize>;

/// The largest edit distance a SymSpell dictionary was made to answer.
pub uninterp spec fn symspell_max_distance(s: SymSpell) -> int;

/// The prefix length a SymSpell dictionary builds its deletes from.
pub uninterp spec fn symspell_prefix_length(s: SymSpell) -> int;

/// The count a word needs to be offered as a correction.
pub uninterp spec fn symspell_count_threshold(s: SymSpell) -> int;

/// The word lengths from which a SymSpell dictionary indexes words at each
/// edit distance, when it was given any.
pub uninterp spec fn symspell_length_thresholds(s: SymSpell) -> Option<Seq<usize>>;

/// The view of optional per-length thresholds.
pub open spec fn thresholds_view(t: Option<Vec<usize>>) -> Option<Seq<usize>> {
    match t {
        Some(v) => Some(v@),
        None => None,
    }
}

/// The word table of an empty dictionary.
pub open spec fn no_words() -> Map<Seq<char>, usize> {
    Map::empty()
}

/// Largest edit distance the checker's dictionary answers.
pub const DICTIONARY_MAX_EDIT_DISTANCE: usize = 2;

/// Prefix length of the checker's dictionary.
pub const DICTIONARY_PREFIX_LENGTH: usize = 7;

/// Count a word needs to be suggested by the checker's dictionary.
pub const DICTIONARY_COUNT_THRESHOLD: usize = 1;

/// A fresh dictionary with the given settings.
///
/// Trusted wrapper over `SymSpell::new`: its source keeps the four
/// settings as given and starts with an empty word table.
#[verifier::external_body]
fn new_dictionary(
    max_dictionary_edit_distance: usize,
    term_length_threshold: Option<Vec<usize>>,
    prefix_length: usize,
    count_threshold: usize,
) -> (dict: SymSpell)
    ensures
        symspell_words(dict) == no_words(),
        symspell_max_distance(dict) == max_dictionary_edit_distance as int,
        symspell_length_thresholds(dict) == thresholds_view(term_length_threshold),
        symspell_prefix_length(dict) == prefix_length as int,
        symspell_count_threshold(dict) == count_threshold as int,
{
    SymSpell::new(max_dictionary_edit_distance, term_length_threshold, prefix_length, count_threshold)
}

/// `a + b`, capped at `usize::MAX`.
pub open spec fn sat_add(a: usize, b: usize) -> usize {
    if a + b > usize::MAX {
        usize::MAX
    } else {
        (a + b) as usize
    }
}

/// Adds `count` occurrences of `term` to the dictionary.
///
/// Trusted wrapper over `SymSpell::create_dictionary_entry`: its source
/// stores the lower-cased term, setting the count of a new word and adding
/// to (capped at `usize::MAX`) the count of a known one. Khmer letters have
/// no case, so a Khmer word is stored as it is. Word ids are `u32`, and
/// the source panics when a new word would not get one. What the call
/// builds for lookups beyond the word table is not stated here.
#[verifier::external_body]
fn add_dictionary_word(s: &mut SymSpell, term: &str, count: usize)
    requires
        khmer_word(term@),
        symspell_words(*old(s)).contains_key(term@) || symspell_words(*old(s)).dom().len() <= u32::MAX,
    ensures
        symspell_words(*final(s)) == symspell_words(*old(s)).insert(
            term@,
            if symspell_words(*old(s)).contains_key(term@) {
                sat_add(symspell_words(*old(s))[term@], count)
            } else {
                count
            },
        ),
        symspell_max_distance(*final(s)) == symspell_max_distance(*old(s)),
        symspell_length_thresholds(*final(s)) == symspell_length_thresholds(*old(s)),
        symspell_prefix_length(*final(s)) == symspell_prefix_length(*old(s)),
        symspell_count_threshold(*final(s)) == symspell_count_threshold(*old(s)),
{
    s.create_dictionary_entry(term, count);
}

/// One dictionary suggestion: a word, its edit distance from the looked-up
/// text, and its frequency.
#[derive(Clone, Debug, PartialEq, Eq)]
pub struct SuggestionRec {
    pub term: String,
    pub distance: usize,
    pub count: usize,
}

/// The view of a suggestion: term, distance, count.
pub type SuggView = (Seq<char>, usize, usize);

impl View for SuggestionRec {
    type V = SuggView;

    open spec fn view(&self) -> SuggView {
        (self.term@, self.distance, self.count)
    }
}

impl SuggestionRec {
    /// A copy of this suggestion.
    pub fn duplicate(&self) -> (r: SuggestionRec)
        ensures
            r@ == self@,
    {
        SuggestionRec { term: self.term.clone(), distance: self.distance, count: self.count }
    }
}

/// The views of a list of suggestions.
pub open spec fn sugg_views(v: Seq<SuggestionRec>) -> Seq<SuggView> {
    v.map_values(|s: SuggestionRec| s@)
}

/// The optimal string alignment distance between `a` and `b`: the fewest
/// single-character deletions, insertions, substitutions and swaps of two
/// adjacent characters that turn `a` into `b`, no part being edited twice.
pub open spec fn osa_distance(a: Seq<char>, b: Seq<char>) -> nat
    decreases a.len() + b.len(),
{
    if a.len() == 0 {
        b.len()
    } else if b.len() == 0 {
        a.len()
    } else {
        let n = a.len() as int;
        let m = b.len() as int;
        let del = osa_distance(a.drop_last(), b) + 1;
        let ins = osa_distance(a, b.drop_last()) + 1;
        let sub = osa_distance(a.drop_last(), b.drop_last()) + if a.last() == b.last() {
            0nat
        } else {
            1nat
        };
        let best = if del <= ins && del <= sub {
            del
        } else if ins <= sub {
            ins
        } else {
            sub
        };
        if n >= 2 && m >= 2 && a[n - 1] == b[m - 2] && a[n - 2] == b[m - 1] {
            let swap = osa_distance(a.take(n - 2), b.take(m - 2)) + 1;
            if swap < best {
                swap
            } else {
                best
            }
        } else {
            best
        }
    }
}

/// Text made of Khmer letters and signs only, which have no case, so the
/// lookup's lower-casing leaves it as it is.
pub open spec fn caseless_khmer(s: Seq<char>) -> bool {
    forall|i: int| 0 <= i < s.len() ==> #[trigger] khmer_word_char(s[i])
}

/// What a dictionary lookup of `input` within `max_edit_distance` may
/// return: at most `max_results` words of the dictionary with their counts,
/// each within the distance, ordered by distance and then by falling count.
/// For Khmer input each distance is the words' optimal string alignment
/// distance; and for a complete lookup, a result shorter than `max_results`
/// holds every word within the distance whose count reaches `min_count`
/// (and whose length is under `TERM_LENGTH_LIMIT`), while a full result
/// leaves out only such words that rank no better than its last one.
pub open spec fn lookup_outcome(
    words: Map<Seq<char>, usize>,
    input: Seq<char>,
    max_edit_distance: usize,
    max_results: usize,
    min_count: int,
    complete: bool,
    r: Seq<SuggView>,
) -> bool {
    &&& r.len() <= max_results
    &&& forall|i: int|
        0 <= i < r.len() ==> (#[trigger] r[i]).1 <= max_edit_distance && words.contains_key(r[i].0)
            && r[i].2 == words[r[i].0]
    &&& forall|i: int, j: int|
        0 <= i < j < r.len() ==> (#[trigger] r[i]).1 < (#[trigger] r[j]).1 || (r[i].1 == r[j].1 && r[i].2
            >= r[j].2)
    &&& caseless_khmer(input) ==> forall|i: int| 0 <= i < r.len() ==> (#[trigger] r[i]).1 == osa_distance(input, r[i].0)
    &&& (complete && caseless_khmer(input) && r.len() < max_results) ==> forall|w: Seq<char>|
        #[trigger] words.contains_key(w) && words[w] >= min_count && w.len() < TERM_LENGTH_LIMIT
            && osa_distance(input, w) <= max_edit_distance ==> exists|i: int| 0 <= i < r.len() && (#[trigger] r[i]).0 == w
    &&& (complete && caseless_khmer(input) && r.len() > 0 && r.len() == max_results) ==> forall|w: Seq<char>|
        #[trigger] words.contains_key(w) && words[w] >= min_count && w.len() < TERM_LENGTH_LIMIT
            && osa_distance(input, w) <= max_edit_distance && !(exists|i: int| 0 <= i < r.len() && (#[trigger] r[i]).0 == w)
            ==> osa_distance(input, w) > r.last().1 || (osa_distance(input, w) == r.last().1 && words[w] <= r.last().2)
}

/// Words this long or longer are kept in a dictionary but never offered
/// as suggestions for other text.
pub const TERM_LENGTH_LIMIT: usize = 0x8000_0000;

/// The checker's dictionary settings: distance 2, no per-length
/// thresholds, prefix 7, count threshold 1.
pub open spec fn checker_dictionary(d: SymSpell) -> bool {
    &&& symspell_max_distance(d) == DICTIONARY_MAX_EDIT_DISTANCE as int
    &&& symspell_length_thresholds(d) is None
    &&& symspell_prefix_length(d) == DICTIONARY_PREFIX_LENGTH as int
    &&& symspell_count_threshold(d) == DICTIONARY_COUNT_THRESHOLD as int
}

/// What the checker's dictionary, holding `words`, may answer when asked
/// for every suggestion for `input` within `max_edit_distance` (see
/// `lookup_outcome`).
pub open spec fn dictionary_answer(
    words: Map<Seq<char>, usize>,
    input: Seq<char>,
    max_edit_distance: usize,
    r: Seq<SuggView>,
) -> bool {
    lookup_outcome(words, input, max_edit_distance, LOOKUP_MAX_RESULTS, DICTIONARY_COUNT_THRESHOLD as int, true, r)
}

/// How much of the dictionary a lookup returns.
#[derive(Clone, Copy, Debug, PartialEq, Eq, Structural)]
pub enum LookupVerbosity {
    /// The most frequent of the nearest suggestions.
    Top,
    /// Every suggestion at the nearest distance found.
    Closest,
    /// Every suggestion within the distance.
    All,
}

/// Suggestions for `input` within `max_edit_distance`.
///
/// Trusted wrapper over `SymSpell::lookup`. Its documentation and source:
/// the input is lower-cased (which leaves Khmer text as it is); every
/// suggestion is a dictionary word with its stored count and its optimal
/// string alignment distance from the input, at most the given distance
/// (an exact match is reported as the lower-cased input, which is the
/// stored word); suggestions are sorted by distance and then falling
/// count and cut to `max_results`; and with `Verbosity::All` every word
/// within the distance whose count reaches the dictionary's threshold is
/// found (words of 2^31 characters or more get no lookup entries) before
/// the cut, so a cut result leaves out only words ranked no better than
/// its last suggestion, given
/// that the dictionary was made without per-length thresholds (which leave
/// short words unindexed) and with a distance shorter than its prefix.
/// This contract covers lookups without per-length thresholds of their own
/// and without case preservation, at distances no greater than the prefix length (the
/// source subtracts the one from the other); it does not say which of
/// equally ranked suggestions come first (the source sorts them unstably).
#[verifier::external_body]
pub(crate) fn lookup_all(
    s: &SymSpell,
    input: &str,
    verbosity: LookupVerbosity,
    max_edit_distance: usize,
    term_length_threshold: &Option<Vec<usize>>,
    max_results: usize,
    preserve_case: bool,
) -> (r: Vec<SuggestionRec>)
    requires
        max_edit_distance <= symspell_max_distance(*s),
        max_edit_distance <= symspell_prefix_length(*s),
        term_length_threshold is None,
        !preserve_case,
    ensures
        lookup_outcome(
            symspell_words(*s),
            input@,
            max_edit_distance,
            max_results,
            symspell_count_threshold(*s),
            verbosity == LookupVerbosity::All && symspell_length_thresholds(*s) is None && symspell_max_distance(*s)
                < symspell_prefix_length(*s),
            sugg_views(r@),
        ),
{
    let v = match verbosity {
        LookupVerbosity::Top => Verbosity::Top,
        LookupVerbosity::Closest => Verbosity::Closest,
        LookupVerbosity::All => Verbosity::All,
    };
    s.lookup(input, v, max_edit_distance, term_length_threshold, Some(max_results), preserve_case).into_iter().map(
        |x| SuggestionRec { term: x.term, distance: x.distance, count: x.count },
    ).collect()
}

/// The order suggestions are ranked in: nearer first, then longer, then
/// more frequent, then by code point.
pub open spec fn sugg_le(a: SuggView, b: SuggView) -> bool {
    ||| a.1 < b.1
    ||| (a.1 == b.1 && a.0.len() > b.0.len())
    ||| (a.1 == b.1 && a.0.len() == b.0.len() && a.2 > b.2)
    ||| (a.1 == b.1 && a.0.len() == b.0.len() && a.2 == b.2 && chars_le(a.0, b.0))
}

/// `sugg_le` as a relation value.
pub open spec fn sugg_order() -> spec_fn(SuggView, SuggView) -> bool {
    |a: SuggView, b: SuggView| sugg_le(a, b)
}

/// The ranking of suggestions is a total order.
pub proof fn lemma_sugg_order_total()
    ensures
        total_ordering(sugg_order()),
{
    lemma_chars_order_total();
    assert forall|x: SuggView| #[trigger] sugg_order()(x, x) by {
        assert(chars_order()(x.0, x.0));
    }
    assert forall|x: SuggView, y: SuggView| #[trigger] sugg_order()(x, y) && #[trigger] sugg_order()(y, x) implies x
        == y by {
        assert(chars_order()(x.0, y.0) && chars_order()(y.0, x.0));
    }
    assert forall|x: SuggView, y: SuggView, z: SuggView| #[trigger] sugg_order()(x, y) && #[trigger] sugg_order()(
        y,
        z,
    ) implies sugg_order()(x, z) by {
        if x.1 == y.1 && y.1 == z.1 && x.0.len() == y.0.len() && y.0.len() == z.0.len() && x.2 == y.2 && y.2 == z.2 {
            assert(chars_order()(x.0, y.0) && chars_order()(y.0, z.0));
        }
    }
    assert forall|x: SuggView, y: SuggView| #[trigger] sugg_order()(x, y) || #[trigger] sugg_order()(y, x) by {
        assert(chars_order()(x.0, y.0) || chars_order()(y.0, x.0));
    }
}

/// Whether suggestion `a` ranks no lower than `b`.
fn sugg_le_exec(a: &SuggestionRec, b: &SuggestionRec) -> (r: bool)
    ensures
        r == sugg_le(a@, b@),
{
    if a.distance != b.distance {
        return a.distance < b.distance;
    }
    let ac = chars_of(a.term.as_str());
    let bc = chars_of(b.term.as_str());
    if ac.len() != bc.len() {
        return ac.len() > bc.len();
    }
    if a.count != b.count {
        return a.count > b.count;
    }
    chars_le_exec(ac.as_slice(), bc.as_slice())
}

/// Sorts suggestions by rank.
pub fn sort_suggestions(v: Vec<SuggestionRec>) -> (out: Vec<SuggestionRec>)
    ensures
        sugg_views(out@) == sugg_views(v@).sort_by(sugg_order()),
{
    let ghost input = sugg_views(v@);
    let mut out: Vec<SuggestionRec> = Vec::new();
    let rest = v;
    proof {
        lemma_sugg_order_total();
    }
    let n = rest.len();
    assert(sugg_views(out@) =~= input.take(0));
    for k in 0..n
        invariant
            n == rest@.len(),
            input == sugg_views(rest@),
            total_ordering(sugg_order()),
            sorted_by(sugg_views(out@), sugg_order()),
            sugg_views(out@).to_multiset() == input.take(k as int).to_multiset(),
    {
        let x = rest[k].duplicate();
        assert(x@ == input[k as int]);
        let mut p: usize = 0;
        while p < out.len() && sugg_le_exec(&out[p], &x)
            invariant
                p <= out@.len(),
                forall|q: int| 0 <= q < p ==> sugg_le(#[trigger] out@[q]@, x@),
            decreases out@.len() - p,
        {
            p = p + 1;
        }
        let ghost before = sugg_views(out@);
        proof {
            assert forall|q: int| p <= q < before.len() implies sugg_le(x@, #[trigger] before[q]) by {
                assert(!sugg_order()(before[p as int], x@));
                assert(sugg_order()(before[p as int], x@) || sugg_order()(x@, before[p as int]));
                if q > p {
                    assert(sugg_order()(before[p as int], before[q]));
                    assert(sugg_order()(x@, before[p as int]) && sugg_order()(before[p as int], before[q]));
                }
            }
            assert forall|q: int| 0 <= q < p implies sugg_le(#[trigger] before[q], x@) by {
                assert(before[q] == out@[q]@);
            }
        }
        out.insert(p, x);
        proof {
            let after = sugg_views(out@);
            assert(after =~= before.insert(p as int, x@));
            assert forall|i: int, j: int| 0 <= i < j < after.len() implies #[trigger] sugg_order()(
                after[i],
                after[j],
            ) by {
                if i < p && j < p + 1 {
                    if j == p {
                    } else {
                        assert(sugg_order()(before[i], before[j]));
                    }
                } else if i < p {
                    assert(sugg_order()(before[i], before[j - 1]));
                } else if i == p {
                } else {
                    assert(sugg_order()(before[i - 1], before[j - 1]));
                }
            }
            vstd::seq_lib::to_multiset_insert(before, p as int, x@);
            assert(input.take(k + 1) =~= input.take(k as int).push(input[k as int]));
            vstd::seq_lib::to_multiset_build(input.take(k as int), input[k as int]);
        }
    }
    proof {
        assert(input.take(n as int) =~= input);
        input.lemma_sort_by_ensures(sugg_order());
        vstd::seq_lib::lemma_sorted_unique(sugg_views(out@), input.sort_by(sugg_order()), sugg_order());
    }
    out
}

/// Whether some suggestion in `s` has term `t`.
pub open spec fn has_term(s: Seq<SuggView>, t: Seq<char>) -> bool {
    exists|k: int| 0 <= k < s.len() && (#[trigger] s[k]).0 == t
}

/// `s` with every suggestion whose term came earlier dropped.
pub open spec fn dedup_terms(s: Seq<SuggView>) -> Seq<SuggView>
    decreases s.len(),
{
    if s.len() == 0 {
        s
    } else if has_term(s.drop_last(), s.last().0) {
        dedup_terms(s.drop_last())
    } else {
        dedup_terms(s.drop_last()).push(s.last())
    }
}

proof fn lemma_dedup_terms_has(s: Seq<SuggView>, t: Seq<char>)
    ensures
        has_term(dedup_terms(s), t) == has_term(s, t),
    decreases s.len(),
{
    if s.len() > 0 {
        let p = s.drop_last();
        lemma_dedup_terms_has(p, t);
        lemma_dedup_terms_has(p, s.last().0);
        if has_term(s, t) {
            let k = choose|k: int| 0 <= k < s.len() && (#[trigger] s[k]).0 == t;
            if k < s.len() - 1 {
                assert(p[k] == s[k]);
                assert(has_term(p, t));
            }
        }
        if has_term(p, t) {
            let k = choose|k: int| 0 <= k < p.len() && (#[trigger] p[k]).0 == t;
            assert(s[k] == p[k]);
        }
        let d = dedup_terms(p);
        if !has_term(p, s.last().0) {
            if has_term(d.push(s.last()), t) {
                let k = choose|k: int| 0 <= k < d.len() + 1 && (#[trigger] d.push(s.last())[k]).0 == t;
                if k < d.len() {
                    assert(d[k] == d.push(s.last())[k]);
                    assert(has_term(d, t));
                } else {
                    assert(s[s.len() - 1].0 == t);
                }
            }
            if has_term(d, t) {
                let k = choose|k: int| 0 <= k < d.len() && (#[trigger] d[k]).0 == t;
                assert(d.push(s.last())[k] == d[k]);
            }
            if has_term(s, t) && !has_term(p, t) {
                assert(d.push(s.last())[d.len() as int] == s.last());
            }
        } else {
            if has_term(s, t) && !has_term(p, t) {
                let k = choose|k: int| 0 <= k < s.len() && (#[trigger] s[k]).0 == t;
                assert(k == s.len() - 1);
            }
        }
    }
}

/// Keeps the first suggestion of each term.
pub fn dedup_suggestions(v: &Vec<SuggestionRec>) -> (out: Vec<SuggestionRec>)
    ensures
        sugg_views(out@) == dedup_terms(sugg_views(v@)),
{
    let ghost sv = sugg_views(v@);
    let mut out: Vec<SuggestionRec> = Vec::new();
    for i in 0..v.len()
        invariant
            sv == sugg_views(v@),
            sugg_views(out@) == dedup_terms(sv.take(i as int)),
    {
        let ghost pre = sv.take(i as int);
        assert(sv.take(i + 1).drop_last() =~= pre);
        assert(sv.take(i + 1).last() == v@[i as int]@);
        let term = chars_of(v[i].term.as_str());
        let mut seen = false;
        for j in 0..out.len()
            invariant
                sugg_views(out@) == dedup_terms(pre),
                i < v@.len(),
                term@ == v@[i as int].term@,
                seen == has_term(sugg_views(out@).take(j as int), term@),
        {
            let other = chars_of(out[j].term.as_str());
            let same = crate::text::chars_eq(other.as_slice(), term.as_slice());
            proof {
                let o = sugg_views(out@);
                assert(o.take(j + 1) =~= o.take(j as int).push(o[j as int]));
                if has_term(o.take(j + 1), term@) && !has_term(o.take(j as int), term@) {
                    let k = choose|k: int| 0 <= k < j + 1 && (#[trigger] o.take(j + 1)[k]).0 == term@;
                    if k < j {
                        assert(o.take(j as int)[k] == o.take(j + 1)[k]);
                    }
                }
                if has_term(o.take(j as int), term@) {
                    let k = choose|k: int| 0 <= k < j && (#[trigger] o.take(j as int)[k]).0 == term@;
                    assert(o.take(j + 1)[k] == o.take(j as int)[k]);
                }
                if same {
                    assert(o.take(j + 1)[j as int].0 == term@);
                }
            }
            seen = seen || same;
        }
        proof {
            assert(sugg_views(out@).take(out@.len() as int) =~= sugg_views(out@));
            lemma_dedup_terms_has(pre, term@);
        }
        if !seen {
            out.push(v[i].duplicate());
            proof {
                assert(sugg_views(out@) =~= dedup_terms(pre).push(v@[i as int]@));
            }
        }
    }
    assert(sv.take(v@.len() as int) =~= sv);
    out
}

/// The suggestions worth showing for a window: a real edit (distance
/// above 0) of a word seen more than once, and, for a window joining
/// several tokens, longer than its longest token.
pub open spec fn keep_plausible(s: Seq<SuggView>, single_token: bool, longest: nat) -> Seq<SuggView>
    decreases s.len(),
{
    if s.len() == 0 {
        s
    } else {
        let p = keep_plausible(s.drop_last(), single_token, longest);
        let x = s.last();
        if x.1 > 0 && x.2 > 1 && (single_token || x.0.len() > longest) {
            p.push(x)
        } else {
            p
        }
    }
}

/// The suggestions of `s` at distance `d`, in order.
pub open spec fn at_distance(s: Seq<SuggView>, d: usize) -> Seq<SuggView>
    decreases s.len(),
{
    if s.len() == 0 {
        s
    } else if s.last().1 == d {
        at_distance(s.drop_last(), d).push(s.last())
    } else {
        at_distance(s.drop_last(), d)
    }
}

/// `a * k`, capped at `usize::MAX`.
pub open spec fn sat_mul(a: usize, k: usize) -> int {
    if a * k > usize::MAX {
        usize::MAX as int
    } else {
        a * k
    }
}

/// A distance-two best suggestion is trusted only when it is frequent and
/// far more frequent than every other distance-two suggestion.
pub open spec fn confident_at_two(s: Seq<SuggView>) -> bool {
    &&& s.len() > 0
    &&& s[0].1 == GUARDED_MAX_EDIT_DISTANCE
    &&& s[0].2 >= GUARDED_MIN_FREQUENCY
    &&& forall|k: int|
        1 <= k < s.len() && (#[trigger] s[k]).1 == GUARDED_MAX_EDIT_DISTANCE ==> s[0].2 >= sat_mul(
            s[k].2,
            GUARDED_FREQUENCY_LEAD,
        )
}

/// The ranked, de-duplicated suggestions at the best distance.
pub open spec fn window_choice(raw: Seq<SuggView>, single_token: bool, longest: nat) -> Seq<SuggView> {
    let uniq = dedup_terms(keep_plausible(raw, single_token, longest).sort_by(sugg_order()));
    if uniq.len() == 0 {
        uniq
    } else {
        at_distance(uniq, uniq[0].1)
    }
}

/// What a window shows, given what the dictionary returned for it: up to
/// three suggestions at the best distance, none when there is no plausible
/// suggestion or an unconfident distance-two one.
pub open spec fn window_shown(raw: Seq<SuggView>, single_token: bool, longest: nat) -> Option<Seq<SuggView>> {
    let c = window_choice(raw, single_token, longest);
    if c.len() == 0 {
        None
    } else if c[0].1 == GUARDED_MAX_EDIT_DISTANCE && !confident_at_two(c) {
        None
    } else {
        Some(
            if c.len() <= MAX_SUGGESTIONS_PER_ISSUE {
                c
            } else {
                c.take(MAX_SUGGESTIONS_PER_ISSUE as int)
            },
        )
    }
}

/// Ranks what the dictionary returned for one window (see `window_shown`).
pub fn rank_window(raw: Vec<SuggestionRec>, single_token: bool, longest: usize) -> (r: Option<Vec<SuggestionRec>>)
    ensures
        match r {
            Some(v) => window_shown(sugg_views(raw@), single_token, longest as nat) == Some(sugg_views(v@)),
            None => window_shown(sugg_views(raw@), single_token, longest as nat) is None,
        },
{
    let ghost rv = sugg_views(raw@);
    let mut kept: Vec<SuggestionRec> = Vec::new();
    for i in 0..raw.len()
        invariant
            rv == sugg_views(raw@),
            sugg_views(kept@) == keep_plausible(rv.take(i as int), single_token, longest as nat),
    {
        assert(rv.take(i + 1).drop_last() =~= rv.take(i as int));
        assert(rv.take(i + 1).last() == raw@[i as int]@);
        let x = &raw[i];
        let len = chars_of(x.term.as_str()).len();
        if x.distance > 0 && x.count > 1 && (single_token || len > longest) {
            kept.push(x.duplicate());
        }
        assert(sugg_views(kept@) =~= keep_plausible(rv.take(i + 1), single_token, longest as nat));
    }
    assert(rv.take(raw@.len() as int) =~= rv);
    let sorted = sort_suggestions(kept);
    let uniq = dedup_suggestions(&sorted);
    if uniq.len() == 0 {
        return None;
    }
    let best = uniq[0].distance;
    let ghost uv = sugg_views(uniq@);
    let mut chosen: Vec<SuggestionRec> = Vec::new();
    for i in 0..uniq.len()
        invariant
            uv == sugg_views(uniq@),
            sugg_views(chosen@) == at_distance(uv.take(i as int), best),
    {
        assert(uv.take(i + 1).drop_last() =~= uv.take(i as int));
        assert(uv.take(i + 1).last() == uniq@[i as int]@);
        if uniq[i].distance == best {
            chosen.push(uniq[i].duplicate());
        }
        assert(sugg_views(chosen@) =~= at_distance(uv.take(i + 1), best));
    }
    assert(uv.take(uniq@.len() as int) =~= uv);
    let ghost cv = sugg_views(chosen@);
    proof {
        assert(uv[0].1 == best);
        assert(uv.take(1).drop_last() =~= Seq::<SuggView>::empty());
        assert(uv.take(1).last() == uv[0]);
        assert(at_distance(uv.take(1).drop_last(), best) =~= Seq::<SuggView>::empty());
        assert(at_distance(uv.take(1), best) =~= seq![uv[0]]);
        lemma_at_distance_prefix(uv, best, 1);
    }
    if chosen[0].distance == GUARDED_MAX_EDIT_DISTANCE {
        let top = chosen[0].count;
        let mut confident = top >= GUARDED_MIN_FREQUENCY;
        for k in 1..chosen.len()
            invariant
                cv == sugg_views(chosen@),
                cv.len() > 0,
                top == cv[0].2,
                cv[0].1 == GUARDED_MAX_EDIT_DISTANCE,
                confident == (top >= GUARDED_MIN_FREQUENCY && forall|q: int|
                    1 <= q < k && (#[trigger] cv[q]).1 == GUARDED_MAX_EDIT_DISTANCE ==> cv[0].2 >= sat_mul(
                        cv[q].2,
                        GUARDED_FREQUENCY_LEAD,
                    )),
        {
            assert(cv[k as int] == chosen@[k as int]@);
            if chosen[k].distance == GUARDED_MAX_EDIT_DISTANCE {
                let c = chosen[k].count;
                let lead: usize = if c > usize::MAX / GUARDED_FREQUENCY_LEAD {
                    usize::MAX
                } else {
                    c * GUARDED_FREQUENCY_LEAD
                };
                proof {
                    if c > usize::MAX / GUARDED_FREQUENCY_LEAD {
                        assert(c * GUARDED_FREQUENCY_LEAD > usize::MAX);
                    }
                    assert(lead == sat_mul(c, GUARDED_FREQUENCY_LEAD));
                }
                confident = confident && top >= lead;
            }
        }
        if !confident {
            return None;
        }
    }
    if chosen.len() > MAX_SUGGESTIONS_PER_ISSUE {
        chosen.truncate(MAX_SUGGESTIONS_PER_ISSUE);
        assert(sugg_views(chosen@) =~= cv.take(MAX_SUGGESTIONS_PER_ISSUE as int));
    }
    Some(chosen)
}

proof fn lemma_at_distance_prefix(s: Seq<SuggView>, d: usize, k: int)
    requires
        1 <= k <= s.len(),
        at_distance(s.take(k), d).len() >= 1,
    ensures
        at_distance(s, d).len() >= 1,
        at_distance(s, d)[0] == at_distance(s.take(k), d)[0],
    decreases s.len() - k,
{
    if k < s.len() {
        assert(s.drop_last().take(k) =~= s.take(k));
        lemma_at_distance_prefix(s.drop_last(), d, k);
    } else {
        assert(s.take(k) =~= s);
    }
}

/// What the checker reads of a lexicon entry: its Khmer target and how
/// often it occurs.
#[derive(Clone, Debug)]
pub struct LexiconEntry {
    pub target: String,
    pub frequency: u32,
}

/// Frequencies of the lexicon's Khmer targets: a target's first entry
/// gives it its frequency (at least 1); later entries can only raise it.
pub open spec fn entry_freqs(es: Seq<LexiconEntry>) -> Map<Seq<char>, usize>
    decreases es.len(),
{
    if es.len() == 0 {
        Map::empty()
    } else {
        let m = entry_freqs(es.drop_last());
        let t = es.last().target@;
        let f = es.last().frequency as usize;
        if !khmer_word(t) {
            m
        } else if m.contains_key(t) {
            m.insert(t, if m[t] >= f { m[t] } else { f })
        } else {
            m.insert(t, if f >= 1 { f } else { 1 })
        }
    }
}

/// The frequencies with every saved Khmer word set to the saved-word
/// frequency.
pub open spec fn with_saved(m: Map<Seq<char>, usize>, ws: Seq<Seq<char>>) -> Map<Seq<char>, usize>
    decreases ws.len(),
{
    if ws.len() == 0 {
        m
    } else {
        let m2 = with_saved(m, ws.drop_last());
        if khmer_word(ws.last()) {
            m2.insert(ws.last(), SAVED_WORD_FREQUENCY)
        } else {
            m2
        }
    }
}

/// The words the checker knows, with their frequencies.
pub struct WordFrequencies {
    words: Vec<String>,
    counts: StringHashMap<usize>,
}

impl View for WordFrequencies {
    type V = Map<Seq<char>, usize>;

    closed spec fn view(&self) -> Map<Seq<char>, usize> {
        self.counts@
    }
}

/// The characters of each string.
pub open spec fn str_views(v: Seq<String>) -> Seq<Seq<char>> {
    v.map_values(|w: String| w@)
}

impl WordFrequencies {
    /// The table is consistent: its word list holds each known word once,
    /// and every known word is Khmer.
    pub closed spec fn wf(&self) -> bool {
        let wv = str_views(self.words@);
        &&& wv.no_duplicates()
        &&& forall|i: int| 0 <= i < wv.len() ==> self.counts@.contains_key(#[trigger] wv[i])
        &&& forall|k: Seq<char>| #[trigger] self.counts@.contains_key(k) ==> wv.contains(k)
        &&& forall|k: Seq<char>| #[trigger] self.counts@.contains_key(k) ==> khmer_word(k)
    }

    /// A consistent table knows as many words as its list holds.
    proof fn lemma_dom_len(&self)
        requires
            self.wf(),
        ensures
            self@.dom().finite(),
            self@.dom().len() == self.words@.len(),
    {
        let wv = str_views(self.words@);
        assert(self@.dom() =~= wv.to_set());
        wv.unique_seq_to_set();
    }

    /// An empty table.
    fn empty() -> (f: Self)
        ensures
            f.wf(),
            f@ == Map::<Seq<char>, usize>::empty(),
            f.words@.len() == 0,
    {
        let f = WordFrequencies { words: Vec::new(), counts: StringHashMap::new() };
        assert(str_views(f.words@) =~= Seq::<Seq<char>>::empty());
        f
    }

    /// Sets the frequency of Khmer word `word`.
    fn set(&mut self, word: &String, count: usize)
        requires
            old(self).wf(),
            khmer_word(word@),
        ensures
            final(self).wf(),
            final(self)@ == old(self)@.insert(word@, count),
            final(self).words@.len() <= old(self).words@.len() + 1,
    {
        let ghost wv = str_views(self.words@);
        if !self.counts.contains_key(word.as_str()) {
            self.words.push(word.clone());
            proof {
                let nv = str_views(self.words@);
                assert(nv =~= wv.push(word@));
                assert(!wv.contains(word@));
                assert forall|i: int, j: int| 0 <= i < j < nv.len() implies nv[i] != nv[j] by {
                    if j == nv.len() - 1 {
                        assert(self.counts@.contains_key(wv[i]));
                    }
                }
            }
        }
        self.counts.insert(word.clone(), count);
        proof {
            let nv = str_views(self.words@);
            assert forall|k: Seq<char>| #[trigger] self.counts@.contains_key(k) implies nv.contains(k) by {
                if k == word@ {
                    if wv.contains(word@) {
                        let i = choose|i: int| 0 <= i < wv.len() && #[trigger] wv[i] == word@;
                        assert(nv[i] == wv[i]);
                    } else {
                        assert(nv[nv.len() - 1] == word@);
                    }
                } else {
                    let i = choose|i: int| 0 <= i < wv.len() && #[trigger] wv[i] == k;
                    assert(nv[i] == wv[i]);
                }
            }
        }
    }

    /// Whether `word` is known.
    pub fn contains(&self, word: &str) -> (b: bool)
        ensures
            b == self@.contains_key(word@),
    {
        self.counts.contains_key(word)
    }

    /// How many words are known.
    pub fn len(&self) -> (n: usize)
        requires
            self.wf(),
        ensures
            n == self@.dom().len(),
    {
        proof {
            let wv = str_views(self.words@);
            assert(self@.dom() =~= wv.to_set());
            wv.unique_seq_to_set();
        }
        self.words.len()
    }
}

/// The checker's word frequencies: the lexicon's Khmer targets, then the
/// user's saved Khmer words at the saved-word frequency.
pub fn target_frequencies(entries: &[LexiconEntry], saved_words: &[String]) -> (f: WordFrequencies)
    ensures
        f.wf(),
        f@ == with_saved(entry_freqs(entries@), str_views(saved_words@)),
        f@.dom().len() <= entries@.len() + saved_words@.len(),
{
    let mut f = WordFrequencies::empty();
    for i in 0..entries.len()
        invariant
            f.wf(),
            f@ == entry_freqs(entries@.take(i as int)),
            f.words@.len() <= i,
    {
        assert(entries@.take(i + 1).drop_last() =~= entries@.take(i as int));
        assert(entries@.take(i + 1).last() == entries@[i as int]);
        let e = &entries[i];
        if is_khmer_word(e.target.as_str()) {
            let freq = e.frequency as usize;
            let count = match f.counts.get(e.target.as_str()) {
                Some(current) => if *current >= freq { *current } else { freq },
                None => if freq >= 1 { freq } else { 1 },
            };
            f.set(&e.target, count);
        }
    }
    assert(entries@.take(entries@.len() as int) =~= entries@);
    let ghost base = f@;
    let ghost sv = str_views(saved_words@);
    for i in 0..saved_words.len()
        invariant
            f.wf(),
            sv == str_views(saved_words@),
            f@ == with_saved(base, sv.take(i as int)),
            f.words@.len() <= entries@.len() + i,
    {
        assert(sv.take(i + 1).drop_last() =~= sv.take(i as int));
        assert(sv.take(i + 1).last() == saved_words@[i as int]@);
        if is_khmer_word(saved_words[i].as_str()) {
            f.set(&saved_words[i], SAVED_WORD_FREQUENCY);
        }
    }
    assert(sv.take(saved_words@.len() as int) =~= sv);
    proof {
        f.lemma_dom_len();
    }
    f
}

/// A dictionary holding exactly the known words with their frequencies.
pub fn build_dictionary(freqs: &WordFrequencies) -> (dict: SymSpell)
    requires
        freqs.wf(),
        freqs@.dom().len() <= u32::MAX,
    ensures
        symspell_words(dict) == freqs@,
        checker_dictionary(dict),
{
    let mut dict = new_dictionary(DICTIONARY_MAX_EDIT_DISTANCE, None, DICTIONARY_PREFIX_LENGTH, DICTIONARY_COUNT_THRESHOLD);
    let ghost wv = str_views(freqs.words@);
    proof {
        freqs.lemma_dom_len();
    }
    for i in 0..freqs.words.len()
        invariant
            freqs.wf(),
            wv == str_views(freqs.words@),
            wv.len() <= u32::MAX,
            symspell_words(dict) == Map::new(|k: Seq<char>| wv.take(i as int).contains(k), |k: Seq<char>| freqs@[k]),
            checker_dictionary(dict),
    {
        let w = &freqs.words[i];
        assert(wv[i as int] == w@);
        assert(freqs@.contains_key(w@));
        let count = match freqs.counts.get(w.as_str()) {
            Some(c) => *c,
            None => 0,
        };
        proof {
            if wv.take(i as int).contains(w@) {
                let j = choose|j: int| 0 <= j < i && #[trigger] wv.take(i as int)[j] == w@;
                assert(wv[j] == wv[i as int]);
            }
            assert(!symspell_words(dict).contains_key(w@));
            let before = wv.take(i as int);
            assert(before.no_duplicates()) by {
                assert forall|a: int, b: int| 0 <= a < b < before.len() implies before[a] != before[b] by {
                    assert(before[a] == wv[a] && before[b] == wv[b]);
                }
            }
            assert(symspell_words(dict).dom() =~= before.to_set());
            before.unique_seq_to_set();
        }
        add_dictionary_word(&mut dict, w.as_str(), count);
        proof {
            assert forall|k: Seq<char>| #[trigger] wv.take(i + 1).contains(k) == (wv.take(i as int).contains(k) || k
                == w@) by {
                if wv.take(i + 1).contains(k) {
                    let j = choose|j: int| 0 <= j < i + 1 && #[trigger] wv.take(i + 1)[j] == k;
                    if j < i {
                        assert(wv.take(i as int)[j] == k);
                    }
                }
                if wv.take(i as int).contains(k) {
                    let j = choose|j: int| 0 <= j < i && #[trigger] wv.take(i as int)[j] == k;
                    assert(wv.take(i + 1)[j] == k);
                }
                if k == w@ {
                    assert(wv.take(i + 1)[i as int] == k);
                }
            }
            assert(symspell_words(dict) =~= Map::new(
                |k: Seq<char>| wv.take(i + 1).contains(k),
                |k: Seq<char>| freqs@[k],
            ));
        }
    }
    proof {
        assert(wv.take(wv.len() as int) =~= wv);
        assert(symspell_words(dict) =~= freqs@);
    }
    dict
}

/// Characters in the first `k` tokens.
pub open spec fn tokens_len(ts: Seq<Seq<char>>, k: int) -> int
    decreases k,
{
    if k <= 0 {
        0
    } else {
        tokens_len(ts, k - 1) + ts[k - 1].len()
    }
}

/// Tokens `s..e` joined.
pub open spec fn joined(ts: Seq<Seq<char>>, s: int, e: int) -> Seq<char>
    decreases e - s,
{
    if e <= s {
        Seq::empty()
    } else {
        joined(ts, s, e - 1) + ts[e - 1]
    }
}

/// Length of the longest of tokens `s..e`.
pub open spec fn longest_token(ts: Seq<Seq<char>>, s: int, e: int) -> nat
    decreases e - s,
{
    if e <= s {
        0
    } else if ts[e - 1].len() > longest_token(ts, s, e - 1) {
        ts[e - 1].len()
    } else {
        longest_token(ts, s, e - 1)
    }
}

/// The windows that are looked up: one to four tokens joining into at
/// least four characters that are neither a known word nor a compound of
/// known words.
pub open spec fn checked_window(ts: Seq<Seq<char>>, known: Map<Seq<char>, usize>, s: int, e: int) -> bool {
    &&& 0 <= s < e <= ts.len()
    &&& e - s <= MAX_WINDOW_TOKENS
    &&& joined(ts, s, e).len() >= MIN_SOURCE_CHARS
    &&& !known.contains_key(joined(ts, s, e))
    &&& !compound_of_known(joined(ts, s, e), known)
}

/// The lookup distance of a window: two for a long multi-token window, one
/// otherwise.
pub open spec fn lookup_distance(ts: Seq<Seq<char>>, s: int, e: int) -> usize {
    if e - s > 1 && joined(ts, s, e).len() >= GUARDED_MIN_SOURCE_CHARS {
        GUARDED_MAX_EDIT_DISTANCE
    } else {
        MAX_EDIT_DISTANCE
    }
}

/// A flagged window with the values it is ranked by.
#[derive(Debug)]
pub struct RankedIssue {
    pub issue: SpellIssue,
    pub best_distance: usize,
    pub best_length: usize,
    pub length_gap: usize,
    pub token_count: usize,
    pub best_frequency: usize,
}

/// `r` is the issue for window `s..e` of a run starting at `run_start`,
/// when the dictionary returned `raw` for the window.
pub open spec fn issue_for_window(
    r: RankedIssue,
    run_start: int,
    ts: Seq<Seq<char>>,
    known: Map<Seq<char>, usize>,
    s: int,
    e: int,
    raw: Seq<SuggView>,
) -> bool {
    let source = joined(ts, s, e);
    &&& checked_window(ts, known, s, e)
    &&& dictionary_answer(known, source, lookup_distance(ts, s, e), raw)
    &&& window_shown(raw, e - s == 1, longest_token(ts, s, e)) matches Some(shown) && {
        &&& str_views(r.issue.suggestions@) == shown.map_values(|x: SuggView| x.0)
        &&& r.best_distance == shown[0].1
        &&& r.best_length == shown[0].0.len()
        &&& r.best_frequency == shown[0].2
        &&& r.length_gap == if shown[0].0.len() >= source.len() {
            shown[0].0.len() - source.len()
        } else {
            source.len() - shown[0].0.len()
        }
    }
    &&& r.issue.start == run_start + tokens_len(ts, s)
    &&& r.issue.end == run_start + tokens_len(ts, e)
    &&& r.issue.source@ == source
    &&& r.issue.kind == SpellIssueKind::Error
    &&& r.issue.confidence_millis is None
    &&& r.token_count == e - s
}

/// Every suggestion in `s` is a word of `words` within `d` edits of
/// `input`.
pub open spec fn all_near(s: Seq<SuggView>, words: Map<Seq<char>, usize>, input: Seq<char>, d: usize) -> bool {
    forall|i: int|
        0 <= i < s.len() ==> words.contains_key((#[trigger] s[i]).0) && osa_distance(input, s[i].0) <= d
}

proof fn lemma_keep_plausible_near(s: Seq<SuggView>, single_token: bool, longest: nat, words: Map<Seq<char>, usize>, input: Seq<char>, d: usize)
    requires
        all_near(s, words, input, d),
    ensures
        all_near(keep_plausible(s, single_token, longest), words, input, d),
    decreases s.len(),
{
    if s.len() > 0 {
        let p = s.drop_last();
        assert forall|i: int| 0 <= i < p.len() implies words.contains_key((#[trigger] p[i]).0) && osa_distance(input, p[i].0) <= d by {
            assert(p[i] == s[i]);
        }
        lemma_keep_plausible_near(p, single_token, longest, words, input, d);
        assert(s.last() == s[s.len() - 1]);
    }
}

proof fn lemma_at_distance_near(s: Seq<SuggView>, k: usize, words: Map<Seq<char>, usize>, input: Seq<char>, d: usize)
    requires
        all_near(s, words, input, d),
    ensures
        all_near(at_distance(s, k), words, input, d),
    decreases s.len(),
{
    if s.len() > 0 {
        let p = s.drop_last();
        assert forall|i: int| 0 <= i < p.len() implies words.contains_key((#[trigger] p[i]).0) && osa_distance(input, p[i].0) <= d by {
            assert(p[i] == s[i]);
        }
        lemma_at_distance_near(p, k, words, input, d);
        assert(s.last() == s[s.len() - 1]);
    }
}

/// Dropping repeated terms keeps every suggestion near.
pub proof fn lemma_dedup_terms_near(s: Seq<SuggView>, words: Map<Seq<char>, usize>, input: Seq<char>, d: usize)
    requires
        all_near(s, words, input, d),
    ensures
        all_near(dedup_terms(s), words, input, d),
    decreases s.len(),
{
    if s.len() > 0 {
        let p = s.drop_last();
        assert forall|i: int| 0 <= i < p.len() implies words.contains_key((#[trigger] p[i]).0) && osa_distance(input, p[i].0) <= d by {
            assert(p[i] == s[i]);
        }
        lemma_dedup_terms_near(p, words, input, d);
        assert(s.last() == s[s.len() - 1]);
    }
}

proof fn lemma_sorted_near(s: Seq<SuggView>, words: Map<Seq<char>, usize>, input: Seq<char>, d: usize)
    requires
        all_near(s, words, input, d),
    ensures
        all_near(s.sort_by(sugg_order()), words, input, d),
{
    broadcast use vstd::seq_lib::group_to_multiset_ensures;
    lemma_sugg_order_total();
    s.lemma_sort_by_ensures(sugg_order());
    let t = s.sort_by(sugg_order());
    assert forall|i: int| 0 <= i < t.len() implies words.contains_key((#[trigger] t[i]).0) && osa_distance(input, t[i].0) <= d by {
        assert(t.to_multiset().count(t[i]) > 0);
        assert(s.contains(t[i]));
    }
}

/// Every suggestion shown for a flagged Khmer window is a dictionary word
/// within the window's edit distance (at most two) of the window's text.
pub proof fn law_flagged_suggestions_are_near_words(
    r: RankedIssue,
    run_start: int,
    ts: Seq<Seq<char>>,
    known: Map<Seq<char>, usize>,
    s: int,
    e: int,
    raw: Seq<SuggView>,
)
    requires
        issue_for_window(r, run_start, ts, known, s, e, raw),
        0 <= s < e <= ts.len(),
        forall|i: int| 0 <= i < ts.len() ==> khmer_word(#[trigger] ts[i]),
    ensures
        lookup_distance(ts, s, e) <= GUARDED_MAX_EDIT_DISTANCE,
        forall|i: int|
            0 <= i < r.issue.suggestions@.len() ==> known.contains_key((#[trigger] r.issue.suggestions@[i])@)
                && osa_distance(r.issue.source@, r.issue.suggestions@[i]@) <= lookup_distance(ts, s, e),
{
    let source = joined(ts, s, e);
    let d = lookup_distance(ts, s, e);
    lemma_joined_khmer(ts, s, e);
    assert(all_near(raw, known, source, d));
    let single = e - s == 1;
    let longest = longest_token(ts, s, e);
    lemma_keep_plausible_near(raw, single, longest, known, source, d);
    let kept = keep_plausible(raw, single, longest);
    lemma_sorted_near(kept, known, source, d);
    lemma_dedup_terms_near(kept.sort_by(sugg_order()), known, source, d);
    let uniq = dedup_terms(kept.sort_by(sugg_order()));
    if uniq.len() > 0 {
        lemma_at_distance_near(uniq, uniq[0].1, known, source, d);
    }
    let c = window_choice(raw, single, longest);
    assert(all_near(c, known, source, d));
    let shown = window_shown(raw, single, longest)->0;
    assert(all_near(shown, known, source, d));
    assert(str_views(r.issue.suggestions@) == shown.map_values(|x: SuggView| x.0));
    assert(r.issue.source@ == source);
    assert forall|i: int| 0 <= i < r.issue.suggestions@.len() implies known.contains_key(
        (#[trigger] r.issue.suggestions@[i])@,
    ) && osa_distance(r.issue.source@, r.issue.suggestions@[i]@) <= d by {
        assert(str_views(r.issue.suggestions@).len() == shown.len());
        assert(str_views(r.issue.suggestions@)[i] == shown[i].0);
        assert(r.issue.suggestions@[i]@ == shown[i].0);
    }
}

proof fn lemma_tokens_len_mono(ts: Seq<Seq<char>>, a: int, b: int)
    requires
        0 <= a <= b,
    ensures
        tokens_len(ts, a) <= tokens_len(ts, b),
    decreases b - a,
{
    if a < b {
        lemma_tokens_len_mono(ts, a, b - 1);
    }
}

proof fn lemma_joined_khmer(ts: Seq<Seq<char>>, s: int, e: int)
    requires
        0 <= s < e <= ts.len(),
        forall|i: int| 0 <= i < ts.len() ==> khmer_word(#[trigger] ts[i]),
    ensures
        khmer_word(joined(ts, s, e)),
    decreases e - s,
{
    assert(khmer_word(ts[e - 1]));
    if e - 1 > s {
        lemma_joined_khmer(ts, s, e - 1);
        let a = joined(ts, s, e - 1);
        let b = ts[e - 1];
        assert forall|i: int| 0 <= i < (a + b).len() implies #[trigger] khmer_word_char((a + b)[i]) by {
            if i < a.len() {
                assert((a + b)[i] == a[i]);
            } else {
                assert((a + b)[i] == b[i - a.len()]);
            }
        }
    } else {
        assert(joined(ts, s, e - 1) =~= Seq::<char>::empty());
        assert(joined(ts, s, e) =~= ts[e - 1]);
    }
}

/// The terms of a list of suggestions.
pub fn suggestion_terms(v: Vec<SuggestionRec>) -> (terms: Vec<String>)
    ensures
        str_views(terms@) == sugg_views(v@).map_values(|x: SuggView| x.0),
{
    let mut terms: Vec<String> = Vec::new();
    for i in 0..v.len()
        invariant
            terms@.len() == i,
            i <= v@.len(),
            forall|k: int| 0 <= k < i ==> #[trigger] terms@[k]@ == v@[k].term@,
    {
        terms.push(v[i].term.clone());
    }
    assert(str_views(terms@) =~= sugg_views(v@).map_values(|x: SuggView| x.0));
    terms
}

/// The checked windows starting at token `s` and ending at tokens
/// `e..=me`, in order.
pub open spec fn run_row(ts: Seq<Seq<char>>, known: Map<Seq<char>, usize>, s: int, e: int, me: int) -> Seq<(int, int)>
    decreases me + 1 - e,
{
    if e > me {
        Seq::empty()
    } else {
        let rest = run_row(ts, known, s, e + 1, me);
        if checked_window(ts, known, s, e) {
            seq![(s, e)] + rest
        } else {
            rest
        }
    }
}

/// The checked windows starting at tokens `s..`, row by row.
pub open spec fn run_rows(ts: Seq<Seq<char>>, known: Map<Seq<char>, usize>, s: int) -> Seq<(int, int)>
    decreases ts.len() - s,
{
    if s >= ts.len() {
        Seq::empty()
    } else {
        let me = if s + MAX_WINDOW_TOKENS < ts.len() {
            s + MAX_WINDOW_TOKENS
        } else {
            ts.len() as int
        };
        run_row(ts, known, s, s + 1, me) + run_rows(ts, known, s + 1)
    }
}

/// Every checked window of a run, in the order it is looked up: by start,
/// then by end.
pub open spec fn run_windows(ts: Seq<Seq<char>>, known: Map<Seq<char>, usize>) -> Seq<(int, int)> {
    run_rows(ts, known, 0)
}

/// `out` is what the windows `ws` give when the `k`th was answered
/// `answers[k]`: one issue, in order, for each window whose answer shows a
/// suggestion.
pub open spec fn scan_matches(
    out: Seq<RankedIssue>,
    run_start: int,
    ts: Seq<Seq<char>>,
    known: Map<Seq<char>, usize>,
    ws: Seq<(int, int)>,
    answers: Seq<Seq<SuggView>>,
) -> bool
    decreases ws.len(),
{
    if ws.len() == 0 {
        out.len() == 0
    } else {
        let w = ws.last();
        let raw = answers[ws.len() - 1];
        if window_shown(raw, w.1 - w.0 == 1, longest_token(ts, w.0, w.1)) is Some {
            &&& out.len() > 0
            &&& issue_for_window(out.last(), run_start, ts, known, w.0, w.1, raw)
            &&& scan_matches(out.drop_last(), run_start, ts, known, ws.drop_last(), answers)
        } else {
            scan_matches(out, run_start, ts, known, ws.drop_last(), answers)
        }
    }
}

proof fn lemma_scan_matches_prefix(
    out: Seq<RankedIssue>,
    run_start: int,
    ts: Seq<Seq<char>>,
    known: Map<Seq<char>, usize>,
    ws: Seq<(int, int)>,
    a: Seq<Seq<SuggView>>,
    b: Seq<Seq<SuggView>>,
)
    requires
        ws.len() <= a.len(),
        ws.len() <= b.len(),
        forall|j: int| 0 <= j < ws.len() ==> a[j] == b[j],
        scan_matches(out, run_start, ts, known, ws, a),
    ensures
        scan_matches(out, run_start, ts, known, ws, b),
    decreases ws.len(),
{
    if ws.len() > 0 {
        assert(a[ws.len() - 1] == b[ws.len() - 1]);
        let w = ws.last();
        if window_shown(a[ws.len() - 1], w.1 - w.0 == 1, longest_token(ts, w.0, w.1)) is Some {
            lemma_scan_matches_prefix(out.drop_last(), run_start, ts, known, ws.drop_last(), a, b);
        } else {
            lemma_scan_matches_prefix(out, run_start, ts, known, ws.drop_last(), a, b);
        }
    }
}

/// `answers[k]` is an answer the dictionary may give for window `ws[k]`.
pub open spec fn answers_ok(
    ts: Seq<Seq<char>>,
    known: Map<Seq<char>, usize>,
    ws: Seq<(int, int)>,
    answers: Seq<Seq<SuggView>>,
) -> bool {
    &&& answers.len() == ws.len()
    &&& forall|k: int|
        0 <= k < ws.len() ==> dictionary_answer(
            known,
            joined(ts, ws[k].0, ws[k].1),
            lookup_distance(ts, ws[k].0, ws[k].1),
            #[trigger] answers[k],
        )
}

/// `out` is what scanning a run gives for some answers the dictionary may
/// give to its checked windows (see `run_windows`, `scan_matches`).
pub open spec fn scan_outcome(out: Seq<RankedIssue>, run_start: int, ts: Seq<Seq<char>>, known: Map<Seq<char>, usize>) -> bool {
    exists|answers: Seq<Seq<SuggView>>|
        #![trigger answers_ok(ts, known, run_windows(ts, known), answers)]
        answers_ok(ts, known, run_windows(ts, known), answers) && scan_matches(
            out,
            run_start,
            ts,
            known,
            run_windows(ts, known),
            answers,
        )
}

/// Looks every window of a segmented Khmer run up in the dictionary and
/// ranks what comes back: one issue, in window order, for each checked
/// window whose answer shows a suggestion (see `scan_outcome`).
pub fn scan_run(run_start: usize, tokens: &Vec<String>, freqs: &WordFrequencies, dict: &SymSpell) -> (out: Vec<
    RankedIssue,
>)
    requires
        freqs.wf(),
        symspell_words(*dict) == freqs@,
        checker_dictionary(*dict),
        forall|i: int| 0 <= i < tokens@.len() ==> khmer_word(#[trigger] tokens@[i]@),
        run_start + tokens_len(str_views(tokens@), tokens@.len() as int) <= usize::MAX,
    ensures
        scan_outcome(out@, run_start as int, str_views(tokens@), freqs@),
{
    let ghost ts = str_views(tokens@);
    let ghost known = freqs@;
    let ghost all = run_windows(ts, known);
    let n = tokens.len();
    let mut starts: Vec<usize> = Vec::new();
    let mut offset: usize = run_start;
    let mut token_chars: Vec<Vec<char>> = Vec::new();
    for k in 0..n
        invariant
            ts == str_views(tokens@),
            n == tokens@.len(),
            run_start + tokens_len(ts, n as int) <= usize::MAX,
            starts@.len() == k,
            token_chars@.len() == k,
            offset == run_start + tokens_len(ts, k as int),
            forall|q: int| 0 <= q < k ==> #[trigger] starts@[q] == run_start + tokens_len(ts, q),
            forall|q: int| 0 <= q < k ==> #[trigger] token_chars@[q]@ == ts[q],
    {
        starts.push(offset);
        let c = chars_of(tokens[k].as_str());
        assert(c@ == ts[k as int]);
        proof {
            lemma_tokens_len_mono(ts, k + 1, n as int);
        }
        offset = offset + c.len();
        token_chars.push(c);
    }
    starts.push(offset);
    let mut out: Vec<RankedIssue> = Vec::new();
    let ghost mut done: Seq<(int, int)> = Seq::empty();
    let ghost mut answers: Seq<Seq<SuggView>> = Seq::empty();
    assert(done + run_rows(ts, known, 0) =~= all);
    for start in 0..n
        invariant
            ts == str_views(tokens@),
            known == freqs@,
            all == run_windows(ts, known),
            n == tokens@.len(),
            freqs.wf(),
            symspell_words(*dict) == freqs@,
            checker_dictionary(*dict),
            forall|i: int| 0 <= i < tokens@.len() ==> khmer_word(#[trigger] tokens@[i]@),
            starts@.len() == n + 1,
            token_chars@.len() == n,
            forall|q: int| 0 <= q <= n ==> #[trigger] starts@[q] == run_start + tokens_len(ts, q),
            forall|q: int| 0 <= q < n ==> #[trigger] token_chars@[q]@ == ts[q],
            done + run_rows(ts, known, start as int) == all,
            answers_ok(ts, known, done, answers),
            scan_matches(out@, run_start as int, ts, known, done, answers),
    {
        let max_end = if n - start > MAX_WINDOW_TOKENS { start + MAX_WINDOW_TOKENS } else { n };
        let mut source: Vec<char> = Vec::new();
        let mut longest: usize = 0;
        let mut size: usize = 1;
        assert(joined(ts, start as int, start as int) =~= Seq::<char>::empty());
        let ghost tail = run_rows(ts, known, start + 1);
        assert(done + run_row(ts, known, start as int, start + 1, max_end as int) + tail =~= all);
        while size <= max_end - start
            invariant
                ts == str_views(tokens@),
                known == freqs@,
                n == tokens@.len(),
                start < n,
                max_end <= n,
                max_end - start <= MAX_WINDOW_TOKENS,
                1 <= size <= max_end - start + 1,
                freqs.wf(),
                symspell_words(*dict) == freqs@,
                checker_dictionary(*dict),
                forall|i: int| 0 <= i < tokens@.len() ==> khmer_word(#[trigger] tokens@[i]@),
                starts@.len() == n + 1,
                token_chars@.len() == n,
                forall|q: int| 0 <= q <= n ==> #[trigger] starts@[q] == run_start + tokens_len(ts, q),
                forall|q: int| 0 <= q < n ==> #[trigger] token_chars@[q]@ == ts[q],
                source@ == joined(ts, start as int, start + size - 1),
                longest == longest_token(ts, start as int, start + size - 1),
                done + run_row(ts, known, start as int, start + size, max_end as int) + tail == all,
                answers_ok(ts, known, done, answers),
                scan_matches(out@, run_start as int, ts, known, done, answers),
            decreases max_end - start + 1 - size,
        {
            let end = start + size;
            let piece = &token_chars[end - 1];
            append_chars(&mut source, piece.as_slice());
            if piece.len() > longest {
                longest = piece.len();
            }
            assert(source@ == joined(ts, start as int, end as int));
            proof {
                lemma_joined_khmer(ts, start as int, end as int);
            }
            let ghost rest = run_row(ts, known, start as int, end + 1, max_end as int);
            let source_text = string_from_chars(source.as_slice());
            let source_len = source.len();
            if source_len >= MIN_SOURCE_CHARS && !freqs.contains(source_text.as_str())
                && !decomposes_into_known(source_text.as_str(), &freqs.counts) {
                assert(checked_window(ts, known, start as int, end as int));
                let distance = if end - start > 1 && source_len >= GUARDED_MIN_SOURCE_CHARS {
                    GUARDED_MAX_EDIT_DISTANCE
                } else {
                    MAX_EDIT_DISTANCE
                };
                let raw = lookup_all(dict, source_text.as_str(), LookupVerbosity::All, distance, &None, LOOKUP_MAX_RESULTS, false);
                let ghost rawv = sugg_views(raw@);
                let ghost prev_done = done;
                let ghost prev_answers = answers;
                proof {
                    done = done.push((start as int, end as int));
                    answers = answers.push(rawv);
                    assert(done + rest + tail =~= prev_done + run_row(ts, known, start as int, end as int, max_end as int)
                        + tail);
                    assert forall|k: int| 0 <= k < done.len() implies dictionary_answer(
                        known,
                        joined(ts, done[k].0, done[k].1),
                        lookup_distance(ts, done[k].0, done[k].1),
                        #[trigger] answers[k],
                    ) by {
                        if k < prev_done.len() {
                            assert(done[k] == prev_done[k]);
                            assert(answers[k] == prev_answers[k]);
                        }
                    }
                    assert(done.drop_last() =~= prev_done);
                    lemma_scan_matches_prefix(out@, run_start as int, ts, known, prev_done, prev_answers, answers);
                }
                match rank_window(raw, end - start == 1, longest) {
                    Some(shown) => {
                        let ghost sv = sugg_views(shown@);
                        proof {
                            let c = window_choice(rawv, end - start == 1, longest as nat);
                            assert(c.len() > 0);
                            assert(sv.len() == shown@.len());
                            assert(sv.len() > 0);
                            assert(sv[0] == shown@[0]@);
                        }
                        let best_distance = shown[0].distance;
                        let best_frequency = shown[0].count;
                        let best_length = chars_of(shown[0].term.as_str()).len();
                        let length_gap = if best_length >= source_len {
                            best_length - source_len
                        } else {
                            source_len - best_length
                        };
                        let issue = SpellIssue {
                            start: starts[start],
                            end: starts[end],
                            source: source_text,
                            suggestions: suggestion_terms(shown),
                            kind: SpellIssueKind::Error,
                            confidence_millis: None,
                        };
                        let ranked = RankedIssue {
                            issue,
                            best_distance,
                            best_length,
                            length_gap,
                            token_count: end - start,
                            best_frequency,
                        };
                        proof {
                            assert(issue_for_window(
                                ranked,
                                run_start as int,
                                ts,
                                known,
                                start as int,
                                end as int,
                                rawv,
                            ));
                        }
                        let ghost prev = out@;
                        out.push(ranked);
                        assert(out@.drop_last() =~= prev);
                    },
                    None => {},
                }
            } else {
                assert(!checked_window(ts, known, start as int, end as int));
                assert(done + rest + tail == done + run_row(ts, known, start as int, end as int, max_end as int) + tail);
            }
            size = size + 1;
        }
        assert(run_row(ts, known, start as int, start + size, max_end as int) =~= Seq::<(int, int)>::empty());
        assert(done + Seq::<(int, int)>::empty() =~= done);
        assert(max_end as int == if start + MAX_WINDOW_TOKENS < ts.len() {
            start + MAX_WINDOW_TOKENS
        } else {
            ts.len() as int
        });
        assert(done + run_rows(ts, known, start + 1) == all);
    }
    assert(run_rows(ts, known, n as int) =~= Seq::<(int, int)>::empty());
    assert(done + Seq::<(int, int)>::empty() =~= done);
    assert(done == all);
    out
}

/// `s` with `x` inserted after every element it does not come strictly
/// before: one step of a stable insertion sort.
pub open spec fn insert_stable<A>(s: Seq<A>, x: A, lt: spec_fn(A, A) -> bool) -> Seq<A>
    decreases s.len(),
{
    if s.len() == 0 {
        seq![x]
    } else if lt(x, s[0]) {
        seq![x] + s
    } else {
        seq![s[0]] + insert_stable(s.drop_first(), x, lt)
    }
}

/// `xs` sorted stably by the strict order `lt`: what a stable sort with the
/// matching comparison returns.
pub open spec fn stable_sort<A>(xs: Seq<A>, lt: spec_fn(A, A) -> bool) -> Seq<A>
    decreases xs.len(),
{
    if xs.len() == 0 {
        xs
    } else {
        insert_stable(stable_sort(xs.drop_last(), lt), xs.last(), lt)
    }
}

pub proof fn lemma_insert_stable_at<A>(s: Seq<A>, x: A, lt: spec_fn(A, A) -> bool, p: int)
    requires
        0 <= p <= s.len(),
        forall|q: int| 0 <= q < p ==> !lt(x, #[trigger] s[q]),
        p < s.len() ==> lt(x, s[p]),
    ensures
        insert_stable(s, x, lt) == s.insert(p, x),
    decreases s.len(),
{
    if s.len() == 0 {
        assert(s.insert(p, x) =~= seq![x]);
    } else if p == 0 {
        assert(s.insert(0, x) =~= seq![x] + s);
    } else {
        assert(!lt(x, s[0]));
        let t = s.drop_first();
        assert forall|q: int| 0 <= q < p - 1 implies !lt(x, #[trigger] t[q]) by {
            assert(t[q] == s[q + 1]);
        }
        if p < s.len() {
            assert(t[p - 1] == s[p]);
        }
        lemma_insert_stable_at(t, x, lt, p - 1);
        assert(seq![s[0]] + t.insert(p - 1, x) =~= s.insert(p, x));
    }
}

/// Issue `a` ranks strictly before `b`: nearer best suggestion, then
/// smaller length gap, then longer suggestion, then fewer tokens, then more
/// frequent suggestion, then earlier position.
pub open spec fn ranks_before(a: RankedIssue, b: RankedIssue) -> bool {
    ||| a.best_distance < b.best_distance
    ||| (a.best_distance == b.best_distance && a.length_gap < b.length_gap)
    ||| (a.best_distance == b.best_distance && a.length_gap == b.length_gap && a.best_length > b.best_length)
    ||| (a.best_distance == b.best_distance && a.length_gap == b.length_gap && a.best_length == b.best_length
        && a.token_count < b.token_count)
    ||| (a.best_distance == b.best_distance && a.length_gap == b.length_gap && a.best_length == b.best_length
        && a.token_count == b.token_count && a.best_frequency > b.best_frequency)
    ||| (a.best_distance == b.best_distance && a.length_gap == b.length_gap && a.best_length == b.best_length
        && a.token_count == b.token_count && a.best_frequency == b.best_frequency && a.issue.start < b.issue.start)
}

/// `ranks_before` as a relation value.
pub open spec fn rank_order() -> spec_fn(RankedIssue, RankedIssue) -> bool {
    |a: RankedIssue, b: RankedIssue| ranks_before(a, b)
}

/// Issue `a` starts strictly before `b`.
pub open spec fn start_order() -> spec_fn(SpellIssue, SpellIssue) -> bool {
    |a: SpellIssue, b: SpellIssue| a.start < b.start
}

/// Whether `c` overlaps an issue already chosen.
pub open spec fn overlaps_any(chosen: Seq<SpellIssue>, c: SpellIssue) -> bool {
    exists|k: int|
        0 <= k < chosen.len() && #[trigger] overlap(
            c.start as int,
            c.end as int,
            chosen[k].start as int,
            chosen[k].end as int,
        )
}

/// The issues picked in rank order: each one that overlaps none picked
/// before, until the issue limit is reached.
pub open spec fn greedy_pick(cands: Seq<SpellIssue>) -> Seq<SpellIssue>
    decreases cands.len(),
{
    if cands.len() == 0 {
        cands
    } else {
        let p = greedy_pick(cands.drop_last());
        let c = cands.last();
        if p.len() >= MAX_SPELL_ISSUES || overlaps_any(p, c) {
            p
        } else {
            p.push(c)
        }
    }
}

/// The issues a check shows, from its ranked candidates: sorted by rank,
/// picked greedily, then put in text order.
pub open spec fn selected_issues(ranked: Seq<RankedIssue>) -> Seq<SpellIssue> {
    stable_sort(
        greedy_pick(stable_sort(ranked, rank_order()).map_values(|r: RankedIssue| r.issue)),
        start_order(),
    )
}

/// Whether `a` ranks strictly before `b`.
fn ranks_before_exec(a: &RankedIssue, b: &RankedIssue) -> (r: bool)
    ensures
        r == ranks_before(*a, *b),
{
    if a.best_distance != b.best_distance {
        return a.best_distance < b.best_distance;
    }
    if a.length_gap != b.length_gap {
        return a.length_gap < b.length_gap;
    }
    if a.best_length != b.best_length {
        return a.best_length > b.best_length;
    }
    if a.token_count != b.token_count {
        return a.token_count < b.token_count;
    }
    if a.best_frequency != b.best_frequency {
        return a.best_frequency > b.best_frequency;
    }
    a.issue.start < b.issue.start
}

/// Sorts ranked issues stably by rank.
fn sort_ranked(v: Vec<RankedIssue>) -> (out: Vec<RankedIssue>)
    ensures
        out@ == stable_sort(v@, rank_order()),
{
    let ghost input = v@;
    let mut out: Vec<RankedIssue> = Vec::new();
    assert(out@ =~= stable_sort(input.take(0), rank_order()));
    for x in it: v
        invariant
            it.seq() == input,
            out@ == stable_sort(input.take(it.index() as int), rank_order()),
    {
        let ghost k = it.index();
        assert(x == input[k as int]);
        let mut p: usize = 0;
        while p < out.len() && !ranks_before_exec(&x, &out[p])
            invariant
                p <= out@.len(),
                forall|q: int| 0 <= q < p ==> !ranks_before(x, #[trigger] out@[q]),
            decreases out@.len() - p,
        {
            p = p + 1;
        }
        proof {
            lemma_insert_stable_at(out@, x, rank_order(), p as int);
            assert(input.take(k + 1).drop_last() =~= input.take(k as int));
            assert(input.take(k + 1).last() == x);
        }
        out.insert(p, x);
    }
    assert(input.take(input.len() as int) =~= input);
    out
}

/// Sorts issues stably by start.
fn sort_by_start(v: Vec<SpellIssue>) -> (out: Vec<SpellIssue>)
    ensures
        out@ == stable_sort(v@, start_order()),
{
    let ghost input = v@;
    let mut out: Vec<SpellIssue> = Vec::new();
    assert(out@ =~= stable_sort(input.take(0), start_order()));
    for x in it: v
        invariant
            it.seq() == input,
            out@ == stable_sort(input.take(it.index() as int), start_order()),
    {
        let ghost k = it.index();
        assert(x == input[k as int]);
        let mut p: usize = 0;
        while p < out.len() && !(x.start < out[p].start)
            invariant
                p <= out@.len(),
                forall|q: int| 0 <= q < p ==> !(x.start < (#[trigger] out@[q]).start),
            decreases out@.len() - p,
        {
            p = p + 1;
        }
        proof {
            lemma_insert_stable_at(out@, x, start_order(), p as int);
            assert(input.take(k + 1).drop_last() =~= input.take(k as int));
            assert(input.take(k + 1).last() == x);
        }
        out.insert(p, x);
    }
    assert(input.take(input.len() as int) =~= input);
    out
}

/// Picks the issues to show from the ranked candidates of a check (see
/// `selected_issues`).
pub fn select_issues(ranked: Vec<RankedIssue>) -> (issues: Vec<SpellIssue>)
    ensures
        issues@ == selected_issues(ranked@),
{
    let sorted = sort_ranked(ranked);
    let ghost cands = sorted@.map_values(|r: RankedIssue| r.issue);
    let mut chosen: Vec<SpellIssue> = Vec::new();
    assert(chosen@ =~= greedy_pick(cands.take(0)));
    for r in it: sorted
        invariant
            cands == it.seq().map_values(|r: RankedIssue| r.issue),
            chosen@ == greedy_pick(cands.take(it.index() as int)),
    {
        let ghost k = it.index();
        let c = r.issue;
        assert(c == cands[k as int]);
        assert(cands.take(k + 1).drop_last() =~= cands.take(k as int));
        assert(cands.take(k + 1).last() == c);
        if chosen.len() < MAX_SPELL_ISSUES {
            let mut clash = false;
            for j in 0..chosen.len()
                invariant
                    clash == exists|q: int|
                        0 <= q < j && #[trigger] overlap(
                            c.start as int,
                            c.end as int,
                            chosen@[q].start as int,
                            chosen@[q].end as int,
                        ),
            {
                let hit = ranges_overlap(c.start, c.end, chosen[j].start, chosen[j].end);
                proof {
                    if hit {
                        assert(overlap(
                            c.start as int,
                            c.end as int,
                            chosen@[j as int].start as int,
                            chosen@[j as int].end as int,
                        ));
                    }
                }
                clash = clash || hit;
            }
            if !clash {
                chosen.push(c);
            }
        }
    }
    assert(cands.take(cands.len() as int) =~= cands);
    sort_by_start(chosen)
}

/// How the segmenter split one Khmer run: its tokens, and its segments as
/// character ranges within the run.
#[derive(Clone, Debug)]
pub struct RunSegmentation {
    pub tokens: Vec<String>,
    pub segments: Vec<(usize, usize)>,
}

/// A segmentation fits its run: Khmer tokens that join into the run,
/// segments inside it, and positions that fit in `usize`.
pub open spec fn fits_run(g: RunSegmentation, run_start: int, run: Seq<char>) -> bool {
    let ts = str_views(g.tokens@);
    &&& forall|i: int| 0 <= i < ts.len() ==> khmer_word(#[trigger] ts[i])
    &&& joined(ts, 0, ts.len() as int) == run
    &&& forall|k: int| 0 <= k < g.segments@.len() ==> (#[trigger] g.segments@[k]).0 <= g.segments@[k].1 <= run.len()
    &&& run_start + run.len() <= usize::MAX
}

/// The segmentation used for run `i`, if the caller gave one that fits.
pub open spec fn run_segmentation(text: Seq<char>, segs: Seq<Option<RunSegmentation>>, i: int) -> Option<
    RunSegmentation,
> {
    let runs = khmer_runs_of(text);
    if 0 <= i < runs.len() && i < segs.len() {
        match segs[i] {
            Some(g) => if fits_run(g, runs[i].0, runs[i].1) {
                Some(g)
            } else {
                None
            },
            None => None,
        }
    } else {
        None
    }
}

/// A run's segments shifted to text positions.
pub open spec fn shifted_segments(g: RunSegmentation, run_start: int) -> Seq<(usize, usize)> {
    g.segments@.map_values(|p: (usize, usize)| ((run_start + p.0) as usize, (run_start + p.1) as usize))
}

/// The views of a list of segments.
pub open spec fn segment_views(v: Seq<SpellSegment>) -> Seq<(usize, usize)> {
    v.map_values(|g: SpellSegment| (g.start, g.end))
}

/// The segments of the first `n` runs, shifted to text positions.
pub open spec fn text_segments(text: Seq<char>, segs: Seq<Option<RunSegmentation>>, n: int) -> Seq<(usize, usize)>
    decreases n,
{
    if n <= 0 {
        Seq::empty()
    } else {
        let before = text_segments(text, segs, n - 1);
        match run_segmentation(text, segs, n - 1) {
            Some(g) => before + shifted_segments(g, khmer_runs_of(text)[n - 1].0),
            None => before,
        }
    }
}

/// `part` is what checking run `i` of the text gives: nothing when it has
/// no fitting segmentation, else the scan of its tokens for some answers
/// of the dictionary (see `scan_outcome`).
pub open spec fn run_outcome(
    text: Seq<char>,
    segs: Seq<Option<RunSegmentation>>,
    known: Map<Seq<char>, usize>,
    i: int,
    part: Seq<RankedIssue>,
) -> bool {
    match run_segmentation(text, segs, i) {
        Some(g) => scan_outcome(part, khmer_runs_of(text)[i].0, str_views(g.tokens@), known),
        None => part.len() == 0,
    }
}

/// The parts joined in order.
pub open spec fn concat_parts(parts: Seq<Seq<RankedIssue>>) -> Seq<RankedIssue>
    decreases parts.len(),
{
    if parts.len() == 0 {
        Seq::empty()
    } else {
        concat_parts(parts.drop_last()) + parts.last()
    }
}

/// The words a check knows.
pub open spec fn known_words(entries: Seq<LexiconEntry>, saved_words: Seq<String>) -> Map<Seq<char>, usize> {
    with_saved(entry_freqs(entries), str_views(saved_words))
}

/// What a check reports, for some answers the dictionary may give: nothing
/// when it knows no word; otherwise the segments of every segmented run and
/// the issues selected from what each run's scan gives, run by run.
pub open spec fn check_outcome(
    text: Seq<char>,
    entries: Seq<LexiconEntry>,
    saved_words: Seq<String>,
    segs: Seq<Option<RunSegmentation>>,
    r: SpellCheckResult,
) -> bool {
    let known = known_words(entries, saved_words);
    &&& r.detector_status == ContextDetectorStatus::NotChecked
    &&& if known.dom().len() == 0 {
        r.issues@.len() == 0 && r.segments@.len() == 0
    } else {
        &&& segment_views(r.segments@) == text_segments(
            text,
            segs,
            khmer_runs_of(text).len() as int,
        )
        &&& exists|parts: Seq<Seq<RankedIssue>>|
            #![trigger concat_parts(parts)]
            parts.len() == khmer_runs_of(text).len() && (forall|i: int|
                0 <= i < parts.len() ==> run_outcome(text, segs, known, i, #[trigger] parts[i]))
                && r.issues@ == selected_issues(concat_parts(parts))
    }
}

proof fn lemma_tokens_len_joined(ts: Seq<Seq<char>>, e: int)
    requires
        0 <= e <= ts.len(),
    ensures
        tokens_len(ts, e) == joined(ts, 0, e).len(),
    decreases e,
{
    if e > 0 {
        lemma_tokens_len_joined(ts, e - 1);
    }
}

/// Whether a segmentation fits its run (see `fits_run`).
fn segmentation_fits(g: &RunSegmentation, run_start: usize, run: &str) -> (b: bool)
    ensures
        b == fits_run(*g, run_start as int, run@),
{
    let ghost ts = str_views(g.tokens@);
    let run_chars = chars_of(run);
    if run_chars.len() > usize::MAX - run_start {
        return false;
    }
    let mut joined_chars: Vec<char> = Vec::new();
    let mut all_khmer = true;
    assert(joined(ts, 0, 0) =~= Seq::<char>::empty());
    for i in 0..g.tokens.len()
        invariant
            ts == str_views(g.tokens@),
            joined_chars@ == joined(ts, 0, i as int),
            all_khmer == forall|q: int| 0 <= q < i ==> khmer_word(#[trigger] ts[q]),
    {
        assert(ts[i as int] == g.tokens@[i as int]@);
        let ok = is_khmer_word(g.tokens[i].as_str());
        all_khmer = all_khmer && ok;
        let t = chars_of(g.tokens[i].as_str());
        append_chars(&mut joined_chars, t.as_slice());
    }
    if !all_khmer || !chars_eq(joined_chars.as_slice(), run_chars.as_slice()) {
        return false;
    }
    for k in 0..g.segments.len()
        invariant
            run_chars@ == run@,
            forall|q: int| 0 <= q < k ==> (#[trigger] g.segments@[q]).0 <= g.segments@[q].1 <= run@.len(),
    {
        let (a, b) = g.segments[k];
        if !(a <= b && b <= run_chars.len()) {
            return false;
        }
    }
    true
}

/// Checks run `i` of the text when it has a fitting segmentation: adds its
/// segments, and returns the ranked issues of its windows.
fn check_run(
    text: &str,
    segmentations: &[Option<RunSegmentation>],
    i: usize,
    run_start: usize,
    run: &str,
    freqs: &WordFrequencies,
    dict: &SymSpell,
    segments: &mut Vec<SpellSegment>,
) -> (found: Vec<RankedIssue>)
    requires
        freqs.wf(),
        symspell_words(*dict) == freqs@,
        checker_dictionary(*dict),
        i < khmer_runs_of(text@).len(),
        run_start as int == khmer_runs_of(text@)[i as int].0,
        run@ == khmer_runs_of(text@)[i as int].1,
    ensures
        segment_views(final(segments)@) == segment_views(old(segments)@) + match run_segmentation(
            text@,
            segmentations@,
            i as int,
        ) {
            Some(g) => shifted_segments(g, run_start as int),
            None => Seq::empty(),
        },
        run_outcome(text@, segmentations@, freqs@, i as int, found@),
{
    let ghost before = segment_views(segments@);
    if i >= segmentations.len() {
        assert(segment_views(segments@) =~= before + Seq::<(usize, usize)>::empty());
        return Vec::new();
    }
    let g = match &segmentations[i] {
        Some(g) => g,
        None => {
            assert(segment_views(segments@) =~= before + Seq::<(usize, usize)>::empty());
            return Vec::new();
        },
    };
    if !segmentation_fits(g, run_start, run) {
        assert(segment_views(segments@) =~= before + Seq::<(usize, usize)>::empty());
        return Vec::new();
    }
    assert(run_segmentation(text@, segmentations@, i as int) == Some(*g));
    let ghost ts = str_views(g.tokens@);
    let ghost shifted = shifted_segments(*g, run_start as int);
    for k in 0..g.segments.len()
        invariant
            run_start + run@.len() <= usize::MAX,
            forall|q: int| 0 <= q < g.segments@.len() ==> (#[trigger] g.segments@[q]).0 <= g.segments@[q].1 <= run@.len(),
            shifted == shifted_segments(*g, run_start as int),
            segments@.len() == before.len() + k,
            forall|q: int| 0 <= q < before.len() ==> #[trigger] segment_views(segments@)[q] == before[q],
            forall|q: int| 0 <= q < k ==> #[trigger] segment_views(segments@)[before.len() + q] == shifted[q],
    {
        let (a, b) = g.segments[k];
        assert(g.segments@[k as int] == (a, b));
        let ghost prev = segment_views(segments@);
        segments.push(SpellSegment { start: run_start + a, end: run_start + b });
        proof {
            let now = segment_views(segments@);
            assert(now =~= prev.push(((run_start + a) as usize, (run_start + b) as usize)));
            assert forall|q: int| 0 <= q < before.len() implies #[trigger] now[q] == before[q] by {
                assert(now[q] == prev[q]);
            }
            assert forall|q: int| 0 <= q < k + 1 implies #[trigger] now[before.len() + q] == shifted[q] by {
                if q < k {
                    assert(now[before.len() + q] == prev[before.len() + q]);
                }
            }
        }
    }
    proof {
        let now = segment_views(segments@);
        assert(shifted.len() == g.segments@.len());
        assert forall|j: int| 0 <= j < before.len() + shifted.len() implies #[trigger] now[j] == (before + shifted)[j] by {
            if j >= before.len() {
                let q = j - before.len();
                assert(now[before.len() + q] == shifted[q]);
            }
        }
    }
    assert(segment_views(segments@) =~= before + shifted);
    proof {
        lemma_tokens_len_joined(ts, ts.len() as int);
        assert forall|q: int| 0 <= q < g.tokens@.len() implies khmer_word(#[trigger] g.tokens@[q]@) by {
            assert(ts[q] == g.tokens@[q]@);
        }
    }
    scan_run(run_start, &g.tokens, freqs, dict)
}

/// Checks `text`: looks every window of every segmented Khmer run up in a
/// dictionary of the lexicon's Khmer targets and the user's saved words,
/// and keeps the best non-overlapping issues (see `check_outcome`).
/// `segmentations[i]` is the segmenter's split of the `i`th Khmer run of
/// the text; a missing or ill-fitting one leaves its run unchecked.
pub fn check_text(
    text: &str,
    entries: &[LexiconEntry],
    saved_words: &[String],
    segmentations: &[Option<RunSegmentation>],
) -> (r: SpellCheckResult)
    requires
        entries@.len() + saved_words@.len() <= u32::MAX,
    ensures
        check_outcome(text@, entries@, saved_words@, segmentations@, r),
{
    let freqs = target_frequencies(entries, saved_words);
    let ghost known = freqs@;
    if freqs.len() == 0 {
        let empty = SpellCheckResult { issues: Vec::new(), segments: Vec::new(), detector_status: ContextDetectorStatus::NotChecked };
        return empty;
    }
    let dict = build_dictionary(&freqs);
    let runs = khmer_runs(text);
    let ghost rs = khmer_runs_of(text@);
    let mut segments: Vec<SpellSegment> = Vec::new();
    let mut ranked: Vec<RankedIssue> = Vec::new();
    let ghost mut parts: Seq<Seq<RankedIssue>> = Seq::empty();
    assert(segment_views(segments@) =~= text_segments(text@, segmentations@, 0));
    assert(ranked@ =~= concat_parts(parts));
    for i in 0..runs.len()
        invariant
            freqs.wf(),
            freqs@ == known,
            known == known_words(entries@, saved_words@),
            symspell_words(dict) == known,
            checker_dictionary(dict),
            rs == khmer_runs_of(text@),
            runs@.len() == rs.len(),
            forall|k: int| 0 <= k < runs@.len() ==> (#[trigger] runs@[k]).0 as int == rs[k].0 && runs@[k].1@ == rs[k].1,
            segment_views(segments@) == text_segments(text@, segmentations@, i as int),
            parts.len() == i,
            forall|k: int| 0 <= k < parts.len() ==> run_outcome(text@, segmentations@, known, k, #[trigger] parts[k]),
            ranked@ == concat_parts(parts),
    {
        let (run_start, run) = runs[i];
        assert(runs@[i as int].0 as int == rs[i as int].0 && runs@[i as int].1@ == rs[i as int].1);
        let found = check_run(text, segmentations, i, run_start, run, &freqs, &dict, &mut segments);
        let ghost part = found@;
        let ghost prev_ranked = ranked@;
        let ghost prev_parts = parts;
        for x in it: found
            invariant
                it.seq() == part,
                ranked@ == prev_ranked + part.take(it.index() as int),
        {
            ranked.push(x);
            assert(ranked@ =~= prev_ranked + part.take(it.index() + 1));
        }
        proof {
            assert(part.take(part.len() as int) =~= part);
            parts = parts.push(part);
            assert(parts.drop_last() =~= prev_parts);
            assert forall|k: int| 0 <= k < parts.len() implies run_outcome(
                text@,
                segmentations@,
                known,
                k,
                #[trigger] parts[k],
            ) by {
                if k < prev_parts.len() {
                    assert(parts[k] == prev_parts[k]);
                }
            }
        }
    }
    let issues = select_issues(ranked);
    SpellCheckResult { issues, segments, detector_status: ContextDetectorStatus::NotChecked }
}

/// No two issues of `s` overlap.
pub open spec fn disjoint_issues(s: Seq<SpellIssue>) -> bool {
    forall|i: int, j: int|
        0 <= i < s.len() && 0 <= j < s.len() && i != j ==> !overlap(
            (#[trigger] s[i]).start as int,
            s[i].end as int,
            (#[trigger] s[j]).start as int,
            s[j].end as int,
        )
}

/// The issues of `s` come in text order.
pub open spec fn ordered_issues(s: Seq<SpellIssue>) -> bool {
    forall|i: int, j: int| 0 <= i < j < s.len() ==> (#[trigger] s[i]).start <= (#[trigger] s[j]).start
}

/// Whether `x` is an element of `s`.
pub open spec fn member<A>(s: Seq<A>, x: A) -> bool {
    exists|k: int| 0 <= k < s.len() && s[k] == x
}

pub proof fn lemma_insert_stable_len<A>(s: Seq<A>, x: A, lt: spec_fn(A, A) -> bool)
    ensures
        insert_stable(s, x, lt).len() == s.len() + 1,
        forall|i: int|
            0 <= i < insert_stable(s, x, lt).len() ==> #[trigger] insert_stable(s, x, lt)[i] == x || member(
                s,
                insert_stable(s, x, lt)[i],
            ),
    decreases s.len(),
{
    if s.len() > 0 && !lt(x, s[0]) {
        let t = s.drop_first();
        lemma_insert_stable_len(t, x, lt);
        let r = insert_stable(s, x, lt);
        assert forall|i: int| 0 <= i < r.len() implies #[trigger] r[i] == x || member(s, r[i]) by {
            if i == 0 {
                assert(s[0] == r[0]);
            } else {
                assert(r[i] == insert_stable(t, x, lt)[i - 1]);
                if member(t, r[i]) {
                    let k = choose|k: int| 0 <= k < t.len() && t[k] == r[i];
                    assert(s[k + 1] == t[k]);
                }
            }
        }
    } else if s.len() > 0 {
        let r = insert_stable(s, x, lt);
        assert forall|i: int| 0 <= i < r.len() implies #[trigger] r[i] == x || member(s, r[i]) by {
            if i > 0 {
                assert(r[i] == s[i - 1]);
            }
        }
    }
}

pub proof fn lemma_stable_sort_members<A>(xs: Seq<A>, lt: spec_fn(A, A) -> bool)
    ensures
        stable_sort(xs, lt).len() == xs.len(),
        forall|i: int| 0 <= i < stable_sort(xs, lt).len() ==> member(xs, #[trigger] stable_sort(xs, lt)[i]),
    decreases xs.len(),
{
    if xs.len() > 0 {
        let d = xs.drop_last();
        lemma_stable_sort_members(d, lt);
        let sd = stable_sort(d, lt);
        lemma_insert_stable_len(sd, xs.last(), lt);
        let r = stable_sort(xs, lt);
        assert forall|i: int| 0 <= i < r.len() implies member(xs, #[trigger] r[i]) by {
            if r[i] == xs.last() {
                assert(xs[xs.len() - 1] == r[i]);
            } else {
                assert(member(sd, r[i]));
                let k = choose|k: int| 0 <= k < sd.len() && sd[k] == r[i];
                assert(member(d, sd[k]));
                let q = choose|q: int| 0 <= q < d.len() && d[q] == sd[k];
                assert(xs[q] == d[q]);
            }
        }
    }
}

proof fn lemma_insert_keeps_disjoint(s: Seq<SpellIssue>, x: SpellIssue)
    requires
        disjoint_issues(s),
        forall|k: int|
            0 <= k < s.len() ==> !overlap(x.start as int, x.end as int, (#[trigger] s[k]).start as int, s[k].end as int),
    ensures
        disjoint_issues(insert_stable(s, x, start_order())),
    decreases s.len(),
{
    let r = insert_stable(s, x, start_order());
    if s.len() == 0 {
    } else if start_order()(x, s[0]) {
        assert forall|i: int, j: int| 0 <= i < r.len() && 0 <= j < r.len() && i != j implies !overlap(
            (#[trigger] r[i]).start as int,
            r[i].end as int,
            (#[trigger] r[j]).start as int,
            r[j].end as int,
        ) by {
            if i > 0 && j > 0 {
                assert(r[i] == s[i - 1] && r[j] == s[j - 1]);
            } else if i == 0 {
                assert(r[j] == s[j - 1]);
            } else {
                assert(r[i] == s[i - 1]);
            }
        }
    } else {
        let t = s.drop_first();
        assert forall|i: int, j: int| 0 <= i < t.len() && 0 <= j < t.len() && i != j implies !overlap(
            (#[trigger] t[i]).start as int,
            t[i].end as int,
            (#[trigger] t[j]).start as int,
            t[j].end as int,
        ) by {
            assert(t[i] == s[i + 1] && t[j] == s[j + 1]);
        }
        assert forall|k: int| 0 <= k < t.len() implies !overlap(
            x.start as int,
            x.end as int,
            (#[trigger] t[k]).start as int,
            t[k].end as int,
        ) by {
            assert(t[k] == s[k + 1]);
        }
        lemma_insert_keeps_disjoint(t, x);
        let it = insert_stable(t, x, start_order());
        lemma_insert_stable_len(t, x, start_order());
        assert forall|i: int, j: int| 0 <= i < r.len() && 0 <= j < r.len() && i != j implies !overlap(
            (#[trigger] r[i]).start as int,
            r[i].end as int,
            (#[trigger] r[j]).start as int,
            r[j].end as int,
        ) by {
            if i > 0 && j > 0 {
                assert(r[i] == it[i - 1] && r[j] == it[j - 1]);
            } else {
                let o = if i == 0 { j } else { i };
                assert(r[0] == s[0]);
                assert(r[o] == it[o - 1]);
                if it[o - 1] == x {
                    assert(!overlap(x.start as int, x.end as int, s[0].start as int, s[0].end as int));
                } else {
                    assert(member(t, it[o - 1]));
                    let k = choose|k: int| 0 <= k < t.len() && t[k] == it[o - 1];
                    assert(s[k + 1] == t[k]);
                    assert(!overlap(s[0].start as int, s[0].end as int, s[k + 1].start as int, s[k + 1].end as int));
                    assert(!overlap(s[k + 1].start as int, s[k + 1].end as int, s[0].start as int, s[0].end as int));
                }
            }
        }
    }
}

proof fn lemma_insert_keeps_order(s: Seq<SpellIssue>, x: SpellIssue)
    requires
        ordered_issues(s),
    ensures
        ordered_issues(insert_stable(s, x, start_order())),
    decreases s.len(),
{
    let r = insert_stable(s, x, start_order());
    if s.len() == 0 {
    } else if start_order()(x, s[0]) {
        assert forall|i: int, j: int| 0 <= i < j < r.len() implies (#[trigger] r[i]).start <= (#[trigger] r[j]).start by {
            if i > 0 {
                assert(r[i] == s[i - 1] && r[j] == s[j - 1]);
            } else {
                assert(r[j] == s[j - 1]);
                if j > 1 {
                    assert(s[0].start <= s[j - 1].start);
                }
            }
        }
    } else {
        let t = s.drop_first();
        assert forall|i: int, j: int| 0 <= i < j < t.len() implies (#[trigger] t[i]).start <= (#[trigger] t[j]).start by {
            assert(t[i] == s[i + 1] && t[j] == s[j + 1]);
        }
        lemma_insert_keeps_order(t, x);
        let it = insert_stable(t, x, start_order());
        lemma_insert_stable_len(t, x, start_order());
        assert forall|i: int, j: int| 0 <= i < j < r.len() implies (#[trigger] r[i]).start <= (#[trigger] r[j]).start by {
            if i > 0 {
                assert(r[i] == it[i - 1] && r[j] == it[j - 1]);
            } else {
                assert(r[0] == s[0]);
                assert(r[j] == it[j - 1]);
                if it[j - 1] != x {
                    assert(member(t, it[j - 1]));
                    let k = choose|k: int| 0 <= k < t.len() && t[k] == it[j - 1];
                    assert(s[k + 1] == t[k]);
                    assert(s[0].start <= s[k + 1].start);
                }
            }
        }
    }
}

proof fn lemma_sort_by_start_props(xs: Seq<SpellIssue>)
    requires
        disjoint_issues(xs),
    ensures
        disjoint_issues(stable_sort(xs, start_order())),
        ordered_issues(stable_sort(xs, start_order())),
        stable_sort(xs, start_order()).len() == xs.len(),
    decreases xs.len(),
{
    lemma_stable_sort_members(xs, start_order());
    if xs.len() > 0 {
        let d = xs.drop_last();
        assert forall|i: int, j: int| 0 <= i < d.len() && 0 <= j < d.len() && i != j implies !overlap(
            (#[trigger] d[i]).start as int,
            d[i].end as int,
            (#[trigger] d[j]).start as int,
            d[j].end as int,
        ) by {
            assert(d[i] == xs[i] && d[j] == xs[j]);
        }
        lemma_sort_by_start_props(d);
        lemma_stable_sort_members(d, start_order());
        let sd = stable_sort(d, start_order());
        let x = xs.last();
        assert forall|k: int| 0 <= k < sd.len() implies !overlap(
            x.start as int,
            x.end as int,
            (#[trigger] sd[k]).start as int,
            sd[k].end as int,
        ) by {
            assert(member(d, sd[k]));
            let q = choose|q: int| 0 <= q < d.len() && d[q] == sd[k];
            assert(xs[q] == d[q]);
            assert(xs[xs.len() - 1] == x);
        }
        lemma_insert_keeps_disjoint(sd, x);
        lemma_insert_keeps_order(sd, x);
    }
}

proof fn lemma_greedy_pick_props(cands: Seq<SpellIssue>)
    ensures
        disjoint_issues(greedy_pick(cands)),
        greedy_pick(cands).len() <= MAX_SPELL_ISSUES,
    decreases cands.len(),
{
    if cands.len() > 0 {
        let p = greedy_pick(cands.drop_last());
        lemma_greedy_pick_props(cands.drop_last());
        let c = cands.last();
        if !(p.len() >= MAX_SPELL_ISSUES || overlaps_any(p, c)) {
            let r = p.push(c);
            assert forall|i: int, j: int| 0 <= i < r.len() && 0 <= j < r.len() && i != j implies !overlap(
                (#[trigger] r[i]).start as int,
                r[i].end as int,
                (#[trigger] r[j]).start as int,
                r[j].end as int,
            ) by {
                if i < p.len() && j < p.len() {
                    assert(r[i] == p[i] && r[j] == p[j]);
                } else if i == p.len() {
                    assert(r[j] == p[j]);
                    assert(!overlap(c.start as int, c.end as int, p[j].start as int, p[j].end as int));
                } else {
                    assert(r[i] == p[i]);
                    assert(!overlap(c.start as int, c.end as int, p[i].start as int, p[i].end as int));
                }
            }
        }
    }
}

/// The issues a check shows never overlap, come in text order, and are at
/// most twenty, whatever the ranked candidates were.
pub proof fn law_selected_issues_disjoint_and_ordered(ranked: Seq<RankedIssue>)
    ensures
        selected_issues(ranked).len() <= MAX_SPELL_ISSUES,
        disjoint_issues(selected_issues(ranked)),
        ordered_issues(selected_issues(ranked)),
{
    let picked = greedy_pick(stable_sort(ranked, rank_order()).map_values(|r: RankedIssue| r.issue));
    lemma_greedy_pick_props(stable_sort(ranked, rank_order()).map_values(|r: RankedIssue| r.issue));
    lemma_sort_by_start_props(picked);
}

} // verus!
