//! Part-of-speech statistics compiled from the khPOS corpus: a file of
//! sentences whose tokens read `word/TAG` and a parallel file of the tags
//! alone. The statistics (word, word-pair, surface n-gram, tag and tag-pair
//! counts, and each word's dominant tag) are written to the `KPS1` binary
//! the segmenter loads.
//!
//! Every statistic is a tally of keys, a key being a short list of strings
//! (one word, a word pair, a word and its tag): the keys sorted in code
//! point order, each distinct key with the number of times it occurs.

use vstd::prelude::*;
use vstd::relations::*;
use crate::text::{
    chars_eq, chars_le, chars_le_exec, chars_of, chars_order, char_is_space, char_views, is_space, lemma_chars_order_total,
    lines, lines_of, slice_to_vec, string_from_chars,
};
use crate::lexicon_source::is_blank;
use vstd::bytes::{spec_u32_to_le_bytes, u32_to_le_bytes};
use vstd::utf8::encode_utf8;

verus! {

/// The views of a key.
pub open spec fn key_view(k: Vec<Vec<char>>) -> Seq<Seq<char>> {
    char_views(k@)
}

/// The views of a sequence of keys.
pub open spec fn key_views(v: Seq<Vec<Vec<char>>>) -> Seq<Seq<Seq<char>>> {
    v.map_values(|k: Vec<Vec<char>>| char_views(k@))
}

/// Lexicographic order on keys, comparing strings in code point order: the
/// order of `String` for one-string keys and of `(String, String)` for
/// pairs.
pub open spec fn keys_le(a: Seq<Seq<char>>, b: Seq<Seq<char>>) -> bool
    decreases a.len(),
{
    if a.len() == 0 {
        true
    } else if b.len() == 0 {
        false
    } else if a[0] == b[0] {
        keys_le(a.drop_first(), b.drop_first())
    } else {
        chars_le(a[0], b[0])
    }
}

/// `keys_le` as a relation value.
pub open spec fn keys_order() -> spec_fn(Seq<Seq<char>>, Seq<Seq<char>>) -> bool {
    |a: Seq<Seq<char>>, b: Seq<Seq<char>>| keys_le(a, b)
}

proof fn lemma_keys_le_reflexive(a: Seq<Seq<char>>)
    ensures
        keys_le(a, a),
    decreases a.len(),
{
    if a.len() > 0 {
        lemma_keys_le_reflexive(a.drop_first());
    }
}

proof fn lemma_keys_le_total(a: Seq<Seq<char>>, b: Seq<Seq<char>>)
    ensures
        keys_le(a, b) || keys_le(b, a),
    decreases a.len(),
{
    lemma_chars_order_total();
    if a.len() > 0 && b.len() > 0 {
        if a[0] == b[0] {
            lemma_keys_le_total(a.drop_first(), b.drop_first());
        } else {
            assert(chars_order()(a[0], b[0]) || chars_order()(b[0], a[0]));
        }
    }
}

proof fn lemma_keys_le_antisymmetric(a: Seq<Seq<char>>, b: Seq<Seq<char>>)
    requires
        keys_le(a, b),
        keys_le(b, a),
    ensures
        a == b,
    decreases a.len(),
{
    lemma_chars_order_total();
    if a.len() > 0 && b.len() > 0 {
        if a[0] == b[0] {
            lemma_keys_le_antisymmetric(a.drop_first(), b.drop_first());
            assert(a =~= seq![a[0]] + a.drop_first());
            assert(b =~= seq![b[0]] + b.drop_first());
        } else {
            assert(chars_order()(a[0], b[0]) && chars_order()(b[0], a[0]));
        }
    } else {
        assert(a =~= b);
    }
}

proof fn lemma_keys_le_transitive(a: Seq<Seq<char>>, b: Seq<Seq<char>>, c: Seq<Seq<char>>)
    requires
        keys_le(a, b),
        keys_le(b, c),
    ensures
        keys_le(a, c),
    decreases a.len(),
{
    lemma_chars_order_total();
    if a.len() > 0 && b.len() > 0 && c.len() > 0 {
        if a[0] == b[0] && b[0] == c[0] {
            lemma_keys_le_transitive(a.drop_first(), b.drop_first(), c.drop_first());
        } else if a[0] == b[0] {
        } else if b[0] == c[0] {
        } else {
            assert(chars_order()(a[0], b[0]) && chars_order()(b[0], c[0]));
            assert(chars_order()(a[0], c[0]));
            if a[0] == c[0] {
                assert(chars_order()(c[0], b[0]));
            }
        }
    }
}

/// `keys_le` is a total order.
pub proof fn lemma_keys_order_total()
    ensures
        total_ordering(keys_order()),
{
    assert forall|x: Seq<Seq<char>>| #[trigger] keys_order()(x, x) by {
        lemma_keys_le_reflexive(x);
    }
    assert forall|x: Seq<Seq<char>>, y: Seq<Seq<char>>| #[trigger] keys_order()(x, y) && #[trigger] keys_order()(
        y,
        x,
    ) implies x == y by {
        lemma_keys_le_antisymmetric(x, y);
    }
    assert forall|x: Seq<Seq<char>>, y: Seq<Seq<char>>, z: Seq<Seq<char>>| #[trigger] keys_order()(x, y)
        && #[trigger] keys_order()(y, z) implies keys_order()(x, z) by {
        lemma_keys_le_transitive(x, y, z);
    }
    assert forall|x: Seq<Seq<char>>, y: Seq<Seq<char>>| #[trigger] keys_order()(x, y) || #[trigger] keys_order()(
        y,
        x,
    ) by {
        lemma_keys_le_total(x, y);
    }
}

proof fn lemma_keys_le_skip(a: Seq<Seq<char>>, b: Seq<Seq<char>>, i: int)
    requires
        0 <= i <= a.len(),
        i <= b.len(),
        a.take(i) == b.take(i),
    ensures
        keys_le(a, b) == keys_le(a.skip(i), b.skip(i)),
    decreases i,
{
    if i > 0 {
        assert(a[0] == a.take(i)[0]);
        assert(b[0] == b.take(i)[0]);
        assert(a.drop_first().take(i - 1) =~= a.take(i).drop_first());
        assert(b.drop_first().take(i - 1) =~= b.take(i).drop_first());
        lemma_keys_le_skip(a.drop_first(), b.drop_first(), i - 1);
        assert(a.drop_first().skip(i - 1) =~= a.skip(i));
        assert(b.drop_first().skip(i - 1) =~= b.skip(i));
    } else {
        assert(a.skip(0) =~= a);
        assert(b.skip(0) =~= b);
    }
}

/// Whether key `a` comes no later than key `b`.
pub fn keys_le_exec(a: &Vec<Vec<char>>, b: &Vec<Vec<char>>) -> (r: bool)
    ensures
        r == keys_le(key_view(*a), key_view(*b)),
{
    let ghost av = key_view(*a);
    let ghost bv = key_view(*b);
    let mut i: usize = 0;
    while i < a.len() && i < b.len()
        invariant
            i <= a@.len(),
            i <= b@.len(),
            av == key_view(*a),
            bv == key_view(*b),
            av.take(i as int) == bv.take(i as int),
        decreases a@.len() - i,
    {
        assert(av[i as int] == a@[i as int]@);
        assert(bv[i as int] == b@[i as int]@);
        if !chars_eq(&a[i], &b[i]) {
            proof {
                lemma_keys_le_skip(av, bv, i as int);
                assert(av.skip(i as int)[0] == av[i as int]);
                assert(bv.skip(i as int)[0] == bv[i as int]);
            }
            return chars_le_exec(&a[i], &b[i]);
        }
        assert(av.take(i + 1) =~= av.take(i as int).push(av[i as int]));
        assert(bv.take(i + 1) =~= bv.take(i as int).push(bv[i as int]));
        i = i + 1;
    }
    proof {
        lemma_keys_le_skip(av, bv, i as int);
    }
    i == a.len()
}

/// A copy of a key.
pub fn copy_key(k: &Vec<Vec<char>>) -> (out: Vec<Vec<char>>)
    ensures
        key_view(out) == key_view(*k),
        out@.len() == k@.len(),
{
    let mut out: Vec<Vec<char>> = Vec::new();
    let mut i: usize = 0;
    while i < k.len()
        invariant
            i <= k@.len(),
            char_views(out@) == char_views(k@).take(i as int),
        decreases k@.len() - i,
    {
        let ghost before = char_views(out@);
        let piece = crate::text::slice_to_vec(&k[i], 0, k[i].len());
        assert(k@[i as int]@.subrange(0, k@[i as int]@.len() as int) =~= k@[i as int]@);
        out.push(piece);
        i = i + 1;
        assert(char_views(out@) =~= before.push(k@[i - 1]@));
        assert(char_views(k@).take(i as int) =~= char_views(k@).take(i - 1).push(k@[i - 1]@));
    }
    assert(char_views(k@).take(i as int) =~= char_views(k@));
    out
}

proof fn lemma_key_views_push(v: Seq<Vec<Vec<char>>>, k: Vec<Vec<char>>)
    ensures
        key_views(v.push(k)) == key_views(v).push(key_view(k)),
{
    assert(key_views(v.push(k)) =~= key_views(v).push(key_view(k)));
}

/// Merges two sorted runs of keys.
fn merge_keys(left: &Vec<Vec<Vec<char>>>, right: &Vec<Vec<Vec<char>>>) -> (out: Vec<Vec<Vec<char>>>)
    requires
        sorted_by(key_views(left@), keys_order()),
        sorted_by(key_views(right@), keys_order()),
    ensures
        sorted_by(key_views(out@), keys_order()),
        key_views(out@).to_multiset() == key_views(left@).to_multiset().add(key_views(right@).to_multiset()),
{
    broadcast use vstd::seq_lib::group_to_multiset_ensures;
    let ghost lv = key_views(left@);
    let ghost rv = key_views(right@);
    proof {
        lemma_keys_order_total();
    }
    let mut out: Vec<Vec<Vec<char>>> = Vec::new();
    let mut i: usize = 0;
    let mut j: usize = 0;
    assert(key_views(out@) =~= Seq::<Seq<Seq<char>>>::empty());
    assert(lv.take(0) =~= Seq::<Seq<Seq<char>>>::empty());
    assert(rv.take(0) =~= Seq::<Seq<Seq<char>>>::empty());
    while i < left.len() || j < right.len()
        invariant
            i <= left@.len(),
            j <= right@.len(),
            lv == key_views(left@),
            rv == key_views(right@),
            total_ordering(keys_order()),
            sorted_by(lv, keys_order()),
            sorted_by(rv, keys_order()),
            sorted_by(key_views(out@), keys_order()),
            key_views(out@).to_multiset() == lv.take(i as int).to_multiset().add(rv.take(j as int).to_multiset()),
            forall|p: int, q: int|
                0 <= p < out@.len() && i <= q < lv.len() ==> keys_le(#[trigger] key_views(out@)[p], #[trigger] lv[q]),
            forall|p: int, q: int|
                0 <= p < out@.len() && j <= q < rv.len() ==> keys_le(#[trigger] key_views(out@)[p], #[trigger] rv[q]),
        decreases left@.len() + right@.len() - i - j,
    {
        let ghost before = key_views(out@);
        let take_left = if i < left.len() && j < right.len() {
            keys_le_exec(&left[i], &right[j])
        } else {
            i < left.len()
        };
        let x = if take_left {
            copy_key(&left[i])
        } else {
            copy_key(&right[j])
        };
        let ghost xv = key_view(x);
        proof {
            if take_left {
                assert(xv == lv[i as int]);
            } else {
                assert(xv == rv[j as int]);
            }
            // x comes no earlier than anything already taken, and no later
            // than anything left.
            assert forall|q: int| i <= q < lv.len() && !(take_left && q == i) implies keys_le(xv, #[trigger] lv[q]) by {
                if take_left {
                    assert(keys_order()(lv[i as int], lv[q]));
                } else {
                    assert(keys_le(rv[j as int], lv[i as int]) || !(j < right@.len() && i < left@.len())) by {
                        lemma_keys_le_total(rv[j as int], lv[i as int]);
                    }
                    if i < lv.len() {
                        assert(keys_order()(lv[i as int], lv[q]));
                        lemma_keys_le_transitive(xv, lv[i as int], lv[q]);
                    }
                }
            }
            assert forall|q: int| j <= q < rv.len() && !(!take_left && q == j) implies keys_le(xv, #[trigger] rv[q]) by {
                if !take_left {
                    assert(keys_order()(rv[j as int], rv[q]));
                } else {
                    if j < rv.len() {
                        assert(keys_order()(rv[j as int], rv[q]));
                        lemma_keys_le_transitive(xv, rv[j as int], rv[q]);
                    }
                }
            }
        }
        let ghost before_vec = out@;
        out.push(x);
        proof {
            lemma_key_views_push(before_vec, x);
        }
        if take_left {
            i = i + 1;
        } else {
            j = j + 1;
        }
        proof {
            let after = key_views(out@);
            assert(after =~= before.push(xv));
            assert forall|p: int, q: int| 0 <= p < q < after.len() implies #[trigger] keys_order()(
                after[p],
                after[q],
            ) by {
                if q < before.len() {
                    assert(keys_order()(before[p], before[q]));
                } else {
                    if take_left {
                        assert(keys_le(before[p], lv[i - 1]));
                    } else {
                        assert(keys_le(before[p], rv[j - 1]));
                    }
                }
            }
            if take_left {
                assert(lv.take(i as int) =~= lv.take(i - 1).push(xv));
                vstd::seq_lib::to_multiset_build(lv.take(i - 1), xv);
            } else {
                assert(rv.take(j as int) =~= rv.take(j - 1).push(xv));
                vstd::seq_lib::to_multiset_build(rv.take(j - 1), xv);
            }
            vstd::seq_lib::to_multiset_build(before, xv);
            assert forall|p: int, q: int| 0 <= p < after.len() && i <= q < lv.len() implies keys_le(
                #[trigger] after[p],
                #[trigger] lv[q],
            ) by {
                if p < before.len() {
                    assert(keys_le(before[p], lv[q]));
                }
            }
            assert forall|p: int, q: int| 0 <= p < after.len() && j <= q < rv.len() implies keys_le(
                #[trigger] after[p],
                #[trigger] rv[q],
            ) by {
                if p < before.len() {
                    assert(keys_le(before[p], rv[q]));
                }
            }
        }
    }
    assert(lv.take(i as int) =~= lv);
    assert(rv.take(j as int) =~= rv);
    out
}

/// The keys of `v[lo..hi)`, sorted.
fn sort_range(v: &Vec<Vec<Vec<char>>>, lo: usize, hi: usize) -> (out: Vec<Vec<Vec<char>>>)
    requires
        lo <= hi <= v@.len(),
    ensures
        sorted_by(key_views(out@), keys_order()),
        key_views(out@).to_multiset() == key_views(v@).subrange(lo as int, hi as int).to_multiset(),
    decreases hi - lo,
{
    broadcast use vstd::seq_lib::group_to_multiset_ensures;
    if hi - lo == 0 {
        let out: Vec<Vec<Vec<char>>> = Vec::new();
        assert(key_views(out@) =~= key_views(v@).subrange(lo as int, hi as int));
        out
    } else if hi - lo == 1 {
        let mut out: Vec<Vec<Vec<char>>> = Vec::new();
        let ghost empty = out@;
        out.push(copy_key(&v[lo]));
        proof {
            lemma_key_views_push(empty, out@[0]);
            assert(key_views(out@) =~= key_views(v@).subrange(lo as int, hi as int));
        }
        out
    } else {
        let mid = lo + (hi - lo) / 2;
        let a = sort_range(v, lo, mid);
        let b = sort_range(v, mid, hi);
        let out = merge_keys(&a, &b);
        proof {
            let whole = key_views(v@).subrange(lo as int, hi as int);
            assert(whole =~= key_views(v@).subrange(lo as int, mid as int) + key_views(v@).subrange(
                mid as int,
                hi as int,
            ));
            vstd::seq_lib::lemma_multiset_commutative(
                key_views(v@).subrange(lo as int, mid as int),
                key_views(v@).subrange(mid as int, hi as int),
            );
        }
        out
    }
}

/// `keys` sorted (see `keys_le`).
pub fn sort_keys(keys: &Vec<Vec<Vec<char>>>) -> (out: Vec<Vec<Vec<char>>>)
    ensures
        key_views(out@) == key_views(keys@).sort_by(keys_order()),
{
    let out = sort_range(keys, 0, keys.len());
    proof {
        lemma_keys_order_total();
        let kv = key_views(keys@);
        assert(kv.subrange(0, kv.len() as int) =~= kv);
        kv.lemma_sort_by_ensures(keys_order());
        vstd::seq_lib::lemma_sorted_unique(key_views(out@), kv.sort_by(keys_order()), keys_order());
    }
    out
}

/// Run-length counts of `s`: each maximal run of equal keys, as the key and
/// the run's length.
pub open spec fn runs(s: Seq<Seq<Seq<char>>>) -> Seq<(Seq<Seq<char>>, nat)>
    decreases s.len(),
{
    if s.len() == 0 {
        Seq::empty()
    } else {
        let r = runs(s.drop_last());
        if r.len() > 0 && r.last().0 == s.last() {
            r.update(r.len() - 1, (s.last(), r.last().1 + 1))
        } else {
            r.push((s.last(), 1))
        }
    }
}

/// The tally of `items`: the distinct keys in order, each with the number
/// of times it occurs.
pub open spec fn tally(items: Seq<Seq<Seq<char>>>) -> Seq<(Seq<Seq<char>>, nat)> {
    runs(items.sort_by(keys_order()))
}

/// A tally record as plain values.
pub open spec fn record_views(v: Seq<(Vec<Vec<char>>, u32)>) -> Seq<(Seq<Seq<char>>, nat)> {
    v.map_values(|r: (Vec<Vec<char>>, u32)| (key_view(r.0), r.1 as nat))
}

proof fn lemma_runs_bounded(s: Seq<Seq<Seq<char>>>)
    ensures
        forall|k: int| 0 <= k < runs(s).len() ==> (#[trigger] runs(s)[k]).1 <= s.len(),
        runs(s).len() <= s.len(),
    decreases s.len(),
{
    if s.len() > 0 {
        lemma_runs_bounded(s.drop_last());
    }
}

/// The run-length counts of the sorted keys `sorted`.
fn count_runs(sorted: &Vec<Vec<Vec<char>>>) -> (out: Vec<(Vec<Vec<char>>, u32)>)
    requires
        sorted@.len() <= u32::MAX,
    ensures
        record_views(out@) == runs(key_views(sorted@)),
{
    let ghost sv = key_views(sorted@);
    let mut out: Vec<(Vec<Vec<char>>, u32)> = Vec::new();
    let mut i: usize = 0;
    assert(record_views(out@) =~= runs(sv.take(0)));
    while i < sorted.len()
        invariant
            i <= sorted@.len() <= u32::MAX,
            sv == key_views(sorted@),
            record_views(out@) == runs(sv.take(i as int)),
        decreases sorted@.len() - i,
    {
        let ghost pre = sv.take(i as int);
        let ghost before = record_views(out@);
        proof {
            lemma_runs_bounded(pre);
            assert(sv.take(i + 1).drop_last() =~= pre);
            assert(sv.take(i + 1).last() == sv[i as int]);
            assert(sv[i as int] == key_view(sorted@[i as int]));
        }
        let n = out.len();
        let same = n > 0 && keys_eq(&out[n - 1].0, &sorted[i]);
        if same {
            let last = out.pop().unwrap();
            proof {
                assert(before.last().1 <= pre.len());
            }
            let count = last.1 + 1;
            out.push((last.0, count));
            proof {
                assert(record_views(out@) =~= before.update(before.len() - 1, (sv[i as int], before.last().1 + 1)));
            }
        } else {
            let k = copy_key(&sorted[i]);
            out.push((k, 1u32));
            proof {
                assert(record_views(out@) =~= before.push((sv[i as int], 1nat)));
            }
        }
        i = i + 1;
    }
    assert(sv.take(i as int) =~= sv);
    out
}

/// Whether two keys are equal.
pub fn keys_eq(a: &Vec<Vec<char>>, b: &Vec<Vec<char>>) -> (r: bool)
    ensures
        r == (key_view(*a) == key_view(*b)),
{
    if a.len() != b.len() {
        assert(key_view(*a).len() != key_view(*b).len());
        return false;
    }
    let mut i: usize = 0;
    while i < a.len()
        invariant
            i <= a@.len(),
            a@.len() == b@.len(),
            forall|k: int| 0 <= k < i ==> a@[k]@ == b@[k]@,
        decreases a@.len() - i,
    {
        if !chars_eq(&a[i], &b[i]) {
            assert(key_view(*a)[i as int] != key_view(*b)[i as int]);
            return false;
        }
        i = i + 1;
    }
    assert(key_view(*a) =~= key_view(*b));
    true
}

/// The tally of `items` (see `tally`).
pub fn tally_keys(items: &Vec<Vec<Vec<char>>>) -> (out: Vec<(Vec<Vec<char>>, u32)>)
    requires
        items@.len() <= u32::MAX,
    ensures
        record_views(out@) == tally(key_views(items@)),
{
    let sorted = sort_keys(items);
    proof {
        lemma_keys_order_total();
        key_views(items@).lemma_sort_by_ensures(keys_order());
        broadcast use vstd::seq_lib::group_to_multiset_ensures;
        assert(key_views(sorted@).to_multiset().len() == key_views(items@).to_multiset().len());
        assert(key_views(sorted@).len() == key_views(items@).len());
    }
    count_runs(&sorted)
}

/// Why the corpus was refused. Lines are counted among the non-blank lines
/// of each file and, like columns, from 1.
#[derive(Clone, Debug, PartialEq, Eq)]
pub enum KhposError {
    /// The two files hold different numbers of sentences.
    SentenceCountMismatch { train: usize, tags: usize },
    /// A sentence and its tag line hold different numbers of tokens.
    TokenTagMismatch { line: usize, tokens: usize, tags: usize },
    /// A token without a `/` between word and tag.
    MissingSeparator { line: usize, column: usize },
    /// A token whose word or tag is empty.
    EmptyPart { line: usize, column: usize },
    /// A token whose tag differs from the tag file's.
    TagMismatch { line: usize, column: usize, observed: String, expected: String },
    /// A word or tag holding a NUL character, which the binary cannot store.
    NulText { text: String },
}

/// `KhposError` as plain values.
pub enum KhposFault {
    SentenceCountMismatch { train: usize, tags: usize },
    TokenTagMismatch { line: usize, tokens: usize, tags: usize },
    MissingSeparator { line: usize, column: usize },
    EmptyPart { line: usize, column: usize },
    TagMismatch { line: usize, column: usize, observed: Seq<char>, expected: Seq<char> },
    NulText { text: Seq<char> },
}

impl View for KhposError {
    type V = KhposFault;

    open spec fn view(&self) -> KhposFault {
        match self {
            KhposError::SentenceCountMismatch { train, tags } => KhposFault::SentenceCountMismatch {
                train: *train,
                tags: *tags,
            },
            KhposError::TokenTagMismatch { line, tokens, tags } => KhposFault::TokenTagMismatch {
                line: *line,
                tokens: *tokens,
                tags: *tags,
            },
            KhposError::MissingSeparator { line, column } => KhposFault::MissingSeparator { line: *line, column: *column },
            KhposError::EmptyPart { line, column } => KhposFault::EmptyPart { line: *line, column: *column },
            KhposError::TagMismatch { line, column, observed, expected } => KhposFault::TagMismatch {
                line: *line,
                column: *column,
                observed: observed@,
                expected: expected@,
            },
            KhposError::NulText { text } => KhposFault::NulText { text: text@ },
        }
    }
}

/// The words of `s` from position `i` on, as `split_whitespace` yields
/// them, given those already closed and the word being read.
pub open spec fn ws_scan(s: Seq<char>, i: int, words: Seq<Seq<char>>, cur: Seq<char>) -> Seq<Seq<char>>
    decreases s.len() - i,
{
    if i < 0 || i >= s.len() {
        if cur.len() > 0 {
            words.push(cur)
        } else {
            words
        }
    } else if is_space(s[i]) {
        ws_scan(s, i + 1, if cur.len() > 0 { words.push(cur) } else { words }, Seq::empty())
    } else {
        ws_scan(s, i + 1, words, cur.push(s[i]))
    }
}

/// The white-space separated words of `s`.
pub open spec fn ws_words(s: Seq<char>) -> Seq<Seq<char>> {
    ws_scan(s, 0, Seq::empty(), Seq::empty())
}

/// The white-space separated words of `s`.
pub fn split_ws(s: &Vec<char>) -> (out: Vec<Vec<char>>)
    ensures
        char_views(out@) == ws_words(s@),
{
    let mut words: Vec<Vec<char>> = Vec::new();
    let mut cur: Vec<char> = Vec::new();
    let mut i: usize = 0;
    assert(char_views(words@) =~= Seq::<Seq<char>>::empty());
    assert(cur@ =~= Seq::<char>::empty());
    while i < s.len()
        invariant
            i <= s@.len(),
            ws_words(s@) == ws_scan(s@, i as int, char_views(words@), cur@),
        decreases s@.len() - i,
    {
        let c = s[i];
        let ghost before = char_views(words@);
        if char_is_space(c) {
            if cur.len() > 0 {
                let done = cur;
                words.push(done);
                cur = Vec::new();
                assert(char_views(words@) =~= before.push(done@));
            } else {
                cur = Vec::new();
            }
        } else {
            cur.push(c);
        }
        i = i + 1;
    }
    let ghost before = char_views(words@);
    if cur.len() > 0 {
        let done = cur;
        words.push(done);
        assert(char_views(words@) =~= before.push(done@));
    }
    words
}

/// The index of the last `c` in `s`, if there is one.
pub open spec fn last_index_of(s: Seq<char>, c: char) -> Option<int>
    decreases s.len(),
{
    if s.len() == 0 {
        None
    } else if s.last() == c {
        Some(s.len() - 1)
    } else {
        last_index_of(s.drop_last(), c)
    }
}

proof fn lemma_last_index_range(s: Seq<char>, c: char)
    ensures
        last_index_of(s, c) matches Some(k) ==> 0 <= k < s.len() && s[k] == c,
    decreases s.len(),
{
    if s.len() > 0 && s.last() != c {
        lemma_last_index_range(s.drop_last(), c);
    }
}

proof fn lemma_last_index_of(s: Seq<char>, c: char, i: int)
    requires
        0 <= i <= s.len(),
        forall|k: int| i <= k < s.len() ==> s[k] != c,
    ensures
        last_index_of(s, c) == last_index_of(s.take(i), c),
    decreases s.len() - i,
{
    if i < s.len() {
        lemma_last_index_of(s.drop_last(), c, i);
        assert(s.drop_last().take(i) =~= s.take(i));
    } else {
        assert(s.take(i) =~= s);
    }
}

fn find_last(s: &Vec<char>, c: char) -> (r: Option<usize>)
    ensures
        match last_index_of(s@, c) {
            Some(k) => r == Some(k as usize),
            None => r is None,
        },
        r matches Some(k) ==> k < s@.len() && s@[k as int] == c,
{
    proof {
        lemma_last_index_range(s@, c);
    }
    let mut i = s.len();
    while i > 0
        invariant
            i <= s@.len(),
            forall|k: int| i <= k < s@.len() ==> s@[k] != c,
        decreases i,
    {
        if s[i - 1] == c {
            proof {
                lemma_last_index_of(s@, c, i as int);
                assert(s@.take(i as int).last() == c);
            }
            return Some(i - 1);
        }
        i = i - 1;
    }
    proof {
        lemma_last_index_of(s@, c, 0);
        assert(s@.take(0).len() == 0);
    }
    None
}

/// The non-blank lines among `ls`, in order.
pub open spec fn nonblank(ls: Seq<Seq<char>>) -> Seq<Seq<char>>
    decreases ls.len(),
{
    if ls.len() == 0 {
        Seq::empty()
    } else if is_blank(ls.last()) {
        nonblank(ls.drop_last())
    } else {
        nonblank(ls.drop_last()).push(ls.last())
    }
}

fn nonblank_lines(text: &str) -> (out: Vec<Vec<char>>)
    ensures
        char_views(out@) == nonblank(lines(text@)),
{
    let cs = chars_of(text);
    let ls = lines_of(&cs);
    let ghost lv = char_views(ls@);
    let mut out: Vec<Vec<char>> = Vec::new();
    let mut i: usize = 0;
    assert(char_views(out@) =~= nonblank(lv.take(0)));
    while i < ls.len()
        invariant
            i <= ls@.len(),
            lv == char_views(ls@),
            lv == lines(text@),
            char_views(out@) == nonblank(lv.take(i as int)),
        decreases ls@.len() - i,
    {
        assert(lv.take(i + 1).drop_last() =~= lv.take(i as int));
        assert(lv.take(i + 1).last() == ls@[i as int]@);
        let (a, z) = crate::text::trim_bounds(&ls[i], 0, ls[i].len());
        assert(ls@[i as int]@.subrange(0, ls@[i as int]@.len() as int) =~= ls@[i as int]@);
        if a != z {
            let ghost before = char_views(out@);
            let line = slice_to_vec(&ls[i], 0, ls[i].len());
            out.push(line);
            assert(char_views(out@) =~= before.push(ls@[i as int]@));
        }
        i = i + 1;
    }
    assert(lv.take(i as int) =~= lv);
    out
}

/// The (word, tag) pairs of one sentence from column `c` on: each token
/// splits at its last `/`; the first token without one, with an empty word
/// or tag, or with a tag other than the tag file's, is refused.
pub open spec fn tagged_tokens(line: usize, toks: Seq<Seq<char>>, tags: Seq<Seq<char>>, c: int) -> Result<
    Seq<(Seq<char>, Seq<char>)>,
    KhposFault,
>
    decreases toks.len() - c,
{
    if c < 0 || c >= toks.len() {
        Ok(Seq::empty())
    } else {
        match last_index_of(toks[c], '/') {
            None => Err(KhposFault::MissingSeparator { line, column: (c + 1) as usize }),
            Some(j) => {
                let w = toks[c].take(j);
                let t = toks[c].skip(j + 1);
                if w.len() == 0 || t.len() == 0 {
                    Err(KhposFault::EmptyPart { line, column: (c + 1) as usize })
                } else if t != tags[c] {
                    Err(KhposFault::TagMismatch { line, column: (c + 1) as usize, observed: t, expected: tags[c] })
                } else {
                    match tagged_tokens(line, toks, tags, c + 1) {
                        Ok(rest) => Ok(seq![(w, t)] + rest),
                        Err(e) => Err(e),
                    }
                }
            },
        }
    }
}

/// The sentences from `j` on, each as its (word, tag) pairs; a sentence
/// whose token count differs from its tag line's is refused first.
pub open spec fn tagged_sentences(tl: Seq<Seq<char>>, gl: Seq<Seq<char>>, j: int) -> Result<
    Seq<Seq<(Seq<char>, Seq<char>)>>,
    KhposFault,
>
    decreases tl.len() - j,
{
    if j < 0 || j >= tl.len() {
        Ok(Seq::empty())
    } else {
        let toks = ws_words(tl[j]);
        let tags = ws_words(gl[j]);
        if toks.len() != tags.len() {
            Err(KhposFault::TokenTagMismatch {
                line: (j + 1) as usize,
                tokens: toks.len() as usize,
                tags: tags.len() as usize,
            })
        } else {
            match tagged_tokens((j + 1) as usize, toks, tags, 0) {
                Err(e) => Err(e),
                Ok(pairs) => match tagged_sentences(tl, gl, j + 1) {
                    Ok(rest) => Ok(seq![pairs] + rest),
                    Err(e) => Err(e),
                },
            }
        }
    }
}

/// The corpus as sentences of (word, tag) pairs: the non-blank lines of
/// both files, which must be equally many, taken side by side.
pub open spec fn khpos_sentences(train: Seq<char>, tags: Seq<char>) -> Result<
    Seq<Seq<(Seq<char>, Seq<char>)>>,
    KhposFault,
> {
    let tl = nonblank(lines(train));
    let gl = nonblank(lines(tags));
    if tl.len() != gl.len() {
        Err(KhposFault::SentenceCountMismatch { train: tl.len() as usize, tags: gl.len() as usize })
    } else {
        tagged_sentences(tl, gl, 0)
    }
}

/// A sentence as plain values.
pub open spec fn sentence_view(v: Vec<(Vec<char>, Vec<char>)>) -> Seq<(Seq<char>, Seq<char>)> {
    v@.map_values(|p: (Vec<char>, Vec<char>)| (p.0@, p.1@))
}

/// Sentences as plain values.
pub open spec fn sentence_views(v: Seq<Vec<(Vec<char>, Vec<char>)>>) -> Seq<Seq<(Seq<char>, Seq<char>)>> {
    v.map_values(|x: Vec<(Vec<char>, Vec<char>)>| sentence_view(x))
}

fn tag_sentence(line: usize, toks: &Vec<Vec<char>>, tags: &Vec<Vec<char>>) -> (r: Result<
    Vec<(Vec<char>, Vec<char>)>,
    KhposError,
>)
    requires
        toks@.len() == tags@.len(),
    ensures
        match tagged_tokens(line, char_views(toks@), char_views(tags@), 0) {
            Ok(ps) => r matches Ok(v) && sentence_view(v) == ps,
            Err(e) => r matches Err(x) && x@ == e,
        },
{
    let ghost tv = char_views(toks@);
    let ghost gv = char_views(tags@);
    let mut out: Vec<(Vec<char>, Vec<char>)> = Vec::new();
    let mut c: usize = 0;
    assert(sentence_view(out) =~= Seq::<(Seq<char>, Seq<char>)>::empty());
    assert(tagged_tokens(line, tv, gv, 0) == match tagged_tokens(line, tv, gv, 0) {
        Ok(rest) => Ok(sentence_view(out) + rest),
        Err(e) => Err::<Seq<(Seq<char>, Seq<char>)>, KhposFault>(e),
    }) by {
        match tagged_tokens(line, tv, gv, 0) {
            Ok(rest) => { assert(sentence_view(out) + rest =~= rest); },
            Err(_) => {},
        }
    }
    while c < toks.len()
        invariant
            c <= toks@.len(),
            toks@.len() == tags@.len(),
            tv == char_views(toks@),
            gv == char_views(tags@),
            tagged_tokens(line, tv, gv, 0) == match tagged_tokens(line, tv, gv, c as int) {
                Ok(rest) => Ok(sentence_view(out) + rest),
                Err(e) => Err::<Seq<(Seq<char>, Seq<char>)>, KhposFault>(e),
            },
        decreases toks@.len() - c,
    {
        let tok = &toks[c];
        assert(tv[c as int] == tok@);
        assert(gv[c as int] == tags@[c as int]@);
        match find_last(tok, '/') {
            None => {
                return Err(KhposError::MissingSeparator { line, column: c + 1 });
            },
            Some(j) => {
                let n = tok.len();
                assert(j < n);
                let word = slice_to_vec(tok, 0, j);
                let tag = slice_to_vec(tok, j + 1, tok.len());
                assert(word@ =~= tok@.take(j as int));
                assert(tag@ =~= tok@.skip(j + 1));
                proof {
                    lemma_last_index_range(tok@, '/');
                }
                if word.len() == 0 || tag.len() == 0 {
                    assert(tagged_tokens(line, tv, gv, c as int) == Err::<Seq<(Seq<char>, Seq<char>)>, KhposFault>(
                        KhposFault::EmptyPart { line, column: (c + 1) as usize },
                    ));
                    return Err(KhposError::EmptyPart { line, column: c + 1 });
                }
                if !chars_eq(&tag, &tags[c]) {
                    assert(tagged_tokens(line, tv, gv, c as int) == Err::<Seq<(Seq<char>, Seq<char>)>, KhposFault>(
                        KhposFault::TagMismatch {
                            line,
                            column: (c + 1) as usize,
                            observed: tag@,
                            expected: tags@[c as int]@,
                        },
                    ));
                    return Err(KhposError::TagMismatch {
                        line,
                        column: c + 1,
                        observed: string_from_chars(&tag),
                        expected: string_from_chars(&tags[c]),
                    });
                }
                let ghost before = sentence_view(out);
                out.push((word, tag));
                proof {
                    let e = (tok@.take(j as int), tok@.skip(j + 1));
                    assert(sentence_view(out) =~= before.push(e));
                    match tagged_tokens(line, tv, gv, c + 1) {
                        Ok(rest) => {
                            assert(before + (seq![e] + rest) =~= before.push(e) + rest);
                        },
                        Err(_) => {},
                    }
                }
            },
        }
        c = c + 1;
    }
    assert(sentence_view(out) + Seq::<(Seq<char>, Seq<char>)>::empty() =~= sentence_view(out));
    Ok(out)
}

/// Splits the corpus into sentences of (word, tag) pairs (see
/// `khpos_sentences`).
pub fn parse_khpos_sentences(train_source: &str, tag_source: &str) -> (r: Result<
    Vec<Vec<(Vec<char>, Vec<char>)>>,
    KhposError,
>)
    ensures
        match khpos_sentences(train_source@, tag_source@) {
            Ok(ss) => r matches Ok(v) && sentence_views(v@) == ss,
            Err(e) => r matches Err(x) && x@ == e,
        },
{
    let tl = nonblank_lines(train_source);
    let gl = nonblank_lines(tag_source);
    if tl.len() != gl.len() {
        return Err(KhposError::SentenceCountMismatch { train: tl.len(), tags: gl.len() });
    }
    let ghost tv = char_views(tl@);
    let ghost gv = char_views(gl@);
    let mut out: Vec<Vec<(Vec<char>, Vec<char>)>> = Vec::new();
    let mut j: usize = 0;
    assert(sentence_views(out@) =~= Seq::<Seq<(Seq<char>, Seq<char>)>>::empty());
    assert(tagged_sentences(tv, gv, 0) == match tagged_sentences(tv, gv, 0) {
        Ok(rest) => Ok(sentence_views(out@) + rest),
        Err(e) => Err::<Seq<Seq<(Seq<char>, Seq<char>)>>, KhposFault>(e),
    }) by {
        match tagged_sentences(tv, gv, 0) {
            Ok(rest) => { assert(sentence_views(out@) + rest =~= rest); },
            Err(_) => {},
        }
    }
    while j < tl.len()
        invariant
            j <= tl@.len(),
            tl@.len() == gl@.len(),
            tv == char_views(tl@),
            gv == char_views(gl@),
            tv == nonblank(lines(train_source@)),
            gv == nonblank(lines(tag_source@)),
            tagged_sentences(tv, gv, 0) == match tagged_sentences(tv, gv, j as int) {
                Ok(rest) => Ok(sentence_views(out@) + rest),
                Err(e) => Err::<Seq<Seq<(Seq<char>, Seq<char>)>>, KhposFault>(e),
            },
        decreases tl@.len() - j,
    {
        assert(tv[j as int] == tl@[j as int]@);
        assert(gv[j as int] == gl@[j as int]@);
        let toks = split_ws(&tl[j]);
        let tags = split_ws(&gl[j]);
        if toks.len() != tags.len() {
            return Err(KhposError::TokenTagMismatch { line: j + 1, tokens: toks.len(), tags: tags.len() });
        }
        match tag_sentence(j + 1, &toks, &tags) {
            Err(e) => {
                return Err(e);
            },
            Ok(pairs) => {
                let ghost before = sentence_views(out@);
                let ghost pv = sentence_view(pairs);
                out.push(pairs);
                proof {
                    assert(sentence_views(out@) =~= before.push(pv));
                    match tagged_sentences(tv, gv, j + 1) {
                        Ok(rest) => {
                            assert(before + (seq![pv] + rest) =~= before.push(pv) + rest);
                        },
                        Err(_) => {},
                    }
                }
            },
        }
        j = j + 1;
    }
    assert(sentence_views(out@) + Seq::<Seq<(Seq<char>, Seq<char>)>>::empty() =~= sentence_views(out@));
    Ok(out)
}

/// The longest run of words joined into one surface form.
pub const MAX_JOINED_SURFACE_TOKENS: usize = 4;

/// What one token contributes to a statistic.
#[derive(Clone, Copy, Debug, PartialEq, Eq, Structural)]
pub enum TokenItem {
    Word,
    Tag,
    WordTag,
}

/// The key a token contributes.
pub open spec fn token_key(kind: TokenItem, p: (Seq<char>, Seq<char>)) -> Seq<Seq<char>> {
    match kind {
        TokenItem::Word => seq![p.0],
        TokenItem::Tag => seq![p.1],
        TokenItem::WordTag => seq![p.0, p.1],
    }
}

/// The keys a sentence contributes, token by token.
pub open spec fn sentence_token_keys(kind: TokenItem, p: Seq<(Seq<char>, Seq<char>)>) -> Seq<Seq<Seq<char>>> {
    p.map_values(|x: (Seq<char>, Seq<char>)| token_key(kind, x))
}

/// The keys of adjacent token pairs: consecutive words, or consecutive
/// tags.
pub open spec fn sentence_pair_keys(tags: bool, p: Seq<(Seq<char>, Seq<char>)>) -> Seq<Seq<Seq<char>>> {
    Seq::new(
        if p.len() > 0 {
            (p.len() - 1) as nat
        } else {
            0
        },
        |k: int|
            if tags {
                seq![p[k].1, p[k + 1].1]
            } else {
                seq![p[k].0, p[k + 1].0]
            },
    )
}

/// The words of `ws` joined into one string.
pub open spec fn joined(ws: Seq<Seq<char>>) -> Seq<char>
    decreases ws.len(),
{
    if ws.len() == 0 {
        Seq::empty()
    } else {
        joined(ws.drop_last()) + ws.last()
    }
}

/// The surface forms starting at word `start`: the word itself, then it
/// joined with each following word, up to `MAX_JOINED_SURFACE_TOKENS` words.
pub open spec fn surfaces_at(ws: Seq<Seq<char>>, start: int) -> Seq<Seq<Seq<char>>> {
    let n = if ws.len() - start < MAX_JOINED_SURFACE_TOKENS {
        ws.len() - start
    } else {
        MAX_JOINED_SURFACE_TOKENS as int
    };
    Seq::new(n as nat, |m: int| seq![joined(ws.subrange(start, start + m + 1))])
}

/// The surface forms of the words before `upto`, by starting word.
pub open spec fn surfaces_before(ws: Seq<Seq<char>>, upto: int) -> Seq<Seq<Seq<char>>>
    decreases upto,
{
    if upto <= 0 {
        Seq::empty()
    } else {
        surfaces_before(ws, upto - 1) + surfaces_at(ws, upto - 1)
    }
}

/// The surface forms of a sentence.
pub open spec fn sentence_surface_keys(p: Seq<(Seq<char>, Seq<char>)>) -> Seq<Seq<Seq<char>>> {
    surfaces_before(p.map_values(|x: (Seq<char>, Seq<char>)| x.0), p.len() as int)
}

/// The keys every sentence contributes, sentence after sentence.
pub open spec fn gather(
    ss: Seq<Seq<(Seq<char>, Seq<char>)>>,
    f: spec_fn(Seq<(Seq<char>, Seq<char>)>) -> Seq<Seq<Seq<char>>>,
) -> Seq<Seq<Seq<char>>>
    decreases ss.len(),
{
    if ss.len() == 0 {
        Seq::empty()
    } else {
        gather(ss.drop_last(), f) + f(ss.last())
    }
}

/// The keys every token of the sentences contributes.
pub open spec fn token_keys_of(kind: TokenItem, ss: Seq<Seq<(Seq<char>, Seq<char>)>>) -> Seq<Seq<Seq<char>>> {
    gather(ss, |p: Seq<(Seq<char>, Seq<char>)>| sentence_token_keys(kind, p))
}

/// The keys of adjacent word pairs, or tag pairs, of the sentences.
pub open spec fn pair_keys_of(tags: bool, ss: Seq<Seq<(Seq<char>, Seq<char>)>>) -> Seq<Seq<Seq<char>>> {
    gather(ss, |p: Seq<(Seq<char>, Seq<char>)>| sentence_pair_keys(tags, p))
}

/// The surface forms of the sentences.
pub open spec fn surface_keys_of(ss: Seq<Seq<(Seq<char>, Seq<char>)>>) -> Seq<Seq<Seq<char>>> {
    gather(ss, |p: Seq<(Seq<char>, Seq<char>)>| sentence_surface_keys(p))
}

/// The number of tokens in the sentences.
pub open spec fn token_total(ss: Seq<Seq<(Seq<char>, Seq<char>)>>) -> nat
    decreases ss.len(),
{
    if ss.len() == 0 {
        0
    } else {
        token_total(ss.drop_last()) + ss.last().len()
    }
}

proof fn lemma_gather_step(
    ss: Seq<Seq<(Seq<char>, Seq<char>)>>,
    i: int,
    f: spec_fn(Seq<(Seq<char>, Seq<char>)>) -> Seq<Seq<Seq<char>>>,
)
    requires
        0 <= i < ss.len(),
    ensures
        gather(ss.take(i + 1), f) == gather(ss.take(i), f) + f(ss[i]),
        token_total(ss.take(i + 1)) == token_total(ss.take(i)) + ss[i].len(),
{
    assert(ss.take(i + 1).drop_last() =~= ss.take(i));
}

proof fn lemma_token_total_mono(ss: Seq<Seq<(Seq<char>, Seq<char>)>>, i: int)
    requires
        0 <= i <= ss.len(),
    ensures
        token_total(ss.take(i)) <= token_total(ss),
    decreases ss.len() - i,
{
    if i < ss.len() {
        lemma_token_total_mono(ss, i + 1);
        lemma_gather_step(ss, i, |p: Seq<(Seq<char>, Seq<char>)>| Seq::<Seq<Seq<char>>>::empty());
    } else {
        assert(ss.take(i) =~= ss);
    }
}

fn single_key(a: &Vec<char>) -> (k: Vec<Vec<char>>)
    ensures
        key_view(k) == seq![a@],
{
    let mut k: Vec<Vec<char>> = Vec::new();
    k.push(slice_to_vec(a, 0, a.len()));
    assert(a@.subrange(0, a@.len() as int) =~= a@);
    assert(key_view(k) =~= seq![a@]);
    k
}

fn double_key(a: &Vec<char>, b: &Vec<char>) -> (k: Vec<Vec<char>>)
    ensures
        key_view(k) == seq![a@, b@],
{
    let mut k: Vec<Vec<char>> = Vec::new();
    k.push(slice_to_vec(a, 0, a.len()));
    k.push(slice_to_vec(b, 0, b.len()));
    assert(a@.subrange(0, a@.len() as int) =~= a@);
    assert(b@.subrange(0, b@.len() as int) =~= b@);
    assert(key_view(k) =~= seq![a@, b@]);
    k
}

/// The keys every token contributes (see `token_key`).
pub fn token_items(ss: &Vec<Vec<(Vec<char>, Vec<char>)>>, kind: TokenItem) -> (out: Vec<Vec<Vec<char>>>)
    requires
        token_total(sentence_views(ss@)) <= u32::MAX,
    ensures
        key_views(out@) == token_keys_of(kind, sentence_views(ss@)),
        out@.len() == token_total(sentence_views(ss@)),
{
    let ghost sv = sentence_views(ss@);
    let ghost f = |p: Seq<(Seq<char>, Seq<char>)>| sentence_token_keys(kind, p);
    let mut out: Vec<Vec<Vec<char>>> = Vec::new();
    let mut i: usize = 0;
    assert(key_views(out@) =~= gather(sv.take(0), f));
    while i < ss.len()
        invariant
            i <= ss@.len(),
            sv == sentence_views(ss@),
            token_total(sv) <= u32::MAX,
            f == (|p: Seq<(Seq<char>, Seq<char>)>| sentence_token_keys(kind, p)),
            key_views(out@) == gather(sv.take(i as int), f),
            out@.len() == token_total(sv.take(i as int)),
        decreases ss@.len() - i,
    {
        let sent = &ss[i];
        let ghost pv = sentence_view(*sent);
        assert(sv[i as int] == pv);
        proof {
            lemma_gather_step(sv, i as int, f);
            lemma_token_total_mono(sv, i + 1);
        }
        let ghost base = key_views(out@);
        let mut c: usize = 0;
        while c < sent.len()
            invariant
                c <= sent@.len(),
                pv == sentence_view(*sent),
                out@.len() == token_total(sv.take(i as int)) + c,
                token_total(sv.take(i as int)) + sent@.len() <= u32::MAX,
                key_views(out@) == base + sentence_token_keys(kind, pv).take(c as int),
            decreases sent@.len() - c,
        {
            let pair = &sent[c];
            assert(pv[c as int] == (pair.0@, pair.1@));
            let k = match kind {
                TokenItem::Word => single_key(&pair.0),
                TokenItem::Tag => single_key(&pair.1),
                TokenItem::WordTag => double_key(&pair.0, &pair.1),
            };
            let ghost before = out@;
            out.push(k);
            proof {
                lemma_key_views_push(before, k);
                assert(sentence_token_keys(kind, pv).take(c + 1) =~= sentence_token_keys(kind, pv).take(
                    c as int,
                ).push(key_view(k)));
            }
            c = c + 1;
        }
        assert(sentence_token_keys(kind, pv).take(c as int) =~= sentence_token_keys(kind, pv));
        i = i + 1;
    }
    assert(sv.take(i as int) =~= sv);
    out
}

/// The keys of adjacent token pairs (see `sentence_pair_keys`).
pub fn pair_items(ss: &Vec<Vec<(Vec<char>, Vec<char>)>>, tags: bool) -> (out: Vec<Vec<Vec<char>>>)
    requires
        token_total(sentence_views(ss@)) <= u32::MAX,
    ensures
        key_views(out@) == pair_keys_of(tags, sentence_views(ss@)),
        out@.len() <= token_total(sentence_views(ss@)),
{
    let ghost sv = sentence_views(ss@);
    let ghost f = |p: Seq<(Seq<char>, Seq<char>)>| sentence_pair_keys(tags, p);
    let mut out: Vec<Vec<Vec<char>>> = Vec::new();
    let mut i: usize = 0;
    assert(key_views(out@) =~= gather(sv.take(0), f));
    while i < ss.len()
        invariant
            i <= ss@.len(),
            sv == sentence_views(ss@),
            token_total(sv) <= u32::MAX,
            f == (|p: Seq<(Seq<char>, Seq<char>)>| sentence_pair_keys(tags, p)),
            key_views(out@) == gather(sv.take(i as int), f),
            out@.len() <= token_total(sv.take(i as int)),
        decreases ss@.len() - i,
    {
        let sent = &ss[i];
        let ghost pv = sentence_view(*sent);
        assert(sv[i as int] == pv);
        proof {
            lemma_gather_step(sv, i as int, f);
            lemma_token_total_mono(sv, i + 1);
        }
        let ghost base = key_views(out@);
        let ghost base_len = out@.len();
        let mut c: usize = 1;
        assert(sentence_pair_keys(tags, pv).take(0) =~= Seq::<Seq<Seq<char>>>::empty());
        assert(base + sentence_pair_keys(tags, pv).take(0) =~= base);
        while c < sent.len()
            invariant
                1 <= c,
                c <= sent@.len() || sent@.len() == 0,
                sent@.len() == 0 ==> c == 1,
                pv == sentence_view(*sent),
                out@.len() == base_len + c - 1,
                base_len <= token_total(sv.take(i as int)),
                token_total(sv.take(i as int)) + sent@.len() <= u32::MAX,
                key_views(out@) == base + sentence_pair_keys(tags, pv).take(c - 1),
            decreases sent@.len() - c,
        {
            let a = &sent[c - 1];
            let b = &sent[c];
            assert(pv[c - 1] == (a.0@, a.1@));
            assert(pv[c as int] == (b.0@, b.1@));
            let k = if tags {
                double_key(&a.1, &b.1)
            } else {
                double_key(&a.0, &b.0)
            };
            let ghost before = out@;
            out.push(k);
            proof {
                lemma_key_views_push(before, k);
                assert(sentence_pair_keys(tags, pv).take(c as int) =~= sentence_pair_keys(tags, pv).take(
                    c - 1,
                ).push(key_view(k)));
            }
            c = c + 1;
        }
        assert(sentence_pair_keys(tags, pv).take(sentence_pair_keys(tags, pv).len() as int) =~= sentence_pair_keys(
            tags,
            pv,
        ));
        if sent.len() == 0 {
            assert(sentence_pair_keys(tags, pv) =~= Seq::<Seq<Seq<char>>>::empty());
            assert(c == 1);
        } else {
            assert(c == sent@.len());
        }
        assert(c - 1 == sentence_pair_keys(tags, pv).len());
        assert(key_views(out@) == base + sentence_pair_keys(tags, pv));
        assert(f(pv) == sentence_pair_keys(tags, pv));
        assert(gather(sv.take(i + 1), f) == base + f(pv));
        i = i + 1;
    }
    assert(sv.take(i as int) =~= sv);
    out
}

proof fn lemma_joined_step(ws: Seq<Seq<char>>, lo: int, hi: int)
    requires
        0 <= lo < hi <= ws.len(),
    ensures
        joined(ws.subrange(lo, hi)) == joined(ws.subrange(lo, hi - 1)) + ws[hi - 1],
{
    assert(ws.subrange(lo, hi).drop_last() =~= ws.subrange(lo, hi - 1));
}

/// The surface forms of every sentence (see `sentence_surface_keys`).
pub fn surface_items(ss: &Vec<Vec<(Vec<char>, Vec<char>)>>) -> (out: Vec<Vec<Vec<char>>>)
    requires
        4 * token_total(sentence_views(ss@)) <= u32::MAX,
    ensures
        key_views(out@) == surface_keys_of(sentence_views(ss@)),
        out@.len() <= 4 * token_total(sentence_views(ss@)),
{
    let ghost sv = sentence_views(ss@);
    let ghost f = |p: Seq<(Seq<char>, Seq<char>)>| sentence_surface_keys(p);
    let mut out: Vec<Vec<Vec<char>>> = Vec::new();
    let mut i: usize = 0;
    assert(key_views(out@) =~= gather(sv.take(0), f));
    while i < ss.len()
        invariant
            i <= ss@.len(),
            sv == sentence_views(ss@),
            4 * token_total(sv) <= u32::MAX,
            f == (|p: Seq<(Seq<char>, Seq<char>)>| sentence_surface_keys(p)),
            key_views(out@) == gather(sv.take(i as int), f),
            out@.len() <= 4 * token_total(sv.take(i as int)),
        decreases ss@.len() - i,
    {
        let sent = &ss[i];
        let ghost pv = sentence_view(*sent);
        let ghost ws = pv.map_values(|x: (Seq<char>, Seq<char>)| x.0);
        assert(sv[i as int] == pv);
        proof {
            lemma_gather_step(sv, i as int, f);
            lemma_token_total_mono(sv, i + 1);
        }
        let ghost base = key_views(out@);
        let ghost base_len = out@.len();
        let n = sent.len();
        let mut start: usize = 0;
        assert(base + surfaces_before(ws, 0) =~= base);
        while start < n
            invariant
                start <= n == sent@.len() == ws.len(),
                pv == sentence_view(*sent),
                ws == pv.map_values(|x: (Seq<char>, Seq<char>)| x.0),
                base_len <= 4 * token_total(sv.take(i as int)),
                4 * (token_total(sv.take(i as int)) + n) <= u32::MAX,
                out@.len() <= base_len + 4 * start,
                key_views(out@) == base + surfaces_before(ws, start as int),
            decreases n - start,
        {
            let ghost row_base = key_views(out@);
            let ghost row = surfaces_at(ws, start as int);
            let span = if n - start < MAX_JOINED_SURFACE_TOKENS {
                n - start
            } else {
                MAX_JOINED_SURFACE_TOKENS
            };
            assert(row.len() == span);
            let mut cur: Vec<char> = Vec::new();
            let mut m: usize = 0;
            assert(cur@ =~= joined(ws.subrange(start as int, start as int)));
            assert(row.take(0) =~= Seq::<Seq<Seq<char>>>::empty());
            assert(row_base + row.take(0) =~= row_base);
            while m < span
                invariant
                    m <= span <= 4,
                    start + span <= n == sent@.len() == ws.len(),
                    pv == sentence_view(*sent),
                    ws == pv.map_values(|x: (Seq<char>, Seq<char>)| x.0),
                    row == surfaces_at(ws, start as int),
                    row.len() == span,
                    cur@ == joined(ws.subrange(start as int, start + m)),
                    out@.len() == row_base.len() + m,
                    key_views(out@) == row_base + row.take(m as int),
                decreases span - m,
            {
                let word = &sent[start + m].0;
                assert(ws[start + m] == word@);
                crate::text::append_chars(&mut cur, word);
                proof {
                    lemma_joined_step(ws, start as int, start + m + 1);
                }
                let k = single_key(&cur);
                let ghost before = out@;
                out.push(k);
                proof {
                    lemma_key_views_push(before, k);
                    assert(row[m as int] == seq![joined(ws.subrange(start as int, start + m + 1))]);
                    assert(row.take(m + 1) =~= row.take(m as int).push(row[m as int]));
                }
                m = m + 1;
            }
            assert(row.take(m as int) =~= row);
            assert(surfaces_before(ws, start + 1) == surfaces_before(ws, start as int) + row);
            assert(base + surfaces_before(ws, start + 1) =~= row_base + row);
            start = start + 1;
        }
        assert(f(pv) == sentence_surface_keys(pv));
        assert(sentence_surface_keys(pv) == surfaces_before(ws, n as int));
        assert(gather(sv.take(i + 1), f) == base + f(pv));
        i = i + 1;
    }
    assert(sv.take(i as int) =~= sv);
    out
}

/// A key as stored: each string's UTF-8 followed by a zero byte.
pub open spec fn key_bytes(k: Seq<Seq<char>>) -> Seq<u8>
    decreases k.len(),
{
    if k.len() == 0 {
        Seq::empty()
    } else {
        key_bytes(k.drop_last()) + encode_utf8(k.last()) + seq![0u8]
    }
}

/// The stored records: each key followed by its count as a little-endian
/// `u32`.
pub open spec fn records_bytes(rs: Seq<(Seq<Seq<char>>, nat)>) -> Seq<u8>
    decreases rs.len(),
{
    if rs.len() == 0 {
        Seq::empty()
    } else {
        records_bytes(rs.drop_last()) + key_bytes(rs.last().0) + spec_u32_to_le_bytes(rs.last().1 as u32)
    }
}

/// A stored block: the record count as a little-endian `u32` (taken modulo
/// 2^32, as the cast does), then the records.
pub open spec fn block_bytes(rs: Seq<(Seq<Seq<char>>, nat)>) -> Seq<u8> {
    spec_u32_to_le_bytes(rs.len() as u32) + records_bytes(rs)
}

/// The first string of the key that holds a NUL character.
pub open spec fn key_nul(k: Seq<Seq<char>>) -> Option<Seq<char>>
    decreases k.len(),
{
    if k.len() == 0 {
        None
    } else if k[0].contains('\0') {
        Some(k[0])
    } else {
        key_nul(k.drop_first())
    }
}

/// The first string, in write order, of the records that holds a NUL
/// character.
pub open spec fn records_nul(rs: Seq<(Seq<Seq<char>>, nat)>) -> Option<Seq<char>>
    decreases rs.len(),
{
    if rs.len() == 0 {
        None
    } else {
        match key_nul(rs[0].0) {
            Some(t) => Some(t),
            None => records_nul(rs.drop_first()),
        }
    }
}

proof fn lemma_key_nul_skip(k: Seq<Seq<char>>, i: int)
    requires
        0 <= i <= k.len(),
        forall|j: int| 0 <= j < i ==> !k[j].contains('\0'),
    ensures
        key_nul(k) == key_nul(k.skip(i)),
    decreases i,
{
    if i > 0 {
        lemma_key_nul_skip(k.drop_first(), i - 1);
        assert(k.drop_first().skip(i - 1) =~= k.skip(i));
    } else {
        assert(k.skip(0) =~= k);
    }
}

proof fn lemma_records_nul_skip(rs: Seq<(Seq<Seq<char>>, nat)>, i: int)
    requires
        0 <= i <= rs.len(),
        forall|j: int| 0 <= j < i ==> key_nul(rs[j].0) is None,
    ensures
        records_nul(rs) == records_nul(rs.skip(i)),
    decreases i,
{
    if i > 0 {
        lemma_records_nul_skip(rs.drop_first(), i - 1);
        assert(rs.drop_first().skip(i - 1) =~= rs.skip(i));
    } else {
        assert(rs.skip(0) =~= rs);
    }
}

fn append_bytes(out: &mut Vec<u8>, more: &[u8])
    ensures
        final(out)@ == old(out)@ + more@,
{
    let ghost start = out@;
    let mut i: usize = 0;
    while i < more.len()
        invariant
            i <= more@.len(),
            out@ == start + more@.take(i as int),
        decreases more@.len() - i,
    {
        out.push(more[i]);
        i = i + 1;
        assert(out@ =~= start + more@.take(i as int));
    }
    assert(more@.take(i as int) =~= more@);
}

fn holds_nul(s: &Vec<char>) -> (b: bool)
    ensures
        b == s@.contains('\0'),
{
    let mut i: usize = 0;
    while i < s.len()
        invariant
            i <= s@.len(),
            forall|k: int| 0 <= k < i ==> s@[k] != '\0',
        decreases s@.len() - i,
    {
        if s[i] == '\0' {
            return true;
        }
        i = i + 1;
    }
    false
}

/// Appends a key's bytes, or hands back its first string holding NUL.
fn write_key(out: &mut Vec<u8>, k: &Vec<Vec<char>>) -> (r: Option<Vec<char>>)
    ensures
        match key_nul(key_view(*k)) {
            Some(t) => r matches Some(v) && v@ == t,
            None => r is None && final(out)@ == old(out)@ + key_bytes(key_view(*k)),
        },
{
    let ghost kv = key_view(*k);
    let ghost start = out@;
    let mut i: usize = 0;
    assert(kv.take(0) =~= Seq::<Seq<char>>::empty());
    while i < k.len()
        invariant
            i <= k@.len(),
            kv == key_view(*k),
            out@ == start + key_bytes(kv.take(i as int)),
            forall|j: int| 0 <= j < i ==> !kv[j].contains('\0'),
        decreases k@.len() - i,
    {
        let piece = &k[i];
        assert(kv[i as int] == piece@);
        if holds_nul(piece) {
            proof {
                lemma_key_nul_skip(kv, i as int);
                assert(kv.skip(i as int)[0] == kv[i as int]);
            }
            return Some(slice_to_vec(piece, 0, piece.len()));
        }
        let text = string_from_chars(piece);
        let ghost before = out@;
        append_bytes(out, text.as_str().as_bytes());
        out.push(0u8);
        proof {
            assert(kv.take(i + 1).drop_last() =~= kv.take(i as int));
            assert(kv.take(i + 1).last() == piece@);
            assert(out@ =~= start + key_bytes(kv.take(i + 1)));
        }
        i = i + 1;
    }
    proof {
        lemma_key_nul_skip(kv, i as int);
        assert(kv.skip(i as int).len() == 0);
        assert(kv.take(i as int) =~= kv);
    }
    None
}

/// Appends a block of records (see `block_bytes`), or hands back the first
/// string, in write order, holding NUL (see `records_nul`).
pub fn write_block(out: &mut Vec<u8>, recs: &Vec<(Vec<Vec<char>>, u32)>) -> (r: Option<Vec<char>>)
    ensures
        match records_nul(record_views(recs@)) {
            Some(t) => r matches Some(v) && v@ == t,
            None => r is None && final(out)@ == old(out)@ + block_bytes(record_views(recs@)),
        },
{
    let ghost rv = record_views(recs@);
    let ghost start = out@;
    let count = u32_to_le_bytes(recs.len() as u32);
    append_bytes(out, count.as_slice());
    let mut i: usize = 0;
    assert(rv.take(0) =~= Seq::<(Seq<Seq<char>>, nat)>::empty());
    assert(out@ =~= start + spec_u32_to_le_bytes(rv.len() as u32) + records_bytes(rv.take(0)));
    while i < recs.len()
        invariant
            i <= recs@.len(),
            rv == record_views(recs@),
            out@ == start + spec_u32_to_le_bytes(rv.len() as u32) + records_bytes(rv.take(i as int)),
            forall|j: int| 0 <= j < i ==> key_nul(rv[j].0) is None,
        decreases recs@.len() - i,
    {
        let rec = &recs[i];
        assert(rv[i as int] == (key_view(rec.0), rec.1 as nat));
        let ghost before = out@;
        match write_key(out, &rec.0) {
            Some(t) => {
                proof {
                    lemma_records_nul_skip(rv, i as int);
                    assert(rv.skip(i as int)[0] == rv[i as int]);
                }
                return Some(t);
            },
            None => {},
        }
        let c = u32_to_le_bytes(rec.1);
        append_bytes(out, c.as_slice());
        proof {
            assert(rv.take(i + 1).drop_last() =~= rv.take(i as int));
            assert(rv.take(i + 1).last() == rv[i as int]);
            assert(out@ =~= start + spec_u32_to_le_bytes(rv.len() as u32) + records_bytes(rv.take(i + 1)));
        }
        i = i + 1;
    }
    proof {
        lemma_records_nul_skip(rv, i as int);
        assert(rv.skip(i as int).len() == 0);
        assert(rv.take(i as int) =~= rv);
    }
    None
}

/// Each word's dominant tag, from the (word, tag) tally sorted by word and
/// then tag: scanning in order, a word's first record is taken and replaced
/// only by a later one of the same word with a strictly higher count, so
/// the most frequent tag wins and ties go to the smallest tag.
pub open spec fn dominant_scan(
    rs: Seq<(Seq<Seq<char>>, nat)>,
    i: int,
    acc: Seq<(Seq<Seq<char>>, nat)>,
) -> Seq<(Seq<Seq<char>>, nat)>
    decreases rs.len() - i,
{
    if i < 0 || i >= rs.len() {
        acc
    } else if acc.len() > 0 && acc.last().0[0] == rs[i].0[0] {
        if rs[i].1 > acc.last().1 {
            dominant_scan(rs, i + 1, acc.update(acc.len() - 1, rs[i]))
        } else {
            dominant_scan(rs, i + 1, acc)
        }
    } else {
        dominant_scan(rs, i + 1, acc.push(rs[i]))
    }
}

/// Each word with its dominant tag and that tag's count.
pub open spec fn dominant_tags(rs: Seq<(Seq<Seq<char>>, nat)>) -> Seq<(Seq<Seq<char>>, nat)> {
    dominant_scan(rs, 0, Seq::empty())
}

fn copy_record(r: &(Vec<Vec<char>>, u32)) -> (out: (Vec<Vec<char>>, u32))
    ensures
        key_view(out.0) == key_view(r.0),
        out.0@.len() == r.0@.len(),
        out.1 == r.1,
{
    (copy_key(&r.0), r.1)
}

/// Each word's dominant tag (see `dominant_tags`); every key holds a word
/// and a tag.
pub fn pick_dominant_tags(recs: &Vec<(Vec<Vec<char>>, u32)>) -> (out: Vec<(Vec<Vec<char>>, u32)>)
    requires
        forall|j: int| 0 <= j < recs@.len() ==> (#[trigger] recs@[j]).0@.len() == 2,
    ensures
        record_views(out@) == dominant_tags(record_views(recs@)),
{
    let ghost rv = record_views(recs@);
    let mut out: Vec<(Vec<Vec<char>>, u32)> = Vec::new();
    let mut i: usize = 0;
    assert(record_views(out@) =~= Seq::<(Seq<Seq<char>>, nat)>::empty());
    while i < recs.len()
        invariant
            i <= recs@.len(),
            rv == record_views(recs@),
            forall|j: int| 0 <= j < recs@.len() ==> (#[trigger] recs@[j]).0@.len() == 2,
            forall|j: int| 0 <= j < out@.len() ==> (#[trigger] out@[j]).0@.len() == 2,
            dominant_tags(rv) == dominant_scan(rv, i as int, record_views(out@)),
        decreases recs@.len() - i,
    {
        let rec = &recs[i];
        assert(rv[i as int] == (key_view(rec.0), rec.1 as nat));
        let ghost acc = record_views(out@);
        let n = out.len();
        let same = n > 0 && chars_eq(&out[n - 1].0[0], &rec.0[0]);
        proof {
            if n > 0 {
                assert(acc.last().0[0] == out@[n - 1].0@[0]@);
                assert(rv[i as int].0[0] == rec.0@[0]@);
            }
        }
        if same {
            if rec.1 > out[n - 1].1 {
                let r = copy_record(rec);
                out.set(n - 1, r);
                assert(record_views(out@) =~= acc.update(acc.len() - 1, rv[i as int]));
            }
        } else {
            let r = copy_record(rec);
            out.push(r);
            assert(record_views(out@) =~= acc.push(rv[i as int]));
        }
        i = i + 1;
    }
    out
}

/// The records whose count reaches `min`.
pub open spec fn keep_min(rs: Seq<(Seq<Seq<char>>, nat)>, min: nat) -> Seq<(Seq<Seq<char>>, nat)>
    decreases rs.len(),
{
    if rs.len() == 0 {
        Seq::empty()
    } else if rs.last().1 >= min {
        keep_min(rs.drop_last(), min).push(rs.last())
    } else {
        keep_min(rs.drop_last(), min)
    }
}

/// The records whose count reaches `min`.
pub fn filter_min_count(recs: &Vec<(Vec<Vec<char>>, u32)>, min: u32) -> (out: Vec<(Vec<Vec<char>>, u32)>)
    ensures
        record_views(out@) == keep_min(record_views(recs@), min as nat),
{
    let ghost rv = record_views(recs@);
    let mut out: Vec<(Vec<Vec<char>>, u32)> = Vec::new();
    let mut i: usize = 0;
    assert(record_views(out@) =~= keep_min(rv.take(0), min as nat));
    while i < recs.len()
        invariant
            i <= recs@.len(),
            rv == record_views(recs@),
            record_views(out@) == keep_min(rv.take(i as int), min as nat),
        decreases recs@.len() - i,
    {
        let rec = &recs[i];
        assert(rv[i as int] == (key_view(rec.0), rec.1 as nat));
        assert(rv.take(i + 1).drop_last() =~= rv.take(i as int));
        assert(rv.take(i + 1).last() == rv[i as int]);
        let ghost acc = record_views(out@);
        if rec.1 >= min {
            let r = copy_record(rec);
            out.push(r);
            assert(record_views(out@) =~= acc.push(rv[i as int]));
        }
        i = i + 1;
    }
    assert(rv.take(i as int) =~= rv);
    out
}

/// Whether record `q` ranks ahead of `r`: a higher count, or the same
/// count and an earlier key.
pub open spec fn ranks_ahead(q: (Seq<Seq<char>>, nat), r: (Seq<Seq<char>>, nat)) -> bool {
    q.1 > r.1 || (q.1 == r.1 && keys_le(q.0, r.0) && q.0 != r.0)
}

/// How many records of `rs` rank ahead of `r`.
pub open spec fn rank_of(rs: Seq<(Seq<Seq<char>>, nat)>, r: (Seq<Seq<char>>, nat)) -> nat
    decreases rs.len(),
{
    if rs.len() == 0 {
        0
    } else {
        rank_of(rs.drop_last(), r) + if ranks_ahead(rs.last(), r) {
            1nat
        } else {
            0nat
        }
    }
}

/// The records of `part`, in order, that fewer than `limit` records of
/// `all` rank ahead of.
pub open spec fn top_of(all: Seq<(Seq<Seq<char>>, nat)>, part: Seq<(Seq<Seq<char>>, nat)>, limit: nat) -> Seq<
    (Seq<Seq<char>>, nat),
>
    decreases part.len(),
{
    if part.len() == 0 {
        Seq::empty()
    } else if rank_of(all, part.last()) < limit {
        top_of(all, part.drop_last(), limit).push(part.last())
    } else {
        top_of(all, part.drop_last(), limit)
    }
}

/// The `limit` records ranked first, in their order.
pub open spec fn keep_top(rs: Seq<(Seq<Seq<char>>, nat)>, limit: nat) -> Seq<(Seq<Seq<char>>, nat)> {
    top_of(rs, rs, limit)
}

/// How many records have a count above `c`.
pub open spec fn count_above(rs: Seq<(Seq<Seq<char>>, nat)>, c: nat) -> nat
    decreases rs.len(),
{
    if rs.len() == 0 {
        0
    } else {
        count_above(rs.drop_last(), c) + if rs.last().1 > c {
            1nat
        } else {
            0nat
        }
    }
}

/// How many records have count `c`.
pub open spec fn count_equal(rs: Seq<(Seq<Seq<char>>, nat)>, c: nat) -> nat
    decreases rs.len(),
{
    if rs.len() == 0 {
        0
    } else {
        count_equal(rs.drop_last(), c) + if rs.last().1 == c {
            1nat
        } else {
            0nat
        }
    }
}

/// Keys strictly increasing: the records of a tally.
pub open spec fn strictly_sorted(rs: Seq<(Seq<Seq<char>>, nat)>) -> bool {
    forall|i: int, j: int| 0 <= i < j < rs.len() ==> keys_le(#[trigger] rs[i].0, #[trigger] rs[j].0) && rs[i].0 != rs[j].0
}

proof fn lemma_count_above_mono(rs: Seq<(Seq<Seq<char>>, nat)>, c1: nat, c2: nat)
    requires
        c1 <= c2,
    ensures
        count_above(rs, c2) <= count_above(rs, c1),
    decreases rs.len(),
{
    if rs.len() > 0 {
        lemma_count_above_mono(rs.drop_last(), c1, c2);
    }
}

proof fn lemma_count_above_split(rs: Seq<(Seq<Seq<char>>, nat)>, c: nat)
    requires
        c >= 1,
    ensures
        count_above(rs, (c - 1) as nat) == count_above(rs, c) + count_equal(rs, c),
    decreases rs.len(),
{
    if rs.len() > 0 {
        lemma_count_above_split(rs.drop_last(), c);
    }
}

proof fn lemma_count_above_max(rs: Seq<(Seq<Seq<char>>, nat)>)
    requires
        forall|j: int| 0 <= j < rs.len() ==> (#[trigger] rs[j]).1 <= u32::MAX,
    ensures
        count_above(rs, u32::MAX as nat) == 0,
    decreases rs.len(),
{
    if rs.len() > 0 {
        assert(rs.last().1 <= u32::MAX);
        lemma_count_above_max(rs.drop_last());
    }
}

proof fn lemma_counts_concat(a: Seq<(Seq<Seq<char>>, nat)>, b: Seq<(Seq<Seq<char>>, nat)>, c: nat, r: (Seq<Seq<char>>, nat))
    ensures
        count_above(a + b, c) == count_above(a, c) + count_above(b, c),
        count_equal(a + b, c) == count_equal(a, c) + count_equal(b, c),
        rank_of(a + b, r) == rank_of(a, r) + rank_of(b, r),
    decreases b.len(),
{
    if b.len() == 0 {
        assert(a + b =~= a);
    } else {
        lemma_counts_concat(a, b.drop_last(), c, r);
        assert((a + b).drop_last() =~= a + b.drop_last());
        assert((a + b).last() == b.last());
    }
}

proof fn lemma_rank_before(s: Seq<(Seq<Seq<char>>, nat)>, r: (Seq<Seq<char>>, nat))
    requires
        forall|j: int| 0 <= j < s.len() ==> keys_le((#[trigger] s[j]).0, r.0) && s[j].0 != r.0,
    ensures
        rank_of(s, r) == count_above(s, r.1) + count_equal(s, r.1),
    decreases s.len(),
{
    if s.len() > 0 {
        assert(keys_le(s.last().0, r.0) && s.last().0 != r.0);
        lemma_rank_before(s.drop_last(), r);
    }
}

proof fn lemma_rank_after(s: Seq<(Seq<Seq<char>>, nat)>, r: (Seq<Seq<char>>, nat))
    requires
        forall|j: int| 0 <= j < s.len() ==> keys_le(r.0, (#[trigger] s[j]).0),
    ensures
        rank_of(s, r) == count_above(s, r.1),
    decreases s.len(),
{
    if s.len() > 0 {
        assert(keys_le(r.0, s.last().0));
        if keys_le(s.last().0, r.0) {
            lemma_keys_le_antisymmetric(s.last().0, r.0);
        }
        lemma_rank_after(s.drop_last(), r);
    }
}

proof fn lemma_rank_decomposed(f: Seq<(Seq<Seq<char>>, nat)>, i: int)
    requires
        strictly_sorted(f),
        0 <= i < f.len(),
    ensures
        rank_of(f, f[i]) == count_above(f, f[i].1) + count_equal(f.take(i), f[i].1),
        count_equal(f, f[i].1) >= count_equal(f.take(i), f[i].1) + 1,
{
    let r = f[i];
    let a = f.take(i);
    let b = f.skip(i);
    assert(f =~= a + b);
    assert forall|j: int| 0 <= j < a.len() implies keys_le((#[trigger] a[j]).0, r.0) && a[j].0 != r.0 by {
        assert(a[j] == f[j]);
    }
    lemma_rank_before(a, r);
    assert forall|j: int| 0 <= j < b.len() implies keys_le(r.0, (#[trigger] b[j]).0) by {
        assert(b[j] == f[i + j]);
        if j > 0 {
            assert(keys_le(f[i].0, f[i + j].0));
        } else {
            lemma_keys_le_reflexive(r.0);
        }
    }
    lemma_rank_after(b, r);
    lemma_counts_concat(a, b, r.1, r);
    assert(b =~= seq![r] + b.drop_first());
    lemma_counts_concat(seq![r], b.drop_first(), r.1, r);
    assert(count_equal(seq![r], r.1) == 1) by {
        let one = seq![r];
        assert(one.drop_last() =~= Seq::<(Seq<Seq<char>>, nat)>::empty());
        assert(one.last() == r);
        assert(count_equal(one.drop_last(), r.1) == 0);
    }
}

proof fn lemma_count_above_zero(rs: Seq<(Seq<Seq<char>>, nat)>)
    ensures
        count_above(rs, 0) + count_equal(rs, 0) == rs.len(),
    decreases rs.len(),
{
    if rs.len() > 0 {
        lemma_count_above_zero(rs.drop_last());
    }
}

fn count_above_exec(recs: &Vec<(Vec<Vec<char>>, u32)>, c: u32) -> (n: usize)
    ensures
        n == count_above(record_views(recs@), c as nat),
{
    let ghost rv = record_views(recs@);
    let mut n: usize = 0;
    let mut i: usize = 0;
    while i < recs.len()
        invariant
            i <= recs@.len(),
            rv == record_views(recs@),
            n == count_above(rv.take(i as int), c as nat),
            n <= i,
        decreases recs@.len() - i,
    {
        assert(rv.take(i + 1).drop_last() =~= rv.take(i as int));
        assert(rv.take(i + 1).last() == rv[i as int]);
        if recs[i].1 > c {
            n = n + 1;
        }
        i = i + 1;
    }
    assert(rv.take(i as int) =~= rv);
    n
}

/// The records ranked among the first `limit` (see `keep_top`), in their
/// order; the records are a tally, their keys strictly increasing.
pub fn select_top(recs: &Vec<(Vec<Vec<char>>, u32)>, limit: usize) -> (out: Vec<(Vec<Vec<char>>, u32)>)
    requires
        limit > 0,
        strictly_sorted(record_views(recs@)),
    ensures
        record_views(out@) == keep_top(record_views(recs@), limit as nat),
        limit <= recs@.len() ==> out@.len() == limit,
{
    let ghost rv = record_views(recs@);
    proof {
        assert forall|j: int| 0 <= j < rv.len() implies (#[trigger] rv[j]).1 <= u32::MAX by {
            assert(rv[j].1 == recs@[j].1);
        }
        lemma_count_above_max(rv);
    }
    // The smallest count `t` with fewer than `limit` records above it.
    let mut lo: u32 = 0;
    let mut hi: u32 = u32::MAX;
    while lo < hi
        invariant
            lo <= hi,
            rv == record_views(recs@),
            count_above(rv, hi as nat) < limit,
            forall|c: nat| c < lo ==> #[trigger] count_above(rv, c) >= limit,
        decreases hi - lo,
    {
        let mid = lo + (hi - lo) / 2;
        if count_above_exec(recs, mid) < limit {
            hi = mid;
        } else {
            proof {
                assert forall|c: nat| c < mid + 1 implies #[trigger] count_above(rv, c) >= limit by {
                    lemma_count_above_mono(rv, c, mid as nat);
                }
            }
            lo = mid + 1;
        }
    }
    let t = lo;
    let above = count_above_exec(recs, t);
    let quota = limit - above;
    let mut seen: usize = 0;
    let mut out: Vec<(Vec<Vec<char>>, u32)> = Vec::new();
    let mut i: usize = 0;
    assert(record_views(out@) =~= top_of(rv, rv.take(0), limit as nat));
    while i < recs.len()
        invariant
            i <= recs@.len(),
            rv == record_views(recs@),
            strictly_sorted(rv),
            count_above(rv, t as nat) == above,
            above < limit,
            quota == limit - above,
            t == 0 || count_above(rv, (t - 1) as nat) >= limit,
            seen == count_equal(rv.take(i as int), t as nat),
            seen <= i,
            record_views(out@) == top_of(rv, rv.take(i as int), limit as nat),
            out@.len() == count_above(rv.take(i as int), t as nat) + if seen < quota {
                seen
            } else {
                quota
            },
        decreases recs@.len() - i,
    {
        let rec = &recs[i];
        let ghost r = rv[i as int];
        assert(r == (key_view(rec.0), rec.1 as nat));
        proof {
            assert(rv.take(i + 1).drop_last() =~= rv.take(i as int));
            assert(rv.take(i + 1).last() == r);
            lemma_rank_decomposed(rv, i as int);
            let c = r.1;
            if c > t {
                lemma_count_above_split(rv, c);
                lemma_count_above_mono(rv, t as nat, (c - 1) as nat);
            } else if c < t {
                lemma_count_above_mono(rv, c, (t - 1) as nat);
            }
        }
        let keep = rec.1 > t || (rec.1 == t && seen < quota);
        assert(keep == (rank_of(rv, r) < limit));
        if rec.1 == t {
            seen = seen + 1;
        }
        if keep {
            let ghost acc = record_views(out@);
            let copy = copy_record(rec);
            out.push(copy);
            assert(record_views(out@) =~= acc.push(r));
        }
        i = i + 1;
    }
    assert(rv.take(i as int) =~= rv);
    proof {
        if limit <= recs@.len() {
            if t == 0 {
                lemma_count_above_zero(rv);
            } else {
                lemma_count_above_split(rv, t as nat);
            }
        }
    }
    out
}

proof fn lemma_runs_strict(s: Seq<Seq<Seq<char>>>)
    requires
        sorted_by(s, keys_order()),
    ensures
        strictly_sorted(runs(s)),
        forall|j: int| 0 <= j < runs(s).len() ==> s.contains(#[trigger] runs(s)[j].0),
        s.len() > 0 ==> runs(s).len() > 0 && runs(s).last().0 == s.last(),
    decreases s.len(),
{
    lemma_keys_order_total();
    if s.len() > 0 {
        let p = s.drop_last();
        assert(sorted_by(p, keys_order())) by {
            assert forall|i: int, j: int| 0 <= i < j < p.len() implies #[trigger] keys_order()(p[i], p[j]) by {
                assert(keys_order()(s[i], s[j]));
            }
        }
        lemma_runs_strict(p);
        let r = runs(p);
        let x = s.last();
        if r.len() > 0 && r.last().0 == x {
            let q = r.update(r.len() - 1, (x, r.last().1 + 1));
            assert forall|i: int, j: int| 0 <= i < j < q.len() implies keys_le(#[trigger] q[i].0, #[trigger] q[j].0)
                && q[i].0 != q[j].0 by {
                assert(q[i].0 == r[i].0);
                assert(q[j].0 == r[j].0);
            }
            assert forall|j: int| 0 <= j < q.len() implies s.contains(#[trigger] q[j].0) by {
                assert(q[j].0 == r[j].0);
                assert(p.contains(r[j].0));
                let k = choose|k: int| 0 <= k < p.len() && p[k] == r[j].0;
                assert(s[k] == p[k]);
            }
        } else {
            let q = r.push((x, 1));
            assert forall|j: int| 0 <= j < r.len() implies keys_le(#[trigger] r[j].0, x) && r[j].0 != x by {
                assert(p.contains(r[j].0));
                let k = choose|k: int| 0 <= k < p.len() && p[k] == r[j].0;
                assert(keys_order()(s[k], s[s.len() - 1]));
                if r[j].0 == x {
                    // then x lies between p[k] and the last of p, so it equals the last of p
                    assert(keys_order()(s[k], s[s.len() - 2]));
                    assert(keys_order()(s[s.len() - 2], s[s.len() - 1]));
                    lemma_keys_le_antisymmetric(s[s.len() - 2], x);
                    assert(r.last().0 == p.last());
                }
            }
            assert forall|i: int, j: int| 0 <= i < j < q.len() implies keys_le(#[trigger] q[i].0, #[trigger] q[j].0)
                && q[i].0 != q[j].0 by {
                if j < r.len() {
                    assert(q[i] == r[i] && q[j] == r[j]);
                } else {
                    assert(q[i] == r[i]);
                }
            }
            assert forall|j: int| 0 <= j < q.len() implies s.contains(#[trigger] q[j].0) by {
                if j < r.len() {
                    assert(q[j] == r[j]);
                    assert(p.contains(r[j].0));
                    let k = choose|k: int| 0 <= k < p.len() && p[k] == r[j].0;
                    assert(s[k] == p[k]);
                } else {
                    assert(s[s.len() - 1] == x);
                }
            }
        }
    }
}

/// A tally's keys strictly increase, and each is one of the tallied items.
pub proof fn lemma_tally_strict(items: Seq<Seq<Seq<char>>>)
    ensures
        strictly_sorted(tally(items)),
        forall|j: int| 0 <= j < tally(items).len() ==> items.contains(#[trigger] tally(items)[j].0),
{
    lemma_keys_order_total();
    items.lemma_sort_by_ensures(keys_order());
    lemma_runs_strict(items.sort_by(keys_order()));
}

proof fn lemma_keep_min_strict(rs: Seq<(Seq<Seq<char>>, nat)>, min: nat)
    requires
        strictly_sorted(rs),
    ensures
        strictly_sorted(keep_min(rs, min)),
        forall|j: int| 0 <= j < keep_min(rs, min).len() ==> rs.contains(#[trigger] keep_min(rs, min)[j]),
    decreases rs.len(),
{
    if rs.len() > 0 {
        let p = rs.drop_last();
        assert(strictly_sorted(p)) by {
            assert forall|i: int, j: int| 0 <= i < j < p.len() implies keys_le(#[trigger] p[i].0, #[trigger] p[j].0)
                && p[i].0 != p[j].0 by {
                assert(p[i] == rs[i] && p[j] == rs[j]);
            }
        }
        lemma_keep_min_strict(p, min);
        let k = keep_min(p, min);
        assert forall|j: int| 0 <= j < k.len() implies rs.contains(#[trigger] k[j]) by {
            assert(p.contains(k[j]));
            let q = choose|q: int| 0 <= q < p.len() && p[q] == k[j];
            assert(rs[q] == p[q]);
        }
        if rs.last().1 >= min {
            let k2 = k.push(rs.last());
            assert forall|i: int, j: int| 0 <= i < j < k2.len() implies keys_le(#[trigger] k2[i].0, #[trigger] k2[j].0)
                && k2[i].0 != k2[j].0 by {
                if j == k.len() {
                    assert(p.contains(k[i]));
                    let q = choose|q: int| 0 <= q < p.len() && p[q] == k[i];
                    assert(rs[q] == k[i]);
                    assert(k2[j] == rs[rs.len() - 1]);
                } else {
                    assert(k2[i] == k[i] && k2[j] == k[j]);
                }
            }
            assert forall|j: int| 0 <= j < k2.len() implies rs.contains(#[trigger] k2[j]) by {
                if j == k.len() {
                    assert(rs[rs.len() - 1] == k2[j]);
                } else {
                    assert(k2[j] == k[j]);
                }
            }
        }
    }
}

/// The (word, tag) keys of every token.
pub open spec fn word_tag_items(ss: Seq<Seq<(Seq<char>, Seq<char>)>>) -> Seq<Seq<Seq<char>>> {
    token_keys_of(TokenItem::WordTag, ss)
}

proof fn lemma_word_tag_keys(ss: Seq<Seq<(Seq<char>, Seq<char>)>>)
    ensures
        forall|j: int| 0 <= j < word_tag_items(ss).len() ==> (#[trigger] word_tag_items(ss)[j]).len() == 2,
    decreases ss.len(),
{
    let f = |p: Seq<(Seq<char>, Seq<char>)>| sentence_token_keys(TokenItem::WordTag, p);
    if ss.len() > 0 {
        lemma_word_tag_keys(ss.drop_last());
        let a = gather(ss.drop_last(), f);
        let b = f(ss.last());
        assert(word_tag_items(ss) == a + b);
        assert(a == word_tag_items(ss.drop_last()));
        assert forall|j: int| 0 <= j < (a + b).len() implies (#[trigger] (a + b)[j]).len() == 2 by {
            if j >= a.len() {
                assert((a + b)[j] == b[j - a.len()]);
            } else {
                assert((a + b)[j] == a[j]);
            }
        }
    }
}

/// The four bytes `KPS1` that open the compiled statistics.
pub open spec fn khpos_magic() -> Seq<u8> {
    seq![75u8, 80u8, 83u8, 49u8]
}

/// The surface tally as stored: records below `min` dropped when `min`
/// exceeds 1, then, for a limit above zero that fewer records than remain,
/// only the records ranked among the first `limit`.
pub open spec fn surface_kept(rs: Seq<(Seq<Seq<char>>, nat)>, min: u32, top: Option<usize>) -> Seq<
    (Seq<Seq<char>>, nat),
> {
    let f = if min > 1 {
        keep_min(rs, min as nat)
    } else {
        rs
    };
    match top {
        Some(limit) => if limit > 0 && f.len() > limit {
            keep_top(f, limit as nat)
        } else {
            f
        },
        None => f,
    }
}

/// The six statistics, in the order they are stored: word counts, word-pair
/// counts, surface counts, tag counts, tag-pair counts and dominant tags.
pub open spec fn khpos_tables(ss: Seq<Seq<(Seq<char>, Seq<char>)>>, min: u32, top: Option<usize>) -> Seq<
    Seq<(Seq<Seq<char>>, nat)>,
> {
    seq![
        tally(token_keys_of(TokenItem::Word, ss)),
        tally(pair_keys_of(false, ss)),
        surface_kept(tally(surface_keys_of(ss)), min, top),
        tally(token_keys_of(TokenItem::Tag, ss)),
        tally(pair_keys_of(true, ss)),
        dominant_tags(tally(word_tag_items(ss))),
    ]
}

/// The stored blocks from table `i` on, or the first string in write order
/// that holds NUL.
pub open spec fn tables_bytes(ts: Seq<Seq<(Seq<Seq<char>>, nat)>>, i: int) -> Result<Seq<u8>, Seq<char>>
    decreases ts.len() - i,
{
    if i < 0 || i >= ts.len() {
        Ok(Seq::empty())
    } else {
        match records_nul(ts[i]) {
            Some(t) => Err(t),
            None => match tables_bytes(ts, i + 1) {
                Ok(rest) => Ok(block_bytes(ts[i]) + rest),
                Err(t) => Err(t),
            },
        }
    }
}

/// The compiled statistics, or why the corpus was refused.
pub open spec fn khpos_stats(train: Seq<char>, tags: Seq<char>, min: u32, top: Option<usize>) -> Result<
    Seq<u8>,
    KhposFault,
> {
    match khpos_sentences(train, tags) {
        Err(e) => Err(e),
        Ok(ss) => match tables_bytes(khpos_tables(ss, min, top), 0) {
            Ok(b) => Ok(khpos_magic() + b),
            Err(t) => Err(KhposFault::NulText { text: t }),
        },
    }
}

/// Whether every count fits the stored `u32`: the corpus, when it splits
/// into sentences, holds at most a quarter of `u32::MAX` tokens (each token
/// starts at most `MAX_JOINED_SURFACE_TOKENS` surface forms).
pub open spec fn khpos_counts_fit(train: Seq<char>, tags: Seq<char>) -> bool {
    khpos_sentences(train, tags) matches Ok(ss) ==> 4 * token_total(ss) <= u32::MAX
}

/// `prefix` before the bytes of `r`, or its error.
pub open spec fn after_bytes(prefix: Seq<u8>, r: Result<Seq<u8>, Seq<char>>) -> Result<Seq<u8>, Seq<char>> {
    match r {
        Ok(b) => Ok(prefix + b),
        Err(t) => Err(t),
    }
}

/// The tables as plain values.
pub open spec fn table_views(v: Seq<Vec<(Vec<Vec<char>>, u32)>>) -> Seq<Seq<(Seq<Seq<char>>, nat)>> {
    v.map_values(|t: Vec<(Vec<Vec<char>>, u32)>| record_views(t@))
}

/// Writes the tables in order (see `tables_bytes`), or hands back the first
/// string holding NUL.
fn write_tables(out: &mut Vec<u8>, tables: &Vec<Vec<(Vec<Vec<char>>, u32)>>) -> (r: Option<Vec<char>>)
    ensures
        match tables_bytes(table_views(tables@), 0) {
            Ok(b) => r is None && final(out)@ == old(out)@ + b,
            Err(t) => r matches Some(v) && v@ == t,
        },
{
    let ghost ts = table_views(tables@);
    let ghost start = out@;
    let mut i: usize = 0;
    assert(tables_bytes(ts, 0) == after_bytes(Seq::<u8>::empty(), tables_bytes(ts, 0))) by {
        match tables_bytes(ts, 0) {
            Ok(b) => { assert(Seq::<u8>::empty() + b =~= b); },
            Err(_) => {},
        }
    }
    assert(out@ =~= start + Seq::<u8>::empty());
    let ghost mut written: Seq<u8> = Seq::empty();
    while i < tables.len()
        invariant
            i <= tables@.len(),
            ts == table_views(tables@),
            out@ == start + written,
            tables_bytes(ts, 0) == after_bytes(written, tables_bytes(ts, i as int)),
        decreases tables@.len() - i,
    {
        assert(ts[i as int] == record_views(tables@[i as int]@));
        let ghost before = out@;
        match write_block(out, &tables[i]) {
            Some(t) => {
                return Some(t);
            },
            None => {},
        }
        proof {
            let blk = block_bytes(ts[i as int]);
            match tables_bytes(ts, i + 1) {
                Ok(rest) => {
                    assert(written + (blk + rest) =~= (written + blk) + rest);
                },
                Err(_) => {},
            }
            written = written + blk;
            assert(out@ =~= start + written);
        }
        i = i + 1;
    }
    assert(written + Seq::<u8>::empty() =~= written);
    None
}

/// Compiles the khPOS corpus to the `KPS1` statistics (see `khpos_stats`);
/// `surface_min_count` and `surface_top_n` trim the surface table.
pub fn compile_khpos_stats(
    train_source: &str,
    tag_source: &str,
    surface_min_count: u32,
    surface_top_n: Option<usize>,
) -> (r: Result<Vec<u8>, KhposError>)
    requires
        khpos_counts_fit(train_source@, tag_source@),
    ensures
        match khpos_stats(train_source@, tag_source@, surface_min_count, surface_top_n) {
            Ok(b) => r matches Ok(v) && v@ == b,
            Err(e) => r matches Err(x) && x@ == e,
        },
{
    let ss = match parse_khpos_sentences(train_source, tag_source) {
        Ok(ss) => ss,
        Err(e) => {
            return Err(e);
        },
    };
    let ghost sv = sentence_views(ss@);
    let words = tally_keys(&token_items(&ss, TokenItem::Word));
    let word_pairs = tally_keys(&pair_items(&ss, false));
    let all_surfaces = tally_keys(&surface_items(&ss));
    let tags = tally_keys(&token_items(&ss, TokenItem::Tag));
    let tag_pairs = tally_keys(&pair_items(&ss, true));
    let word_tags = tally_keys(&token_items(&ss, TokenItem::WordTag));
    proof {
        lemma_tally_strict(surface_keys_of(sv));
        lemma_tally_strict(word_tag_items(sv));
        lemma_word_tag_keys(sv);
        assert forall|j: int| 0 <= j < word_tags@.len() implies (#[trigger] word_tags@[j]).0@.len() == 2 by {
            let rv = record_views(word_tags@);
            assert(rv[j].0 == key_view(word_tags@[j].0));
            assert(word_tag_items(sv).contains(rv[j].0));
        }
    }
    let dominant = pick_dominant_tags(&word_tags);
    let surfaces = if surface_min_count > 1 {
        proof {
            lemma_keep_min_strict(record_views(all_surfaces@), surface_min_count as nat);
        }
        filter_min_count(&all_surfaces, surface_min_count)
    } else {
        all_surfaces
    };
    let surfaces = match surface_top_n {
        Some(limit) => {
            if limit > 0 && surfaces.len() > limit {
                select_top(&surfaces, limit)
            } else {
                surfaces
            }
        },
        None => surfaces,
    };
    let mut tables: Vec<Vec<(Vec<Vec<char>>, u32)>> = Vec::new();
    tables.push(words);
    tables.push(word_pairs);
    tables.push(surfaces);
    tables.push(tags);
    tables.push(tag_pairs);
    tables.push(dominant);
    assert(table_views(tables@) =~= khpos_tables(sv, surface_min_count, surface_top_n));
    let mut out: Vec<u8> = Vec::new();
    out.push(75u8);
    out.push(80u8);
    out.push(83u8);
    out.push(49u8);
    assert(out@ =~= khpos_magic());
    match write_tables(&mut out, &tables) {
        Some(t) => Err(KhposError::NulText { text: string_from_chars(&t) }),
        None => Ok(out),
    }
}

proof fn lemma_runs_count(s: Seq<Seq<Seq<char>>>)
    requires
        sorted_by(s, keys_order()),
    ensures
        forall|j: int| 0 <= j < runs(s).len() ==> (#[trigger] runs(s)[j]).1 == s.to_multiset().count(runs(s)[j].0),
        forall|k: Seq<Seq<char>>| s.contains(k) ==> exists|j: int| 0 <= j < runs(s).len() && (#[trigger] runs(s)[j]).0 == k,
    decreases s.len(),
{
    broadcast use vstd::seq_lib::group_to_multiset_ensures;
    lemma_keys_order_total();
    if s.len() == 0 {
        assert forall|k: Seq<Seq<char>>| s.contains(k) implies exists|j: int| 0 <= j < runs(s).len() && (#[trigger] runs(s)[j]).0 == k by {}
    } else {
        let p = s.drop_last();
        let x = s.last();
        assert(sorted_by(p, keys_order())) by {
            assert forall|i: int, j: int| 0 <= i < j < p.len() implies #[trigger] keys_order()(p[i], p[j]) by {
                assert(keys_order()(s[i], s[j]));
            }
        }
        lemma_runs_count(p);
        lemma_runs_strict(p);
        lemma_runs_strict(s);
        assert(s =~= p.push(x));
        vstd::seq_lib::to_multiset_build(p, x);
        let r = runs(p);
        let q = runs(s);
        if r.len() > 0 && r.last().0 == x {
            assert forall|j: int| 0 <= j < q.len() implies (#[trigger] q[j]).1 == s.to_multiset().count(q[j].0) by {
                if j < q.len() - 1 {
                    assert(q[j] == r[j]);
                    assert(keys_le(r[j].0, r[r.len() - 1].0) && r[j].0 != r[r.len() - 1].0);
                }
            }
            assert forall|k: Seq<Seq<char>>| s.contains(k) implies exists|j: int| 0 <= j < q.len() && (#[trigger] q[j]).0 == k by {
                if k == x {
                    assert(q[q.len() - 1].0 == k);
                } else {
                    let i = choose|i: int| 0 <= i < s.len() && s[i] == k;
                    assert(p[i] == k);
                    assert(p.contains(k));
                    let j = choose|j: int| 0 <= j < r.len() && (#[trigger] r[j]).0 == k;
                    assert(q[j].0 == k);
                }
            }
        } else {
            assert(!p.contains(x)) by {
                if p.contains(x) {
                    let i = choose|i: int| 0 <= i < p.len() && p[i] == x;
                    assert(keys_order()(s[i], s[s.len() - 2]));
                    assert(keys_order()(s[s.len() - 2], s[s.len() - 1]));
                    lemma_keys_le_antisymmetric(s[s.len() - 2], x);
                    assert(r.len() > 0 && r.last().0 == p.last());
                }
            }
            assert(p.to_multiset().count(x) == 0);
            assert forall|j: int| 0 <= j < q.len() implies (#[trigger] q[j]).1 == s.to_multiset().count(q[j].0) by {
                if j < r.len() {
                    assert(q[j] == r[j]);
                    assert(keys_le(q[j].0, q[q.len() - 1].0) && q[j].0 != q[q.len() - 1].0);
                }
            }
            assert forall|k: Seq<Seq<char>>| s.contains(k) implies exists|j: int| 0 <= j < q.len() && (#[trigger] q[j]).0 == k by {
                if k == x {
                    assert(q[q.len() - 1].0 == k);
                } else {
                    let i = choose|i: int| 0 <= i < s.len() && s[i] == k;
                    assert(p[i] == k);
                    assert(p.contains(k));
                    let j = choose|j: int| 0 <= j < r.len() && (#[trigger] r[j]).0 == k;
                    assert(q[j].0 == k);
                }
            }
        }
    }
}

/// A tally counts occurrences: each record's count is the number of times
/// its key occurs among the items, every item has a record, and the keys
/// strictly increase.
pub proof fn law_tally_counts_occurrences(items: Seq<Seq<Seq<char>>>)
    ensures
        strictly_sorted(tally(items)),
        forall|j: int| 0 <= j < tally(items).len() ==> (#[trigger] tally(items)[j]).1 == items.to_multiset().count(
            tally(items)[j].0,
        ),
        forall|k: Seq<Seq<char>>| items.contains(k) ==> exists|j: int| 0 <= j < tally(items).len() && (#[trigger] tally(items)[j]).0 == k,
{
    broadcast use vstd::seq_lib::group_to_multiset_ensures;
    lemma_keys_order_total();
    let sorted = items.sort_by(keys_order());
    items.lemma_sort_by_ensures(keys_order());
    lemma_runs_count(sorted);
    lemma_tally_strict(items);
    assert forall|k: Seq<Seq<char>>| items.contains(k) implies sorted.contains(k) by {
        assert(items.to_multiset().count(k) > 0);
    }
}

} // verus!
