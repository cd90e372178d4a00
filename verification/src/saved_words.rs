//! The saved-words page: every saved pair, narrowed by a search box and
//! shown a page at a time.

use vstd::prelude::*;
use crate::text::{chars_of, trim, trimmed, string_from_chars};
use crate::user_dictionary::{ManualSaveRequest, UserDictionary, request_views, saved_pairs, saved_word_pairs};

verus! {

/// Rows on one page of the saved-words table.
pub const SAVED_WORDS_PAGE_SIZE: usize = 20;

/// `s` in lower case, as Unicode maps it.
pub uninterp spec fn lowercase(s: Seq<char>) -> Seq<char>;

/// Trusted wrapper over `str::to_lowercase`. The result is Unicode's
/// lower-case mapping of the text and depends on the text alone; it is
/// named, not spelled out.
#[verifier::external_body]
fn to_lowercase(s: &str) -> (r: String)
    ensures
        r@ == lowercase(s@),
{
    s.to_lowercase()
}

/// `t` occurs in `s` as a run of consecutive characters (the empty text
/// occurs everywhere).
pub open spec fn has_substring(s: Seq<char>, t: Seq<char>) -> bool {
    exists|i: int| 0 <= i && i + t.len() <= s.len() && #[trigger] s.subrange(i, i + t.len()) == t
}

/// Whether `t` occurs in `s`.
pub fn contains_chars(s: &[char], t: &[char]) -> (b: bool)
    ensures
        b == has_substring(s@, t@),
{
    let n = s.len();
    let m = t.len();
    if m > n {
        return false;
    }
    if m == 0 {
        assert(s@.subrange(0, 0 + t@.len() as int) =~= t@);
        return true;
    }
    let positions = n - m + 1;
    let mut i: usize = 0;
    while i < positions
        invariant
            n == s@.len(),
            m == t@.len(),
            m <= n,
            positions == n - m + 1,
            i <= positions,
            forall|q: int| 0 <= q < i ==> #[trigger] s@.subrange(q, q + m) != t@,
        decreases positions - i,
    {
        let mut j: usize = 0;
        let mut same = true;
        while same && j < m
            invariant
                n == s@.len(),
                m == t@.len(),
                i < positions,
                positions == n - m + 1,
                j <= m,
                forall|q: int| 0 <= q < j ==> s@[i + q] == t@[q],
                !same ==> j < m && s@[i + j] != t@[j as int],
            decreases m - j, if same { 1int } else { 0int },
        {
            if s[i + j] == t[j] {
                j = j + 1;
            } else {
                same = false;
            }
        }
        if same {
            assert(s@.subrange(i as int, i + m) =~= t@);
            return true;
        }
        assert(s@.subrange(i as int, i + m)[j as int] != t@[j as int]);
        i = i + 1;
    }
    proof {
        assert forall|q: int| 0 <= q && q + m <= n implies #[trigger] s@.subrange(q, q + m) != t@ by {
            assert(q < i);
        }
    }
    false
}

/// The search keeps a pair when the lower-cased, trimmed query is empty,
/// when the lower-cased Roman key holds it, or when the Khmer spelling
/// holds the trimmed query.
pub open spec fn pair_matches(
    roman_lower: Seq<char>,
    khmer: Seq<char>,
    query_lower: Seq<char>,
    query_trimmed: Seq<char>,
) -> bool {
    ||| query_lower.len() == 0
    ||| has_substring(roman_lower, query_lower)
    ||| has_substring(khmer, query_trimmed)
}

/// Whether the search keeps a pair, given its lower-cased Roman key (see
/// `pair_matches`).
pub fn saved_pair_matches(roman_lower: &str, khmer: &str, query_lower: &str, query_trimmed: &str) -> (b: bool)
    ensures
        b == pair_matches(roman_lower@, khmer@, query_lower@, query_trimmed@),
{
    let q = chars_of(query_lower);
    if q.len() == 0 {
        return true;
    }
    let r = chars_of(roman_lower);
    if contains_chars(&r, &q) {
        return true;
    }
    let k = chars_of(khmer);
    let qt = chars_of(query_trimmed);
    contains_chars(&k, &qt)
}

/// The pairs that the search for `query` keeps, in their order.
pub open spec fn filtered_pairs(pairs: Seq<(Seq<char>, Seq<char>)>, query: Seq<char>) -> Seq<(Seq<char>, Seq<char>)>
    decreases pairs.len(),
{
    if pairs.len() == 0 {
        Seq::empty()
    } else {
        let rest = filtered_pairs(pairs.drop_last(), query);
        let p = pairs.last();
        if pair_matches(lowercase(p.0), p.1, lowercase(trim(query)), trim(query)) {
            rest.push(p)
        } else {
            rest
        }
    }
}

/// The pairs the search for `query` keeps (see `filtered_pairs`).
pub fn filter_saved_pairs(pairs: &Vec<ManualSaveRequest>, query: &str) -> (out: Vec<ManualSaveRequest>)
    ensures
        request_views(out@) == filtered_pairs(request_views(pairs@), query@),
{
    let ghost pv = request_views(pairs@);
    let q = chars_of(query);
    let qt = string_from_chars(&trimmed(&q));
    let ql = to_lowercase(qt.as_str());
    let mut out: Vec<ManualSaveRequest> = Vec::new();
    let mut i: usize = 0;
    assert(pv.take(0) =~= Seq::<(Seq<char>, Seq<char>)>::empty());
    while i < pairs.len()
        invariant
            i <= pairs@.len(),
            pv == request_views(pairs@),
            qt@ == trim(query@),
            ql@ == lowercase(trim(query@)),
            request_views(out@) == filtered_pairs(pv.take(i as int), query@),
        decreases pairs@.len() - i,
    {
        let p = &pairs[i];
        let rl = to_lowercase(p.roman.as_str());
        let ghost before = request_views(out@);
        assert(pv.take(i + 1).drop_last() =~= pv.take(i as int));
        assert(pv.take(i + 1).last() == (p.roman@, p.khmer@));
        if saved_pair_matches(rl.as_str(), p.khmer.as_str(), ql.as_str(), qt.as_str()) {
            out.push(ManualSaveRequest { roman: p.roman.clone(), khmer: p.khmer.clone() });
            assert(request_views(out@) =~= before.push((p.roman@, p.khmer@)));
        }
        i = i + 1;
    }
    assert(pv.take(i as int) =~= pv);
    out
}

/// How many pages `n` rows fill: at least one, even with no rows.
pub open spec fn page_count_of(n: int) -> int {
    if n == 0 {
        1
    } else {
        (n + SAVED_WORDS_PAGE_SIZE - 1) / SAVED_WORDS_PAGE_SIZE as int
    }
}

/// The page shown when `page` is asked for: the last one when it is
/// past the end.
pub open spec fn shown_page(n: int, page: int) -> int {
    if page < page_count_of(n) - 1 {
        page
    } else {
        page_count_of(n) - 1
    }
}

/// The rows of page `p` of `rows`.
pub open spec fn page_rows<A>(rows: Seq<A>, p: int) -> Seq<A> {
    let start = p * SAVED_WORDS_PAGE_SIZE;
    let end = if start + SAVED_WORDS_PAGE_SIZE <= rows.len() {
        start + SAVED_WORDS_PAGE_SIZE
    } else {
        rows.len() as int
    };
    rows.subrange(start, end)
}

proof fn lemma_page_bounds(n: int, p: int)
    requires
        n >= 0,
        0 <= p <= page_count_of(n) - 1,
    ensures
        page_count_of(n) >= 1,
        p * SAVED_WORDS_PAGE_SIZE <= n,
        n > 0 ==> p * SAVED_WORDS_PAGE_SIZE < n,
{
    if n > 0 {
        assert(page_count_of(n) >= 1 && (page_count_of(n) - 1) * 20 < n) by (nonlinear_arith)
            requires
                n > 0,
                page_count_of(n) == (n + 19) / 20,
        ;
        assert(p * 20 <= (page_count_of(n) - 1) * 20) by (nonlinear_arith)
            requires
                p <= page_count_of(n) - 1,
        ;
    }
}

/// One page of the saved-words table.
pub struct SavedWordsListing {
    /// Every saved pair, before the search.
    pub total: usize,
    /// The rows of the page shown.
    pub entries: Vec<ManualSaveRequest>,
    /// The page shown, counted from 0.
    pub page: usize,
    /// How many pages the search result fills.
    pub page_count: usize,
}

/// The page shown for `page` of `rows`, with its number and the number of
/// pages (see `shown_page`, `page_rows`).
pub fn saved_words_page(rows: Vec<ManualSaveRequest>, page: usize) -> (r: (Vec<ManualSaveRequest>, usize, usize))
    ensures
        r.2 == page_count_of(rows@.len() as int),
        r.1 == shown_page(rows@.len() as int, page as int),
        request_views(r.0@) == page_rows(request_views(rows@), r.1 as int),
{
    let n = rows.len();
    let count = if n == 0 {
        1
    } else {
        n / SAVED_WORDS_PAGE_SIZE + if n % SAVED_WORDS_PAGE_SIZE == 0 {
            0
        } else {
            1
        }
    };
    assert(count == page_count_of(n as int)) by (nonlinear_arith)
        requires
            n == 0 ==> count == 1,
            n > 0 ==> count == n / 20 + if n % 20 == 0 {
                0int
            } else {
                1int
            },
            page_count_of(n as int) == if n == 0 {
                1
            } else {
                (n + 19) / 20
            },
    ;
    let current = if page < count - 1 {
        page
    } else {
        count - 1
    };
    proof {
        lemma_page_bounds(n as int, current as int);
    }
    let start = current * SAVED_WORDS_PAGE_SIZE;
    let end = if n - start >= SAVED_WORDS_PAGE_SIZE {
        start + SAVED_WORDS_PAGE_SIZE
    } else {
        n
    };
    let ghost rv = request_views(rows@);
    let mut out: Vec<ManualSaveRequest> = Vec::new();
    let mut i: usize = start;
    while i < end
        invariant
            start <= i <= end <= rows@.len(),
            rv == request_views(rows@),
            request_views(out@) == rv.subrange(start as int, i as int),
        decreases end - i,
    {
        let ghost before = request_views(out@);
        out.push(ManualSaveRequest { roman: rows[i].roman.clone(), khmer: rows[i].khmer.clone() });
        i = i + 1;
        assert(request_views(out@) =~= before.push(rv[i - 1]));
        assert(rv.subrange(start as int, i as int) =~= rv.subrange(start as int, i - 1).push(rv[i - 1]));
    }
    (out, current, count)
}

/// The saved-words page for a search and a page number: every saved pair
/// ordered by Roman key then spelling, narrowed by the search, then the
/// asked-for page of what is left (the last page when it is past the end).
pub fn saved_words_listing(d: &UserDictionary, query: &str, page: usize) -> (r: SavedWordsListing)
    requires
        d.wf(),
    ensures
        r.total == saved_pairs(d.view()).len(),
        r.page_count == page_count_of(filtered_pairs(saved_pairs(d.view()), query@).len() as int),
        r.page == shown_page(filtered_pairs(saved_pairs(d.view()), query@).len() as int, page as int),
        request_views(r.entries@) == page_rows(filtered_pairs(saved_pairs(d.view()), query@), r.page as int),
{
    let all = saved_word_pairs(d);
    let total = all.len();
    let kept = filter_saved_pairs(&all, query);
    let (entries, shown, count) = saved_words_page(kept, page);
    SavedWordsListing { total, entries, page: shown, page_count: count }
}

} // verus!
