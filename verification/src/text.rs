//! Character-level text helpers shared by the editing, spelling and
//! persistence modules. Text is handled as a sequence of Unicode scalar
//! values, the view that `String` and `&str` carry.

use vstd::prelude::*;
use vstd::relations::*;

verus! {

/// Appends one character to a string.
///
/// Trusted wrapper over `String::push`: its documentation states that the
/// character is appended to the end of the string.
#[verifier::external_body]
pub(crate) fn push_char(s: &mut String, c: char)
    ensures
        final(s)@ == old(s)@.push(c),
{
    s.push(c);
}

/// The characters of `s`, in order.
pub fn chars_of(s: &str) -> (out: Vec<char>)
    ensures
        out@ == s@,
{
    let mut out: Vec<char> = Vec::new();
    for c in it: s.chars()
        invariant
            out@ == it.seq().take(it.index() as int),
    {
        out.push(c);
    }
    out
}


/// A string holding exactly the characters of `chars`.
pub fn string_from_chars(chars: &[char]) -> (out: String)
    ensures
        out@ == chars@,
{
    let mut out = String::new();
    let mut i: usize = 0;
    while i < chars.len()
        invariant
            i <= chars@.len(),
            out@ == chars@.take(i as int),
        decreases chars@.len() - i,
    {
        push_char(&mut out, chars[i]);
        i = i + 1;
        assert(chars@.take(i as int) =~= chars@.take((i - 1) as int).push(chars@[i - 1]));
    }
    assert(chars@.take(i as int) =~= chars@);
    out
}

/// The Unicode `White_Space` property, the set `char::is_whitespace` tests.
pub open spec fn is_space(c: char) -> bool {
    let u = c as int;
    ||| 0x9 <= u <= 0xD
    ||| u == 0x20
    ||| u == 0x85
    ||| u == 0xA0
    ||| u == 0x1680
    ||| 0x2000 <= u <= 0x200A
    ||| u == 0x2028
    ||| u == 0x2029
    ||| u == 0x202F
    ||| u == 0x205F
    ||| u == 0x3000
}

/// Whether `c` is Unicode white space.
pub fn char_is_space(c: char) -> (b: bool)
    ensures
        b == is_space(c),
{
    let u = c as u32;
    (0x9 <= u && u <= 0xD) || u == 0x20 || u == 0x85 || u == 0xA0 || u == 0x1680 || (0x2000 <= u
        && u <= 0x200A) || u == 0x2028 || u == 0x2029 || u == 0x202F || u == 0x205F || u == 0x3000
}

/// `s` without its leading white space.
pub open spec fn trim_start(s: Seq<char>) -> Seq<char>
    decreases s.len(),
{
    if s.len() > 0 && is_space(s[0]) {
        trim_start(s.drop_first())
    } else {
        s
    }
}

/// `s` without its trailing white space.
pub open spec fn trim_end(s: Seq<char>) -> Seq<char>
    decreases s.len(),
{
    if s.len() > 0 && is_space(s.last()) {
        trim_end(s.drop_last())
    } else {
        s
    }
}

/// `s` without leading and trailing white space, as `str::trim` gives it.
pub open spec fn trim(s: Seq<char>) -> Seq<char> {
    trim_end(trim_start(s))
}

proof fn lemma_trim_start_head(s: Seq<char>)
    ensures
        trim_start(s).len() > 0 ==> !is_space(trim_start(s)[0]),
    decreases s.len(),
{
    if s.len() > 0 && is_space(s[0]) {
        lemma_trim_start_head(s.drop_first());
    }
}

proof fn lemma_trim_end_prefix(s: Seq<char>)
    ensures
        trim_end(s).len() <= s.len(),
        trim_end(s) =~= s.take(trim_end(s).len() as int),
        trim_end(s).len() > 0 ==> !is_space(trim_end(s).last()),
    decreases s.len(),
{
    if s.len() > 0 && is_space(s.last()) {
        lemma_trim_end_prefix(s.drop_last());
        assert(s.drop_last().take(trim_end(s).len() as int) =~= s.take(trim_end(s).len() as int));
    } else {
        assert(s.take(s.len() as int) =~= s);
    }
}

/// Trimming trimmed text changes nothing.
pub proof fn lemma_trim_idempotent(s: Seq<char>)
    ensures
        trim(trim(s)) == trim(s),
{
    let a = trim_start(s);
    let t = trim_end(a);
    lemma_trim_start_head(s);
    lemma_trim_end_prefix(a);
    if t.len() > 0 {
        assert(t[0] == a[0]);
    }
    assert(trim_start(t) == t);
    assert(trim_end(t) == t);
}

proof fn lemma_trim_start_skip(s: Seq<char>, i: int)
    requires
        0 <= i <= s.len(),
        forall|k: int| 0 <= k < i ==> is_space(#[trigger] s[k]),
    ensures
        trim_start(s) == trim_start(s.subrange(i, s.len() as int)),
    decreases i,
{
    if i > 0 {
        assert(s.drop_first() =~= s.subrange(1, s.len() as int));
        lemma_trim_start_skip(s.drop_first(), i - 1);
        assert(s.drop_first().subrange(i - 1, s.drop_first().len() as int) =~= s.subrange(
            i,
            s.len() as int,
        ));
    } else {
        assert(s.subrange(0, s.len() as int) =~= s);
    }
}

proof fn lemma_trim_end_cut(s: Seq<char>, j: int)
    requires
        0 <= j <= s.len(),
        forall|k: int| j <= k < s.len() ==> is_space(#[trigger] s[k]),
    ensures
        trim_end(s) == trim_end(s.subrange(0, j)),
    decreases s.len() - j,
{
    if j < s.len() {
        lemma_trim_end_cut(s.drop_last(), j);
        assert(s.drop_last().subrange(0, j) =~= s.subrange(0, j));
    } else {
        assert(s.subrange(0, j) =~= s);
    }
}

/// The bounds, inside `[lo, hi)`, of the trimmed part of that range of `v`.
pub fn trim_bounds(v: &[char], lo: usize, hi: usize) -> (r: (usize, usize))
    requires
        lo <= hi <= v@.len(),
    ensures
        lo <= r.0 <= r.1 <= hi,
        v@.subrange(r.0 as int, r.1 as int) == trim(v@.subrange(lo as int, hi as int)),
{
    let ghost s = v@.subrange(lo as int, hi as int);
    let mut a = lo;
    while a < hi && char_is_space(v[a])
        invariant
            lo <= a <= hi <= v@.len(),
            s == v@.subrange(lo as int, hi as int),
            forall|k: int| lo <= k < a ==> is_space(#[trigger] v@[k]),
        decreases hi - a,
    {
        a = a + 1;
    }
    proof {
        assert forall|k: int| 0 <= k < a - lo implies is_space(#[trigger] s[k]) by {
            assert(s[k] == v@[lo + k]);
        }
        lemma_trim_start_skip(s, a - lo);
        assert(s.subrange(a - lo, s.len() as int) =~= v@.subrange(a as int, hi as int));
    }
    let ghost t = v@.subrange(a as int, hi as int);
    assert(trim_start(s) == trim_start(t));
    assert(trim_start(t) == t) by {
        if t.len() > 0 {
            assert(t[0] == v@[a as int]);
        }
    }
    let mut b = hi;
    while b > a && char_is_space(v[b - 1])
        invariant
            lo <= a <= b <= hi <= v@.len(),
            t == v@.subrange(a as int, hi as int),
            forall|k: int| b <= k < hi ==> is_space(#[trigger] v@[k]),
        decreases b - a,
    {
        b = b - 1;
    }
    proof {
        assert forall|k: int| b - a <= k < t.len() implies is_space(#[trigger] t[k]) by {
            assert(t[k] == v@[a + k]);
        }
        lemma_trim_end_cut(t, b - a);
        let u = t.subrange(0, b - a);
        assert(u =~= v@.subrange(a as int, b as int));
        if u.len() > 0 {
            assert(u.last() == v@[b - 1]);
        }
    }
    (a, b)
}

/// `s` with leading and trailing white space removed.
pub fn trimmed(s: &[char]) -> (out: Vec<char>)
    ensures
        out@ == trim(s@),
{
    let (a, b) = trim_bounds(s, 0, s.len());
    assert(s@.subrange(0, s@.len() as int) =~= s@);
    slice_to_vec(s, a, b)
}

/// The characters of `v` in `[lo, hi)`.
pub fn slice_to_vec(v: &[char], lo: usize, hi: usize) -> (out: Vec<char>)
    requires
        lo <= hi <= v@.len(),
    ensures
        out@ == v@.subrange(lo as int, hi as int),
{
    let mut out: Vec<char> = Vec::new();
    let mut i = lo;
    while i < hi
        invariant
            lo <= i <= hi <= v@.len(),
            out@ == v@.subrange(lo as int, i as int),
        decreases hi - i,
    {
        out.push(v[i]);
        i = i + 1;
        assert(out@ =~= v@.subrange(lo as int, i as int));
    }
    out
}


/// The pieces of `s` between `'\n'` characters, as `str::split('\n')` gives
/// them (always at least one piece).
pub open spec fn split_newlines(s: Seq<char>) -> Seq<Seq<char>>
    decreases s.len(),
{
    if s.len() == 0 {
        seq![Seq::<char>::empty()]
    } else {
        let p = split_newlines(s.drop_last());
        if s.last() == '\n' {
            p.push(Seq::<char>::empty())
        } else {
            p.update(p.len() - 1, p.last().push(s.last()))
        }
    }
}

/// `line` without one trailing carriage return.
pub open spec fn strip_cr(line: Seq<char>) -> Seq<char> {
    if line.len() > 0 && line.last() == '\r' {
        line.drop_last()
    } else {
        line
    }
}

/// The lines of `s` as `str::lines` yields them: split at `"\n"` or
/// `"\r\n"`, the final line ending optional, no line for empty input.
pub open spec fn lines(s: Seq<char>) -> Seq<Seq<char>> {
    if s.len() == 0 {
        Seq::empty()
    } else {
        let p = split_newlines(s);
        let q = if s.last() == '\n' {
            p.drop_last()
        } else {
            p
        };
        q.map_values(|x: Seq<char>| strip_cr(x))
    }
}

pub proof fn lemma_split_newlines_nonempty(s: Seq<char>)
    ensures
        split_newlines(s).len() >= 1,
        s.len() > 0 && s.last() == '\n' ==> split_newlines(s).last() == Seq::<char>::empty(),
    decreases s.len(),
{
    if s.len() > 0 {
        lemma_split_newlines_nonempty(s.drop_last());
    }
}

/// The views of a sequence of character vectors.
pub open spec fn char_views(v: Seq<Vec<char>>) -> Seq<Seq<char>> {
    v.map_values(|x: Vec<char>| x@)
}

/// The lines of `text`, as `str::lines` splits them.
pub fn lines_of(text: &[char]) -> (out: Vec<Vec<char>>)
    ensures
        char_views(out@) == lines(text@),
{
    let mut pieces: Vec<Vec<char>> = Vec::new();
    let mut cur: Vec<char> = Vec::new();
    let mut i: usize = 0;
    while i < text.len()
        invariant
            i <= text@.len(),
            char_views(pieces@).push(cur@) == split_newlines(text@.take(i as int)),
        decreases text@.len() - i,
    {
        let c = text[i];
        let ghost pre = text@.take(i as int);
        let ghost old_pieces = char_views(pieces@);
        let ghost old_cur = cur@;
        assert(text@.take(i + 1).drop_last() =~= pre);
        assert(text@.take(i + 1).last() == c);
        if c == '\n' {
            let done = cur;
            pieces.push(done);
            cur = Vec::new();
            assert(char_views(pieces@) =~= old_pieces.push(old_cur));
            assert(char_views(pieces@).push(cur@) =~= split_newlines(text@.take(i + 1)));
        } else {
            cur.push(c);
            assert(char_views(pieces@) =~= old_pieces);
            assert(char_views(pieces@).push(cur@) =~= split_newlines(text@.take(i + 1)));
        }
        i = i + 1;
    }
    assert(text@.take(i as int) =~= text@);
    let ghost parts = split_newlines(text@);
    proof {
        lemma_split_newlines_nonempty(text@);
    }
    let ghost before = char_views(pieces@);
    let keep_last = text.len() > 0 && text[text.len() - 1] != '\n';
    if keep_last {
        pieces.push(cur);
        assert(char_views(pieces@) =~= parts);
    } else if text.len() > 0 {
        assert(before =~= parts.drop_last());
    }
    let ghost kept = char_views(pieces@);
    let mut out: Vec<Vec<char>> = Vec::new();
    let mut j: usize = 0;
    while j < pieces.len()
        invariant
            j <= pieces@.len(),
            kept == char_views(pieces@),
            char_views(out@) == kept.take(j as int).map_values(|x: Seq<char>| strip_cr(x)),
        decreases pieces@.len() - j,
    {
        let line = &pieces[j];
        let n = line.len();
        let stripped = if n > 0 && line[n - 1] == '\r' {
            slice_to_vec(line, 0, n - 1)
        } else {
            slice_to_vec(line, 0, n)
        };
        proof {
            assert(kept[j as int] == line@);
            assert(line@.subrange(0, n as int) =~= line@);
            if n > 0 {
                assert(line@.subrange(0, n - 1) =~= line@.drop_last());
            }
        }
        let ghost old_out = char_views(out@);
        out.push(stripped);
        j = j + 1;
        assert(char_views(out@) =~= old_out.push(strip_cr(kept[j - 1])));
        assert(char_views(out@) =~= kept.take(j as int).map_values(|x: Seq<char>| strip_cr(x)));
    }
    assert(kept.take(j as int) =~= kept);
    if text.len() == 0 {
        assert(char_views(out@) =~= lines(text@));
    }
    out
}


/// The pieces of `s` between `sep` characters, as `str::split(sep)` gives
/// them (always at least one piece).
pub open spec fn split_on(s: Seq<char>, sep: char) -> Seq<Seq<char>>
    decreases s.len(),
{
    if s.len() == 0 {
        seq![Seq::<char>::empty()]
    } else {
        let p = split_on(s.drop_last(), sep);
        if s.last() == sep {
            p.push(Seq::<char>::empty())
        } else {
            p.update(p.len() - 1, p.last().push(s.last()))
        }
    }
}

proof fn lemma_split_on_nonempty(s: Seq<char>, sep: char)
    ensures
        split_on(s, sep).len() >= 1,
    decreases s.len(),
{
    if s.len() > 0 {
        lemma_split_on_nonempty(s.drop_last(), sep);
    }
}

/// The pieces of `text` between `sep` characters.
pub fn split_chars(text: &[char], sep: char) -> (out: Vec<Vec<char>>)
    ensures
        char_views(out@) == split_on(text@, sep),
{
    let mut pieces: Vec<Vec<char>> = Vec::new();
    let mut cur: Vec<char> = Vec::new();
    let mut i: usize = 0;
    while i < text.len()
        invariant
            i <= text@.len(),
            char_views(pieces@).push(cur@) == split_on(text@.take(i as int), sep),
        decreases text@.len() - i,
    {
        let c = text[i];
        let ghost pre = text@.take(i as int);
        let ghost old_pieces = char_views(pieces@);
        let ghost old_cur = cur@;
        proof {
            lemma_split_on_nonempty(pre, sep);
        }
        assert(text@.take(i + 1).drop_last() =~= pre);
        assert(text@.take(i + 1).last() == c);
        if c == sep {
            let done = cur;
            pieces.push(done);
            cur = Vec::new();
            assert(char_views(pieces@) =~= old_pieces.push(old_cur));
            assert(char_views(pieces@).push(cur@) =~= split_on(text@.take(i + 1), sep));
        } else {
            cur.push(c);
            assert(char_views(pieces@) =~= old_pieces);
            assert(char_views(pieces@).push(cur@) =~= split_on(text@.take(i + 1), sep));
        }
        i = i + 1;
    }
    assert(text@.take(i as int) =~= text@);
    let ghost before = char_views(pieces@);
    pieces.push(cur);
    assert(char_views(pieces@) =~= before.push(cur@));
    pieces
}

/// The index of the first `c` in `s`, if there is one.
pub open spec fn first_index_of(s: Seq<char>, c: char) -> Option<int>
    decreases s.len(),
{
    if s.len() == 0 {
        None
    } else if s[0] == c {
        Some(0)
    } else {
        match first_index_of(s.drop_first(), c) {
            Some(i) => Some(i + 1),
            None => None,
        }
    }
}

pub proof fn lemma_first_index_of(s: Seq<char>, c: char, i: int)
    requires
        0 <= i <= s.len(),
        forall|k: int| 0 <= k < i ==> s[k] != c,
    ensures
        i < s.len() && s[i] == c ==> first_index_of(s, c) == Some(i),
        i == s.len() ==> first_index_of(s, c) is None,
    decreases i,
{
    if i > 0 {
        lemma_first_index_of(s.drop_first(), c, i - 1);
    }
}

/// If `c` occurs at `k`, the first occurrence is at or before `k`.
pub proof fn lemma_first_index_some(s: Seq<char>, c: char, k: int)
    requires
        0 <= k < s.len(),
        s[k] == c,
    ensures
        first_index_of(s, c) is Some,
    decreases k,
{
    if k > 0 && s[0] != c {
        lemma_first_index_some(s.drop_first(), c, k - 1);
    }
}

/// Where `c` first occurs in `s[lo..hi)`, as an index into `s`.
pub fn find_char(s: &[char], lo: usize, hi: usize, c: char) -> (r: Option<usize>)
    requires
        lo <= hi <= s@.len(),
    ensures
        match first_index_of(s@.subrange(lo as int, hi as int), c) {
            Some(k) => 0 <= k < hi - lo && r == Some((lo + k) as usize),
            None => r is None,
        },
        r matches Some(j) ==> lo <= j < hi && s@[j as int] == c,
{
    let ghost t = s@.subrange(lo as int, hi as int);
    let mut i = lo;
    while i < hi
        invariant
            lo <= i <= hi <= s@.len(),
            t == s@.subrange(lo as int, hi as int),
            forall|k: int| lo <= k < i ==> s@[k] != c,
        decreases hi - i,
    {
        if s[i] == c {
            proof {
                assert forall|k: int| 0 <= k < i - lo implies t[k] != c by {
                    assert(t[k] == s@[lo + k]);
                }
                lemma_first_index_of(t, c, i - lo);
            }
            return Some(i);
        }
        i = i + 1;
    }
    proof {
        assert forall|k: int| 0 <= k < t.len() implies t[k] != c by {
            assert(t[k] == s@[lo + k]);
        }
        lemma_first_index_of(t, c, t.len() as int);
    }
    None
}

/// Whether `c` is an ASCII decimal digit.
pub open spec fn is_digit(c: char) -> bool {
    '0' <= c && c <= '9'
}

/// The numeric value of a decimal digit character.
pub open spec fn digit_value(c: char) -> nat {
    ((c as int) - ('0' as int)) as nat
}

/// The number that a string of decimal digits spells.
pub open spec fn digits_value(s: Seq<char>) -> nat
    decreases s.len(),
{
    if s.len() == 0 {
        0
    } else {
        digits_value(s.drop_last()) * 10 + digit_value(s.last())
    }
}

/// Whether every character of `s` is a decimal digit.
pub open spec fn all_digits(s: Seq<char>) -> bool {
    forall|i: int| 0 <= i < s.len() ==> is_digit(#[trigger] s[i])
}

/// `s` without one leading `+` sign.
pub open spec fn without_plus(s: Seq<char>) -> Seq<char> {
    if s.len() > 0 && s[0] == '+' {
        s.drop_first()
    } else {
        s
    }
}

/// What `str::parse::<usize>` accepts: an optional `+`, then one or more
/// decimal digits whose value fits in `usize`.
pub open spec fn parse_usize_spec(s: Seq<char>) -> Option<usize> {
    let body = without_plus(s);
    if body.len() > 0 && all_digits(body) && digits_value(body) <= usize::MAX {
        Some(digits_value(body) as usize)
    } else {
        None
    }
}

proof fn lemma_digits_value_grows(s: Seq<char>, k: int)
    requires
        0 <= k <= s.len(),
    ensures
        digits_value(s.take(k)) <= digits_value(s),
    decreases s.len() - k,
{
    if k < s.len() {
        lemma_digits_value_grows(s.drop_last(), k);
        assert(s.drop_last().take(k) =~= s.take(k));
    } else {
        assert(s.take(k) =~= s);
    }
}

/// `str::parse::<usize>` on the characters `s[lo..hi)`.
pub fn parse_usize(s: &[char], lo: usize, hi: usize) -> (r: Option<usize>)
    requires
        lo <= hi <= s@.len(),
    ensures
        r == parse_usize_spec(s@.subrange(lo as int, hi as int)),
{
    let ghost t = s@.subrange(lo as int, hi as int);
    let mut start = lo;
    if lo < hi && s[lo] == '+' {
        start = lo + 1;
    }
    let ghost body = s@.subrange(start as int, hi as int);
    assert(body =~= without_plus(t));
    if start == hi {
        return None;
    }
    let mut acc: usize = 0;
    let mut i = start;
    while i < hi
        invariant
            lo <= start <= i <= hi <= s@.len(),
            body == s@.subrange(start as int, hi as int),
            t == s@.subrange(lo as int, hi as int),
            body == without_plus(t),
            forall|k: int| start <= k < i ==> is_digit(#[trigger] s@[k]),
            acc as nat == digits_value(body.take(i - start)),
        decreases hi - i,
    {
        let c = s[i];
        if !('0' <= c && c <= '9') {
            assert(body[i - start] == c);
            assert(!is_digit(body[i - start]));
            return None;
        }
        let d = (c as u32 - '0' as u32) as usize;
        let ghost pre = body.take(i - start);
        assert(body.take(i - start + 1).drop_last() =~= pre);
        assert(body.take(i - start + 1).last() == c);
        assert(digit_value(c) == d);
        assert(digits_value(body.take(i - start + 1)) == acc * 10 + d);
        match acc.checked_mul(10) {
            None => {
                proof {
                    if all_digits(body) {
                        lemma_digits_value_grows(body, i - start + 1);
                    }
                }
                return None;
            },
            Some(m) => match m.checked_add(d) {
                None => {
                    proof {
                        if all_digits(body) {
                            lemma_digits_value_grows(body, i - start + 1);
                        }
                    }
                    return None;
                },
                Some(v) => {
                    acc = v;
                },
            },
        }
        i = i + 1;
    }
    assert(body.take(i - start) =~= body);
    assert forall|j: int| 0 <= j < body.len() implies is_digit(#[trigger] body[j]) by {
        assert(body[j] == s@[start + j]);
    }
    assert(all_digits(body));
    Some(acc)
}

/// The decimal digit character for `d < 10`.
pub open spec fn digit_char(d: nat) -> char {
    (('0' as int) + d) as char
}

/// The shortest decimal spelling of `n`, as `usize`'s `Display` prints it.
pub open spec fn decimal(n: nat) -> Seq<char>
    decreases n,
{
    if n < 10 {
        seq![digit_char(n)]
    } else {
        decimal(n / 10).push(digit_char(n % 10))
    }
}

/// The decimal spelling of `n`.
pub fn decimal_chars(n: usize) -> (out: Vec<char>)
    ensures
        out@ == decimal(n as nat),
    decreases n,
{
    let d = (n % 10) as u32;
    let c = char_from_digit(d);
    if n < 10 {
        let mut out = Vec::new();
        out.push(c);
        assert(out@ =~= decimal(n as nat));
        out
    } else {
        let mut out = decimal_chars(n / 10);
        out.push(c);
        out
    }
}

/// The character of the decimal digit `d`.
fn char_from_digit(d: u32) -> (c: char)
    requires
        d < 10,
    ensures
        c == digit_char(d as nat),
{
    if d == 0 { '0' } else if d == 1 { '1' } else if d == 2 { '2' } else if d == 3 { '3' } else if d
        == 4 { '4' } else if d == 5 { '5' } else if d == 6 { '6' } else if d == 7 { '7' } else if d
        == 8 { '8' } else { '9' }
}

/// Parsing the decimal spelling of a number gives the number back.
pub proof fn lemma_decimal_parses(n: nat)
    requires
        n <= usize::MAX,
    ensures
        parse_usize_spec(decimal(n)) == Some(n as usize),
        decimal(n).len() > 0,
        forall|i: int| 0 <= i < decimal(n).len() ==> is_digit(#[trigger] decimal(n)[i]),
{
    lemma_decimal_digits(n);
}

proof fn lemma_decimal_digits(n: nat)
    ensures
        decimal(n).len() > 0,
        decimal(n)[0] != '+',
        forall|i: int| 0 <= i < decimal(n).len() ==> is_digit(#[trigger] decimal(n)[i]),
        digits_value(decimal(n)) == n,
    decreases n,
{
    if n >= 10 {
        lemma_decimal_digits(n / 10);
        let p = decimal(n / 10);
        assert(decimal(n).drop_last() =~= p);
        assert forall|i: int| 0 <= i < decimal(n).len() implies is_digit(#[trigger] decimal(n)[i]) by {
            if i < p.len() {
                assert(decimal(n)[i] == p[i]);
            }
        }
        assert(n == (n / 10) * 10 + n % 10) by (nonlinear_arith);
    } else {
        assert(digits_value(decimal(n).drop_last()) == 0);
    }
}


/// Lexicographic order on character sequences by code point, the order of
/// `str`'s comparison (UTF-8 byte order follows code point order).
pub open spec fn chars_le(a: Seq<char>, b: Seq<char>) -> bool
    decreases a.len(),
{
    if a.len() == 0 {
        true
    } else if b.len() == 0 {
        false
    } else if a[0] == b[0] {
        chars_le(a.drop_first(), b.drop_first())
    } else {
        (a[0] as int) < (b[0] as int)
    }
}

/// `chars_le` as a relation value.
pub open spec fn chars_order() -> spec_fn(Seq<char>, Seq<char>) -> bool {
    |a: Seq<char>, b: Seq<char>| chars_le(a, b)
}

proof fn lemma_chars_le_reflexive(a: Seq<char>)
    ensures
        chars_le(a, a),
    decreases a.len(),
{
    if a.len() > 0 {
        lemma_chars_le_reflexive(a.drop_first());
    }
}

proof fn lemma_chars_le_total(a: Seq<char>, b: Seq<char>)
    ensures
        chars_le(a, b) || chars_le(b, a),
    decreases a.len(),
{
    if a.len() > 0 && b.len() > 0 && a[0] == b[0] {
        lemma_chars_le_total(a.drop_first(), b.drop_first());
    }
}

proof fn lemma_chars_le_antisymmetric(a: Seq<char>, b: Seq<char>)
    requires
        chars_le(a, b),
        chars_le(b, a),
    ensures
        a == b,
    decreases a.len(),
{
    if a.len() > 0 && b.len() > 0 {
        lemma_chars_le_antisymmetric(a.drop_first(), b.drop_first());
        assert(a =~= seq![a[0]] + a.drop_first());
        assert(b =~= seq![b[0]] + b.drop_first());
    } else {
        assert(a =~= b);
    }
}

proof fn lemma_chars_le_transitive(a: Seq<char>, b: Seq<char>, c: Seq<char>)
    requires
        chars_le(a, b),
        chars_le(b, c),
    ensures
        chars_le(a, c),
    decreases a.len(),
{
    if a.len() > 0 && b.len() > 0 && c.len() > 0 && a[0] == b[0] && b[0] == c[0] {
        lemma_chars_le_transitive(a.drop_first(), b.drop_first(), c.drop_first());
    }
}

/// `chars_le` is a total order.
pub proof fn lemma_chars_order_total()
    ensures
        total_ordering(chars_order()),
{
    assert forall|x: Seq<char>| #[trigger] chars_order()(x, x) by {
        lemma_chars_le_reflexive(x);
    }
    assert forall|x: Seq<char>, y: Seq<char>| #[trigger] chars_order()(x, y) && #[trigger] chars_order()(y, x) implies x == y by {
        lemma_chars_le_antisymmetric(x, y);
    }
    assert forall|x: Seq<char>, y: Seq<char>, z: Seq<char>| #[trigger] chars_order()(x, y) && #[trigger] chars_order()(y, z) implies chars_order()(x, z) by {
        lemma_chars_le_transitive(x, y, z);
    }
    assert forall|x: Seq<char>, y: Seq<char>| #[trigger] chars_order()(x, y) || #[trigger] chars_order()(y, x) by {
        lemma_chars_le_total(x, y);
    }
}

proof fn lemma_chars_le_skip(a: Seq<char>, b: Seq<char>, i: int)
    requires
        0 <= i <= a.len(),
        i <= b.len(),
        a.take(i) == b.take(i),
    ensures
        chars_le(a, b) == chars_le(a.skip(i), b.skip(i)),
    decreases i,
{
    if i > 0 {
        assert(a[0] == a.take(i)[0]);
        assert(b[0] == b.take(i)[0]);
        assert(a.drop_first().take(i - 1) =~= a.take(i).drop_first());
        assert(b.drop_first().take(i - 1) =~= b.take(i).drop_first());
        lemma_chars_le_skip(a.drop_first(), b.drop_first(), i - 1);
        assert(a.drop_first().skip(i - 1) =~= a.skip(i));
        assert(b.drop_first().skip(i - 1) =~= b.skip(i));
    } else {
        assert(a.skip(0) =~= a);
        assert(b.skip(0) =~= b);
    }
}

/// Whether `a` comes no later than `b` in code point order.
pub fn chars_le_exec(a: &[char], b: &[char]) -> (r: bool)
    ensures
        r == chars_le(a@, b@),
{
    let mut i: usize = 0;
    while i < a.len() && i < b.len()
        invariant
            i <= a@.len(),
            i <= b@.len(),
            a@.take(i as int) == b@.take(i as int),
        decreases a@.len() - i,
    {
        if a[i] != b[i] {
            proof {
                lemma_chars_le_skip(a@, b@, i as int);
                assert(a@.skip(i as int)[0] == a@[i as int]);
                assert(b@.skip(i as int)[0] == b@[i as int]);
            }
            return a[i] < b[i];
        }
        assert(a@.take(i + 1) =~= a@.take(i as int).push(a@[i as int]));
        assert(b@.take(i + 1) =~= b@.take(i as int).push(b@[i as int]));
        i = i + 1;
    }
    proof {
        lemma_chars_le_skip(a@, b@, i as int);
    }
    i == a.len()
}

/// `v` sorted in code point order.
pub fn sort_char_seqs(v: Vec<Vec<char>>) -> (out: Vec<Vec<char>>)
    ensures
        char_views(out@) == char_views(v@).sort_by(chars_order()),
{
    let ghost input = char_views(v@);
    let mut out: Vec<Vec<char>> = Vec::new();
    let mut rest = v;
    let ghost taken: Seq<Seq<char>> = Seq::empty();
    proof {
        lemma_chars_order_total();
    }
    let mut k: usize = 0;
    let n = rest.len();
    assert(char_views(out@) =~= input.take(0));
    // Insert the elements one by one, keeping `out` sorted.
    while k < n
        invariant
            n == rest@.len(),
            k <= n,
            input == char_views(rest@),
            total_ordering(chars_order()),
            sorted_by(char_views(out@), chars_order()),
            char_views(out@).to_multiset() == input.take(k as int).to_multiset(),
        decreases n - k,
    {
        let x = rest[k].clone();
        assert(x@ == input[k as int]);
        let mut p: usize = 0;
        while p < out.len() && chars_le_exec(&out[p], &x)
            invariant
                p <= out@.len(),
                forall|q: int| 0 <= q < p ==> chars_le(#[trigger] out@[q]@, x@),
            decreases out@.len() - p,
        {
            p = p + 1;
        }
        let ghost before = char_views(out@);
        proof {
            assert forall|q: int| p <= q < before.len() implies chars_le(x@, #[trigger] before[q]) by {
                assert(!chars_le(before[p as int], x@));
                lemma_chars_le_total(before[p as int], x@);
                if q > p {
                    assert(chars_order()(before[p as int], before[q]));
                    lemma_chars_le_transitive(x@, before[p as int], before[q]);
                }
            }
            assert forall|q: int| 0 <= q < p implies chars_le(#[trigger] before[q], x@) by {
                assert(before[q] == out@[q]@);
            }
        }
        out.insert(p, x);
        proof {
            let after = char_views(out@);
            assert(after =~= before.insert(p as int, x@));
            assert forall|i: int, j: int| 0 <= i < j < after.len() implies #[trigger] chars_order()(
                after[i],
                after[j],
            ) by {
                if i < p && j < p + 1 {
                    if j == p {
                    } else {
                        assert(chars_order()(before[i], before[j]));
                    }
                } else if i < p {
                    assert(chars_order()(before[i], before[j - 1]));
                } else if i == p {
                } else {
                    assert(chars_order()(before[i - 1], before[j - 1]));
                }
            }
            vstd::seq_lib::to_multiset_insert(before, p as int, x@);
            assert(input.take(k + 1) =~= input.take(k as int).push(input[k as int]));
            vstd::seq_lib::to_multiset_build(input.take(k as int), input[k as int]);
        }
        k = k + 1;
    }
    proof {
        assert(input.take(n as int) =~= input);
        input.lemma_sort_by_ensures(chars_order());
        vstd::seq_lib::lemma_sorted_unique(char_views(out@), input.sort_by(chars_order()), chars_order());
    }
    out
}

/// `parts` joined with `sep` between consecutive parts, as `join` builds it.
pub open spec fn join_with(parts: Seq<Seq<char>>, sep: Seq<char>) -> Seq<char>
    decreases parts.len(),
{
    if parts.len() == 0 {
        Seq::empty()
    } else if parts.len() == 1 {
        parts[0]
    } else {
        join_with(parts.drop_last(), sep) + sep + parts.last()
    }
}

/// `parts` joined with `sep`.
pub fn join_chars(parts: &Vec<Vec<char>>, sep: &[char]) -> (out: Vec<char>)
    ensures
        out@ == join_with(char_views(parts@), sep@),
{
    let ghost ps = char_views(parts@);
    let mut out: Vec<char> = Vec::new();
    let mut i: usize = 0;
    while i < parts.len()
        invariant
            i <= parts@.len(),
            ps == char_views(parts@),
            out@ == join_with(ps.take(i as int), sep@),
        decreases parts@.len() - i,
    {
        let ghost prev = out@;
        if i > 0 {
            append_chars(&mut out, sep);
        }
        append_chars(&mut out, &parts[i]);
        proof {
            assert(ps.take(i + 1).drop_last() =~= ps.take(i as int));
            assert(ps.take(i + 1).last() == parts@[i as int]@);
            if i == 0 {
                assert(out@ =~= parts@[0]@);
            }
        }
        i = i + 1;
    }
    assert(ps.take(i as int) =~= ps);
    out
}

/// Appends `more` to `out`.
pub fn append_chars(out: &mut Vec<char>, more: &[char])
    ensures
        final(out)@ == old(out)@ + more@,
{
    let ghost start = out@;
    let mut i: usize = 0;
    while i < more.len()
        invariant
            i <= more@.len(),
            out@ == start + more@.take(i as int),
        decreases more@.len() - i,
    {
        out.push(more[i]);
        i = i + 1;
        assert(out@ =~= start + more@.take(i as int));
    }
    assert(more@.take(i as int) =~= more@);
}


/// Whether `a` and `b` hold the same characters.
pub fn chars_eq(a: &[char], b: &[char]) -> (r: bool)
    ensures
        r == (a@ == b@),
{
    if a.len() != b.len() {
        return false;
    }
    let mut i: usize = 0;
    while i < a.len()
        invariant
            i <= a@.len(),
            a@.len() == b@.len(),
            a@.take(i as int) == b@.take(i as int),
        decreases a@.len() - i,
    {
        if a[i] != b[i] {
            return false;
        }
        assert(a@.take(i + 1) =~= a@.take(i as int).push(a@[i as int]));
        assert(b@.take(i + 1) =~= b@.take(i as int).push(b@[i as int]));
        i = i + 1;
    }
    assert(a@.take(i as int) =~= a@);
    assert(b@.take(i as int) =~= b@);
    true
}

/// Appending text without a line feed extends the last piece.
pub proof fn lemma_split_extend(a: Seq<char>, b: Seq<char>)
    requires
        !b.contains('\n'),
    ensures
        split_newlines(a + b) == split_newlines(a).update(
            split_newlines(a).len() - 1,
            split_newlines(a).last() + b,
        ),
    decreases b.len(),
{
    lemma_split_newlines_nonempty(a);
    if b.len() == 0 {
        assert(a + b =~= a);
        let p = split_newlines(a);
        assert(p.last() + b =~= p.last());
        assert(p.update(p.len() - 1, p.last() + b) =~= p);
    } else {
        let b1 = b.drop_last();
        assert(!b1.contains('\n')) by {
            assert forall|i: int| 0 <= i < b1.len() implies b1[i] != '\n' by {
                assert(b1[i] == b[i]);
            }
        }
        lemma_split_extend(a, b1);
        assert((a + b).drop_last() =~= a + b1);
        assert((a + b).last() == b.last());
        assert(b.last() != '\n') by {
            assert(b[b.len() - 1] == b.last());
        }
        let p = split_newlines(a);
        lemma_split_newlines_nonempty(a + b1);
        let q = split_newlines(a + b1);
        assert(q == p.update(p.len() - 1, p.last() + b1));
        assert(q.len() == p.len());
        assert(q.last() == p.last() + b1);
        assert(split_newlines(a + b) == q.update(q.len() - 1, q.last().push(b.last())));
        assert(p.last() + b1 + seq![b.last()] =~= p.last() + b);
        assert(q.last().push(b.last()) =~= p.last() + b);
        assert(split_newlines(a + b) =~= p.update(p.len() - 1, p.last() + b));
    }
}

/// Rows joined with line feeds split back into the same rows, as long as
/// none is empty, holds a line feed or ends with a carriage return.
pub proof fn lemma_lines_of_rows(rows: Seq<Seq<char>>)
    requires
        forall|j: int|
            0 <= j < rows.len() ==> !(#[trigger] rows[j]).contains('\n') && rows[j].len() > 0 && rows[j].last() != '\r',
    ensures
        rows.len() > 0 ==> split_newlines(join_with(rows, seq!['\n'])) == rows,
        lines(join_with(rows, seq!['\n'])) == rows,
    decreases rows.len(),
{
    let text = join_with(rows, seq!['\n']);
    if rows.len() == 0 {
        assert(lines(text) =~= rows);
    } else {
        let last = rows.last();
        assert(last == rows[rows.len() - 1]);
        if rows.len() == 1 {
            assert(text == rows[0]);
            lemma_split_extend(Seq::<char>::empty(), last);
            assert(Seq::<char>::empty() + last =~= last);
            assert(split_newlines(Seq::<char>::empty()) =~= seq![Seq::<char>::empty()]);
            assert(Seq::<char>::empty() + last =~= last);
            assert(split_newlines(last) =~= rows);
        } else {
            let front = rows.drop_last();
            assert forall|j: int| 0 <= j < front.len() implies !(#[trigger] front[j]).contains('\n') && front[j].len() > 0
                && front[j].last() != '\r' by {
                assert(front[j] == rows[j]);
            }
            lemma_lines_of_rows(front);
            let a = join_with(front, seq!['\n']) + seq!['\n'];
            assert(text == a + last);
            lemma_split_extend(a, last);
            assert(a.drop_last() =~= join_with(front, seq!['\n']));
            assert(a.last() == '\n');
            let p = split_newlines(a);
            assert(p == front.push(Seq::<char>::empty()));
            assert(Seq::<char>::empty() + last =~= last);
            assert(split_newlines(text) =~= rows);
        }
        assert(text.len() > 0);
        assert(text.last() == last.last()) by {
            if rows.len() == 1 {
            } else {
                let a = join_with(rows.drop_last(), seq!['\n']) + seq!['\n'];
                assert(text == a + last);
                assert(text[text.len() - 1] == last[last.len() - 1]);
            }
        }
        assert(text.last() != '\n') by {
            assert(last[last.len() - 1] == last.last());
        }
        assert forall|j: int| 0 <= j < rows.len() implies strip_cr(#[trigger] rows[j]) == rows[j] by {}
        assert(lines(text) =~= rows.map_values(|x: Seq<char>| strip_cr(x)));
        assert(lines(text) =~= rows);
    }
}

/// The characters of `input` from position `start` up to (not including)
/// `end`, as skipping `start` characters and taking `end - start` of the
/// rest (none when `end <= start`) gives them; positions past the end are
/// simply missing.
pub open spec fn char_slice(input: Seq<char>, start: usize, end: usize) -> Seq<char> {
    let rest = if start <= input.len() {
        input.skip(start as int)
    } else {
        Seq::empty()
    };
    let n: int = if end > start {
        end - start
    } else {
        0
    };
    if n <= rest.len() {
        rest.take(n)
    } else {
        rest
    }
}

/// The characters of `input` in `[start, end)` (see `char_slice`).
pub fn slice_chars(input: &str, start: usize, end: usize) -> (out: String)
    ensures
        out@ == char_slice(input@, start, end),
{
    let cs = chars_of(input);
    let lo = if start < cs.len() {
        start
    } else {
        cs.len()
    };
    let n = if end > start {
        end - start
    } else {
        0
    };
    let hi = if n <= cs.len() - lo {
        lo + n
    } else {
        cs.len()
    };
    let piece = slice_to_vec(cs.as_slice(), lo, hi);
    proof {
        if start <= cs@.len() {
            assert(cs@.skip(start as int) =~= cs@.subrange(lo as int, cs@.len() as int));
        } else {
            assert(piece@ =~= Seq::<char>::empty());
        }
        if n as int <= cs@.len() - lo {
            assert(cs@.skip(lo as int).take(n as int) =~= cs@.subrange(lo as int, hi as int));
        } else {
            assert(cs@.skip(lo as int) =~= cs@.subrange(lo as int, hi as int));
        }
    }
    string_from_chars(piece.as_slice())
}

/// How many characters `input` holds.
pub fn char_len(input: &str) -> (n: usize)
    ensures
        n == input@.len(),
{
    chars_of(input).len()
}

} // verus!
