//! The desktop typing-history file: one `word<TAB>count` row per line.
//!
//! Reading keeps the rows whose word is non-empty after trimming and whose
//! count parses as an unsigned number; a later row for the same word replaces
//! an earlier one. The Windows adapter also drops the words its session
//! refuses to persist. Writing prints every row and sorts the lines.

use vstd::prelude::*;
use crate::text::{
    char_views, chars_eq, chars_of, find_char, first_index_of, lines, lines_of, parse_usize,
    parse_usize_spec, slice_to_vec, string_from_chars, trim, trim_bounds, append_chars,
    chars_order, decimal, decimal_chars, join_chars, join_with, sort_char_seqs, is_digit, split_newlines,
    strip_cr, lemma_split_newlines_nonempty, lemma_trim_idempotent, lemma_decimal_parses, lemma_chars_order_total,
};

verus! {

/// One history entry: a committed word and how often it was chosen.
#[derive(Clone, Debug, PartialEq, Eq)]
pub struct HistoryRow {
    pub word: String,
    pub count: usize,
}

impl View for HistoryRow {
    type V = (Seq<char>, usize);

    open spec fn view(&self) -> (Seq<char>, usize) {
        (self.word@, self.count)
    }
}

/// The views of a sequence of rows.
pub open spec fn row_views(rows: Seq<HistoryRow>) -> Seq<(Seq<char>, usize)> {
    rows.map_values(|r: HistoryRow| r@)
}

/// What one line of the file contributes: the trimmed text before the first
/// tab and the trimmed text after it parsed as a count, when both are valid.
pub open spec fn history_line(line: Seq<char>) -> Option<(Seq<char>, usize)> {
    match first_index_of(line, '\t') {
        None => None,
        Some(i) => {
            let word = trim(line.take(i));
            if word.len() == 0 {
                None
            } else {
                match parse_usize_spec(trim(line.skip(i + 1))) {
                    Some(n) => Some((word, n)),
                    None => None,
                }
            }
        },
    }
}

/// The word-to-count map that a sequence of lines describes, later lines
/// overriding earlier ones.
pub open spec fn history_of_lines(ls: Seq<Seq<char>>) -> Map<Seq<char>, usize>
    decreases ls.len(),
{
    if ls.len() == 0 {
        Map::empty()
    } else {
        let m = history_of_lines(ls.drop_last());
        match history_line(ls.last()) {
            Some((w, n)) => m.insert(w, n),
            None => m,
        }
    }
}

/// The map that a sequence of rows describes, later rows overriding earlier
/// ones.
pub open spec fn rows_map(rows: Seq<(Seq<char>, usize)>) -> Map<Seq<char>, usize>
    decreases rows.len(),
{
    if rows.len() == 0 {
        Map::empty()
    } else {
        rows_map(rows.drop_last()).insert(rows.last().0, rows.last().1)
    }
}

/// No word occurs in two rows.
pub open spec fn distinct_words(rows: Seq<(Seq<char>, usize)>) -> bool {
    forall|i: int, j: int| 0 <= i < j < rows.len() ==> #[trigger] rows[i].0 != #[trigger] rows[j].0
}

proof fn lemma_rows_map_update(rows: Seq<(Seq<char>, usize)>, j: int, n: usize)
    requires
        0 <= j < rows.len(),
        distinct_words(rows),
    ensures
        rows_map(rows.update(j, (rows[j].0, n))) == rows_map(rows).insert(rows[j].0, n),
    decreases rows.len(),
{
    let w = rows[j].0;
    let up = rows.update(j, (w, n));
    if j == rows.len() - 1 {
        assert(up.drop_last() =~= rows.drop_last());
        assert(rows_map(up) =~= rows_map(rows).insert(w, n));
    } else {
        assert(up.drop_last() =~= rows.drop_last().update(j, (w, n)));
        lemma_rows_map_update(rows.drop_last(), j, n);
        assert(rows.last().0 != w);
        assert(rows_map(up) =~= rows_map(rows).insert(w, n));
    }
}

/// The rows of one history line, if it holds one.
fn parse_history_line(line: &[char]) -> (r: Option<(Vec<char>, usize)>)
    ensures
        match history_line(line@) {
            Some((w, n)) => match r {
                Some((rw, rn)) => rw@ == w && rn == n,
                None => false,
            },
            None => r is None,
        },
{
    match find_char(line, 0, line.len(), '\t') {
        None => {
            assert(line@.subrange(0, line@.len() as int) =~= line@);
            None
        },
        Some(i) => {
            assert(line@.subrange(0, line@.len() as int) =~= line@);
            assert(first_index_of(line@, '\t') == Some(i as int));
            let (a, b) = trim_bounds(line, 0, i);
            assert(line@.subrange(0, i as int) =~= line@.take(i as int));
            let ghost word = trim(line@.take(i as int));
            assert(word == line@.subrange(a as int, b as int));
            if a == b {
                assert(word.len() == 0);
                return None;
            }
            let (c, d) = trim_bounds(line, i + 1, line.len());
            assert(line@.subrange(i + 1, line@.len() as int) =~= line@.skip(i + 1));
            assert(line@.subrange(c as int, d as int) == trim(line@.skip(i + 1)));
            match parse_usize(line, c, d) {
                None => None,
                Some(n) => Some((slice_to_vec(line, a, b), n)),
            }
        },
    }
}

/// The index of the row for `w`, if there is one.
fn find_row(rows: &Vec<HistoryRow>, w: &[char]) -> (r: Option<usize>)
    ensures
        match r {
            Some(j) => j < rows@.len() && rows@[j as int].word@ == w@,
            None => forall|q: int| 0 <= q < rows@.len() ==> (#[trigger] rows@[q]).word@ != w@,
        },
{
    let mut j: usize = 0;
    while j < rows.len()
        invariant
            j <= rows@.len(),
            forall|q: int| 0 <= q < j ==> (#[trigger] rows@[q]).word@ != w@,
        decreases rows@.len() - j,
    {
        let rw = chars_of(rows[j].word.as_str());
        if chars_eq(&rw, w) {
            return Some(j);
        }
        j = j + 1;
    }
    None
}

/// The history rows that a desktop history file holds, one row per
/// distinct word.
pub fn parse_desktop_history_rows(source: &str) -> (rows: Vec<HistoryRow>)
    ensures
        distinct_words(row_views(rows@)),
        rows_map(row_views(rows@)) == history_of_lines(lines(source@)),
{
    let text = chars_of(source);
    let ls = lines_of(&text);
    let ghost lv = char_views(ls@);
    let mut rows: Vec<HistoryRow> = Vec::new();
    let mut k: usize = 0;
    while k < ls.len()
        invariant
            k <= ls@.len(),
            lv == char_views(ls@),
            lv == lines(source@),
            distinct_words(row_views(rows@)),
            rows_map(row_views(rows@)) == history_of_lines(lv.take(k as int)),
        decreases ls@.len() - k,
    {
        let ghost before = row_views(rows@);
        assert(lv.take(k + 1).drop_last() =~= lv.take(k as int));
        assert(lv.take(k + 1).last() == ls@[k as int]@);
        match parse_history_line(&ls[k]) {
            None => {},
            Some((w, n)) => {
                let pos = find_row(&rows, &w);
                if let Some(j) = pos {
                    let word = rows[j].word.clone();
                    rows.set(j, HistoryRow { word, count: n });
                    proof {
                        let after = row_views(rows@);
                        assert(after =~= before.update(j as int, (before[j as int].0, n)));
                        lemma_rows_map_update(before, j as int, n);
                        assert forall|a: int, b: int| 0 <= a < b < after.len() implies #[trigger] after[a].0 != #[trigger] after[b].0 by {
                            assert(after[a].0 == before[a].0);
                            assert(after[b].0 == before[b].0);
                        }
                    }
                } else {
                    assert forall|q: int| 0 <= q < before.len() implies (#[trigger] before[q]).0 != w@ by {
                        assert(before[q].0 == rows@[q].word@);
                    }
                    let word = string_from_chars(&w);
                    rows.push(HistoryRow { word, count: n });
                    proof {
                        let after = row_views(rows@);
                        assert(after =~= before.push((w@, n)));
                        assert(after.drop_last() =~= before);
                    }
                }
            },
        }
        k = k + 1;
    }
    assert(lv.take(k as int) =~= lv);
    rows
}


/// The rows that the session agrees to keep, in order: `keep[i]` is its
/// answer for `rows[i]`.
pub open spec fn kept_rows(rows: Seq<(Seq<char>, usize)>, keep: Seq<bool>) -> Seq<(Seq<char>, usize)>
    decreases rows.len(),
{
    if rows.len() == 0 || keep.len() != rows.len() {
        Seq::empty()
    } else {
        let p = kept_rows(rows.drop_last(), keep.drop_last());
        if keep.last() {
            p.push(rows.last())
        } else {
            p
        }
    }
}

/// Drops the rows whose word the session refuses to persist, keeping the
/// others in order (see `kept_rows`). The Windows adapter reads its file
/// this way, asking the session about each word.
pub fn keep_persisted_rows(rows: Vec<HistoryRow>, keep: &[bool]) -> (out: Vec<HistoryRow>)
    requires
        keep@.len() == rows@.len(),
    ensures
        row_views(out@) == kept_rows(row_views(rows@), keep@),
{
    let ghost rv = row_views(rows@);
    let mut out: Vec<HistoryRow> = Vec::new();
    let mut i: usize = 0;
    assert(row_views(out@) =~= kept_rows(rv.take(0), keep@.take(0)));
    while i < rows.len()
        invariant
            i <= rows@.len(),
            keep@.len() == rows@.len(),
            rv == row_views(rows@),
            row_views(out@) == kept_rows(rv.take(i as int), keep@.take(i as int)),
        decreases rows@.len() - i,
    {
        let ghost before = row_views(out@);
        assert(rv.take(i + 1).drop_last() =~= rv.take(i as int));
        assert(keep@.take(i + 1).drop_last() =~= keep@.take(i as int));
        assert(rv.take(i + 1).last() == rows@[i as int]@);
        assert(keep@.take(i + 1).last() == keep@[i as int]);
        if keep[i] {
            out.push(HistoryRow { word: rows[i].word.clone(), count: rows[i].count });
            assert(row_views(out@) =~= before.push(rows@[i as int]@));
        }
        i = i + 1;
    }
    assert(rv.take(i as int) =~= rv);
    assert(keep@.take(i as int) =~= keep@);
    out
}

/// The row a browser-stored history line holds: split at its first tab,
/// the word as it stands (it may be empty) and the count parsed as it
/// stands.
pub open spec fn stored_history_line(line: Seq<char>) -> Option<(Seq<char>, usize)> {
    match first_index_of(line, '\t') {
        None => None,
        Some(i) => match parse_usize_spec(line.skip(i + 1)) {
            Some(n) => Some((line.take(i), n)),
            None => None,
        },
    }
}

/// The browser-stored history of the lines `ls`: a later line for a word
/// replaces an earlier one.
pub open spec fn stored_history_of_lines(ls: Seq<Seq<char>>) -> Map<Seq<char>, usize>
    decreases ls.len(),
{
    if ls.len() == 0 {
        Map::empty()
    } else {
        let m = stored_history_of_lines(ls.drop_last());
        match stored_history_line(ls.last()) {
            Some((w, n)) => m.insert(w, n),
            None => m,
        }
    }
}

fn parse_stored_history_line(line: &[char]) -> (r: Option<(Vec<char>, usize)>)
    ensures
        match stored_history_line(line@) {
            Some((w, n)) => match r {
                Some((rw, rn)) => rw@ == w && rn == n,
                None => false,
            },
            None => r is None,
        },
{
    match find_char(line, 0, line.len(), '\t') {
        None => {
            assert(line@.subrange(0, line@.len() as int) =~= line@);
            None
        },
        Some(i) => {
            assert(line@.subrange(0, line@.len() as int) =~= line@);
            assert(line@.subrange(i + 1, line@.len() as int) =~= line@.skip(i + 1));
            assert(line@.subrange(0, i as int) =~= line@.take(i as int));
            match parse_usize(line, i + 1, line.len()) {
                None => None,
                Some(n) => Some((slice_to_vec(line, 0, i), n)),
            }
        },
    }
}

/// The history kept in browser storage as `source`, one row per distinct
/// word (see `stored_history_of_lines`); it is written back with
/// `serialize_history_rows`.
pub fn parse_stored_history_rows(source: &str) -> (rows: Vec<HistoryRow>)
    ensures
        distinct_words(row_views(rows@)),
        rows_map(row_views(rows@)) == stored_history_of_lines(lines(source@)),
{
    let text = chars_of(source);
    let ls = lines_of(&text);
    let ghost lv = char_views(ls@);
    let mut rows: Vec<HistoryRow> = Vec::new();
    let mut k: usize = 0;
    while k < ls.len()
        invariant
            k <= ls@.len(),
            lv == char_views(ls@),
            lv == lines(source@),
            distinct_words(row_views(rows@)),
            rows_map(row_views(rows@)) == stored_history_of_lines(lv.take(k as int)),
        decreases ls@.len() - k,
    {
        let ghost before = row_views(rows@);
        assert(lv.take(k + 1).drop_last() =~= lv.take(k as int));
        assert(lv.take(k + 1).last() == ls@[k as int]@);
        match parse_stored_history_line(&ls[k]) {
            None => {},
            Some((w, n)) => {
                let pos = find_row(&rows, &w);
                if let Some(j) = pos {
                    let word = rows[j].word.clone();
                    rows.set(j, HistoryRow { word, count: n });
                    proof {
                        let after = row_views(rows@);
                        assert(after =~= before.update(j as int, (before[j as int].0, n)));
                        lemma_rows_map_update(before, j as int, n);
                        assert forall|a: int, b: int| 0 <= a < b < after.len() implies #[trigger] after[a].0 != #[trigger] after[b].0 by {
                            assert(after[a].0 == before[a].0);
                            assert(after[b].0 == before[b].0);
                        }
                    }
                } else {
                    assert forall|q: int| 0 <= q < before.len() implies (#[trigger] before[q]).0 != w@ by {
                        assert(before[q].0 == rows@[q].word@);
                    }
                    let word = string_from_chars(&w);
                    rows.push(HistoryRow { word, count: n });
                    proof {
                        let after = row_views(rows@);
                        assert(after =~= before.push((w@, n)));
                        assert(after.drop_last() =~= before);
                    }
                }
            },
        }
        k = k + 1;
    }
    assert(lv.take(k as int) =~= lv);
    rows
}

/// The file line for one row: the word, a tab, and the count in decimal.
pub open spec fn row_line(r: (Seq<char>, usize)) -> Seq<char> {
    r.0 + seq!['\t'] + decimal(r.1 as nat)
}

/// The file text for `rows`: their lines sorted in code point order and
/// joined with newlines.
pub open spec fn history_text(rows: Seq<(Seq<char>, usize)>) -> Seq<char> {
    join_with(rows.map_values(|r: (Seq<char>, usize)| row_line(r)).sort_by(chars_order()), seq!['\n'])
}

/// The file text for `rows`, sorted line by line.
pub fn serialize_history_rows(rows: &[HistoryRow]) -> (out: String)
    ensures
        out@ == history_text(row_views(rows@)),
{
    let ghost rv = row_views(rows@);
    let ghost want = rv.map_values(|r: (Seq<char>, usize)| row_line(r));
    let mut lines: Vec<Vec<char>> = Vec::new();
    let mut i: usize = 0;
    while i < rows.len()
        invariant
            i <= rows@.len(),
            rv == row_views(rows@),
            want == rv.map_values(|r: (Seq<char>, usize)| row_line(r)),
            char_views(lines@) == want.take(i as int),
        decreases rows@.len() - i,
    {
        let mut line = chars_of(rows[i].word.as_str());
        line.push('\t');
        let digits = decimal_chars(rows[i].count);
        append_chars(&mut line, &digits);
        let ghost prev = char_views(lines@);
        proof {
            assert(rv[i as int] == rows@[i as int]@);
            assert(want[i as int] == row_line(rv[i as int]));
            assert(line@ =~= row_line(rv[i as int]));
        }
        lines.push(line);
        proof {
            assert(rv[i as int] == rows@[i as int]@);
            assert(char_views(lines@) =~= prev.push(want[i as int]));
            assert(want.take(i + 1) =~= want.take(i as int).push(want[i as int]));
        }
        i = i + 1;
    }
    assert(want.take(i as int) =~= want);
    let sorted = sort_char_seqs(lines);
    let mut sep: Vec<char> = Vec::new();
    sep.push('\n');
    assert(sep@ =~= seq!['\n']);
    let joined = join_chars(&sorted, &sep);
    string_from_chars(&joined)
}

/// File name of the desktop history.
pub const DESKTOP_HISTORY_FILE: &'static str = "history.tsv";

/// The planned Windows user-local history path, in Windows environment
/// syntax.
pub const PLANNED_HISTORY_PATH: &'static str = "%APPDATA%\\khmerime\\history.tsv";

/// A relative component appended to a Unix path: a separator goes between
/// them unless the base is empty or already ends with one.
pub open spec fn joined(base: Seq<char>, part: Seq<char>) -> Seq<char> {
    if base.len() == 0 {
        part
    } else if base.last() == '/' {
        base + part
    } else {
        base + seq!['/'] + part
    }
}

/// Appends a relative component to a Unix path.
pub fn join_component(base: &str, part: &str) -> (out: String)
    ensures
        out@ == joined(base@, part@),
{
    let mut chars = chars_of(base);
    if chars.len() > 0 && chars[chars.len() - 1] != '/' {
        chars.push('/');
    }
    let p = chars_of(part);
    append_chars(&mut chars, p.as_slice());
    proof {
        if base@.len() > 0 {
            assert(base@.last() == base@[base@.len() - 1]);
        }
    }
    string_from_chars(chars.as_slice())
}

/// Where the desktop history lives: `$XDG_CONFIG_HOME/khmerime/history.tsv`
/// when that variable is set, else `$HOME/.config/khmerime/history.tsv`,
/// else nowhere.
pub open spec fn history_path_spec(config_home: Option<Seq<char>>, home: Option<Seq<char>>) -> Option<Seq<char>> {
    match config_home {
        Some(c) => Some(joined(joined(c, "khmerime"@), "history.tsv"@)),
        None => match home {
            Some(h) => Some(joined(joined(joined(h, ".config"@), "khmerime"@), "history.tsv"@)),
            None => None,
        },
    }
}

/// The desktop history path for the values of `XDG_CONFIG_HOME` and `HOME`.
pub fn desktop_history_path(config_home: Option<&str>, home: Option<&str>) -> (p: Option<String>)
    ensures
        match p {
            Some(s) => history_path_spec(
                match config_home {
                    Some(c) => Some(c@),
                    None => None,
                },
                match home {
                    Some(h) => Some(h@),
                    None => None,
                },
            ) == Some(s@),
            None => history_path_spec(
                match config_home {
                    Some(c) => Some(c@),
                    None => None,
                },
                match home {
                    Some(h) => Some(h@),
                    None => None,
                },
            ) is None,
        },
{
    match config_home {
        Some(c) => {
            let dir = join_component(c, "khmerime");
            Some(join_component(dir.as_str(), DESKTOP_HISTORY_FILE))
        },
        None => match home {
            Some(h) => {
                let config = join_component(h, ".config");
                let dir = join_component(config.as_str(), "khmerime");
                Some(join_component(dir.as_str(), DESKTOP_HISTORY_FILE))
            },
            None => None,
        },
    }
}

/// The history store of the desktop adapters: the file's text format on
/// either side of the read and the write, which the adapter performs.
#[derive(Clone, Copy, Debug, Default)]
pub struct DesktopHistoryStore;

impl DesktopHistoryStore {
    /// The history a load yields from the file's text; an unreadable or
    /// missing file (`None`) yields an empty history.
    pub fn history_from_file(&self, raw: Option<&str>) -> (rows: Vec<HistoryRow>)
        ensures
            distinct_words(row_views(rows@)),
            rows_map(row_views(rows@)) == match raw {
                Some(r) => history_of_lines(lines(r@)),
                None => Map::empty(),
            },
    {
        match raw {
            Some(r) => parse_desktop_history_rows(r),
            None => {
                let rows: Vec<HistoryRow> = Vec::new();
                assert(rows_map(row_views(rows@)) =~= Map::empty());
                rows
            },
        }
    }

    /// The text a save writes for `rows`.
    pub fn file_text(&self, rows: &[HistoryRow]) -> (out: String)
        ensures
            out@ == history_text(row_views(rows@)),
    {
        serialize_history_rows(rows)
    }
}

/// A word the history file holds and reads back unchanged: non-empty,
/// without surrounding white space, tabs or line feeds.
pub open spec fn storable_word(w: Seq<char>) -> bool {
    &&& w.len() > 0
    &&& trim(w) == w
    &&& forall|i: int| 0 <= i < w.len() ==> #[trigger] w[i] != '\t' && w[i] != '\n'
}

proof fn lemma_first_tab(w: Seq<char>, rest: Seq<char>)
    requires
        forall|i: int| 0 <= i < w.len() ==> #[trigger] w[i] != '\t',
    ensures
        first_index_of(w + seq!['\t'] + rest, '\t') == Some(w.len() as int),
    decreases w.len(),
{
    let s = w + seq!['\t'] + rest;
    if w.len() == 0 {
        assert(s[0] == '\t');
    } else {
        assert(s[0] == w[0]);
        assert(s.drop_first() =~= w.drop_first() + seq!['\t'] + rest);
        assert forall|i: int| 0 <= i < w.drop_first().len() implies #[trigger] w.drop_first()[i] != '\t' by {
            assert(w.drop_first()[i] == w[i + 1]);
        }
        lemma_first_tab(w.drop_first(), rest);
    }
}

proof fn lemma_trim_digits(d: Seq<char>)
    requires
        d.len() > 0,
        forall|i: int| 0 <= i < d.len() ==> is_digit(#[trigger] d[i]),
    ensures
        trim(d) == d,
{
    assert(is_digit(d[0]));
    assert(is_digit(d[d.len() - 1]));
}

/// Reading the line written for a row gives the row back.
proof fn lemma_history_line_of_row(r: (Seq<char>, usize))
    requires
        storable_word(r.0),
    ensures
        history_line(row_line(r)) == Some(r),
{
    let d = decimal(r.1 as nat);
    lemma_decimal_parses(r.1 as nat);
    let line = row_line(r);
    assert forall|i: int| 0 <= i < r.0.len() implies #[trigger] r.0[i] != '\t' by {
        assert(r.0[i] != '\t' && r.0[i] != '\n');
    }
    lemma_first_tab(r.0, d);
    assert(line.take(r.0.len() as int) =~= r.0);
    assert(line.skip(r.0.len() as int + 1) =~= d);
    lemma_trim_digits(d);
}

proof fn lemma_split_extend(a: Seq<char>, b: Seq<char>)
    requires
        forall|i: int| 0 <= i < b.len() ==> #[trigger] b[i] != '\n',
    ensures
        split_newlines(a + b) == split_newlines(a).update(
            split_newlines(a).len() - 1,
            split_newlines(a).last() + b,
        ),
    decreases b.len(),
{
    lemma_split_newlines_nonempty(a);
    let p = split_newlines(a);
    if b.len() == 0 {
        assert(a + b =~= a);
        assert(p.last() + b =~= p.last());
        assert(p.update(p.len() - 1, p.last()) =~= p);
    } else {
        let b2 = b.drop_last();
        assert forall|i: int| 0 <= i < b2.len() implies #[trigger] b2[i] != '\n' by {
            assert(b2[i] == b[i]);
        }
        lemma_split_extend(a, b2);
        assert((a + b).drop_last() =~= a + b2);
        assert((a + b).last() == b[b.len() - 1]);
        let q = split_newlines(a + b2);
        assert(q.last() == p.last() + b2);
        assert(q.last().push(b.last()) =~= p.last() + b);
        assert(q.update(q.len() - 1, q.last().push(b.last())) =~= p.update(p.len() - 1, p.last() + b));
    }
}

/// The lines a file holds after joining lines without line feeds.
proof fn lemma_split_join(ls: Seq<Seq<char>>)
    requires
        ls.len() > 0,
        forall|i: int, j: int| 0 <= i < ls.len() && 0 <= j < ls[i].len() ==> #[trigger] ls[i][j] != '\n',
    ensures
        split_newlines(join_with(ls, seq!['\n'])) == ls,
    decreases ls.len(),
{
    if ls.len() == 1 {
        assert forall|j: int| 0 <= j < ls[0].len() implies #[trigger] ls[0][j] != '\n' by {
            assert(ls[0][j] != '\n');
        }
        lemma_split_extend(Seq::<char>::empty(), ls[0]);
        assert(Seq::<char>::empty() + ls[0] =~= ls[0]);
        assert(split_newlines(Seq::<char>::empty()) =~= seq![Seq::<char>::empty()]);
        assert(Seq::<char>::empty() + ls[0] =~= ls[0]);
        assert(seq![Seq::<char>::empty()].update(0, Seq::<char>::empty() + ls[0]) =~= ls);
    } else {
        let p = ls.drop_last();
        assert forall|i: int, j: int| 0 <= i < p.len() && 0 <= j < p[i].len() implies #[trigger] p[i][j] != '\n' by {
            assert(p[i] == ls[i]);
        }
        lemma_split_join(p);
        let jp = join_with(p, seq!['\n']);
        let last = ls.last();
        assert forall|j: int| 0 <= j < last.len() implies #[trigger] last[j] != '\n' by {
            assert(ls[ls.len() - 1][j] != '\n');
        }
        assert((jp + seq!['\n']).drop_last() =~= jp);
        assert(split_newlines(jp + seq!['\n']) == p.push(Seq::<char>::empty()));
        lemma_split_extend(jp + seq!['\n'], last);
        assert(jp + seq!['\n'] + last =~= join_with(ls, seq!['\n']));
        assert(Seq::<char>::empty() + last =~= last);
        assert(p.push(Seq::<char>::empty()).update(p.len() as int, Seq::<char>::empty() + last) =~= ls);
    }
}

/// `lines` gives back the lines a file was joined from, when each is
/// non-empty, holds no line feed and does not end in a carriage return.
proof fn lemma_lines_join(ls: Seq<Seq<char>>)
    requires
        forall|i: int| 0 <= i < ls.len() ==> (#[trigger] ls[i]).len() > 0 && ls[i].last() != '\r',
        forall|i: int, j: int| 0 <= i < ls.len() && 0 <= j < ls[i].len() ==> #[trigger] ls[i][j] != '\n',
    ensures
        lines(join_with(ls, seq!['\n'])) == ls,
{
    let text = join_with(ls, seq!['\n']);
    if ls.len() > 0 {
        lemma_split_join(ls);
        let last = ls[ls.len() - 1];
        assert(last.len() > 0);
        if ls.len() == 1 {
            assert(text == last);
        } else {
            assert(text =~= join_with(ls.drop_last(), seq!['\n']) + seq!['\n'] + last);
        }
        assert(text.len() > 0);
        assert(text.last() == last.last());
        assert(last[last.len() - 1] != '\n');
        assert(ls.map_values(|x: Seq<char>| strip_cr(x)) =~= ls);
    }
}

/// Whether entries with equal words have equal counts.
pub open spec fn consistent_rows(p: Seq<(Seq<char>, usize)>) -> bool {
    forall|i: int, j: int| 0 <= i < p.len() && 0 <= j < p.len() && #[trigger] p[i].0 == #[trigger] p[j].0 ==> p[i].1
        == p[j].1
}

proof fn lemma_rows_map_membership(p: Seq<(Seq<char>, usize)>, k: Seq<char>)
    ensures
        rows_map(p).contains_key(k) <==> exists|i: int| 0 <= i < p.len() && (#[trigger] p[i]).0 == k,
        consistent_rows(p) ==> forall|i: int| 0 <= i < p.len() && (#[trigger] p[i]).0 == k ==> rows_map(p)[k] == p[i].1,
    decreases p.len(),
{
    if p.len() > 0 {
        let q = p.drop_last();
        lemma_rows_map_membership(q, k);
        if exists|i: int| 0 <= i < q.len() && (#[trigger] q[i]).0 == k {
            let i = choose|i: int| 0 <= i < q.len() && (#[trigger] q[i]).0 == k;
            assert(p[i] == q[i]);
        }
        if exists|i: int| 0 <= i < p.len() && (#[trigger] p[i]).0 == k {
            let i = choose|i: int| 0 <= i < p.len() && (#[trigger] p[i]).0 == k;
            if i < q.len() {
                assert(q[i] == p[i]);
            }
        }
        if consistent_rows(p) {
            assert forall|i: int, j: int| 0 <= i < q.len() && 0 <= j < q.len() && #[trigger] q[i].0 == #[trigger] q[j].0
                implies q[i].1 == q[j].1 by {
                assert(p[i] == q[i] && p[j] == q[j]);
            }
            assert forall|i: int| 0 <= i < p.len() && (#[trigger] p[i]).0 == k implies rows_map(p)[k] == p[i].1 by {
                if p.last().0 != k {
                    assert(q[i] == p[i]);
                } else {
                    assert(p[p.len() - 1].0 == p[i].0);
                }
            }
        }
    }
}

proof fn lemma_history_of_parsing_lines(ls: Seq<Seq<char>>)
    requires
        forall|i: int| 0 <= i < ls.len() ==> history_line(#[trigger] ls[i]) is Some,
    ensures
        history_of_lines(ls) == rows_map(ls.map_values(|l: Seq<char>| history_line(l)->0)),
    decreases ls.len(),
{
    if ls.len() > 0 {
        let q = ls.drop_last();
        assert forall|i: int| 0 <= i < q.len() implies history_line(#[trigger] q[i]) is Some by {
            assert(q[i] == ls[i]);
        }
        lemma_history_of_parsing_lines(q);
        assert(q.map_values(|l: Seq<char>| history_line(l)->0) =~= ls.map_values(|l: Seq<char>| history_line(l)->0).drop_last());
        assert(history_line(ls[ls.len() - 1]) is Some);
    }
}

/// Whether `x` occurs in `s`.
pub open spec fn occurs<A>(s: Seq<A>, x: A) -> bool {
    exists|i: int| 0 <= i < s.len() && s[i] == x
}

/// Whether `l` is the file line of some row.
pub open spec fn line_of_a_row(l: Seq<char>, rows: Seq<(Seq<char>, usize)>) -> bool {
    exists|j: int| 0 <= j < rows.len() && l == row_line(#[trigger] rows[j])
}

proof fn lemma_sorted_lines(rows: Seq<(Seq<char>, usize)>)
    ensures
        forall|i: int|
            0 <= i < history_lines(rows).len() ==> line_of_a_row(#[trigger] history_lines(rows)[i], rows),
        forall|j: int| 0 <= j < rows.len() ==> occurs(history_lines(rows), row_line(#[trigger] rows[j])),
{
    let m = rows.map_values(|r: (Seq<char>, usize)| row_line(r));
    lemma_chars_order_total();
    m.lemma_sort_by_ensures(chars_order());
    let ls = history_lines(rows);
    assert forall|i: int| 0 <= i < ls.len() implies line_of_a_row(#[trigger] ls[i], rows) by {
        vstd::seq_lib::to_multiset_contains(ls, ls[i]);
        vstd::seq_lib::to_multiset_contains(m, ls[i]);
        assert(ls.contains(ls[i]));
        let j = choose|j: int| 0 <= j < m.len() && m[j] == ls[i];
        assert(m[j] == row_line(rows[j]));
    }
    assert forall|j: int| 0 <= j < rows.len() implies occurs(ls, row_line(#[trigger] rows[j])) by {
        assert(m[j] == row_line(rows[j]));
        vstd::seq_lib::to_multiset_contains(m, m[j]);
        vstd::seq_lib::to_multiset_contains(ls, m[j]);
        assert(m.contains(m[j]));
    }
}

/// The lines of the history file, in file order.
pub open spec fn history_lines(rows: Seq<(Seq<char>, usize)>) -> Seq<Seq<char>> {
    rows.map_values(|r: (Seq<char>, usize)| row_line(r)).sort_by(chars_order())
}

proof fn lemma_row_line_shape(r: (Seq<char>, usize))
    requires
        storable_word(r.0),
    ensures
        row_line(r).len() > 0,
        row_line(r).last() != '\r',
        forall|k: int| 0 <= k < row_line(r).len() ==> #[trigger] row_line(r)[k] != '\n',
        history_line(row_line(r)) == Some(r),
{
    lemma_history_line_of_row(r);
    lemma_decimal_parses(r.1 as nat);
    let w = r.0;
    let d = decimal(r.1 as nat);
    let l = row_line(r);
    assert(l.last() == d[d.len() - 1]);
    assert(is_digit(d[d.len() - 1]));
    assert forall|k: int| 0 <= k < l.len() implies #[trigger] l[k] != '\n' by {
        if k < w.len() {
            assert(l[k] == w[k]);
            assert(w[k] != '\t' && w[k] != '\n');
        } else if k > w.len() {
            assert(l[k] == d[k - w.len() - 1]);
            assert(is_digit(d[k - w.len() - 1]));
        }
    }
}

proof fn lemma_history_file_lines(rows: Seq<(Seq<char>, usize)>)
    requires
        forall|i: int| 0 <= i < rows.len() ==> storable_word(#[trigger] rows[i].0),
    ensures
        lines(history_text(rows)) == history_lines(rows),
        forall|i: int| 0 <= i < history_lines(rows).len() ==> history_line(#[trigger] history_lines(rows)[i]) is Some,
{
    let ls = history_lines(rows);
    lemma_sorted_lines(rows);
    assert forall|i: int| 0 <= i < ls.len() implies (#[trigger] ls[i]).len() > 0 && ls[i].last() != '\r'
        && history_line(ls[i]) is Some by {
        assert(line_of_a_row(ls[i], rows));
        let j = choose|j: int| 0 <= j < rows.len() && ls[i] == row_line(#[trigger] rows[j]);
        lemma_row_line_shape(rows[j]);
    }
    assert forall|i: int, k: int| 0 <= i < ls.len() && 0 <= k < ls[i].len() implies #[trigger] ls[i][k] != '\n' by {
        assert(line_of_a_row(ls[i], rows));
        let j = choose|j: int| 0 <= j < rows.len() && ls[i] == row_line(#[trigger] rows[j]);
        lemma_row_line_shape(rows[j]);
        assert(row_line(rows[j])[k] != '\n');
    }
    lemma_lines_join(ls);
}

proof fn lemma_same_rows_same_map(p: Seq<(Seq<char>, usize)>, rows: Seq<(Seq<char>, usize)>)
    requires
        distinct_words(rows),
        forall|i: int| 0 <= i < p.len() ==> occurs(rows, #[trigger] p[i]),
        forall|j: int| 0 <= j < rows.len() ==> occurs(p, #[trigger] rows[j]),
    ensures
        rows_map(p) == rows_map(rows),
{
    assert(consistent_rows(p)) by {
        assert forall|i: int, k: int| 0 <= i < p.len() && 0 <= k < p.len() && #[trigger] p[i].0 == #[trigger] p[k].0
            implies p[i].1 == p[k].1 by {
            assert(occurs(rows, p[i]) && occurs(rows, p[k]));
            let a = choose|j: int| 0 <= j < rows.len() && rows[j] == p[i];
            let b = choose|j: int| 0 <= j < rows.len() && rows[j] == p[k];
            if a < b {
                assert(rows[a].0 != rows[b].0);
            } else if b < a {
                assert(rows[b].0 != rows[a].0);
            }
        }
    }
    assert(consistent_rows(rows)) by {
        assert forall|i: int, k: int| 0 <= i < rows.len() && 0 <= k < rows.len() && #[trigger] rows[i].0
            == #[trigger] rows[k].0 implies rows[i].1 == rows[k].1 by {
            if i < k {
                assert(rows[i].0 != rows[k].0);
            } else if k < i {
                assert(rows[k].0 != rows[i].0);
            }
        }
    }
    assert forall|w: Seq<char>| #[trigger] rows_map(p).contains_key(w) == rows_map(rows).contains_key(w) by {
        lemma_rows_map_membership(p, w);
        lemma_rows_map_membership(rows, w);
        if exists|i: int| 0 <= i < p.len() && (#[trigger] p[i]).0 == w {
            let i = choose|i: int| 0 <= i < p.len() && (#[trigger] p[i]).0 == w;
            assert(occurs(rows, p[i]));
            let j = choose|j: int| 0 <= j < rows.len() && rows[j] == p[i];
            assert(rows[j].0 == w);
        }
        if exists|j: int| 0 <= j < rows.len() && (#[trigger] rows[j]).0 == w {
            let j = choose|j: int| 0 <= j < rows.len() && (#[trigger] rows[j]).0 == w;
            assert(occurs(p, rows[j]));
            let i = choose|i: int| 0 <= i < p.len() && p[i] == rows[j];
            assert(p[i].0 == w);
        }
    }
    assert forall|w: Seq<char>| #[trigger] rows_map(p).contains_key(w) implies rows_map(p)[w] == rows_map(rows)[w] by {
        lemma_rows_map_membership(p, w);
        lemma_rows_map_membership(rows, w);
        let i = choose|i: int| 0 <= i < p.len() && (#[trigger] p[i]).0 == w;
        assert(occurs(rows, p[i]));
        let j = choose|j: int| 0 <= j < rows.len() && rows[j] == p[i];
        assert(rows_map(p)[w] == p[i].1);
        assert(rows_map(rows)[w] == rows[j].1);
    }
    assert(rows_map(p) =~= rows_map(rows));
}

/// Writing a history and reading the file back gives the same history,
/// for rows with distinct words that the file can hold.
pub proof fn law_history_round_trip(rows: Seq<(Seq<char>, usize)>)
    requires
        distinct_words(rows),
        forall|i: int| 0 <= i < rows.len() ==> storable_word(#[trigger] rows[i].0),
    ensures
        history_of_lines(lines(history_text(rows))) == rows_map(rows),
{
    let ls = history_lines(rows);
    lemma_history_file_lines(rows);
    lemma_sorted_lines(rows);
    lemma_history_of_parsing_lines(ls);
    let p = ls.map_values(|l: Seq<char>| history_line(l)->0);
    assert forall|i: int| 0 <= i < p.len() implies occurs(rows, #[trigger] p[i]) by {
        assert(line_of_a_row(ls[i], rows));
        let j = choose|j: int| 0 <= j < rows.len() && ls[i] == row_line(#[trigger] rows[j]);
        lemma_row_line_shape(rows[j]);
        assert(p[i] == rows[j]);
    }
    assert forall|j: int| 0 <= j < rows.len() implies occurs(p, #[trigger] rows[j]) by {
        assert(occurs(ls, row_line(rows[j])));
        let i = choose|i: int| 0 <= i < ls.len() && ls[i] == row_line(rows[j]);
        lemma_row_line_shape(rows[j]);
        assert(p[i] == rows[j]);
    }
    lemma_same_rows_same_map(p, rows);
}


/// Every word that a history read from lines holds was taken from one of
/// them: it is non-empty and has no white space at either end.
proof fn lemma_history_keys(ls: Seq<Seq<char>>)
    ensures
        forall|w: Seq<char>| #[trigger] history_of_lines(ls).contains_key(w) ==> w.len() > 0 && trim(w) == w,
    decreases ls.len(),
{
    if ls.len() > 0 {
        lemma_history_keys(ls.drop_last());
        let m = history_of_lines(ls.drop_last());
        match first_index_of(ls.last(), '\t') {
            None => {},
            Some(i) => {
                lemma_trim_idempotent(ls.last().take(i));
            },
        }
        assert forall|w: Seq<char>| #[trigger] history_of_lines(ls).contains_key(w) implies w.len() > 0 && trim(w)
            == w by {
            if !m.contains_key(w) {
                let r = history_line(ls.last());
                assert(r matches Some((a, _)) && a == w);
            }
        }
    }
}

/// Every word that reading a history file gives is non-empty and trimmed,
/// whatever the file holds.
pub proof fn law_history_keys_trimmed(source: Seq<char>)
    ensures
        forall|w: Seq<char>|
            #[trigger] history_of_lines(lines(source)).contains_key(w) ==> w.len() > 0 && trim(w) == w,
{
    lemma_history_keys(lines(source));
}

} // verus!
