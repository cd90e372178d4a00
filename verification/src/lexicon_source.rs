//! The lexicon source files and their compiled form: a two-column CSV (with
//! RFC 4180 style quoting and an optional `roman,target` header) or a TSV of
//! Roman key and Khmer target, compiled to the `RLX1` binary the engine
//! loads.

use vstd::prelude::*;
use crate::text::{chars_of, char_views, join_with, lines, lines_of, string_from_chars, trim, trimmed};
use vstd::bytes::{spec_u32_to_le_bytes, u32_to_le_bytes};
use vstd::utf8::encode_utf8;

verus! {

/// The format of a lexicon source file.
#[derive(Clone, Copy, Debug, PartialEq, Eq, Structural)]
pub enum LexiconSourceFormat {
    Csv,
    Tsv,
}

/// Why a lexicon source was refused. Line numbers count from 1; a NUL byte
/// is reported by the 1-based position of the entry that holds it.
#[derive(Clone, Copy, Debug, PartialEq, Eq, Structural)]
pub enum LexiconError {
    /// A non-blank TSV line without a tab.
    TsvMissingTab { line: usize },
    /// A quote inside an unquoted CSV field.
    CsvUnexpectedQuote { line: usize },
    /// A CSV line that ends inside a quoted field.
    CsvUnterminatedQuote { line: usize },
    /// A CSV row that does not hold exactly two fields.
    CsvColumnCount { line: usize, got: usize },
    /// An entry holding a NUL character, which the binary cannot store.
    NulByte { entry: usize },
}

/// How a single CSV line fails to split into fields.
#[derive(Clone, Copy, Debug, PartialEq, Eq, Structural)]
pub enum CsvFault {
    UnexpectedQuote,
    UnterminatedQuote,
}

/// The fields of the CSV line `s` from position `i` on, given the fields
/// already closed, the field being read and whether it is inside quotes.
/// Inside quotes a doubled quote stands for one quote and a single quote
/// closes the quoting; outside, a comma ends a field and a quote may only
/// open one that is still empty.
pub open spec fn csv_scan(s: Seq<char>, i: int, fields: Seq<Seq<char>>, cur: Seq<char>, quoted: bool) -> Result<
    Seq<Seq<char>>,
    CsvFault,
>
    decreases s.len() - i,
{
    if i < 0 || i >= s.len() {
        if quoted {
            Err(CsvFault::UnterminatedQuote)
        } else {
            Ok(fields.push(cur))
        }
    } else {
        let c = s[i];
        if quoted {
            if c == '"' {
                if i + 1 < s.len() && s[i + 1] == '"' {
                    csv_scan(s, i + 2, fields, cur.push('"'), true)
                } else {
                    csv_scan(s, i + 1, fields, cur, false)
                }
            } else {
                csv_scan(s, i + 1, fields, cur.push(c), true)
            }
        } else if c == '"' {
            if cur.len() == 0 {
                csv_scan(s, i + 1, fields, cur, true)
            } else {
                Err(CsvFault::UnexpectedQuote)
            }
        } else if c == ',' {
            csv_scan(s, i + 1, fields.push(cur), Seq::empty(), false)
        } else {
            csv_scan(s, i + 1, fields, cur.push(c), false)
        }
    }
}

/// The fields of one CSV line.
pub open spec fn csv_fields(s: Seq<char>) -> Result<Seq<Seq<char>>, CsvFault> {
    csv_scan(s, 0, Seq::empty(), Seq::empty(), false)
}

/// The error a CSV fault on line `line` is reported as.
pub open spec fn csv_fault_error(f: CsvFault, line: usize) -> LexiconError {
    match f {
        CsvFault::UnexpectedQuote => LexiconError::CsvUnexpectedQuote { line },
        CsvFault::UnterminatedQuote => LexiconError::CsvUnterminatedQuote { line },
    }
}

/// The views of a sequence of strings.
pub open spec fn string_views(v: Seq<String>) -> Seq<Seq<char>> {
    v.map_values(|x: String| x@)
}

fn strings_of(v: &Vec<Vec<char>>) -> (out: Vec<String>)
    ensures
        string_views(out@) == char_views(v@),
{
    let mut out: Vec<String> = Vec::new();
    let mut i: usize = 0;
    while i < v.len()
        invariant
            i <= v@.len(),
            string_views(out@) == char_views(v@).take(i as int),
        decreases v@.len() - i,
    {
        let ghost before = string_views(out@);
        out.push(string_from_chars(&v[i]));
        i = i + 1;
        assert(string_views(out@) =~= before.push(v@[i - 1]@));
        assert(char_views(v@).take(i as int) =~= char_views(v@).take(i - 1).push(v@[i - 1]@));
    }
    assert(char_views(v@).take(i as int) =~= char_views(v@));
    out
}

/// The fields of the CSV line `s` (see `csv_scan`).
pub fn split_csv_line(s: &Vec<char>) -> (r: Result<Vec<Vec<char>>, CsvFault>)
    ensures
        match csv_fields(s@) {
            Ok(fields) => r matches Ok(v) && char_views(v@) == fields,
            Err(f) => r == Err::<Vec<Vec<char>>, CsvFault>(f),
        },
{
    let mut fields: Vec<Vec<char>> = Vec::new();
    let mut cur: Vec<char> = Vec::new();
    let mut quoted = false;
    let mut i: usize = 0;
    assert(char_views(fields@) =~= Seq::<Seq<char>>::empty());
    assert(cur@ =~= Seq::<char>::empty());
    while i < s.len()
        invariant
            i <= s@.len(),
            csv_fields(s@) == csv_scan(s@, i as int, char_views(fields@), cur@, quoted),
        decreases s@.len() - i,
    {
        let c = s[i];
        let ghost old_fields = char_views(fields@);
        if quoted {
            if c == '"' {
                if i + 1 < s.len() && s[i + 1] == '"' {
                    cur.push('"');
                    i = i + 2;
                } else {
                    quoted = false;
                    i = i + 1;
                }
            } else {
                cur.push(c);
                i = i + 1;
            }
        } else if c == '"' {
            if cur.len() == 0 {
                quoted = true;
                i = i + 1;
            } else {
                return Err(CsvFault::UnexpectedQuote);
            }
        } else if c == ',' {
            let done = cur;
            fields.push(done);
            cur = Vec::new();
            i = i + 1;
            assert(char_views(fields@) =~= old_fields.push(done@));
        } else {
            cur.push(c);
            i = i + 1;
        }
    }
    if quoted {
        return Err(CsvFault::UnterminatedQuote);
    }
    let ghost old_fields = char_views(fields@);
    let done = cur;
    fields.push(done);
    assert(char_views(fields@) =~= old_fields.push(done@));
    Ok(fields)
}

/// Splits one CSV line into its fields (see `csv_scan`); `line_no` is the
/// line's number, used in the error.
pub fn parse_csv_fields(line: &str, line_no: usize) -> (r: Result<Vec<String>, LexiconError>)
    ensures
        match csv_fields(line@) {
            Ok(fields) => r matches Ok(v) && string_views(v@) == fields,
            Err(f) => r == Err::<Vec<String>, LexiconError>(csv_fault_error(f, line_no)),
        },
{
    let s = chars_of(line);
    match split_csv_line(&s) {
        Ok(fields) => Ok(strings_of(&fields)),
        Err(CsvFault::UnexpectedQuote) => Err(LexiconError::CsvUnexpectedQuote { line: line_no }),
        Err(CsvFault::UnterminatedQuote) => Err(LexiconError::CsvUnterminatedQuote { line: line_no }),
    }
}

/// A lexicon entry as plain text: Roman key, Khmer target.
pub open spec fn pair_views(v: Seq<(String, String)>) -> Seq<(Seq<char>, Seq<char>)> {
    v.map_values(|x: (String, String)| (x.0@, x.1@))
}

/// Whether the line is empty once white space is trimmed.
pub open spec fn is_blank(line: Seq<char>) -> bool {
    trim(line).len() == 0
}

fn blank(line: &Vec<char>) -> (b: bool)
    ensures
        b == is_blank(line@),
{
    let (a, z) = crate::text::trim_bounds(line, 0, line.len());
    assert(line@.subrange(0, line@.len() as int) =~= line@);
    a == z
}

/// The entries of the TSV lines `ls` from line `i` on: blank lines are
/// skipped, every other line splits at its first tab into key and target,
/// and the first line without a tab is refused.
pub open spec fn tsv_from(ls: Seq<Seq<char>>, i: int) -> Result<Seq<(Seq<char>, Seq<char>)>, LexiconError>
    decreases ls.len() - i,
{
    if i < 0 || i >= ls.len() {
        Ok(Seq::empty())
    } else if is_blank(ls[i]) {
        tsv_from(ls, i + 1)
    } else {
        match crate::text::first_index_of(ls[i], '\t') {
            None => Err(LexiconError::TsvMissingTab { line: (i + 1) as usize }),
            Some(t) => match tsv_from(ls, i + 1) {
                Ok(rest) => Ok(seq![(ls[i].take(t), ls[i].skip(t + 1))] + rest),
                Err(e) => Err(e),
            },
        }
    }
}

/// The entries of a TSV lexicon source.
pub open spec fn tsv_entries(source: Seq<char>) -> Result<Seq<(Seq<char>, Seq<char>)>, LexiconError> {
    tsv_from(lines(source), 0)
}

/// The entries `acc` gathered so far followed by those from line `i` on.
pub open spec fn then_from(
    acc: Seq<(Seq<char>, Seq<char>)>,
    rest: Result<Seq<(Seq<char>, Seq<char>)>, LexiconError>,
) -> Result<Seq<(Seq<char>, Seq<char>)>, LexiconError> {
    match rest {
        Ok(r) => Ok(acc + r),
        Err(e) => Err(e),
    }
}

fn pair_of(a: &Vec<char>, b: &Vec<char>) -> (p: (String, String))
    ensures
        p.0@ == a@,
        p.1@ == b@,
{
    (string_from_chars(a), string_from_chars(b))
}

/// Parses a TSV lexicon source (see `tsv_from`).
pub fn parse_tsv_entries(source: &str) -> (r: Result<Vec<(String, String)>, LexiconError>)
    ensures
        match tsv_entries(source@) {
            Ok(es) => r matches Ok(v) && pair_views(v@) == es,
            Err(e) => r == Err::<Vec<(String, String)>, LexiconError>(e),
        },
{
    let text = chars_of(source);
    let ls = lines_of(&text);
    let ghost lv = char_views(ls@);
    let mut out: Vec<(String, String)> = Vec::new();
    let mut i: usize = 0;
    assert(pair_views(out@) =~= Seq::<(Seq<char>, Seq<char>)>::empty());
    assert(then_from(pair_views(out@), tsv_from(lv, 0)) =~= tsv_from(lv, 0)) by {
        match tsv_from(lv, 0) {
            Ok(r) => { assert(Seq::<(Seq<char>, Seq<char>)>::empty() + r =~= r); },
            Err(e) => {},
        }
    }
    while i < ls.len()
        invariant
            i <= ls@.len(),
            lv == char_views(ls@),
            lv == lines(text@),
            text@ == source@,
            tsv_entries(source@) == then_from(pair_views(out@), tsv_from(lv, i as int)),
        decreases ls@.len() - i,
    {
        let line = &ls[i];
        assert(lv[i as int] == line@);
        if !blank(line) {
            match crate::text::find_char(line, 0, line.len(), '\t') {
                None => {
                    assert(line@.subrange(0, line@.len() as int) =~= line@);
                    return Err(LexiconError::TsvMissingTab { line: i + 1 });
                },
                Some(t) => {
                    assert(line@.subrange(0, line@.len() as int) =~= line@);
                    let key = crate::text::slice_to_vec(line, 0, t);
                    let target = crate::text::slice_to_vec(line, t + 1, line.len());
                    let ghost before = pair_views(out@);
                    out.push(pair_of(&key, &target));
                    proof {
                        let e = (line@.take(t as int), line@.skip(t + 1));
                        assert(key@ =~= e.0);
                        assert(target@ =~= e.1);
                        assert(pair_views(out@) =~= before.push(e));
                        match tsv_from(lv, i + 1) {
                            Ok(r) => {
                                assert(before + (seq![e] + r) =~= before.push(e) + r);
                            },
                            Err(_) => {},
                        }
                    }
                },
            }
        }
        i = i + 1;
    }
    proof {
        assert(pair_views(out@) + Seq::<(Seq<char>, Seq<char>)>::empty() =~= pair_views(out@));
    }
    Ok(out)
}

/// `s` without its leading byte-order marks, as
/// `trim_start_matches('\u{feff}')` leaves it.
pub open spec fn strip_boms(s: Seq<char>) -> Seq<char>
    decreases s.len(),
{
    if s.len() > 0 && s[0] == '\u{feff}' {
        strip_boms(s.drop_first())
    } else {
        s
    }
}

/// The code of `c` with ASCII capitals lowered.
pub open spec fn ascii_lower_code(c: char) -> int {
    if 65 <= (c as int) <= 90 {
        (c as int) + 32
    } else {
        c as int
    }
}

/// Whether `a` and `b` are equal ignoring ASCII case, as
/// `eq_ignore_ascii_case` compares them.
pub open spec fn ascii_ieq(a: Seq<char>, b: Seq<char>) -> bool {
    a.len() == b.len() && forall|k: int| 0 <= k < a.len() ==> ascii_lower_code(#[trigger] a[k]) == ascii_lower_code(
        b[k],
    )
}

/// The header row's first column, `roman`.
pub open spec fn roman_header() -> Seq<char> {
    seq!['r', 'o', 'm', 'a', 'n']
}

/// The header row's second column, `target`.
pub open spec fn target_header() -> Seq<char> {
    seq!['t', 'a', 'r', 'g', 'e', 't']
}

/// The entries of the CSV lines `ls` from line `i` on. Blank lines are
/// skipped; every other line must split into exactly two fields. The first
/// line's key loses its byte-order marks, and the first non-blank row is
/// dropped when it reads `roman,target` in any ASCII case.
pub open spec fn csv_from(ls: Seq<Seq<char>>, i: int, first_row: bool) -> Result<
    Seq<(Seq<char>, Seq<char>)>,
    LexiconError,
>
    decreases ls.len() - i,
{
    if i < 0 || i >= ls.len() {
        Ok(Seq::empty())
    } else if is_blank(ls[i]) {
        csv_from(ls, i + 1, first_row)
    } else {
        match csv_fields(ls[i]) {
            Err(f) => Err(csv_fault_error(f, (i + 1) as usize)),
            Ok(fields) => if fields.len() != 2 {
                Err(LexiconError::CsvColumnCount { line: (i + 1) as usize, got: fields.len() as usize })
            } else {
                let key = if i == 0 {
                    strip_boms(fields[0])
                } else {
                    fields[0]
                };
                if first_row && ascii_ieq(trim(key), roman_header()) && ascii_ieq(trim(fields[1]), target_header()) {
                    csv_from(ls, i + 1, false)
                } else {
                    match csv_from(ls, i + 1, false) {
                        Ok(rest) => Ok(seq![(key, fields[1])] + rest),
                        Err(e) => Err(e),
                    }
                }
            },
        }
    }
}

/// The entries of a CSV lexicon source.
pub open spec fn csv_entries(source: Seq<char>) -> Result<Seq<(Seq<char>, Seq<char>)>, LexiconError> {
    csv_from(lines(source), 0, true)
}

fn lower_code(c: char) -> (u: u32)
    ensures
        u == ascii_lower_code(c),
{
    let u = c as u32;
    if 65 <= u && u <= 90 {
        u + 32
    } else {
        u
    }
}

fn ascii_ieq_exec(a: &[char], b: &[char]) -> (r: bool)
    ensures
        r == ascii_ieq(a@, b@),
{
    if a.len() != b.len() {
        return false;
    }
    let mut k: usize = 0;
    while k < a.len()
        invariant
            k <= a@.len(),
            a@.len() == b@.len(),
            forall|j: int| 0 <= j < k ==> ascii_lower_code(#[trigger] a@[j]) == ascii_lower_code(b@[j]),
        decreases a@.len() - k,
    {
        if lower_code(a[k]) != lower_code(b[k]) {
            return false;
        }
        k = k + 1;
    }
    true
}

fn without_boms(s: &Vec<char>) -> (out: Vec<char>)
    ensures
        out@ == strip_boms(s@),
{
    let mut i: usize = 0;
    assert(s@.skip(0) =~= s@);
    while i < s.len() && s[i] == '\u{feff}'
        invariant
            i <= s@.len(),
            strip_boms(s@) == strip_boms(s@.skip(i as int)),
        decreases s@.len() - i,
    {
        assert(s@.skip(i as int).drop_first() =~= s@.skip(i + 1));
        i = i + 1;
    }
    assert(s@.skip(i as int) =~= s@.subrange(i as int, s@.len() as int));
    crate::text::slice_to_vec(s, i, s.len())
}

/// Parses a CSV lexicon source (see `csv_from`).
pub fn parse_csv_entries(source: &str) -> (r: Result<Vec<(String, String)>, LexiconError>)
    ensures
        match csv_entries(source@) {
            Ok(es) => r matches Ok(v) && pair_views(v@) == es,
            Err(e) => r == Err::<Vec<(String, String)>, LexiconError>(e),
        },
{
    let text = chars_of(source);
    let ls = lines_of(&text);
    let ghost lv = char_views(ls@);
    let roman: Vec<char> = vec!['r', 'o', 'm', 'a', 'n'];
    let target: Vec<char> = vec!['t', 'a', 'r', 'g', 'e', 't'];
    assert(roman@ =~= roman_header());
    assert(target@ =~= target_header());
    let mut out: Vec<(String, String)> = Vec::new();
    let mut first_row = true;
    let mut i: usize = 0;
    assert(pair_views(out@) =~= Seq::<(Seq<char>, Seq<char>)>::empty());
    assert(then_from(pair_views(out@), csv_from(lv, 0, true)) =~= csv_from(lv, 0, true)) by {
        match csv_from(lv, 0, true) {
            Ok(r) => { assert(Seq::<(Seq<char>, Seq<char>)>::empty() + r =~= r); },
            Err(e) => {},
        }
    }
    while i < ls.len()
        invariant
            i <= ls@.len(),
            lv == char_views(ls@),
            lv == lines(text@),
            text@ == source@,
            roman@ == roman_header(),
            target@ == target_header(),
            csv_entries(source@) == then_from(pair_views(out@), csv_from(lv, i as int, first_row)),
        decreases ls@.len() - i,
    {
        let line = &ls[i];
        assert(lv[i as int] == line@);
        if !blank(line) {
            let fields = match split_csv_line(line) {
                Ok(f) => f,
                Err(CsvFault::UnexpectedQuote) => {
                    return Err(LexiconError::CsvUnexpectedQuote { line: i + 1 });
                },
                Err(CsvFault::UnterminatedQuote) => {
                    return Err(LexiconError::CsvUnterminatedQuote { line: i + 1 });
                },
            };
            if fields.len() != 2 {
                return Err(LexiconError::CsvColumnCount { line: i + 1, got: fields.len() });
            }
            let key = if i == 0 {
                without_boms(&fields[0])
            } else {
                crate::text::slice_to_vec(&fields[0], 0, fields[0].len())
            };
            assert(fields[0]@.subrange(0, fields[0]@.len() as int) =~= fields[0]@);
            let value = &fields[1];
            let is_header = first_row && ascii_ieq_exec(&trimmed(&key), &roman) && ascii_ieq_exec(
                &trimmed(value),
                &target,
            );
            first_row = false;
            if !is_header {
                let ghost before = pair_views(out@);
                out.push(pair_of(&key, value));
                proof {
                    let e = (key@, value@);
                    assert(pair_views(out@) =~= before.push(e));
                    match csv_from(lv, i + 1, false) {
                        Ok(r) => {
                            assert(before + (seq![e] + r) =~= before.push(e) + r);
                        },
                        Err(_) => {},
                    }
                }
            }
        }
        i = i + 1;
    }
    proof {
        assert(pair_views(out@) + Seq::<(Seq<char>, Seq<char>)>::empty() =~= pair_views(out@));
    }
    Ok(out)
}

/// The entries of a lexicon source in the given format.
pub open spec fn lexicon_entries(source: Seq<char>, format: LexiconSourceFormat) -> Result<
    Seq<(Seq<char>, Seq<char>)>,
    LexiconError,
> {
    match format {
        LexiconSourceFormat::Csv => csv_entries(source),
        LexiconSourceFormat::Tsv => tsv_entries(source),
    }
}

/// Parses a lexicon source in the given format.
pub fn parse_lexicon_entries(source: &str, format: LexiconSourceFormat) -> (r: Result<
    Vec<(String, String)>,
    LexiconError,
>)
    ensures
        match lexicon_entries(source@, format) {
            Ok(es) => r matches Ok(v) && pair_views(v@) == es,
            Err(e) => r == Err::<Vec<(String, String)>, LexiconError>(e),
        },
{
    match format {
        LexiconSourceFormat::Csv => parse_csv_entries(source),
        LexiconSourceFormat::Tsv => parse_tsv_entries(source),
    }
}

/// The four bytes `RLX1` that open a compiled lexicon.
pub open spec fn lexicon_magic() -> Seq<u8> {
    seq![82u8, 76u8, 88u8, 49u8]
}

/// Whether an entry holds a NUL character.
pub open spec fn entry_has_nul(e: (Seq<char>, Seq<char>)) -> bool {
    e.0.contains('\0') || e.1.contains('\0')
}

/// An entry as stored: the UTF-8 of key and target, each ended by a zero
/// byte.
pub open spec fn entry_bytes(e: (Seq<char>, Seq<char>)) -> Seq<u8> {
    encode_utf8(e.0) + seq![0u8] + encode_utf8(e.1) + seq![0u8]
}

/// The stored entries from entry `i` on, or the first entry holding NUL.
pub open spec fn lexicon_body(es: Seq<(Seq<char>, Seq<char>)>, i: int) -> Result<Seq<u8>, LexiconError>
    decreases es.len() - i,
{
    if i < 0 || i >= es.len() {
        Ok(Seq::empty())
    } else if entry_has_nul(es[i]) {
        Err(LexiconError::NulByte { entry: (i + 1) as usize })
    } else {
        match lexicon_body(es, i + 1) {
            Ok(rest) => Ok(entry_bytes(es[i]) + rest),
            Err(e) => Err(e),
        }
    }
}

/// The compiled lexicon: magic, the entry count as a little-endian `u32`
/// (the count taken modulo 2^32, as the cast does), then the entries.
pub open spec fn lexicon_binary(es: Seq<(Seq<char>, Seq<char>)>) -> Result<Seq<u8>, LexiconError> {
    match lexicon_body(es, 0) {
        Ok(body) => Ok(lexicon_magic() + spec_u32_to_le_bytes(es.len() as u32) + body),
        Err(e) => Err(e),
    }
}

/// The compiled form of a lexicon source, or why it was refused.
pub open spec fn compiled_lexicon(source: Seq<char>, format: LexiconSourceFormat) -> Result<Seq<u8>, LexiconError> {
    match lexicon_entries(source, format) {
        Ok(es) => lexicon_binary(es),
        Err(e) => Err(e),
    }
}

fn append_bytes(out: &mut Vec<u8>, more: &[u8])
    ensures
        final(out)@ == old(out)@ + more@,
{
    let ghost start = out@;
    let mut i: usize = 0;
    while i < more.len()
        invariant
            i <= more@.len(),
            out@ == start + more@.take(i as int),
        decreases more@.len() - i,
    {
        out.push(more[i]);
        i = i + 1;
        assert(out@ =~= start + more@.take(i as int));
    }
    assert(more@.take(i as int) =~= more@);
}

/// Appends the UTF-8 encoding of `s` and a zero byte.
fn append_text(out: &mut Vec<u8>, s: &String)
    ensures
        final(out)@ == old(out)@ + encode_utf8(s@) + seq![0u8],
{
    append_bytes(out, s.as_str().as_bytes());
    out.push(0u8);
}

fn holds_nul(s: &String) -> (b: bool)
    ensures
        b == s@.contains('\0'),
{
    let cs = chars_of(s.as_str());
    let mut i: usize = 0;
    while i < cs.len()
        invariant
            i <= cs@.len(),
            cs@ == s@,
            forall|k: int| 0 <= k < i ==> cs@[k] != '\0',
        decreases cs@.len() - i,
    {
        if cs[i] == '\0' {
            return true;
        }
        i = i + 1;
    }
    false
}

/// Compiles parsed entries to the `RLX1` binary (see `lexicon_binary`).
pub fn encode_lexicon(entries: &Vec<(String, String)>) -> (r: Result<Vec<u8>, LexiconError>)
    ensures
        match lexicon_binary(pair_views(entries@)) {
            Ok(b) => r matches Ok(v) && v@ == b,
            Err(e) => r == Err::<Vec<u8>, LexiconError>(e),
        },
{
    let ghost es = pair_views(entries@);
    let mut output: Vec<u8> = Vec::new();
    output.push(82u8);
    output.push(76u8);
    output.push(88u8);
    output.push(49u8);
    let count = u32_to_le_bytes(entries.len() as u32);
    append_bytes(&mut output, count.as_slice());
    let ghost head = lexicon_magic() + spec_u32_to_le_bytes(entries.len() as u32);
    assert(output@ =~= head);
    let mut i: usize = 0;
    while i < entries.len()
        invariant
            i <= entries@.len(),
            es == pair_views(entries@),
            lexicon_binary(es) == match lexicon_body(es, i as int) {
                Ok(rest) => Ok(output@ + rest),
                Err(e) => Err::<Seq<u8>, LexiconError>(e),
            },
        decreases entries@.len() - i,
    {
        let e = &entries[i];
        assert(es[i as int] == (e.0@, e.1@));
        if holds_nul(&e.0) || holds_nul(&e.1) {
            return Err(LexiconError::NulByte { entry: i + 1 });
        }
        let ghost before = output@;
        append_text(&mut output, &e.0);
        append_text(&mut output, &e.1);
        proof {
            assert(output@ =~= before + entry_bytes(es[i as int]));
            match lexicon_body(es, i + 1) {
                Ok(rest) => {
                    assert(before + (entry_bytes(es[i as int]) + rest) =~= output@ + rest);
                },
                Err(_) => {},
            }
        }
        i = i + 1;
    }
    assert(output@ + Seq::<u8>::empty() =~= output@);
    Ok(output)
}

/// Compiles a lexicon source to the `RLX1` binary (see `compiled_lexicon`).
pub fn compile_lexicon(source: &str, format: LexiconSourceFormat) -> (r: Result<Vec<u8>, LexiconError>)
    ensures
        match compiled_lexicon(source@, format) {
            Ok(b) => r matches Ok(v) && v@ == b,
            Err(e) => r == Err::<Vec<u8>, LexiconError>(e),
        },
{
    match parse_lexicon_entries(source, format) {
        Ok(entries) => encode_lexicon(&entries),
        Err(e) => Err(e),
    }
}

/// `f` with every quote doubled, as it stands between the quotes of a
/// quoted CSV field.
pub open spec fn csv_escape(f: Seq<char>) -> Seq<char>
    decreases f.len(),
{
    if f.len() == 0 {
        Seq::empty()
    } else {
        (if f[0] == '"' {
            seq!['"', '"']
        } else {
            seq![f[0]]
        }) + csv_escape(f.drop_first())
    }
}

/// A field as written in a CSV row: quoted and escaped, or as it is.
pub open spec fn csv_cell(f: Seq<char>, quoted: bool) -> Seq<char> {
    if quoted {
        seq!['"'] + csv_escape(f) + seq!['"']
    } else {
        f
    }
}

/// A CSV row: the fields written as cells, separated by commas.
pub open spec fn csv_row(fs: Seq<Seq<char>>, quoted: bool) -> Seq<char> {
    join_with(fs.map_values(|f: Seq<char>| csv_cell(f, quoted)), seq![','])
}

/// A field that can be written without quotes: it holds no comma and no
/// quote.
pub open spec fn plain_field(f: Seq<char>) -> bool {
    forall|k: int| 0 <= k < f.len() ==> f[k] != ',' && f[k] != '"'
}

proof fn lemma_plain_run(s: Seq<char>, i: int, j: int, fields: Seq<Seq<char>>, cur: Seq<char>)
    requires
        0 <= i <= j <= s.len(),
        forall|k: int| i <= k < j ==> s[k] != ',' && s[k] != '"',
    ensures
        csv_scan(s, i, fields, cur, false) == csv_scan(s, j, fields, cur + s.subrange(i, j), false),
    decreases j - i,
{
    if i == j {
        assert(cur + s.subrange(i, j) =~= cur);
    } else {
        lemma_plain_run(s, i + 1, j, fields, cur.push(s[i]));
        assert(cur.push(s[i]) + s.subrange(i + 1, j) =~= cur + s.subrange(i, j));
    }
}

proof fn lemma_escape_len(f: Seq<char>)
    ensures
        csv_escape(f).len() >= f.len(),
    decreases f.len(),
{
    if f.len() > 0 {
        lemma_escape_len(f.drop_first());
    }
}

proof fn lemma_quoted_run(s: Seq<char>, i: int, f: Seq<char>, fields: Seq<Seq<char>>, cur: Seq<char>)
    requires
        0 <= i,
        i + csv_escape(f).len() <= s.len(),
        s.subrange(i, i + csv_escape(f).len()) == csv_escape(f),
    ensures
        csv_scan(s, i, fields, cur, true) == csv_scan(s, i + csv_escape(f).len(), fields, cur + f, true),
    decreases f.len(),
{
    let e = csv_escape(f);
    if f.len() == 0 {
        assert(cur + f =~= cur);
    } else {
        let rest = f.drop_first();
        let er = csv_escape(rest);
        let head: Seq<char> = if f[0] == '"' {
            seq!['"', '"']
        } else {
            seq![f[0]]
        };
        assert(e == head + er);
        assert(s[i] == e[0]);
        assert(s.subrange(i + head.len(), i + e.len()) =~= er) by {
            assert forall|k: int| 0 <= k < er.len() implies s.subrange(i + head.len(), i + e.len())[k] == er[k] by {
                assert(s.subrange(i, i + e.len())[head.len() + k] == e[head.len() + k]);
            }
        }
        if f[0] == '"' {
            assert(s[i + 1] == e[1]);
        }
        lemma_quoted_run(s, i + head.len(), rest, fields, cur.push(f[0]));
        assert(cur.push(f[0]) + rest =~= cur + f);
    }
}

proof fn lemma_cell(s: Seq<char>, i: int, f: Seq<char>, quoted: bool, fields: Seq<Seq<char>>)
    requires
        0 <= i,
        i + csv_cell(f, quoted).len() <= s.len(),
        s.subrange(i, i + csv_cell(f, quoted).len()) == csv_cell(f, quoted),
        i + csv_cell(f, quoted).len() == s.len() || s[i + csv_cell(f, quoted).len()] == ',',
        !quoted ==> plain_field(f),
    ensures
        csv_scan(s, i, fields, Seq::empty(), false) == csv_scan(s, i + csv_cell(f, quoted).len(), fields, f, false),
{
    let c = csv_cell(f, quoted);
    if quoted {
        let e = csv_escape(f);
        assert(c =~= seq!['"'] + e + seq!['"']);
        assert(s[i] == c[0]);
        assert(s.subrange(i + 1, i + 1 + e.len()) =~= e) by {
            assert forall|k: int| 0 <= k < e.len() implies s.subrange(i + 1, i + 1 + e.len())[k] == e[k] by {
                assert(s.subrange(i, i + c.len())[1 + k] == c[1 + k]);
            }
        }
        lemma_quoted_run(s, i + 1, f, fields, Seq::empty());
        assert(Seq::<char>::empty() + f =~= f);
        assert(s[i + 1 + e.len()] == c[1 + e.len() as int]);
    } else {
        assert forall|k: int| i <= k < i + f.len() implies s[k] != ',' && s[k] != '"' by {
            assert(s.subrange(i, i + f.len())[k - i] == f[k - i]);
        }
        lemma_plain_run(s, i, i + f.len(), fields, Seq::empty());
        assert(Seq::<char>::empty() + s.subrange(i, i + f.len()) =~= f);
    }
}

proof fn lemma_join_step(parts: Seq<Seq<char>>, k: int)
    requires
        2 <= k <= parts.len(),
    ensures
        join_with(parts.take(k), seq![',']) == join_with(parts.take(k - 1), seq![',']) + seq![','] + parts[k - 1],
{
    assert(parts.take(k).drop_last() =~= parts.take(k - 1));
}

proof fn lemma_row_prefix(fs: Seq<Seq<char>>, quoted: bool, k: int, t: Seq<char>)
    requires
        1 <= k <= fs.len(),
        !quoted ==> forall|q: int| 0 <= q < fs.len() ==> plain_field(#[trigger] fs[q]),
        t.len() == 0 || t[0] == ',',
    ensures
        ({
            let cells = fs.map_values(|f: Seq<char>| csv_cell(f, quoted));
            let p = join_with(cells.take(k), seq![',']);
            csv_scan(p + t, 0, Seq::empty(), Seq::empty(), false) == csv_scan(p + t, p.len() as int, fs.take(k - 1), fs[k - 1], false)
        }),
    decreases k,
{
    let cells = fs.map_values(|f: Seq<char>| csv_cell(f, quoted));
    let p = join_with(cells.take(k), seq![',']);
    let s = p + t;
    let c = cells[k - 1];
    assert(c == csv_cell(fs[k - 1], quoted));
    if k == 1 {
        assert(p == cells.take(1)[0]);
        assert(s.subrange(0, c.len() as int) =~= c);
        lemma_cell(s, 0, fs[0], quoted, Seq::empty());
        assert(fs.take(0) =~= Seq::<Seq<char>>::empty());
    } else {
        lemma_join_step(cells, k);
        let q = join_with(cells.take(k - 1), seq![',']);
        let ql = q.len() as int;
        let t2 = seq![','] + c + t;
        assert(s =~= q + t2);
        lemma_row_prefix(fs, quoted, k - 1, t2);
        assert(s[q.len() as int] == ',');
        assert(csv_scan(s, q.len() as int, fs.take(k - 2), fs[k - 2], false) == csv_scan(
            s,
            ql + 1,
            fs.take(k - 2).push(fs[k - 2]),
            Seq::empty(),
            false,
        ));
        assert(fs.take(k - 2).push(fs[k - 2]) =~= fs.take(k - 1));
        assert(s.subrange(ql + 1, ql + 1 + c.len()) =~= c);
        lemma_cell(s, ql + 1, fs[k - 1], quoted, fs.take(k - 1));
    }
}

/// A CSV row written from its fields parses back to exactly those fields:
/// when every field is quoted with its quotes doubled, whatever the fields
/// hold, and when no field is quoted, as long as none holds a comma or a
/// quote.
pub proof fn law_csv_row_round_trip(fs: Seq<Seq<char>>, quoted: bool)
    requires
        fs.len() >= 1,
        !quoted ==> forall|q: int| 0 <= q < fs.len() ==> plain_field(#[trigger] fs[q]),
    ensures
        csv_fields(csv_row(fs, quoted)) == Ok::<Seq<Seq<char>>, CsvFault>(fs),
{
    let cells = fs.map_values(|f: Seq<char>| csv_cell(f, quoted));
    let n = fs.len() as int;
    assert(cells.take(n) =~= cells);
    let p = join_with(cells, seq![',']);
    lemma_row_prefix(fs, quoted, n, Seq::empty());
    assert(p + Seq::<char>::empty() =~= p);
    assert(fs.take(n - 1).push(fs[n - 1]) =~= fs);
}

/// An entry written as a TSV line: key, tab, target.
pub open spec fn tsv_row(e: (Seq<char>, Seq<char>)) -> Seq<char> {
    e.0 + seq!['\t'] + e.1
}

/// An entry that a TSV line carries unchanged: the key holds no tab,
/// neither side a line feed, the target does not end with a carriage
/// return, and the line is not blank.
pub open spec fn tsv_storable(e: (Seq<char>, Seq<char>)) -> bool {
    &&& !e.0.contains('\t')
    &&& !e.0.contains('\n')
    &&& !e.1.contains('\n')
    &&& (e.1.len() == 0 || e.1.last() != '\r')
    &&& !is_blank(tsv_row(e))
}

proof fn lemma_tsv_rows(es: Seq<(Seq<char>, Seq<char>)>, i: int)
    requires
        0 <= i <= es.len(),
        forall|j: int| 0 <= j < es.len() ==> tsv_storable(#[trigger] es[j]),
    ensures
        tsv_from(es.map_values(|e: (Seq<char>, Seq<char>)| tsv_row(e)), i) == Ok::<
            Seq<(Seq<char>, Seq<char>)>,
            LexiconError,
        >(es.skip(i)),
    decreases es.len() - i,
{
    let rows = es.map_values(|e: (Seq<char>, Seq<char>)| tsv_row(e));
    if i == es.len() {
        assert(es.skip(i) =~= Seq::<(Seq<char>, Seq<char>)>::empty());
    } else {
        lemma_tsv_rows(es, i + 1);
        let e = es[i];
        assert(tsv_storable(e));
        let row = rows[i];
        assert(row == tsv_row(e));
        assert forall|q: int| 0 <= q < e.0.len() implies row[q] != '\t' by {
            assert(row[q] == e.0[q]);
        }
        crate::text::lemma_first_index_of(row, '\t', e.0.len() as int);
        assert(row.take(e.0.len() as int) =~= e.0);
        assert(row.skip(e.0.len() as int + 1) =~= e.1);
        assert(es.skip(i) =~= seq![e] + es.skip(i + 1));
    }
}

/// Entries written one per TSV line parse back to exactly those entries,
/// as long as each line carries its entry unchanged (see `tsv_storable`).
pub proof fn law_tsv_round_trip(es: Seq<(Seq<char>, Seq<char>)>)
    requires
        forall|j: int| 0 <= j < es.len() ==> tsv_storable(#[trigger] es[j]),
    ensures
        tsv_entries(join_with(es.map_values(|e: (Seq<char>, Seq<char>)| tsv_row(e)), seq!['\n'])) == Ok::<
            Seq<(Seq<char>, Seq<char>)>,
            LexiconError,
        >(es),
{
    let rows = es.map_values(|e: (Seq<char>, Seq<char>)| tsv_row(e));
    assert forall|j: int| 0 <= j < rows.len() implies !(#[trigger] rows[j]).contains('\n') && rows[j].len() > 0
        && rows[j].last() != '\r' by {
        let e = es[j];
        assert(tsv_storable(e));
        let row = tsv_row(e);
        assert(rows[j] == row);
        assert(row[e.0.len() as int] == '\t');
        assert forall|q: int| 0 <= q < row.len() implies row[q] != '\n' by {
            if q < e.0.len() {
                assert(row[q] == e.0[q]);
            } else if q > e.0.len() {
                assert(row[q] == e.1[q - e.0.len() - 1]);
            }
        }
        if e.1.len() > 0 {
            assert(row.last() == e.1.last());
        }
    }
    crate::text::lemma_lines_of_rows(rows);
    lemma_tsv_rows(es, 0);
    assert(es.skip(0) =~= es);
}

} // verus!
