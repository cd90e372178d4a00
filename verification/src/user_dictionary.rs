//! The user's own Roman-to-Khmer pairs: a map from a Roman key to the
//! Khmer spellings saved for it, edited from the add-pair dialog and kept in
//! browser storage as `key<TAB>spelling` rows.

use vstd::prelude::*;
use crate::text::{
    chars_eq, chars_of, chars_order, char_views, first_index_of, join_chars, join_with, lines, lines_of, slice_to_vec,
    sort_char_seqs, string_from_chars, trim, trimmed,
};
use vstd::relations::*;
use crate::lexicon_source::string_views;

verus! {

/// One pair entered in the add-pair dialog.
#[derive(Clone, Debug, PartialEq, Eq)]
pub struct ManualSaveRequest {
    pub roman: String,
    pub khmer: String,
}

/// The saved pairs: each Roman key once, with its Khmer spellings in the
/// order they are offered.
pub struct UserDictionary {
    entries: Vec<(String, Vec<String>)>,
}

/// The map the entries stand for.
pub open spec fn entries_map(es: Seq<(String, Vec<String>)>) -> Map<Seq<char>, Seq<Seq<char>>>
    decreases es.len(),
{
    if es.len() == 0 {
        Map::empty()
    } else {
        entries_map(es.drop_last()).insert(es.last().0@, string_views(es.last().1@))
    }
}

/// No Roman key occurs twice.
pub open spec fn distinct_keys(es: Seq<(String, Vec<String>)>) -> bool {
    forall|i: int, j: int| 0 <= i < j < es.len() ==> (#[trigger] es[i]).0@ != (#[trigger] es[j]).0@
}

proof fn lemma_entries_map_lookup(es: Seq<(String, Vec<String>)>)
    requires
        distinct_keys(es),
    ensures
        forall|i: int| 0 <= i < es.len() ==> entries_map(es).contains_key((#[trigger] es[i]).0@) && entries_map(es)[es[i].0@]
            == string_views(es[i].1@),
        forall|k: Seq<char>| entries_map(es).contains_key(k) ==> exists|i: int| 0 <= i < es.len() && (#[trigger] es[i]).0@ == k,
        entries_map(es).dom().finite(),
    decreases es.len(),
{
    if es.len() > 0 {
        let p = es.drop_last();
        assert(distinct_keys(p)) by {
            assert forall|i: int, j: int| 0 <= i < j < p.len() implies (#[trigger] p[i]).0@ != (#[trigger] p[j]).0@ by {
                assert(p[i] == es[i] && p[j] == es[j]);
            }
        }
        lemma_entries_map_lookup(p);
        assert forall|i: int| 0 <= i < es.len() implies entries_map(es).contains_key((#[trigger] es[i]).0@)
            && entries_map(es)[es[i].0@] == string_views(es[i].1@) by {
            if i < es.len() - 1 {
                assert(p[i] == es[i]);
                assert(es[i].0@ != es[es.len() - 1].0@);
            }
        }
        assert forall|k: Seq<char>| entries_map(es).contains_key(k) implies exists|i: int| 0 <= i < es.len() && (#[trigger] es[i]).0@ == k by {
            if k != es.last().0@ {
                let i = choose|i: int| 0 <= i < p.len() && (#[trigger] p[i]).0@ == k;
                assert(es[i] == p[i]);
            } else {
                assert(es[es.len() - 1].0@ == k);
            }
        }
    }
}

proof fn lemma_entries_map_absent(es: Seq<(String, Vec<String>)>, k: Seq<char>)
    requires
        forall|i: int| 0 <= i < es.len() ==> (#[trigger] es[i]).0@ != k,
    ensures
        !entries_map(es).contains_key(k),
    decreases es.len(),
{
    if es.len() > 0 {
        let p = es.drop_last();
        assert forall|i: int| 0 <= i < p.len() implies (#[trigger] p[i]).0@ != k by {
            assert(p[i] == es[i]);
        }
        lemma_entries_map_absent(p, k);
        assert(es[es.len() - 1].0@ != k);
    }
}

proof fn lemma_entries_map_update(es: Seq<(String, Vec<String>)>, i: int, e: (String, Vec<String>))
    requires
        distinct_keys(es),
        0 <= i < es.len(),
        e.0@ == es[i].0@,
    ensures
        entries_map(es.update(i, e)) == entries_map(es).insert(e.0@, string_views(e.1@)),
        distinct_keys(es.update(i, e)),
    decreases es.len(),
{
    let u = es.update(i, e);
    assert(distinct_keys(u)) by {
        assert forall|a: int, b: int| 0 <= a < b < u.len() implies (#[trigger] u[a]).0@ != (#[trigger] u[b]).0@ by {
            assert(u[a].0@ == es[a].0@);
            assert(u[b].0@ == es[b].0@);
        }
    }
    let p = es.drop_last();
    if i == es.len() - 1 {
        assert(u.drop_last() =~= p);
        assert(entries_map(u) =~= entries_map(es).insert(e.0@, string_views(e.1@)));
    } else {
        assert(distinct_keys(p)) by {
            assert forall|a: int, b: int| 0 <= a < b < p.len() implies (#[trigger] p[a]).0@ != (#[trigger] p[b]).0@ by {
                assert(p[a] == es[a] && p[b] == es[b]);
            }
        }
        lemma_entries_map_update(p, i, e);
        assert(u.drop_last() =~= p.update(i, e));
        assert(u.last() == es.last());
        assert(es[i].0@ != es.last().0@);
        assert(entries_map(u) =~= entries_map(es).insert(e.0@, string_views(e.1@)));
    }
}

proof fn lemma_entries_map_remove(es: Seq<(String, Vec<String>)>, i: int)
    requires
        distinct_keys(es),
        0 <= i < es.len(),
    ensures
        entries_map(es.remove(i)) == entries_map(es).remove(es[i].0@),
        distinct_keys(es.remove(i)),
    decreases es.len(),
{
    let k = es[i].0@;
    let u = es.remove(i);
    assert(distinct_keys(u)) by {
        assert forall|a: int, b: int| 0 <= a < b < u.len() implies (#[trigger] u[a]).0@ != (#[trigger] u[b]).0@ by {
            let a2 = if a < i { a } else { a + 1 };
            let b2 = if b < i { b } else { b + 1 };
            assert(u[a] == es[a2] && u[b] == es[b2]);
        }
    }
    let p = es.drop_last();
    assert(distinct_keys(p)) by {
        assert forall|a: int, b: int| 0 <= a < b < p.len() implies (#[trigger] p[a]).0@ != (#[trigger] p[b]).0@ by {
            assert(p[a] == es[a] && p[b] == es[b]);
        }
    }
    if i == es.len() - 1 {
        assert(u =~= p);
        assert forall|a: int| 0 <= a < p.len() implies (#[trigger] p[a]).0@ != k by {
            assert(p[a] == es[a]);
        }
        lemma_entries_map_absent(p, k);
        assert(entries_map(u) =~= entries_map(es).remove(k));
    } else {
        lemma_entries_map_remove(p, i);
        assert(u.drop_last() =~= p.remove(i));
        assert(u.last() == es.last());
        assert(es.last().0@ != k);
        assert(entries_map(u) =~= entries_map(es).remove(k));
    }
}

impl UserDictionary {
    /// The dictionary as a map from Roman key to spellings.
    pub closed spec fn view(&self) -> Map<Seq<char>, Seq<Seq<char>>> {
        entries_map(self.entries@)
    }

    /// Each key is held once.
    pub closed spec fn wf(&self) -> bool {
        distinct_keys(self.entries@)
    }

    /// An empty dictionary.
    pub fn new() -> (d: UserDictionary)
        ensures
            d.wf(),
            d.view() == Map::<Seq<char>, Seq<Seq<char>>>::empty(),
    {
        UserDictionary { entries: Vec::new() }
    }

    /// Where `key` is held.
    fn position(&self, key: &Vec<char>) -> (r: Option<usize>)
        requires
            self.wf(),
        ensures
            match r {
                Some(i) => i < self.entries@.len() && self.entries@[i as int].0@ == key@,
                None => !self.view().contains_key(key@),
            },
    {
        let mut i: usize = 0;
        while i < self.entries.len()
            invariant
                i <= self.entries@.len(),
                forall|j: int| 0 <= j < i ==> (#[trigger] self.entries@[j]).0@ != key@,
            decreases self.entries@.len() - i,
        {
            let k = chars_of(self.entries[i].0.as_str());
            if chars_eq(&k, key) {
                return Some(i);
            }
            i = i + 1;
        }
        proof {
            lemma_entries_map_absent(self.entries@, key@);
        }
        None
    }

    /// The spellings saved for `roman`, exactly as the key is written.
    pub fn get(&self, roman: &str) -> (r: Option<Vec<String>>)
        requires
            self.wf(),
        ensures
            match r {
                Some(v) => self.view().contains_key(roman@) && string_views(v@) == self.view()[roman@],
                None => !self.view().contains_key(roman@),
            },
    {
        let key = chars_of(roman);
        match self.position(&key) {
            Some(i) => {
                proof {
                    lemma_entries_map_lookup(self.entries@);
                }
                Some(copy_strings(&self.entries[i].1))
            },
            None => None,
        }
    }

    /// How many keys are held.
    pub fn len(&self) -> (n: usize)
        requires
            self.wf(),
        ensures
            n == self.view().dom().len(),
    {
        proof {
            lemma_entries_dom_len(self.entries@);
        }
        self.entries.len()
    }
}

proof fn lemma_entries_dom_len(es: Seq<(String, Vec<String>)>)
    requires
        distinct_keys(es),
    ensures
        entries_map(es).dom().len() == es.len(),
        entries_map(es).dom().finite(),
    decreases es.len(),
{
    if es.len() > 0 {
        let p = es.drop_last();
        assert(distinct_keys(p)) by {
            assert forall|a: int, b: int| 0 <= a < b < p.len() implies (#[trigger] p[a]).0@ != (#[trigger] p[b]).0@ by {
                assert(p[a] == es[a] && p[b] == es[b]);
            }
        }
        lemma_entries_dom_len(p);
        assert forall|a: int| 0 <= a < p.len() implies (#[trigger] p[a]).0@ != es.last().0@ by {
            assert(p[a] == es[a]);
        }
        lemma_entries_map_absent(p, es.last().0@);
    }
}

/// A copy of a list of strings.
pub fn copy_strings(v: &Vec<String>) -> (out: Vec<String>)
    ensures
        string_views(out@) == string_views(v@),
{
    let mut out: Vec<String> = Vec::new();
    let mut i: usize = 0;
    while i < v.len()
        invariant
            i <= v@.len(),
            string_views(out@) == string_views(v@).take(i as int),
        decreases v@.len() - i,
    {
        let ghost before = string_views(out@);
        let s = string_from_chars(&chars_of(v[i].as_str()));
        out.push(s);
        i = i + 1;
        assert(string_views(out@) =~= before.push(v@[i - 1]@));
        assert(string_views(v@).take(i as int) =~= string_views(v@).take(i - 1).push(v@[i - 1]@));
    }
    assert(string_views(v@).take(i as int) =~= string_views(v@));
    out
}

/// `c` with ASCII capitals lowered.
pub open spec fn ascii_lower(c: char) -> char {
    if 'A' <= c <= 'Z' {
        ((c as int) + 32) as char
    } else {
        c
    }
}

/// A Roman key as it is saved: trimmed and in ASCII lower case.
pub open spec fn normalized_key(raw: Seq<char>) -> Seq<char> {
    trim(raw).map_values(|c: char| ascii_lower(c))
}

fn lower_char(c: char) -> (r: char)
    ensures
        r == ascii_lower(c),
{
    if 'A' <= c && c <= 'Z' {
        let u = (c as u8) + 32;
        u as char
    } else {
        c
    }
}

fn normalized_chars(raw: &str) -> (out: Vec<char>)
    ensures
        out@ == normalized_key(raw@),
{
    let t = trimmed(&chars_of(raw));
    let mut out: Vec<char> = Vec::new();
    let mut i: usize = 0;
    while i < t.len()
        invariant
            i <= t@.len(),
            t@ == trim(raw@),
            out@ == t@.take(i as int).map_values(|c: char| ascii_lower(c)),
        decreases t@.len() - i,
    {
        out.push(lower_char(t[i]));
        i = i + 1;
        assert(out@ =~= t@.take(i as int).map_values(|c: char| ascii_lower(c)));
    }
    assert(t@.take(i as int) =~= t@);
    out
}

/// Normalizes a Roman key for saving (see `normalized_key`).
pub fn normalize_user_dictionary_key(raw: &str) -> (key: String)
    ensures
        key@ == normalized_key(raw@),
{
    string_from_chars(&normalized_chars(raw))
}

/// `vs` without any spelling equal to `x`.
pub open spec fn without(vs: Seq<Seq<char>>, x: Seq<char>) -> Seq<Seq<char>>
    decreases vs.len(),
{
    if vs.len() == 0 {
        Seq::empty()
    } else if vs.last() == x {
        without(vs.drop_last(), x)
    } else {
        without(vs.drop_last(), x).push(vs.last())
    }
}

fn without_exec(v: &Vec<String>, x: &Vec<char>) -> (out: Vec<String>)
    ensures
        string_views(out@) == without(string_views(v@), x@),
{
    let ghost sv = string_views(v@);
    let mut out: Vec<String> = Vec::new();
    let mut i: usize = 0;
    assert(string_views(out@) =~= without(sv.take(0), x@));
    while i < v.len()
        invariant
            i <= v@.len(),
            sv == string_views(v@),
            string_views(out@) == without(sv.take(i as int), x@),
        decreases v@.len() - i,
    {
        let cs = chars_of(v[i].as_str());
        assert(sv.take(i + 1).drop_last() =~= sv.take(i as int));
        assert(sv.take(i + 1).last() == cs@);
        if !chars_eq(&cs, x) {
            let ghost before = string_views(out@);
            out.push(string_from_chars(&cs));
            assert(string_views(out@) =~= before.push(cs@));
        }
        i = i + 1;
    }
    assert(sv.take(i as int) =~= sv);
    out
}

fn contains_exec(v: &Vec<String>, x: &Vec<char>) -> (b: bool)
    ensures
        b == string_views(v@).contains(x@),
{
    let ghost sv = string_views(v@);
    let mut i: usize = 0;
    while i < v.len()
        invariant
            i <= v@.len(),
            sv == string_views(v@),
            forall|j: int| 0 <= j < i ==> sv[j] != x@,
        decreases v@.len() - i,
    {
        let cs = chars_of(v[i].as_str());
        assert(sv[i as int] == cs@);
        if chars_eq(&cs, x) {
            return true;
        }
        i = i + 1;
    }
    false
}

/// The map after taking the spelling `khmer` away from `key`: the key goes
/// when no spelling is left.
pub open spec fn after_removing(m: Map<Seq<char>, Seq<Seq<char>>>, key: Seq<char>, khmer: Seq<char>) -> Map<
    Seq<char>,
    Seq<Seq<char>>,
> {
    if m.contains_key(key) {
        let vs = without(m[key], khmer);
        if vs.len() == 0 {
            m.remove(key)
        } else {
            m.insert(key, vs)
        }
    } else {
        m
    }
}

/// The map with `khmer` offered first for `key`, unless already saved
/// there.
pub open spec fn with_spelling(m: Map<Seq<char>, Seq<Seq<char>>>, key: Seq<char>, khmer: Seq<char>) -> Map<
    Seq<char>,
    Seq<Seq<char>>,
> {
    let vals = if m.contains_key(key) {
        m[key]
    } else {
        Seq::empty()
    };
    m.insert(
        key,
        if vals.contains(khmer) {
            vals
        } else {
            seq![khmer] + vals
        },
    )
}

/// A dialog pair as plain values.
pub open spec fn request_view(r: Option<ManualSaveRequest>) -> Option<(Seq<char>, Seq<char>)> {
    match r {
        Some(q) => Some((q.roman@, q.khmer@)),
        None => None,
    }
}

/// The map after saving the pair `(roman, khmer)` in place of `original`:
/// nothing when the normalized key or the trimmed spelling is empty;
/// otherwise the original pair's spelling is first taken away from its
/// key, then the new spelling is offered first for the new key.
pub open spec fn replaced_pair(
    m: Map<Seq<char>, Seq<Seq<char>>>,
    original: Option<(Seq<char>, Seq<char>)>,
    roman: Seq<char>,
    khmer: Seq<char>,
) -> Option<Map<Seq<char>, Seq<Seq<char>>>> {
    let key = normalized_key(roman);
    let k = trim(khmer);
    if key.len() == 0 || k.len() == 0 {
        None
    } else {
        let m1 = match original {
            Some(o) => after_removing(m, normalized_key(o.0), trim(o.1)),
            None => m,
        };
        Some(with_spelling(m1, key, k))
    }
}

/// The map after deleting the pair `(roman, khmer)`: nothing when the
/// normalized key or the trimmed spelling is empty, or when the key does
/// not hold the spelling (compared as given).
pub open spec fn removed_pair(m: Map<Seq<char>, Seq<Seq<char>>>, roman: Seq<char>, khmer: Seq<char>) -> Option<
    Map<Seq<char>, Seq<Seq<char>>>,
> {
    let key = normalized_key(roman);
    if key.len() == 0 || trim(khmer).len() == 0 || !m.contains_key(key) {
        None
    } else {
        let vs = without(m[key], khmer);
        if vs.len() == m[key].len() {
            None
        } else if vs.len() == 0 {
            Some(m.remove(key))
        } else {
            Some(m.insert(key, vs))
        }
    }
}

proof fn lemma_without_len(vs: Seq<Seq<char>>, x: Seq<char>)
    ensures
        without(vs, x).len() <= vs.len(),
    decreases vs.len(),
{
    if vs.len() > 0 {
        lemma_without_len(vs.drop_last(), x);
    }
}

impl UserDictionary {
    /// Takes `khmer` away from `key` (see `after_removing`).
    fn take_away(&mut self, key: &Vec<char>, khmer: &Vec<char>)
        requires
            old(self).wf(),
        ensures
            final(self).wf(),
            final(self).view() == after_removing(old(self).view(), key@, khmer@),
    {
        proof {
            lemma_entries_map_lookup(self.entries@);
        }
        match self.position(key) {
            None => {},
            Some(i) => {
                let kept = without_exec(&self.entries[i].1, khmer);
                if kept.len() == 0 {
                    proof {
                        lemma_entries_map_remove(self.entries@, i as int);
                    }
                    self.entries.remove(i);
                } else {
                    let name = string_from_chars(key);
                    let ghost e = (name, kept);
                    proof {
                        lemma_entries_map_update(self.entries@, i as int, e);
                    }
                    self.entries.set(i, (name, kept));
                }
            },
        }
    }

    /// Offers `khmer` first for `key` (see `with_spelling`).
    fn offer_first(&mut self, key: &Vec<char>, khmer: &Vec<char>)
        requires
            old(self).wf(),
        ensures
            final(self).wf(),
            final(self).view() == with_spelling(old(self).view(), key@, khmer@),
    {
        proof {
            lemma_entries_map_lookup(self.entries@);
        }
        match self.position(key) {
            None => {
                let mut vals: Vec<String> = Vec::new();
                vals.push(string_from_chars(khmer));
                let name = string_from_chars(key);
                let ghost before = self.entries@;
                self.entries.push((name, vals));
                proof {
                    assert(self.entries@.drop_last() =~= before);
                    assert(string_views(vals@) =~= seq![khmer@]);
                    assert(seq![khmer@] =~= seq![khmer@] + Seq::<Seq<char>>::empty());
                    assert forall|a: int, b: int| 0 <= a < b < self.entries@.len() implies (#[trigger] self.entries@[a]).0@
                        != (#[trigger] self.entries@[b]).0@ by {
                        if b == before.len() {
                            assert(before[a] == self.entries@[a]);
                            if before[a].0@ == key@ {
                                assert(entries_map(before).contains_key(key@));
                            }
                        } else {
                            assert(before[a] == self.entries@[a] && before[b] == self.entries@[b]);
                        }
                    }
                }
            },
            Some(i) => {
                let present = contains_exec(&self.entries[i].1, khmer);
                if !present {
                    let mut vals: Vec<String> = Vec::new();
                    vals.push(string_from_chars(khmer));
                    let rest = copy_strings(&self.entries[i].1);
                    let mut j: usize = 0;
                    let ghost head = string_views(vals@);
                    while j < rest.len()
                        invariant
                            j <= rest@.len(),
                            head == seq![khmer@],
                            string_views(vals@) == head + string_views(rest@).take(j as int),
                        decreases rest@.len() - j,
                    {
                        let ghost before = string_views(vals@);
                        vals.push(string_from_chars(&chars_of(rest[j].as_str())));
                        j = j + 1;
                        assert(string_views(vals@) =~= before.push(rest@[j - 1]@));
                        assert(string_views(rest@).take(j as int) =~= string_views(rest@).take(j - 1).push(
                            rest@[j - 1]@,
                        ));
                        assert(string_views(vals@) =~= head + string_views(rest@).take(j as int));
                    }
                    assert(string_views(rest@).take(j as int) =~= string_views(rest@));
                    let name = string_from_chars(key);
                    let ghost e = (name, vals);
                    proof {
                        lemma_entries_map_update(self.entries@, i as int, e);
                    }
                    self.entries.set(i, (name, vals));
                }
            },
        }
    }
}

/// Saves the pair from the add-pair dialog, in place of `original` when
/// the dialog edited an existing pair (see `replaced_pair`). Returns
/// whether anything was saved.
pub fn replace_manual_save_request(
    original: Option<ManualSaveRequest>,
    request: ManualSaveRequest,
    dictionary: &mut UserDictionary,
) -> (saved: bool)
    requires
        old(dictionary).wf(),
    ensures
        final(dictionary).wf(),
        match replaced_pair(old(dictionary).view(), request_view(original), request.roman@, request.khmer@) {
            Some(m) => saved && final(dictionary).view() == m,
            None => !saved && final(dictionary).view() == old(dictionary).view(),
        },
{
    let key = normalized_chars(request.roman.as_str());
    let khmer = trimmed(&chars_of(request.khmer.as_str()));
    if key.len() == 0 || khmer.len() == 0 {
        return false;
    }
    match original {
        Some(o) => {
            let okey = normalized_chars(o.roman.as_str());
            let okhmer = trimmed(&chars_of(o.khmer.as_str()));
            dictionary.take_away(&okey, &okhmer);
        },
        None => {},
    }
    dictionary.offer_first(&key, &khmer);
    true
}

/// Saves a new pair from the add-pair dialog.
pub fn save_manual_save_request(request: ManualSaveRequest, dictionary: &mut UserDictionary) -> (saved: bool)
    requires
        old(dictionary).wf(),
    ensures
        final(dictionary).wf(),
        match replaced_pair(old(dictionary).view(), None, request.roman@, request.khmer@) {
            Some(m) => saved && final(dictionary).view() == m,
            None => !saved && final(dictionary).view() == old(dictionary).view(),
        },
{
    replace_manual_save_request(None, request, dictionary)
}

/// Deletes one saved pair (see `removed_pair`). Returns whether anything
/// was deleted.
pub fn remove_user_dictionary_mapping(roman: &str, khmer: &str, dictionary: &mut UserDictionary) -> (removed: bool)
    requires
        old(dictionary).wf(),
    ensures
        final(dictionary).wf(),
        match removed_pair(old(dictionary).view(), roman@, khmer@) {
            Some(m) => removed && final(dictionary).view() == m,
            None => !removed && final(dictionary).view() == old(dictionary).view(),
        },
{
    let key = normalized_chars(roman);
    let k = chars_of(khmer);
    let t = trimmed(&k);
    if key.len() == 0 || t.len() == 0 {
        return false;
    }
    proof {
        lemma_entries_map_lookup(dictionary.entries@);
    }
    match dictionary.position(&key) {
        None => false,
        Some(i) => {
            let kept = without_exec(&dictionary.entries[i].1, &k);
            if kept.len() == dictionary.entries[i].1.len() {
                return false;
            }
            if kept.len() == 0 {
                proof {
                    lemma_entries_map_remove(dictionary.entries@, i as int);
                }
                dictionary.entries.remove(i);
            } else {
                let name = string_from_chars(&key);
                let ghost e = (name, kept);
                proof {
                    lemma_entries_map_update(dictionary.entries@, i as int, e);
                }
                dictionary.entries.set(i, (name, kept));
            }
            true
        },
    }
}

/// The pair a stored row holds: split at its first tab, both sides
/// trimmed; none without a tab or with an empty side.
pub open spec fn stored_pair(line: Seq<char>) -> Option<(Seq<char>, Seq<char>)> {
    match first_index_of(line, '\t') {
        None => None,
        Some(t) => {
            let r = trim(line.take(t));
            let k = trim(line.skip(t + 1));
            if r.len() == 0 || k.len() == 0 {
                None
            } else {
                Some((r, k))
            }
        },
    }
}

/// The spellings of the stored rows, gathered by key in row order.
pub open spec fn grouped(ls: Seq<Seq<char>>) -> Map<Seq<char>, Seq<Seq<char>>>
    decreases ls.len(),
{
    if ls.len() == 0 {
        Map::empty()
    } else {
        let m = grouped(ls.drop_last());
        match stored_pair(ls.last()) {
            None => m,
            Some(p) => m.insert(
                p.0,
                (if m.contains_key(p.0) {
                    m[p.0]
                } else {
                    Seq::empty()
                }).push(p.1),
            ),
        }
    }
}

/// `vs` without adjacent repeats.
pub open spec fn dedup_adjacent(vs: Seq<Seq<char>>) -> Seq<Seq<char>>
    decreases vs.len(),
{
    if vs.len() == 0 {
        Seq::empty()
    } else {
        let d = dedup_adjacent(vs.drop_last());
        if d.len() > 0 && d.last() == vs.last() {
            d
        } else {
            d.push(vs.last())
        }
    }
}

/// `vs` sorted, each spelling once.
pub open spec fn sorted_distinct(vs: Seq<Seq<char>>) -> Seq<Seq<char>> {
    dedup_adjacent(vs.sort_by(chars_order()))
}

/// The dictionary stored as `raw`: its rows gathered by key, each key's
/// spellings sorted without repeats.
pub open spec fn loaded_dictionary(raw: Seq<char>) -> Map<Seq<char>, Seq<Seq<char>>> {
    grouped(lines(raw)).map_values(|vs: Seq<Seq<char>>| sorted_distinct(vs))
}

fn dedup_exec(v: &Vec<Vec<char>>) -> (out: Vec<Vec<char>>)
    ensures
        char_views(out@) == dedup_adjacent(char_views(v@)),
{
    let ghost vv = char_views(v@);
    let mut out: Vec<Vec<char>> = Vec::new();
    let mut i: usize = 0;
    assert(char_views(out@) =~= dedup_adjacent(vv.take(0)));
    while i < v.len()
        invariant
            i <= v@.len(),
            vv == char_views(v@),
            char_views(out@) == dedup_adjacent(vv.take(i as int)),
        decreases v@.len() - i,
    {
        assert(vv.take(i + 1).drop_last() =~= vv.take(i as int));
        assert(vv.take(i + 1).last() == v@[i as int]@);
        let n = out.len();
        let repeat = n > 0 && chars_eq(&out[n - 1], &v[i]);
        if !repeat {
            let ghost before = char_views(out@);
            out.push(slice_to_vec(&v[i], 0, v[i].len()));
            assert(v@[i as int]@.subrange(0, v@[i as int]@.len() as int) =~= v@[i as int]@);
            assert(char_views(out@) =~= before.push(v@[i as int]@));
        }
        i = i + 1;
    }
    assert(vv.take(i as int) =~= vv);
    out
}

fn strings_to_chars(v: &Vec<String>) -> (out: Vec<Vec<char>>)
    ensures
        char_views(out@) == string_views(v@),
{
    let mut out: Vec<Vec<char>> = Vec::new();
    let mut i: usize = 0;
    while i < v.len()
        invariant
            i <= v@.len(),
            char_views(out@) == string_views(v@).take(i as int),
        decreases v@.len() - i,
    {
        let ghost before = char_views(out@);
        out.push(chars_of(v[i].as_str()));
        i = i + 1;
        assert(char_views(out@) =~= before.push(v@[i - 1]@));
        assert(string_views(v@).take(i as int) =~= string_views(v@).take(i - 1).push(v@[i - 1]@));
    }
    assert(string_views(v@).take(i as int) =~= string_views(v@));
    out
}

fn chars_to_strings(v: &Vec<Vec<char>>) -> (out: Vec<String>)
    ensures
        string_views(out@) == char_views(v@),
{
    let mut out: Vec<String> = Vec::new();
    let mut i: usize = 0;
    while i < v.len()
        invariant
            i <= v@.len(),
            string_views(out@) == char_views(v@).take(i as int),
        decreases v@.len() - i,
    {
        let ghost before = string_views(out@);
        out.push(string_from_chars(&v[i]));
        i = i + 1;
        assert(string_views(out@) =~= before.push(v@[i - 1]@));
        assert(char_views(v@).take(i as int) =~= char_views(v@).take(i - 1).push(v@[i - 1]@));
    }
    assert(char_views(v@).take(i as int) =~= char_views(v@));
    out
}

/// The spellings sorted, each once.
fn sorted_distinct_exec(v: &Vec<String>) -> (out: Vec<String>)
    ensures
        string_views(out@) == sorted_distinct(string_views(v@)),
{
    let sorted = sort_char_seqs(strings_to_chars(v));
    chars_to_strings(&dedup_exec(&sorted))
}

fn stored_pair_exec(line: &Vec<char>) -> (r: Option<(Vec<char>, Vec<char>)>)
    ensures
        match stored_pair(line@) {
            Some(p) => r matches Some(q) && q.0@ == p.0 && q.1@ == p.1,
            None => r is None,
        },
{
    match crate::text::find_char(line, 0, line.len(), '\t') {
        None => {
            assert(line@.subrange(0, line@.len() as int) =~= line@);
            None
        },
        Some(t) => {
            assert(line@.subrange(0, line@.len() as int) =~= line@);
            let r = trimmed(&slice_to_vec(line, 0, t));
            let k = trimmed(&slice_to_vec(line, t + 1, line.len()));
            assert(line@.subrange(0, t as int) =~= line@.take(t as int));
            assert(line@.subrange(t + 1, line@.len() as int) =~= line@.skip(t + 1));
            if r.len() == 0 || k.len() == 0 {
                None
            } else {
                Some((r, k))
            }
        },
    }
}

/// The map after transforming each entry's spellings.
proof fn lemma_entries_map_values(
    es: Seq<(String, Vec<String>)>,
    fs: Seq<(String, Vec<String>)>,
)
    requires
        es.len() == fs.len(),
        forall|i: int| 0 <= i < es.len() ==> (#[trigger] fs[i]).0@ == es[i].0@ && string_views(fs[i].1@) == sorted_distinct(
            string_views(es[i].1@),
        ),
    ensures
        entries_map(fs) == entries_map(es).map_values(|vs: Seq<Seq<char>>| sorted_distinct(vs)),
    decreases es.len(),
{
    if es.len() > 0 {
        lemma_entries_map_values(es.drop_last(), fs.drop_last());
        assert(fs.last() == fs[fs.len() - 1]);
        assert(entries_map(fs) =~= entries_map(es).map_values(|vs: Seq<Seq<char>>| sorted_distinct(vs)));
    } else {
        assert(entries_map(fs) =~= entries_map(es).map_values(|vs: Seq<Seq<char>>| sorted_distinct(vs)));
    }
}

impl UserDictionary {
    /// Appends `khmer` to the spellings of `key`, adding the key when new.
    fn append_spelling(&mut self, key: &Vec<char>, khmer: &Vec<char>)
        requires
            old(self).wf(),
        ensures
            final(self).wf(),
            final(self).view() == old(self).view().insert(
                key@,
                (if old(self).view().contains_key(key@) {
                    old(self).view()[key@]
                } else {
                    Seq::empty()
                }).push(khmer@),
            ),
    {
        proof {
            lemma_entries_map_lookup(self.entries@);
        }
        match self.position(key) {
            None => {
                let mut vals: Vec<String> = Vec::new();
                vals.push(string_from_chars(khmer));
                let name = string_from_chars(key);
                let ghost before = self.entries@;
                self.entries.push((name, vals));
                proof {
                    assert(self.entries@.drop_last() =~= before);
                    assert(string_views(vals@) =~= Seq::<Seq<char>>::empty().push(khmer@));
                    assert forall|a: int, b: int| 0 <= a < b < self.entries@.len() implies (#[trigger] self.entries@[a]).0@
                        != (#[trigger] self.entries@[b]).0@ by {
                        if b == before.len() {
                            assert(before[a] == self.entries@[a]);
                            if before[a].0@ == key@ {
                                assert(entries_map(before).contains_key(key@));
                            }
                        } else {
                            assert(before[a] == self.entries@[a] && before[b] == self.entries@[b]);
                        }
                    }
                }
            },
            Some(i) => {
                let mut vals = copy_strings(&self.entries[i].1);
                let ghost before = string_views(vals@);
                vals.push(string_from_chars(khmer));
                assert(string_views(vals@) =~= before.push(khmer@));
                let name = string_from_chars(key);
                let ghost e = (name, vals);
                proof {
                    lemma_entries_map_update(self.entries@, i as int, e);
                }
                self.entries.set(i, (name, vals));
            },
        }
    }
}

/// Reads the dictionary stored as `raw` (see `loaded_dictionary`).
pub fn parse_user_dictionary(raw: &str) -> (d: UserDictionary)
    ensures
        d.wf(),
        d.view() == loaded_dictionary(raw@),
{
    let cs = chars_of(raw);
    let ls = lines_of(&cs);
    let ghost lv = char_views(ls@);
    let mut d = UserDictionary::new();
    let mut i: usize = 0;
    assert(lv.take(0).len() == 0);
    while i < ls.len()
        invariant
            i <= ls@.len(),
            lv == char_views(ls@),
            lv == lines(raw@),
            d.wf(),
            d.view() == grouped(lv.take(i as int)),
        decreases ls@.len() - i,
    {
        assert(lv.take(i + 1).drop_last() =~= lv.take(i as int));
        assert(lv.take(i + 1).last() == ls@[i as int]@);
        match stored_pair_exec(&ls[i]) {
            None => {},
            Some((r, k)) => {
                d.append_spelling(&r, &k);
            },
        }
        i = i + 1;
    }
    assert(lv.take(i as int) =~= lv);
    let ghost grouped_entries = d.entries@;
    let mut out: Vec<(String, Vec<String>)> = Vec::new();
    let mut j: usize = 0;
    while j < d.entries.len()
        invariant
            j <= d.entries@.len(),
            out@.len() == j,
            forall|q: int| 0 <= q < j ==> (#[trigger] out@[q]).0@ == d.entries@[q].0@ && string_views(out@[q].1@)
                == sorted_distinct(string_views(d.entries@[q].1@)),
        decreases d.entries@.len() - j,
    {
        let name = string_from_chars(&chars_of(d.entries[j].0.as_str()));
        let vals = sorted_distinct_exec(&d.entries[j].1);
        out.push((name, vals));
        j = j + 1;
    }
    proof {
        lemma_entries_map_values(d.entries@, out@);
        assert forall|a: int, b: int| 0 <= a < b < out@.len() implies (#[trigger] out@[a]).0@ != (#[trigger] out@[b]).0@ by {
            assert(d.entries@[a].0@ != d.entries@[b].0@);
        }
    }
    UserDictionary { entries: out }
}

/// The keys of `m` in code point order, each once.
pub open spec fn sorted_keys(m: Map<Seq<char>, Seq<Seq<char>>>) -> Seq<Seq<char>> {
    choose|ks: Seq<Seq<char>>| sorted_by(ks, chars_order()) && ks.no_duplicates() && ks.to_set() == m.dom()
}

/// The stored rows of one key: `key<TAB>spelling` for each spelling.
pub open spec fn key_rows(k: Seq<char>, vs: Seq<Seq<char>>) -> Seq<Seq<char>> {
    vs.map_values(|v: Seq<char>| k + seq!['\t'] + v)
}

/// The stored rows of the keys `ks`, in order, each key's spellings sorted
/// without repeats.
pub open spec fn rows_of(m: Map<Seq<char>, Seq<Seq<char>>>, ks: Seq<Seq<char>>) -> Seq<Seq<char>>
    decreases ks.len(),
{
    if ks.len() == 0 {
        Seq::empty()
    } else {
        rows_of(m, ks.drop_last()) + key_rows(ks.last(), sorted_distinct(m[ks.last()]))
    }
}

/// The dictionary as stored: its rows, keys in order, one per line.
pub open spec fn stored_text(m: Map<Seq<char>, Seq<Seq<char>>>) -> Seq<char> {
    join_with(rows_of(m, sorted_keys(m)), seq!['\n'])
}

proof fn lemma_count_no_dups(s: Seq<Seq<char>>)
    requires
        s.no_duplicates(),
    ensures
        forall|x: Seq<char>| s.to_multiset().count(x) == if s.contains(x) { 1nat } else { 0nat },
{
    broadcast use vstd::seq_lib::group_to_multiset_ensures;
    s.lemma_multiset_has_no_duplicates();
}

/// A sorted sequence of distinct keys is fixed by its set.
pub proof fn lemma_sorted_keys_is(m: Map<Seq<char>, Seq<Seq<char>>>, ks: Seq<Seq<char>>)
    requires
        sorted_by(ks, chars_order()),
        ks.no_duplicates(),
        ks.to_set() == m.dom(),
    ensures
        sorted_keys(m) == ks,
{
    broadcast use vstd::seq_lib::group_to_multiset_ensures;
    crate::text::lemma_chars_order_total();
    let other = sorted_keys(m);
    assert(sorted_by(other, chars_order()) && other.no_duplicates() && other.to_set() == m.dom());
    lemma_count_no_dups(ks);
    lemma_count_no_dups(other);
    assert forall|x: Seq<char>| ks.contains(x) == other.contains(x) by {
        assert(ks.to_set().contains(x) == ks.contains(x));
        assert(other.to_set().contains(x) == other.contains(x));
    }
    assert(ks.to_multiset() =~= other.to_multiset());
    vstd::seq_lib::lemma_sorted_unique(ks, other, chars_order());
}

/// The dictionary's keys in code point order.
fn sorted_key_list(d: &UserDictionary) -> (keys: Vec<Vec<char>>)
    requires
        d.wf(),
    ensures
        char_views(keys@) == sorted_keys(d.view()),
        char_views(keys@).to_set() == d.view().dom(),
{
    let mut names: Vec<Vec<char>> = Vec::new();
    let mut i: usize = 0;
    while i < d.entries.len()
        invariant
            i <= d.entries@.len(),
            char_views(names@) == d.entries@.take(i as int).map_values(|e: (String, Vec<String>)| e.0@),
        decreases d.entries@.len() - i,
    {
        let ghost before = char_views(names@);
        let name = chars_of(d.entries[i].0.as_str());
        names.push(name);
        i = i + 1;
        assert(char_views(names@) =~= before.push(d.entries@[i - 1].0@));
        assert(d.entries@.take(i as int).map_values(|e: (String, Vec<String>)| e.0@) =~= d.entries@.take(i - 1).map_values(
            |e: (String, Vec<String>)| e.0@,
        ).push(d.entries@[i - 1].0@));
    }
    assert(d.entries@.take(i as int) =~= d.entries@);
    let keys = sort_char_seqs(names);
    proof {
        lemma_sorted_keys_of_entries(d.entries@);
    }
    keys
}

/// Writes the dictionary in its stored form (see `stored_text`).
pub fn serialize_user_dictionary(d: &UserDictionary) -> (s: String)
    requires
        d.wf(),
    ensures
        s@ == stored_text(d.view()),
{
    let ghost m = d.view();
    let keys = sorted_key_list(d);
    let ghost ks = char_views(keys@);
    let mut rows: Vec<Vec<char>> = Vec::new();
    let mut k: usize = 0;
    assert(char_views(rows@) =~= rows_of(m, ks.take(0)));
    while k < keys.len()
        invariant
            k <= keys@.len(),
            ks == char_views(keys@),
            ks.to_set() == m.dom(),
            m == d.view(),
            d.wf(),
            char_views(rows@) == rows_of(m, ks.take(k as int)),
        decreases keys@.len() - k,
    {
        let key = &keys[k];
        assert(ks[k as int] == key@);
        assert(ks.to_set().contains(key@));
        let ghost before_rows = char_views(rows@);
        match d.position(key) {
            None => {
                proof {
                    assert(false);
                }
            },
            Some(p) => {
                proof {
                    lemma_entries_map_lookup(d.entries@);
                }
                let vals = sorted_distinct_exec(&d.entries[p].1);
                let ghost vs = string_views(vals@);
                assert(vs == sorted_distinct(m[key@]));
                let mut j: usize = 0;
                while j < vals.len()
                    invariant
                        j <= vals@.len(),
                        vs == string_views(vals@),
                        char_views(rows@) == before_rows + key_rows(key@, vs).take(j as int),
                    decreases vals@.len() - j,
                {
                    let mut row: Vec<char> = Vec::new();
                    crate::text::append_chars(&mut row, key);
                    row.push('\t');
                    let v = chars_of(vals[j].as_str());
                    crate::text::append_chars(&mut row, &v);
                    assert(row@ =~= key@ + seq!['\t'] + vs[j as int]);
                    let ghost before = char_views(rows@);
                    rows.push(row);
                    j = j + 1;
                    assert(char_views(rows@) =~= before.push(row@));
                    assert(key_rows(key@, vs).take(j as int) =~= key_rows(key@, vs).take(j - 1).push(row@));
                }
                assert(key_rows(key@, vs).take(j as int) =~= key_rows(key@, vs));
            },
        }
        proof {
            assert(ks.take(k + 1).drop_last() =~= ks.take(k as int));
            assert(ks.take(k + 1).last() == key@);
        }
        k = k + 1;
    }
    assert(ks.take(k as int) =~= ks);
    let sep: Vec<char> = vec!['\n'];
    assert(sep@ =~= seq!['\n']);
    let text = join_chars(&rows, &sep);
    string_from_chars(&text)
}

/// `(key, spelling)` for each of the spellings `vs`, in their order.
pub open spec fn key_pairs(k: Seq<char>, vs: Seq<Seq<char>>) -> Seq<(Seq<char>, Seq<char>)> {
    vs.map_values(|v: Seq<char>| (k, v))
}

/// The pairs of the keys `ks`, key by key, each key's spellings sorted in
/// code point order (repeats kept).
pub open spec fn pairs_of(m: Map<Seq<char>, Seq<Seq<char>>>, ks: Seq<Seq<char>>) -> Seq<(Seq<char>, Seq<char>)>
    decreases ks.len(),
{
    if ks.len() == 0 {
        Seq::empty()
    } else {
        pairs_of(m, ks.drop_last()) + key_pairs(ks.last(), m[ks.last()].sort_by(chars_order()))
    }
}

/// Every saved pair, ordered by Roman key and then by Khmer spelling.
pub open spec fn saved_pairs(m: Map<Seq<char>, Seq<Seq<char>>>) -> Seq<(Seq<char>, Seq<char>)> {
    pairs_of(m, sorted_keys(m))
}

/// The views of a list of pairs: Roman key and Khmer spelling.
pub open spec fn request_views(v: Seq<ManualSaveRequest>) -> Seq<(Seq<char>, Seq<char>)> {
    v.map_values(|p: ManualSaveRequest| (p.roman@, p.khmer@))
}

/// Every saved pair as a row of the saved-words page (see `saved_pairs`).
pub fn saved_word_pairs(d: &UserDictionary) -> (out: Vec<ManualSaveRequest>)
    requires
        d.wf(),
    ensures
        request_views(out@) == saved_pairs(d.view()),
{
    let ghost m = d.view();
    let keys = sorted_key_list(d);
    let ghost ks = char_views(keys@);
    let mut out: Vec<ManualSaveRequest> = Vec::new();
    let mut k: usize = 0;
    assert(request_views(out@) =~= pairs_of(m, ks.take(0)));
    while k < keys.len()
        invariant
            k <= keys@.len(),
            ks == char_views(keys@),
            ks.to_set() == m.dom(),
            m == d.view(),
            d.wf(),
            request_views(out@) == pairs_of(m, ks.take(k as int)),
        decreases keys@.len() - k,
    {
        let key = &keys[k];
        assert(ks[k as int] == key@);
        assert(ks.to_set().contains(key@));
        let ghost before = request_views(out@);
        match d.position(key) {
            None => {
                proof {
                    assert(false);
                }
            },
            Some(p) => {
                proof {
                    lemma_entries_map_lookup(d.entries@);
                }
                let spellings = &d.entries[p].1;
                let mut cs: Vec<Vec<char>> = Vec::new();
                let mut j: usize = 0;
                while j < spellings.len()
                    invariant
                        j <= spellings@.len(),
                        char_views(cs@) == string_views(spellings@).take(j as int),
                    decreases spellings@.len() - j,
                {
                    let ghost b = char_views(cs@);
                    cs.push(chars_of(spellings[j].as_str()));
                    j = j + 1;
                    assert(char_views(cs@) =~= b.push(spellings@[j - 1]@));
                    assert(string_views(spellings@).take(j as int) =~= string_views(spellings@).take(j - 1).push(
                        spellings@[j - 1]@,
                    ));
                }
                assert(string_views(spellings@).take(j as int) =~= string_views(spellings@));
                let sorted = sort_char_seqs(cs);
                let ghost vs = char_views(sorted@);
                assert(vs == m[key@].sort_by(chars_order()));
                let roman = string_from_chars(key.as_slice());
                let mut t: usize = 0;
                while t < sorted.len()
                    invariant
                        t <= sorted@.len(),
                        vs == char_views(sorted@),
                        roman@ == key@,
                        request_views(out@) == before + key_pairs(key@, vs).take(t as int),
                    decreases sorted@.len() - t,
                {
                    let ghost b = request_views(out@);
                    let khmer = string_from_chars(sorted[t].as_slice());
                    out.push(ManualSaveRequest { roman: roman.clone(), khmer });
                    t = t + 1;
                    assert(request_views(out@) =~= b.push((key@, vs[t - 1])));
                    assert(key_pairs(key@, vs).take(t as int) =~= key_pairs(key@, vs).take(t - 1).push((key@, vs[t - 1])));
                }
                assert(key_pairs(key@, vs).take(t as int) =~= key_pairs(key@, vs));
            },
        }
        proof {
            assert(ks.take(k + 1).drop_last() =~= ks.take(k as int));
            assert(ks.take(k + 1).last() == key@);
        }
        k = k + 1;
    }
    assert(ks.take(k as int) =~= ks);
    out
}

/// A key that survives storage: non-empty, trimmed, without tab or line
/// feed.
pub open spec fn storable_key(k: Seq<char>) -> bool {
    k.len() > 0 && trim(k) == k && !k.contains('\t') && !k.contains('\n')
}

/// A spelling that survives storage: non-empty, trimmed, without line feed.
pub open spec fn storable_spelling(v: Seq<char>) -> bool {
    v.len() > 0 && trim(v) == v && !v.contains('\n')
}

/// Every key and spelling survives storage, and every key has a spelling.
pub open spec fn storable(m: Map<Seq<char>, Seq<Seq<char>>>) -> bool {
    forall|k: Seq<char>| #[trigger] m.contains_key(k) ==> storable_key(k) && m[k].len() > 0 && forall|j: int|
        0 <= j < m[k].len() ==> storable_spelling(#[trigger] m[k][j])
}

/// The map after reading `rows` on top of `m`.
pub open spec fn grouped_onto(m: Map<Seq<char>, Seq<Seq<char>>>, rows: Seq<Seq<char>>) -> Map<Seq<char>, Seq<Seq<char>>>
    decreases rows.len(),
{
    if rows.len() == 0 {
        m
    } else {
        let g = grouped_onto(m, rows.drop_last());
        match stored_pair(rows.last()) {
            None => g,
            Some(p) => g.insert(
                p.0,
                (if g.contains_key(p.0) {
                    g[p.0]
                } else {
                    Seq::empty()
                }).push(p.1),
            ),
        }
    }
}

proof fn lemma_grouped_append(a: Seq<Seq<char>>, b: Seq<Seq<char>>)
    ensures
        grouped(a + b) == grouped_onto(grouped(a), b),
    decreases b.len(),
{
    if b.len() == 0 {
        assert(a + b =~= a);
    } else {
        lemma_grouped_append(a, b.drop_last());
        assert((a + b).drop_last() =~= a + b.drop_last());
        assert((a + b).last() == b.last());
    }
}

proof fn lemma_stored_pair_row(k: Seq<char>, v: Seq<char>)
    requires
        storable_key(k),
        storable_spelling(v),
    ensures
        stored_pair(k + seq!['\t'] + v) == Some((k, v)),
{
    let row = k + seq!['\t'] + v;
    assert forall|i: int| 0 <= i < k.len() implies row[i] != '\t' by {
        assert(row[i] == k[i]);
    }
    crate::text::lemma_first_index_of(row, '\t', k.len() as int);
    assert(row.take(k.len() as int) =~= k);
    assert(row.skip(k.len() as int + 1) =~= v);
}

proof fn lemma_key_rows_onto(m: Map<Seq<char>, Seq<Seq<char>>>, k: Seq<char>, vs: Seq<Seq<char>>)
    requires
        storable_key(k),
        !m.contains_key(k),
        forall|j: int| 0 <= j < vs.len() ==> storable_spelling(#[trigger] vs[j]),
    ensures
        vs.len() > 0 ==> grouped_onto(m, key_rows(k, vs)) == m.insert(k, vs),
        vs.len() == 0 ==> grouped_onto(m, key_rows(k, vs)) == m,
    decreases vs.len(),
{
    let rows = key_rows(k, vs);
    if vs.len() == 0 {
        assert(rows.len() == 0);
    } else {
        let front = vs.drop_last();
        assert forall|j: int| 0 <= j < front.len() implies storable_spelling(#[trigger] front[j]) by {
            assert(front[j] == vs[j]);
        }
        lemma_key_rows_onto(m, k, front);
        assert(rows.drop_last() =~= key_rows(k, front));
        assert(rows.last() == k + seq!['\t'] + vs.last());
        assert(storable_spelling(vs[vs.len() - 1]));
        lemma_stored_pair_row(k, vs.last());
        if front.len() == 0 {
            assert(Seq::<Seq<char>>::empty().push(vs.last()) =~= vs);
        } else {
            assert(front.push(vs.last()) =~= vs);
        }
    }
}

proof fn lemma_dedup_facts(s: Seq<Seq<char>>)
    ensures
        forall|j: int| 0 <= j < dedup_adjacent(s).len() ==> s.contains(#[trigger] dedup_adjacent(s)[j]),
        forall|j: int| 0 <= j < dedup_adjacent(s).len() - 1 ==> #[trigger] dedup_adjacent(s)[j] != dedup_adjacent(s)[j + 1],
        s.len() > 0 ==> dedup_adjacent(s).len() > 0 && dedup_adjacent(s).last() == s.last(),
        sorted_by(s, chars_order()) ==> sorted_by(dedup_adjacent(s), chars_order()),
    decreases s.len(),
{
    if s.len() > 0 {
        let p = s.drop_last();
        lemma_dedup_facts(p);
        let d = dedup_adjacent(p);
        let r = dedup_adjacent(s);
        assert forall|j: int| 0 <= j < r.len() implies s.contains(#[trigger] r[j]) by {
            if j < d.len() {
                assert(r[j] == d[j]);
                assert(p.contains(d[j]));
                let q = choose|q: int| 0 <= q < p.len() && p[q] == d[j];
                assert(s[q] == p[q]);
            } else {
                assert(s[s.len() - 1] == r[j]);
            }
        }
        if sorted_by(s, chars_order()) {
            assert(sorted_by(p, chars_order())) by {
                assert forall|a: int, b: int| 0 <= a < b < p.len() implies #[trigger] chars_order()(p[a], p[b]) by {
                    assert(chars_order()(s[a], s[b]));
                }
            }
            assert forall|a: int, b: int| 0 <= a < b < r.len() implies #[trigger] chars_order()(r[a], r[b]) by {
                if b < d.len() {
                    assert(r[a] == d[a] && r[b] == d[b]);
                    assert(chars_order()(d[a], d[b]));
                } else {
                    assert(r[a] == d[a]);
                    assert(p.contains(d[a]));
                    let q = choose|q: int| 0 <= q < p.len() && p[q] == d[a];
                    assert(chars_order()(s[q], s[s.len() - 1]));
                }
            }
        }
    }
}

proof fn lemma_dedup_fixed(s: Seq<Seq<char>>)
    requires
        forall|j: int| 0 <= j < s.len() - 1 ==> #[trigger] s[j] != s[j + 1],
    ensures
        dedup_adjacent(s) == s,
    decreases s.len(),
{
    if s.len() > 0 {
        let p = s.drop_last();
        assert forall|j: int| 0 <= j < p.len() - 1 implies #[trigger] p[j] != p[j + 1] by {
            assert(p[j] == s[j] && p[j + 1] == s[j + 1]);
        }
        lemma_dedup_fixed(p);
        if p.len() > 0 {
            assert(s[s.len() - 2] != s[s.len() - 1]);
        }
        assert(p.push(s.last()) =~= s);
    }
}

/// Sorting and dropping repeats twice is the same as once.
pub proof fn lemma_sorted_distinct_idempotent(vs: Seq<Seq<char>>)
    ensures
        sorted_distinct(sorted_distinct(vs)) == sorted_distinct(vs),
        vs.len() > 0 ==> sorted_distinct(vs).len() > 0,
        forall|j: int| 0 <= j < sorted_distinct(vs).len() ==> vs.contains(#[trigger] sorted_distinct(vs)[j]),
{
    broadcast use vstd::seq_lib::group_to_multiset_ensures;
    crate::text::lemma_chars_order_total();
    let s = vs.sort_by(chars_order());
    vs.lemma_sort_by_ensures(chars_order());
    lemma_dedup_facts(s);
    let y = dedup_adjacent(s);
    assert(s.len() == vs.len()) by {
        assert(s.to_multiset().len() == vs.to_multiset().len());
    }
    y.lemma_sort_by_ensures(chars_order());
    vstd::seq_lib::lemma_sorted_unique(y.sort_by(chars_order()), y, chars_order());
    lemma_dedup_fixed(y);
    assert forall|j: int| 0 <= j < y.len() implies vs.contains(#[trigger] y[j]) by {
        assert(s.contains(y[j]));
        assert(s.to_multiset().count(y[j]) > 0);
    }
}

/// Storing a dictionary and reading it back gives the same keys, each with
/// its spellings sorted and without repeats, as long as every key and
/// spelling survives storage (see `storable`).
pub proof fn law_user_dictionary_round_trip(d: UserDictionary)
    requires
        d.wf(),
        storable(d.view()),
    ensures
        loaded_dictionary(stored_text(d.view())) == d.view().map_values(|vs: Seq<Seq<char>>| sorted_distinct(vs)),
{
    let m = d.view();
    lemma_entries_map_lookup(d.entries@);
    lemma_sorted_keys_of_entries(d.entries@);
    let ks = sorted_keys(m);
    // Reading the rows key by key rebuilds each key's sorted spellings.
    assert forall|n: int| 0 <= n <= ks.len() implies {
        let g = grouped(rows_of(m, #[trigger] ks.take(n)));
        &&& forall|k: Seq<char>| g.contains_key(k) <==> ks.take(n).contains(k)
        &&& forall|k: Seq<char>| #[trigger] g.contains_key(k) ==> g[k] == sorted_distinct(m[k])
        &&& forall|j: int| 0 <= j < rows_of(m, ks.take(n)).len() ==> !(#[trigger] rows_of(m, ks.take(n))[j]).contains('\n')
            && rows_of(m, ks.take(n))[j].len() > 0 && rows_of(m, ks.take(n))[j].last() != '\r'
    } by {
        lemma_rows_prefix(m, ks, n);
    }
    assert(ks.take(ks.len() as int) =~= ks);
    let rows = rows_of(m, ks);
    crate::text::lemma_lines_of_rows(rows);
    let g = grouped(rows);
    assert forall|k: Seq<char>| g.contains_key(k) <==> m.contains_key(k) by {
        assert(ks.to_set().contains(k) == ks.contains(k));
    }
    assert forall|k: Seq<char>| #[trigger] g.contains_key(k) implies sorted_distinct(g[k]) == sorted_distinct(m[k]) by {
        lemma_sorted_distinct_idempotent(m[k]);
    }
    assert(loaded_dictionary(stored_text(m)) =~= m.map_values(|vs: Seq<Seq<char>>| sorted_distinct(vs)));
}

proof fn lemma_rows_prefix(m: Map<Seq<char>, Seq<Seq<char>>>, ks: Seq<Seq<char>>, n: int)
    requires
        storable(m),
        ks.no_duplicates(),
        ks.to_set() == m.dom(),
        0 <= n <= ks.len(),
    ensures
        ({
            let g = grouped(rows_of(m, ks.take(n)));
            &&& forall|k: Seq<char>| g.contains_key(k) <==> ks.take(n).contains(k)
            &&& forall|k: Seq<char>| #[trigger] g.contains_key(k) ==> g[k] == sorted_distinct(m[k])
            &&& forall|j: int| 0 <= j < rows_of(m, ks.take(n)).len() ==> !(#[trigger] rows_of(m, ks.take(n))[j]).contains('\n')
                && rows_of(m, ks.take(n))[j].len() > 0 && rows_of(m, ks.take(n))[j].last() != '\r'
        }),
    decreases n,
{
    if n == 0 {
        assert(ks.take(0) =~= Seq::<Seq<char>>::empty());
        assert(rows_of(m, ks.take(0)) == Seq::<Seq<char>>::empty());
        assert(grouped(Seq::<Seq<char>>::empty()) =~= Map::<Seq<char>, Seq<Seq<char>>>::empty());
    } else {
        lemma_rows_prefix(m, ks, n - 1);
        let k = ks[n - 1];
        assert(ks.take(n).drop_last() =~= ks.take(n - 1));
        assert(ks.take(n).last() == k);
        assert(ks.to_set().contains(k));
        assert(m.contains_key(k));
        let vs = sorted_distinct(m[k]);
        lemma_sorted_distinct_idempotent(m[k]);
        assert forall|j: int| 0 <= j < vs.len() implies storable_spelling(#[trigger] vs[j]) by {
            assert(m[k].contains(vs[j]));
            let q = choose|q: int| 0 <= q < m[k].len() && m[k][q] == vs[j];
            assert(storable_spelling(m[k][q]));
        }
        let a = rows_of(m, ks.take(n - 1));
        let b = key_rows(k, vs);
        assert(rows_of(m, ks.take(n)) == a + b);
        lemma_grouped_append(a, b);
        let g0 = grouped(a);
        assert(!ks.take(n - 1).contains(k)) by {
            if ks.take(n - 1).contains(k) {
                let q = choose|q: int| 0 <= q < n - 1 && #[trigger] ks.take(n - 1)[q] == k;
                assert(ks[q] == ks[n - 1]);
            }
        }
        assert(!g0.contains_key(k));
        lemma_key_rows_onto(g0, k, vs);
        let g = grouped(a + b);
        assert(g == g0.insert(k, vs));
        assert forall|x: Seq<char>| g.contains_key(x) <==> ks.take(n).contains(x) by {
            if ks.take(n).contains(x) && x != k {
                let q = choose|q: int| 0 <= q < n && #[trigger] ks.take(n)[q] == x;
                assert(q < n - 1);
                assert(ks.take(n - 1)[q] == x);
            }
            if ks.take(n - 1).contains(x) {
                let q = choose|q: int| 0 <= q < n - 1 && #[trigger] ks.take(n - 1)[q] == x;
                assert(ks.take(n)[q] == x);
            }
            if x == k {
                assert(ks.take(n)[n - 1] == k);
            }
        }
        assert forall|j: int| 0 <= j < (a + b).len() implies !(#[trigger] (a + b)[j]).contains('\n') && (a + b)[j].len() > 0
            && (a + b)[j].last() != '\r' by {
            if j < a.len() {
                assert((a + b)[j] == a[j]);
            } else {
                let i = j - a.len();
                let row = b[i];
                assert((a + b)[j] == row);
                assert(row == k + seq!['\t'] + vs[i]);
                assert(storable_spelling(vs[i]));
                let v = vs[i];
                assert(!row.contains('\n')) by {
                    assert forall|t: int| 0 <= t < row.len() implies row[t] != '\n' by {
                        if t < k.len() {
                            assert(row[t] == k[t]);
                        } else if t > k.len() {
                            assert(row[t] == v[t - k.len() - 1]);
                        }
                    }
                }
                assert(row.last() == v.last());
                assert(v.last() != '\r') by {
                    assert(trim(v) == v);
                    assert(crate::text::trim_end(crate::text::trim_start(v)) == v);
                    lemma_trimmed_last(v);
                }
            }
        }
    }
}

proof fn lemma_trim_end_fixed(s: Seq<char>)
    requires
        crate::text::trim_end(s) == s,
        s.len() > 0,
    ensures
        !crate::text::is_space(s.last()),
{
    if crate::text::is_space(s.last()) {
        lemma_trim_end_shrinks(s.drop_last());
    }
}

proof fn lemma_trimmed_last(v: Seq<char>)
    requires
        trim(v) == v,
        v.len() > 0,
    ensures
        !crate::text::is_space(v.last()),
        v.last() != '\r',
{
    let t = crate::text::trim_start(v);
    lemma_trim_end_shrinks(t);
    // trim_end(t) == v and has v's length, so trim_end left t as it is.
    assert(crate::text::trim_end(t) == v);
    lemma_trim_start_shrinks(v);
    assert(t.len() <= v.len());
    assert(t.len() == v.len());
    assert(crate::text::trim_end(t).len() == t.len());
    lemma_trim_end_same_len(t);
    lemma_trim_end_fixed(t);
    assert(t == v);
}

proof fn lemma_trim_end_shrinks(s: Seq<char>)
    ensures
        crate::text::trim_end(s).len() <= s.len(),
    decreases s.len(),
{
    if s.len() > 0 && crate::text::is_space(s.last()) {
        lemma_trim_end_shrinks(s.drop_last());
    }
}

proof fn lemma_trim_start_shrinks(s: Seq<char>)
    ensures
        crate::text::trim_start(s).len() <= s.len(),
    decreases s.len(),
{
    if s.len() > 0 && crate::text::is_space(s[0]) {
        lemma_trim_start_shrinks(s.drop_first());
    }
}

proof fn lemma_trim_end_same_len(s: Seq<char>)
    requires
        crate::text::trim_end(s).len() == s.len(),
    ensures
        crate::text::trim_end(s) == s,
{
    if s.len() > 0 && crate::text::is_space(s.last()) {
        lemma_trim_end_shrinks(s.drop_last());
    }
}

/// The sorted keys of a dictionary are its entry keys in code point order.
proof fn lemma_sorted_keys_of_entries(es: Seq<(String, Vec<String>)>)
    requires
        distinct_keys(es),
    ensures
        sorted_by(sorted_keys(entries_map(es)), chars_order()),
        sorted_keys(entries_map(es)).no_duplicates(),
        sorted_keys(entries_map(es)).to_set() == entries_map(es).dom(),
        sorted_keys(entries_map(es)) == es.map_values(|e: (String, Vec<String>)| e.0@).sort_by(chars_order()),
{
    broadcast use vstd::seq_lib::group_to_multiset_ensures;
    let m = entries_map(es);
    let ek = es.map_values(|e: (String, Vec<String>)| e.0@);
    let ks = ek.sort_by(chars_order());
    crate::text::lemma_chars_order_total();
    ek.lemma_sort_by_ensures(chars_order());
    lemma_entries_map_lookup(es);
    assert(ek.no_duplicates()) by {
        assert forall|a: int, b: int| 0 <= a < ek.len() && 0 <= b < ek.len() && a != b implies ek[a] != ek[b] by {
            if a < b {
                assert(es[a].0@ != es[b].0@);
            } else {
                assert(es[b].0@ != es[a].0@);
            }
        }
    }
    lemma_count_no_dups(ek);
    assert forall|x: Seq<char>| ks.to_multiset().contains(x) implies ks.to_multiset().count(x) == 1 by {
        assert(ek.to_multiset().count(x) == ks.to_multiset().count(x));
    }
    ks.lemma_multiset_has_no_duplicates_conv();
    assert forall|x: Seq<char>| ks.to_set().contains(x) == m.dom().contains(x) by {
        assert(ks.contains(x) == (ks.to_multiset().count(x) > 0));
        assert(ek.contains(x) == (ek.to_multiset().count(x) > 0));
        if ek.contains(x) {
            let a = choose|a: int| 0 <= a < ek.len() && ek[a] == x;
            assert(es[a].0@ == x);
        }
        if m.dom().contains(x) {
            let a = choose|a: int| 0 <= a < es.len() && (#[trigger] es[a]).0@ == x;
            assert(ek[a] == x);
        }
    }
    assert(ks.to_set() =~= m.dom());
    lemma_sorted_keys_is(m, ks);
}

} // verus!
