//! The directional Flick keyboard: a 4×5 grid of keys, each a family of up
//! to five members reached by leaning from the centre, the preedit of atomic
//! entry units it builds, and the document edits it applies.

use vstd::prelude::*;
use crate::text::{append_chars, chars_of, slice_to_vec, string_from_chars, char_views, join_chars, join_with};

verus! {

/// One key: its members for the centre tap and the four leans. An empty
/// member means that direction has none.
#[derive(Clone, Copy, Debug, PartialEq, Eq)]
pub struct Key {
    pub center: &'static str,
    pub up: &'static str,
    pub left: &'static str,
    pub right: &'static str,
    pub down: &'static str,
}

/// The direction a lean resolves to.
#[derive(Clone, Copy, Debug, PartialEq, Eq, Structural)]
pub enum Direction {
    Center,
    Up,
    Left,
    Right,
    Down,
}

/// The member of `k` in direction `dir`.
pub open spec fn member_of(k: Key, dir: Direction) -> &'static str {
    match dir {
        Direction::Center => k.center,
        Direction::Up => k.up,
        Direction::Left => k.left,
        Direction::Right => k.right,
        Direction::Down => k.down,
    }
}

impl Key {
    /// The member glyph for a direction (empty when absent).
    pub fn member(&self, dir: Direction) -> (m: &'static str)
        ensures
            m == member_of(*self, dir),
    {
        match dir {
            Direction::Center => self.center,
            Direction::Up => self.up,
            Direction::Left => self.left,
            Direction::Right => self.right,
            Direction::Down => self.down,
        }
    }

    /// Whether the key has a member in direction `dir`.
    pub fn has(&self, dir: Direction) -> (b: bool)
        ensures
            b == (member_of(*self, dir)@.len() > 0),
    {
        !self.member(dir).is_empty()
    }
}

/// The style class of a direction.
pub open spec fn direction_class_of(d: Direction) -> Seq<char> {
    match d {
        Direction::Center => "center"@,
        Direction::Up => "up"@,
        Direction::Left => "left"@,
        Direction::Right => "right"@,
        Direction::Down => "down"@,
    }
}

/// The style class of a direction in the lean preview.
pub fn direction_class(direction: Direction) -> (c: &'static str)
    ensures
        c@ == direction_class_of(direction),
{
    match direction {
        Direction::Center => "center",
        Direction::Up => "up",
        Direction::Left => "left",
        Direction::Right => "right",
        Direction::Down => "down",
    }
}

/// The classes of one member in the lean preview: its direction, and
/// `selected` for the direction the finger leans to.
pub open spec fn preview_class_of(direction: Direction, selected: Direction) -> Seq<char> {
    "flick-preview-member "@ + direction_class_of(direction) + if direction == selected {
        " selected"@
    } else {
        Seq::empty()
    }
}

/// The classes of one member in the lean preview.
pub fn preview_member_class(direction: Direction, selected: Direction) -> (c: String)
    ensures
        c@ == preview_class_of(direction, selected),
{
    proof {
        reveal_strlit("flick-preview-member ");
        reveal_strlit(" selected");
    }
    let mut out = chars_of("flick-preview-member ");
    append_chars(&mut out, chars_of(direction_class(direction)).as_slice());
    if direction == selected {
        append_chars(&mut out, chars_of(" selected").as_slice());
    }
    assert(out@ =~= preview_class_of(direction, selected));
    string_from_chars(out.as_slice())
}

/// The non-empty members among `ms`, in order.
pub open spec fn present_members(ms: Seq<Seq<char>>) -> Seq<Seq<char>>
    decreases ms.len(),
{
    if ms.len() == 0 {
        ms
    } else if ms.last().len() > 0 {
        present_members(ms.drop_last()).push(ms.last())
    } else {
        present_members(ms.drop_last())
    }
}

/// The five members of a key, centre first, as characters.
pub open spec fn key_members(k: Key) -> Seq<Seq<char>> {
    seq![k.center@, k.up@, k.left@, k.right@, k.down@]
}

/// The accessible label of a key: its members, centre first, separated by
/// spaces.
pub fn key_family_label(key: &Key) -> (l: String)
    ensures
        l@ == join_with(present_members(key_members(*key)), " "@),
{
    proof {
        reveal_strlit(" ");
    }
    let members: [&'static str; 5] = [key.center, key.up, key.left, key.right, key.down];
    let ghost ms = key_members(*key);
    let mut parts: Vec<Vec<char>> = Vec::new();
    for i in 0..5usize
        invariant
            ms == key_members(*key),
            members@ == seq![key.center, key.up, key.left, key.right, key.down],
            char_views(parts@) == present_members(ms.take(i as int)),
    {
        assert(ms.take(i + 1).drop_last() =~= ms.take(i as int));
        assert(ms.take(i + 1).last() == members@[i as int]@);
        let m = members[i];
        if !m.is_empty() {
            let ghost before = char_views(parts@);
            parts.push(chars_of(m));
            assert(char_views(parts@) =~= before.push(m@));
        }
    }
    assert(ms.take(5) =~= ms);
    let out = join_chars(&parts, chars_of(" ").as_slice());
    string_from_chars(out.as_slice())
}

/// A key from its five members.
pub fn key(c: &'static str, u: &'static str, l: &'static str, r: &'static str, d: &'static str) -> (k: Key)
    ensures
        k == (Key { center: c, up: u, left: l, right: r, down: d }),
{
    Key { center: c, up: u, left: l, right: r, down: d }
}

/// The keymap's table: row by row, each key's centre, up, left, right and
/// down members (an empty member: no member in that direction).
pub open spec fn keymap_table() -> Seq<Seq<Key>> {
    seq![
        seq![
            Key { center: "ើ", up: "", left: "", right: "", down: "ៀ" },
            Key { center: "េ", up: "ៅ", left: "ៃ", right: "ែ", down: "ោ" },
            Key { center: "ុ", up: "", left: "ឿ", right: "ួ", down: "ូ" },
            Key { center: "ា", up: "ឹ", left: "ី", right: "ឺ", down: "ិ" },
            Key { center: "ះ", up: "", left: "ំ", right: "", down: "" },
        ],
        seq![
            Key { center: "ដ", up: "ណ", left: "ឍ", right: "ឌ", down: "ឋ" },
            Key { center: "ក", up: "ង", left: "ឃ", right: "ខ", down: "គ" },
            Key { center: "រ", up: "ល", left: "យ", right: "វ", down: "" },
            Key { center: "ន", up: "ត", left: "ធ", right: "ថ", down: "ទ" },
            Key { center: "ច", up: "ជ", left: "ឆ", right: "ឈ", down: "ញ" },
        ],
        seq![
            Key { center: "ឯ", up: "ឧ", left: "ឱ", right: "ឬ", down: "ឥ" },
            Key { center: "ស", up: "អ", left: "ឡ", right: "ហ", down: "" },
            Key { center: "្", up: "់", left: "៉", right: "។", down: "" },
            Key { center: "ប", up: "ម", left: "ព", right: "ផ", down: "ភ" },
            Key { center: "ោះ", up: "េះ", left: "ុះ", right: "", down: "" },
        ],
        seq![
            Key { center: "៕", up: "៚", left: "៘", right: "៛", down: "៙" },
            Key { center: "ឲ្យ", up: "ឦ", left: "ឩ", right: "ឳ", down: "ឨ" },
            Key { center: "៏", up: "័", left: "៍", right: "៌", down: "៊" },
            Key { center: "ៈ", up: "ៗ", left: "៎", right: "៖", down: "៑" },
            Key { center: "ឮ", up: "ឪ", left: "ឫ", right: "ឰ", down: "ឭ" },
        ],
    ]
}

/// The frequency-optimised 4×5 keymap: vowel and ending families, the
/// high-traffic consonants, the coeng bridge with rarer groups, and an
/// auxiliary row of signs and composed entries.
pub fn keymap() -> (km: [[Key; 5]; 4])
    ensures
        km@.map_values(|row: [Key; 5]| row@) == keymap_table(),
{
    let km = [
        [
            key("ើ", "", "", "", "ៀ"),
            key("េ", "ៅ", "ៃ", "ែ", "ោ"),
            key("ុ", "", "ឿ", "ួ", "ូ"),
            key("ា", "ឹ", "ី", "ឺ", "ិ"),
            key("ះ", "", "ំ", "", ""),
        ],
        [
            key("ដ", "ណ", "ឍ", "ឌ", "ឋ"),
            key("ក", "ង", "ឃ", "ខ", "គ"),
            key("រ", "ល", "យ", "វ", ""),
            key("ន", "ត", "ធ", "ថ", "ទ"),
            key("ច", "ជ", "ឆ", "ឈ", "ញ"),
        ],
        [
            key("ឯ", "ឧ", "ឱ", "ឬ", "ឥ"),
            key("ស", "អ", "ឡ", "ហ", ""),
            key("្", "់", "៉", "។", ""),
            key("ប", "ម", "ព", "ផ", "ភ"),
            key("ោះ", "េះ", "ុះ", "", ""),
        ],
        [
            key("៕", "៚", "៘", "៛", "៙"),
            key("ឲ្យ", "ឦ", "ឩ", "ឳ", "ឨ"),
            key("៏", "័", "៍", "៌", "៊"),
            key("ៈ", "ៗ", "៎", "៖", "៑"),
            key("ឮ", "ឪ", "ឫ", "ឰ", "ឭ"),
        ],
    ];
    assert(km@.map_values(|row: [Key; 5]| row@) =~= keymap_table());
    km
}

/// The keymap, key by key and lean by lean, in code points: row 0 holds
/// the vowel and ending families, row 1 the high-traffic consonants (its
/// second key is ក, with ង up, ឃ left, ខ right and គ down), row 2 the
/// independent vowels, ស, the coeng bridge, ប and the composed endings,
/// row 3 signs and composed entries. An empty member means the key has
/// nothing in that direction.
pub proof fn law_keymap_members()
    ensures
        member_of(keymap_table()[0][0], Direction::Center)@ == seq!['\u{17BE}'],
        member_of(keymap_table()[0][0], Direction::Up)@ == Seq::<char>::empty(),
        member_of(keymap_table()[0][0], Direction::Left)@ == Seq::<char>::empty(),
        member_of(keymap_table()[0][0], Direction::Right)@ == Seq::<char>::empty(),
        member_of(keymap_table()[0][0], Direction::Down)@ == seq!['\u{17C0}'],
        member_of(keymap_table()[0][1], Direction::Center)@ == seq!['\u{17C1}'],
        member_of(keymap_table()[0][1], Direction::Up)@ == seq!['\u{17C5}'],
        member_of(keymap_table()[0][1], Direction::Left)@ == seq!['\u{17C3}'],
        member_of(keymap_table()[0][1], Direction::Right)@ == seq!['\u{17C2}'],
        member_of(keymap_table()[0][1], Direction::Down)@ == seq!['\u{17C4}'],
        member_of(keymap_table()[0][2], Direction::Center)@ == seq!['\u{17BB}'],
        member_of(keymap_table()[0][2], Direction::Up)@ == Seq::<char>::empty(),
        member_of(keymap_table()[0][2], Direction::Left)@ == seq!['\u{17BF}'],
        member_of(keymap_table()[0][2], Direction::Right)@ == seq!['\u{17BD}'],
        member_of(keymap_table()[0][2], Direction::Down)@ == seq!['\u{17BC}'],
        member_of(keymap_table()[0][3], Direction::Center)@ == seq!['\u{17B6}'],
        member_of(keymap_table()[0][3], Direction::Up)@ == seq!['\u{17B9}'],
        member_of(keymap_table()[0][3], Direction::Left)@ == seq!['\u{17B8}'],
        member_of(keymap_table()[0][3], Direction::Right)@ == seq!['\u{17BA}'],
        member_of(keymap_table()[0][3], Direction::Down)@ == seq!['\u{17B7}'],
        member_of(keymap_table()[0][4], Direction::Center)@ == seq!['\u{17C7}'],
        member_of(keymap_table()[0][4], Direction::Up)@ == Seq::<char>::empty(),
        member_of(keymap_table()[0][4], Direction::Left)@ == seq!['\u{17C6}'],
        member_of(keymap_table()[0][4], Direction::Right)@ == Seq::<char>::empty(),
        member_of(keymap_table()[0][4], Direction::Down)@ == Seq::<char>::empty(),
        member_of(keymap_table()[1][0], Direction::Center)@ == seq!['\u{178A}'],
        member_of(keymap_table()[1][0], Direction::Up)@ == seq!['\u{178E}'],
        member_of(keymap_table()[1][0], Direction::Left)@ == seq!['\u{178D}'],
        member_of(keymap_table()[1][0], Direction::Right)@ == seq!['\u{178C}'],
        member_of(keymap_table()[1][0], Direction::Down)@ == seq!['\u{178B}'],
        member_of(keymap_table()[1][1], Direction::Center)@ == seq!['\u{1780}'],
        member_of(keymap_table()[1][1], Direction::Up)@ == seq!['\u{1784}'],
        member_of(keymap_table()[1][1], Direction::Left)@ == seq!['\u{1783}'],
        member_of(keymap_table()[1][1], Direction::Right)@ == seq!['\u{1781}'],
        member_of(keymap_table()[1][1], Direction::Down)@ == seq!['\u{1782}'],
        member_of(keymap_table()[1][2], Direction::Center)@ == seq!['\u{179A}'],
        member_of(keymap_table()[1][2], Direction::Up)@ == seq!['\u{179B}'],
        member_of(keymap_table()[1][2], Direction::Left)@ == seq!['\u{1799}'],
        member_of(keymap_table()[1][2], Direction::Right)@ == seq!['\u{179C}'],
        member_of(keymap_table()[1][2], Direction::Down)@ == Seq::<char>::empty(),
        member_of(keymap_table()[1][3], Direction::Center)@ == seq!['\u{1793}'],
        member_of(keymap_table()[1][3], Direction::Up)@ == seq!['\u{178F}'],
        member_of(keymap_table()[1][3], Direction::Left)@ == seq!['\u{1792}'],
        member_of(keymap_table()[1][3], Direction::Right)@ == seq!['\u{1790}'],
        member_of(keymap_table()[1][3], Direction::Down)@ == seq!['\u{1791}'],
        member_of(keymap_table()[1][4], Direction::Center)@ == seq!['\u{1785}'],
        member_of(keymap_table()[1][4], Direction::Up)@ == seq!['\u{1787}'],
        member_of(keymap_table()[1][4], Direction::Left)@ == seq!['\u{1786}'],
        member_of(keymap_table()[1][4], Direction::Right)@ == seq!['\u{1788}'],
        member_of(keymap_table()[1][4], Direction::Down)@ == seq!['\u{1789}'],
        member_of(keymap_table()[2][0], Direction::Center)@ == seq!['\u{17AF}'],
        member_of(keymap_table()[2][0], Direction::Up)@ == seq!['\u{17A7}'],
        member_of(keymap_table()[2][0], Direction::Left)@ == seq!['\u{17B1}'],
        member_of(keymap_table()[2][0], Direction::Right)@ == seq!['\u{17AC}'],
        member_of(keymap_table()[2][0], Direction::Down)@ == seq!['\u{17A5}'],
        member_of(keymap_table()[2][1], Direction::Center)@ == seq!['\u{179F}'],
        member_of(keymap_table()[2][1], Direction::Up)@ == seq!['\u{17A2}'],
        member_of(keymap_table()[2][1], Direction::Left)@ == seq!['\u{17A1}'],
        member_of(keymap_table()[2][1], Direction::Right)@ == seq!['\u{17A0}'],
        member_of(keymap_table()[2][1], Direction::Down)@ == Seq::<char>::empty(),
        member_of(keymap_table()[2][2], Direction::Center)@ == seq!['\u{17D2}'],
        member_of(keymap_table()[2][2], Direction::Up)@ == seq!['\u{17CB}'],
        member_of(keymap_table()[2][2], Direction::Left)@ == seq!['\u{17C9}'],
        member_of(keymap_table()[2][2], Direction::Right)@ == seq!['\u{17D4}'],
        member_of(keymap_table()[2][2], Direction::Down)@ == Seq::<char>::empty(),
        member_of(keymap_table()[2][3], Direction::Center)@ == seq!['\u{1794}'],
        member_of(keymap_table()[2][3], Direction::Up)@ == seq!['\u{1798}'],
        member_of(keymap_table()[2][3], Direction::Left)@ == seq!['\u{1796}'],
        member_of(keymap_table()[2][3], Direction::Right)@ == seq!['\u{1795}'],
        member_of(keymap_table()[2][3], Direction::Down)@ == seq!['\u{1797}'],
        member_of(keymap_table()[2][4], Direction::Center)@ == seq!['\u{17C4}', '\u{17C7}'],
        member_of(keymap_table()[2][4], Direction::Up)@ == seq!['\u{17C1}', '\u{17C7}'],
        member_of(keymap_table()[2][4], Direction::Left)@ == seq!['\u{17BB}', '\u{17C7}'],
        member_of(keymap_table()[2][4], Direction::Right)@ == Seq::<char>::empty(),
        member_of(keymap_table()[2][4], Direction::Down)@ == Seq::<char>::empty(),
        member_of(keymap_table()[3][0], Direction::Center)@ == seq!['\u{17D5}'],
        member_of(keymap_table()[3][0], Direction::Up)@ == seq!['\u{17DA}'],
        member_of(keymap_table()[3][0], Direction::Left)@ == seq!['\u{17D8}'],
        member_of(keymap_table()[3][0], Direction::Right)@ == seq!['\u{17DB}'],
        member_of(keymap_table()[3][0], Direction::Down)@ == seq!['\u{17D9}'],
        member_of(keymap_table()[3][1], Direction::Center)@ == seq!['\u{17B2}', '\u{17D2}', '\u{1799}'],
        member_of(keymap_table()[3][1], Direction::Up)@ == seq!['\u{17A6}'],
        member_of(keymap_table()[3][1], Direction::Left)@ == seq!['\u{17A9}'],
        member_of(keymap_table()[3][1], Direction::Right)@ == seq!['\u{17B3}'],
        member_of(keymap_table()[3][1], Direction::Down)@ == seq!['\u{17A8}'],
        member_of(keymap_table()[3][2], Direction::Center)@ == seq!['\u{17CF}'],
        member_of(keymap_table()[3][2], Direction::Up)@ == seq!['\u{17D0}'],
        member_of(keymap_table()[3][2], Direction::Left)@ == seq!['\u{17CD}'],
        member_of(keymap_table()[3][2], Direction::Right)@ == seq!['\u{17CC}'],
        member_of(keymap_table()[3][2], Direction::Down)@ == seq!['\u{17CA}'],
        member_of(keymap_table()[3][3], Direction::Center)@ == seq!['\u{17C8}'],
        member_of(keymap_table()[3][3], Direction::Up)@ == seq!['\u{17D7}'],
        member_of(keymap_table()[3][3], Direction::Left)@ == seq!['\u{17CE}'],
        member_of(keymap_table()[3][3], Direction::Right)@ == seq!['\u{17D6}'],
        member_of(keymap_table()[3][3], Direction::Down)@ == seq!['\u{17D1}'],
        member_of(keymap_table()[3][4], Direction::Center)@ == seq!['\u{17AE}'],
        member_of(keymap_table()[3][4], Direction::Up)@ == seq!['\u{17AA}'],
        member_of(keymap_table()[3][4], Direction::Left)@ == seq!['\u{17AB}'],
        member_of(keymap_table()[3][4], Direction::Right)@ == seq!['\u{17B0}'],
        member_of(keymap_table()[3][4], Direction::Down)@ == seq!['\u{17AD}'],
{
    reveal_strlit("");
    reveal_strlit("ក");
    reveal_strlit("ខ");
    reveal_strlit("គ");
    reveal_strlit("ឃ");
    reveal_strlit("ង");
    reveal_strlit("ច");
    reveal_strlit("ឆ");
    reveal_strlit("ជ");
    reveal_strlit("ឈ");
    reveal_strlit("ញ");
    reveal_strlit("ដ");
    reveal_strlit("ឋ");
    reveal_strlit("ឌ");
    reveal_strlit("ឍ");
    reveal_strlit("ណ");
    reveal_strlit("ត");
    reveal_strlit("ថ");
    reveal_strlit("ទ");
    reveal_strlit("ធ");
    reveal_strlit("ន");
    reveal_strlit("ប");
    reveal_strlit("ផ");
    reveal_strlit("ព");
    reveal_strlit("ភ");
    reveal_strlit("ម");
    reveal_strlit("យ");
    reveal_strlit("រ");
    reveal_strlit("ល");
    reveal_strlit("វ");
    reveal_strlit("ស");
    reveal_strlit("ហ");
    reveal_strlit("ឡ");
    reveal_strlit("អ");
    reveal_strlit("ឥ");
    reveal_strlit("ឦ");
    reveal_strlit("ឧ");
    reveal_strlit("ឨ");
    reveal_strlit("ឩ");
    reveal_strlit("ឪ");
    reveal_strlit("ឫ");
    reveal_strlit("ឬ");
    reveal_strlit("ឭ");
    reveal_strlit("ឮ");
    reveal_strlit("ឯ");
    reveal_strlit("ឰ");
    reveal_strlit("ឱ");
    reveal_strlit("ឲ្យ");
    reveal_strlit("ឳ");
    reveal_strlit("ា");
    reveal_strlit("ិ");
    reveal_strlit("ី");
    reveal_strlit("ឹ");
    reveal_strlit("ឺ");
    reveal_strlit("ុ");
    reveal_strlit("ុះ");
    reveal_strlit("ូ");
    reveal_strlit("ួ");
    reveal_strlit("ើ");
    reveal_strlit("ឿ");
    reveal_strlit("ៀ");
    reveal_strlit("េ");
    reveal_strlit("េះ");
    reveal_strlit("ែ");
    reveal_strlit("ៃ");
    reveal_strlit("ោ");
    reveal_strlit("ោះ");
    reveal_strlit("ៅ");
    reveal_strlit("ំ");
    reveal_strlit("ះ");
    reveal_strlit("ៈ");
    reveal_strlit("៉");
    reveal_strlit("៊");
    reveal_strlit("់");
    reveal_strlit("៌");
    reveal_strlit("៍");
    reveal_strlit("៎");
    reveal_strlit("៏");
    reveal_strlit("័");
    reveal_strlit("៑");
    reveal_strlit("្");
    reveal_strlit("។");
    reveal_strlit("៕");
    reveal_strlit("៖");
    reveal_strlit("ៗ");
    reveal_strlit("៘");
    reveal_strlit("៙");
    reveal_strlit("៚");
    reveal_strlit("៛");
}

/// The concatenation of `units`.
pub open spec fn concat_units(units: Seq<Seq<char>>) -> Seq<char>
    decreases units.len(),
{
    if units.len() == 0 {
        Seq::empty()
    } else {
        concat_units(units.drop_last()) + units.last()
    }
}

/// The preedit's text is its units in order: none gives the empty text,
/// one gives that unit, and the text of two runs of units is the first
/// run's text followed by the second's.
pub proof fn law_preedit_text_in_order(us: Seq<Seq<char>>, vs: Seq<Seq<char>>, u: Seq<char>)
    ensures
        concat_units(Seq::empty()) == Seq::<char>::empty(),
        concat_units(seq![u]) == u,
        concat_units(us + vs) == concat_units(us) + concat_units(vs),
    decreases vs.len(),
{
    assert(seq![u].drop_last() =~= Seq::<Seq<char>>::empty());
    assert(Seq::<char>::empty() + u =~= u);
    if vs.len() == 0 {
        assert(us + vs =~= us);
        assert(concat_units(us) + Seq::<char>::empty() =~= concat_units(us));
    } else {
        law_preedit_text_in_order(us, vs.drop_last(), u);
        assert((us + vs).drop_last() =~= us + vs.drop_last());
        assert((us + vs).last() == vs.last());
        assert(concat_units(us) + concat_units(vs.drop_last()) + vs.last() =~= concat_units(us) + (concat_units(
            vs.drop_last(),
        ) + vs.last()));
    }
}

/// The Flick preedit: a stack of atomic entry units, each one selected
/// member (possibly several code points).
#[derive(Debug, PartialEq, Eq)]
pub struct Preedit {
    units: Vec<String>,
}

impl View for Preedit {
    type V = Seq<Seq<char>>;

    closed spec fn view(&self) -> Seq<Seq<char>> {
        self.units@.map_values(|u: String| u@)
    }
}

impl Preedit {
    /// An empty preedit.
    pub fn new() -> (p: Self)
        ensures
            p@ == Seq::<Seq<char>>::empty(),
    {
        let p = Preedit { units: Vec::new() };
        assert(p@ =~= Seq::<Seq<char>>::empty());
        p
    }

    /// A preedit holding `text` as one unit (none for empty text).
    pub fn from_text(text: String) -> (p: Self)
        ensures
            p@ == (if text@.len() == 0 {
                Seq::<Seq<char>>::empty()
            } else {
                seq![text@]
            }),
    {
        let mut units = Vec::new();
        if !text.as_str().is_empty() {
            units.push(text);
        }
        let p = Preedit { units };
        assert(p@ =~= (if p.units@.len() == 0 {
            Seq::<Seq<char>>::empty()
        } else {
            seq![p.units@[0]@]
        }));
        p
    }

    /// Pushes `member` as a new unit; an empty member is ignored.
    pub fn push(&mut self, member: &str)
        ensures
            final(self)@ == (if member@.len() == 0 {
                old(self)@
            } else {
                old(self)@.push(member@)
            }),
    {
        if !member.is_empty() {
            let chars = chars_of(member);
            let unit = string_from_chars(&chars);
            self.units.push(unit);
            assert(self@ =~= old(self)@.push(member@));
        }
    }

    /// Removes the last unit; returns whether there was one.
    pub fn backspace(&mut self) -> (removed: bool)
        ensures
            removed == (old(self)@.len() > 0),
            final(self)@ == (if removed {
                old(self)@.drop_last()
            } else {
                old(self)@
            }),
    {
        let r = self.units.pop().is_some();
        assert(self@ =~= (if r { old(self)@.drop_last() } else { old(self)@ }));
        r
    }

    /// Removes and returns the last unit.
    pub fn pop_unit(&mut self) -> (unit: Option<String>)
        ensures
            old(self)@.len() == 0 ==> unit is None && final(self)@ == old(self)@,
            old(self)@.len() > 0 ==> (unit matches Some(u) && u@ == old(self)@.last() && final(self)@
                == old(self)@.drop_last()),
    {
        let u = self.units.pop();
        assert(self@ =~= (if old(self)@.len() > 0 { old(self)@.drop_last() } else { old(self)@ }));
        u
    }

    /// The preedit text: the units joined.
    pub fn text(&self) -> (t: String)
        ensures
            t@ == concat_units(self@),
    {
        let mut out: Vec<char> = Vec::new();
        let mut i: usize = 0;
        while i < self.units.len()
            invariant
                i <= self.units@.len(),
                out@ == concat_units(self@.take(i as int)),
            decreases self.units@.len() - i,
        {
            let unit = chars_of(self.units[i].as_str());
            append_chars(&mut out, &unit);
            proof {
                assert(self@.take(i + 1).drop_last() =~= self@.take(i as int));
                assert(self@.take(i + 1).last() == self.units@[i as int]@);
            }
            i = i + 1;
        }
        assert(self@.take(i as int) =~= self@);
        string_from_chars(&out)
    }

    /// Whether the preedit holds no unit.
    pub fn is_empty(&self) -> (b: bool)
        ensures
            b == (self@.len() == 0),
    {
        self.units.len() == 0
    }

    /// Returns the preedit text and clears the stack.
    pub fn take(&mut self) -> (t: String)
        ensures
            t@ == concat_units(old(self)@),
            final(self)@ == Seq::<Seq<char>>::empty(),
    {
        let t = self.text();
        self.units.clear();
        assert(self@ =~= Seq::<Seq<char>>::empty());
        t
    }
}

impl Default for Preedit {
    /// An empty preedit.
    fn default() -> (p: Self)
        ensures
            p@ == Seq::<Seq<char>>::empty(),
    {
        Preedit::new()
    }
}

/// A document edit: the new text and the caret, in characters.
#[derive(Debug, PartialEq, Eq)]
pub struct DocEdit {
    pub text: String,
    pub caret: usize,
}

/// `i` clamped to `0..=n`.
pub open spec fn clamp_to(i: int, n: int) -> int {
    if i < n {
        i
    } else {
        n
    }
}

/// The selection `[sel_start, sel_end)` clamped to a text of `n` characters,
/// an inverted selection collapsing onto its start.
pub open spec fn selection(sel_start: int, sel_end: int, n: int) -> (int, int) {
    let start = clamp_to(sel_start, n);
    let end = clamp_to(sel_end, n);
    (start, if end < start {
        start
    } else {
        end
    })
}

/// `insert` typed over the selection: the selected characters replaced and
/// the caret after the inserted text.
pub open spec fn inserted(text: Seq<char>, sel_start: int, sel_end: int, insert: Seq<char>) -> (Seq<char>, int) {
    let (start, end) = selection(sel_start, sel_end, text.len() as int);
    (text.take(start) + insert + text.skip(end), start + insert.len())
}

/// A backspace: deletes the selection, or else the character before the
/// caret; nothing at the start of the text.
pub open spec fn backspaced(text: Seq<char>, sel_start: int, sel_end: int) -> (Seq<char>, int) {
    let (start, end) = selection(sel_start, sel_end, text.len() as int);
    if start != end {
        (text.take(start) + text.skip(end), start)
    } else if start == 0 {
        (text, 0)
    } else {
        (text.take(start - 1) + text.skip(start), start - 1)
    }
}

/// Inserts `insert` into `text` over the selection `[sel_start, sel_end)`.
pub fn insert_at(text: &str, sel_start: usize, sel_end: usize, insert: &str) -> (e: DocEdit)
    requires
        text@.len() + insert@.len() <= usize::MAX,
    ensures
        (e.text@, e.caret as int) == inserted(text@, sel_start as int, sel_end as int, insert@),
{
    let chars = chars_of(text);
    let n = chars.len();
    let start = if sel_start < n { sel_start } else { n };
    let end0 = if sel_end < n { sel_end } else { n };
    let end = if end0 < start { start } else { end0 };
    let mut out = slice_to_vec(&chars, 0, start);
    let ins = chars_of(insert);
    append_chars(&mut out, &ins);
    let tail = slice_to_vec(&chars, end, n);
    append_chars(&mut out, &tail);
    assert(chars@.subrange(0, start as int) =~= text@.take(start as int));
    assert(chars@.subrange(end as int, n as int) =~= text@.skip(end as int));
    DocEdit { text: string_from_chars(&out), caret: start + ins.len() }
}

/// Deletes the selection, or one character before the caret.
pub fn backspace_at(text: &str, sel_start: usize, sel_end: usize) -> (e: DocEdit)
    ensures
        (e.text@, e.caret as int) == backspaced(text@, sel_start as int, sel_end as int),
{
    let chars = chars_of(text);
    let n = chars.len();
    let start = if sel_start < n { sel_start } else { n };
    let end0 = if sel_end < n { sel_end } else { n };
    let end = if end0 < start { start } else { end0 };
    if start != end {
        let mut out = slice_to_vec(&chars, 0, start);
        let tail = slice_to_vec(&chars, end, n);
        append_chars(&mut out, &tail);
        assert(chars@.subrange(0, start as int) =~= text@.take(start as int));
        assert(chars@.subrange(end as int, n as int) =~= text@.skip(end as int));
        return DocEdit { text: string_from_chars(&out), caret: start };
    }
    if start == 0 {
        return DocEdit { text: string_from_chars(&chars), caret: 0 };
    }
    let mut out = slice_to_vec(&chars, 0, start - 1);
    let tail = slice_to_vec(&chars, start, n);
    append_chars(&mut out, &tail);
    assert(chars@.subrange(0, start - 1) =~= text@.take(start - 1));
    assert(chars@.subrange(start as int, n as int) =~= text@.skip(start as int));
    DocEdit { text: string_from_chars(&out), caret: start - 1 }
}

/// Typing at a caret puts the typed text there and the caret after it;
/// typing over a selection replaces it. A backspace at a caret deletes the
/// one character before it (nothing at the start), and over a selection
/// deletes the selection, leaving the caret where it began.
pub proof fn law_typing_and_deleting_at_the_caret(text: Seq<char>, a: int, b: int, x: Seq<char>)
    requires
        0 <= a <= b <= text.len(),
    ensures
        inserted(text, a, b, x).0 =~= text.subrange(0, a) + x + text.subrange(b, text.len() as int),
        inserted(text, a, b, x).1 == a + x.len(),
        a < b ==> backspaced(text, a, b).0 =~= text.subrange(0, a) + text.subrange(b, text.len() as int)
            && backspaced(text, a, b).1 == a,
        a == b && a > 0 ==> backspaced(text, a, b).0 =~= text.subrange(0, a - 1) + text.subrange(a, text.len() as int)
            && backspaced(text, a, b).1 == a - 1,
        a == b && a == 0 ==> backspaced(text, a, b) == (text, 0int),
        backspaced(text, a, b).0.len() == text.len() - if a < b { b - a } else if a > 0 { 1int } else { 0int },
{
}

/// Typing one character at the caret and then pressing backspace gives the
/// original text and caret back.
pub proof fn law_backspace_undoes_typing(text: Seq<char>, caret: int, c: char)
    requires
        0 <= caret <= text.len(),
    ensures
        backspaced(inserted(text, caret, caret, seq![c]).0, inserted(text, caret, caret, seq![c]).1, inserted(
            text,
            caret,
            caret,
            seq![c],
        ).1) == (text, caret),
{
    let t2 = text.take(caret) + seq![c] + text.skip(caret);
    assert(t2.take(caret) =~= text.take(caret));
    assert(t2.skip(caret + 1) =~= text.skip(caret));
    assert(text.take(caret) + text.skip(caret) =~= text);
}

/// Typing a selected member pushes it as one unit, and taking the last unit
/// back gives that member and the preedit as it was.
pub proof fn law_pop_undoes_push(units: Seq<Seq<char>>, member: Seq<char>)
    requires
        member.len() > 0,
    ensures
        units.push(member).last() == member,
        units.push(member).drop_last() == units,
        concat_units(units.push(member)) == concat_units(units) + member,
{
    assert(units.push(member).drop_last() =~= units);
}

} // verus!
