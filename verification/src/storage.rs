//! The editor's persisted settings: theme and palette with their page
//! attributes and storage keys, and the reading of stored numbers and flags.
//! The browser's storage itself is read and written by the app.

use vstd::prelude::*;
use crate::text::{chars_eq, chars_of, parse_usize, parse_usize_spec};

verus! {

/// The editor's brightness mode.
#[derive(Clone, Copy, Debug, PartialEq, Eq, Structural)]
pub enum Theme {
    Light,
    Dark,
}

/// The editor's color palette.
#[derive(Clone, Copy, Debug, PartialEq, Eq, Structural)]
pub enum Palette {
    Default,
    Angkor,
    Lotus,
    Forest,
}

impl Default for Palette {
    fn default() -> (p: Self)
        ensures
            p == Palette::Default,
    {
        Palette::Default
    }
}

/// The characters of an optional static string.
pub open spec fn opt_chars(o: Option<&'static str>) -> Option<Seq<char>> {
    match o {
        Some(s) => Some(s@),
        None => None,
    }
}

/// The page attribute of a theme.
pub open spec fn theme_attr(t: Theme) -> Seq<char> {
    match t {
        Theme::Light => "light"@,
        Theme::Dark => "dark"@,
    }
}

/// The page attribute of a palette; the default palette sets none.
pub open spec fn palette_attr(p: Palette) -> Option<Seq<char>> {
    match p {
        Palette::Default => None,
        Palette::Angkor => Some("angkor"@),
        Palette::Lotus => Some("lotus"@),
        Palette::Forest => Some("forest"@),
    }
}

/// The palette a stored key names.
pub open spec fn palette_from_key(value: Seq<char>) -> Option<Palette> {
    if value == "default"@ {
        Some(Palette::Default)
    } else if value == "angkor"@ {
        Some(Palette::Angkor)
    } else if value == "lotus"@ {
        Some(Palette::Lotus)
    } else if value == "forest"@ {
        Some(Palette::Forest)
    } else {
        None
    }
}

/// The theme a stored key names.
pub open spec fn theme_from_key(value: Seq<char>) -> Option<Theme> {
    if value == "light"@ {
        Some(Theme::Light)
    } else if value == "dark"@ {
        Some(Theme::Dark)
    } else {
        None
    }
}

impl Palette {
    /// The attribute the page root carries for this palette.
    pub fn data_attr(self) -> (a: Option<&'static str>)
        ensures
            opt_chars(a) == palette_attr(self),
    {
        match self {
            Palette::Default => None,
            Palette::Angkor => Some("angkor"),
            Palette::Lotus => Some("lotus"),
            Palette::Forest => Some("forest"),
        }
    }

    /// The value stored for this palette.
    pub fn storage_key(self) -> (k: &'static str)
        ensures
            k@ == match palette_attr(self) {
                Some(a) => a,
                None => "default"@,
            },
    {
        match self.data_attr() {
            Some(a) => a,
            None => "default",
        }
    }

    /// The palette a stored value names, if any.
    pub fn from_storage_key(value: &str) -> (p: Option<Palette>)
        ensures
            p == palette_from_key(value@),
    {
        let v = chars_of(value);
        if chars_eq(v.as_slice(), chars_of("default").as_slice()) {
            Some(Palette::Default)
        } else if chars_eq(v.as_slice(), chars_of("angkor").as_slice()) {
            Some(Palette::Angkor)
        } else if chars_eq(v.as_slice(), chars_of("lotus").as_slice()) {
            Some(Palette::Lotus)
        } else if chars_eq(v.as_slice(), chars_of("forest").as_slice()) {
            Some(Palette::Forest)
        } else {
            None
        }
    }
}

impl Theme {
    /// The attribute the page root carries for this theme.
    pub fn data_attr(self) -> (a: Option<&'static str>)
        ensures
            opt_chars(a) == Some(theme_attr(self)),
    {
        match self {
            Theme::Light => Some("light"),
            Theme::Dark => Some("dark"),
        }
    }

    /// The value stored for this theme.
    pub fn storage_key(self) -> (k: &'static str)
        ensures
            k@ == theme_attr(self),
    {
        match self {
            Theme::Light => "light",
            Theme::Dark => "dark",
        }
    }

    /// The theme a stored value names, if any.
    pub fn from_storage_key(value: &str) -> (t: Option<Theme>)
        ensures
            t == theme_from_key(value@),
    {
        let v = chars_of(value);
        if chars_eq(v.as_slice(), chars_of("light").as_slice()) {
            Some(Theme::Light)
        } else if chars_eq(v.as_slice(), chars_of("dark").as_slice()) {
            Some(Theme::Dark)
        } else {
            None
        }
    }
}

/// A stored theme reads back as the same theme.
pub proof fn law_theme_round_trip(t: Theme)
    ensures
        theme_from_key(theme_attr(t)) == Some(t),
{
    reveal_strlit("light");
    reveal_strlit("dark");
    assert("light"@[0] != "dark"@[0]);
}

/// A stored palette reads back as the same palette.
pub proof fn law_palette_round_trip(p: Palette)
    ensures
        palette_from_key(
            match palette_attr(p) {
                Some(a) => a,
                None => "default"@,
            },
        ) == Some(p),
{
    reveal_strlit("default");
    reveal_strlit("angkor");
    reveal_strlit("lotus");
    reveal_strlit("forest");
    assert("default"@[0] != "angkor"@[0] && "default"@[0] != "lotus"@[0] && "default"@[0] != "forest"@[0]);
    assert("angkor"@[0] != "lotus"@[0] && "angkor"@[0] != "forest"@[0] && "lotus"@[0] != "forest"@[0]);
}

/// The theme the editor starts with: the stored one, else light.
pub fn theme_or_default(stored: Option<&str>) -> (t: Theme)
    ensures
        t == match stored {
            Some(v) => match theme_from_key(v@) {
                Some(t) => t,
                None => Theme::Light,
            },
            None => Theme::Light,
        },
{
    match stored {
        Some(v) => match Theme::from_storage_key(v) {
            Some(t) => t,
            None => Theme::Light,
        },
        None => Theme::Light,
    }
}

/// The palette the editor starts with: the stored one, else the default.
pub fn palette_or_default(stored: Option<&str>) -> (p: Palette)
    ensures
        p == match stored {
            Some(v) => match palette_from_key(v@) {
                Some(p) => p,
                None => Palette::Default,
            },
            None => Palette::Default,
        },
{
    match stored {
        Some(v) => match Palette::from_storage_key(v) {
            Some(p) => p,
            None => Palette::Default,
        },
        None => Palette::Default,
    }
}

/// A stored on/off flag: anything but `"0"` is on; a missing value takes
/// `missing`.
pub fn stored_flag(stored: Option<&str>, missing: bool) -> (b: bool)
    ensures
        b == match stored {
            Some(v) => v@ != "0"@,
            None => missing,
        },
{
    match stored {
        Some(v) => !chars_eq(chars_of(v).as_slice(), chars_of("0").as_slice()),
        None => missing,
    }
}

/// The value stored for an on/off flag.
pub fn flag_value(on: bool) -> (v: &'static str)
    ensures
        v@ == if on {
            "1"@
        } else {
            "0"@
        },
{
    if on {
        "1"
    } else {
        "0"
    }
}

/// `value` clamped to `[min, max]`.
pub open spec fn clamped(value: int, min: int, max: int) -> int {
    if value < min {
        min
    } else if value > max {
        max
    } else {
        value
    }
}

/// The font size the editor starts with: a stored number clamped to the
/// allowed range, else the default.
pub fn stored_font_size(stored: Option<&str>, min_font_size: usize, max_font_size: usize, default_font_size: usize) -> (n:
    usize)
    requires
        min_font_size <= max_font_size,
    ensures
        n == match stored {
            Some(v) => match parse_usize_spec(v@) {
                Some(x) => clamped(x as int, min_font_size as int, max_font_size as int),
                None => default_font_size as int,
            },
            None => default_font_size as int,
        },
{
    match stored {
        Some(v) => {
            let chars = chars_of(v);
            proof {
                assert(chars@.subrange(0, chars@.len() as int) =~= chars@);
            }
            match parse_usize(chars.as_slice(), 0, chars.len()) {
                Some(x) => if x < min_font_size {
                    min_font_size
                } else if x > max_font_size {
                    max_font_size
                } else {
                    x
                },
                None => default_font_size,
            }
        },
        None => default_font_size,
    }
}

} // verus!
