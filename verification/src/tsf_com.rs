//! COM server bookkeeping for the TSF DLL: the live-object and server-lock
//! counts that decide whether the DLL may unload, the class factory that
//! counts itself, and the text encodings registration writes.

use vstd::prelude::*;
use crate::text::{append_chars, chars_of, string_from_chars};

verus! {

/// The counts a COM DLL keeps: live objects and `LockServer` locks. The
/// counters wrap on overflow and underflow, as atomic fetch-add and
/// fetch-sub do.
#[derive(Clone, Copy, Debug, Default, PartialEq, Eq, Structural)]
pub struct ComServerCounts {
    pub objects: u32,
    pub locks: u32,
}

/// `x + 1` in 32-bit wrapping arithmetic.
pub open spec fn wrap_inc(x: u32) -> u32 {
    if x == u32::MAX {
        0
    } else {
        (x + 1) as u32
    }
}

/// `x - 1` in 32-bit wrapping arithmetic.
pub open spec fn wrap_dec(x: u32) -> u32 {
    if x == 0 {
        u32::MAX
    } else {
        (x - 1) as u32
    }
}

impl ComServerCounts {
    /// A server with no objects and no locks.
    pub fn new() -> (c: Self)
        ensures
            c.objects == 0,
            c.locks == 0,
    {
        ComServerCounts { objects: 0, locks: 0 }
    }

    /// Records that a COM object was created.
    pub fn object_created(&mut self)
        ensures
            final(self).objects == wrap_inc(old(self).objects),
            final(self).locks == old(self).locks,
    {
        self.objects = if self.objects == u32::MAX { 0 } else { self.objects + 1 };
    }

    /// Records that a COM object was released.
    pub fn object_released(&mut self)
        ensures
            final(self).objects == wrap_dec(old(self).objects),
            final(self).locks == old(self).locks,
    {
        self.objects = if self.objects == 0 { u32::MAX } else { self.objects - 1 };
    }

    /// `IClassFactory::LockServer`: takes a lock when `lock` is true and
    /// drops one otherwise.
    pub fn lock_server(&mut self, lock: bool)
        ensures
            final(self).objects == old(self).objects,
            final(self).locks == if lock {
                wrap_inc(old(self).locks)
            } else {
                wrap_dec(old(self).locks)
            },
    {
        if lock {
            self.locks = if self.locks == u32::MAX { 0 } else { self.locks + 1 };
        } else {
            self.locks = if self.locks == 0 { u32::MAX } else { self.locks - 1 };
        }
    }

    /// `DllCanUnloadNow`: the DLL may unload when no object is alive and no
    /// lock is held.
    pub fn can_unload_now(&self) -> (b: bool)
        ensures
            b == (self.objects == 0 && self.locks == 0),
    {
        self.objects == 0 && self.locks == 0
    }
}

/// Creating an object and then releasing it leaves the counts as they were.
pub proof fn law_create_release_restores(c: ComServerCounts)
    ensures
        wrap_dec(wrap_inc(c.objects)) == c.objects,
        wrap_inc(wrap_dec(c.objects)) == c.objects,
{
}

/// Taking a server lock and dropping it leaves the counts as they were.
pub proof fn law_lock_unlock_restores(c: ComServerCounts)
    ensures
        wrap_dec(wrap_inc(c.locks)) == c.locks,
{
}

/// The class factory of the text service; each factory counts as a live
/// object of the server.
#[derive(Debug)]
pub struct KhmerImeClassFactory;

impl KhmerImeClassFactory {
    /// Creates a factory and counts it as a live object.
    pub fn new(counts: &mut ComServerCounts) -> (f: Self)
        ensures
            final(counts).objects == wrap_inc(old(counts).objects),
            final(counts).locks == old(counts).locks,
    {
        counts.object_created();
        KhmerImeClassFactory
    }

    /// Drops a factory and uncounts it.
    pub fn release(self, counts: &mut ComServerCounts)
        ensures
            final(counts).objects == wrap_dec(old(counts).objects),
            final(counts).locks == old(counts).locks,
    {
        counts.object_released();
    }
}

/// The UTF-16 code units of one character.
pub open spec fn utf16_of(c: char) -> Seq<u16> {
    let v = c as u32;
    if v < 0x10000 {
        seq![v as u16]
    } else {
        seq![(0xD800 + (v - 0x10000) / 1024) as u16, (0xDC00 + (v - 0x10000) % 1024) as u16]
    }
}

/// The UTF-16 encoding of a character sequence.
pub open spec fn utf16(s: Seq<char>) -> Seq<u16>
    decreases s.len(),
{
    if s.len() == 0 {
        Seq::empty()
    } else {
        utf16(s.drop_last()) + utf16_of(s.last())
    }
}

/// A NUL-terminated UTF-16 string, as registry and COM APIs take.
pub fn wide_null(value: &str) -> (out: Vec<u16>)
    ensures
        out@ == utf16(value@).push(0u16),
{
    let chars = chars_of(value);
    let mut out: Vec<u16> = Vec::new();
    for i in 0..chars.len()
        invariant
            chars@ == value@,
            out@ == utf16(chars@.take(i as int)),
    {
        let c = chars[i];
        let v = c as u32;
        proof {
            assert(chars@.take(i + 1).drop_last() =~= chars@.take(i as int));
            assert(chars@.take(i + 1).last() == c);
        }
        if v < 0x10000 {
            out.push(v as u16);
        } else {
            let w = v - 0x10000;
            out.push((0xD800 + w / 1024) as u16);
            out.push((0xDC00 + w % 1024) as u16);
        }
        proof {
            assert(out@ =~= utf16(chars@.take(i + 1)));
        }
    }
    assert(chars@.take(chars@.len() as int) =~= chars@);
    out.push(0);
    out
}

/// A 128-bit COM identifier in its four-field layout.
#[derive(Clone, Copy, Debug, PartialEq, Eq)]
pub struct Guid {
    pub data1: u32,
    pub data2: u16,
    pub data3: u16,
    pub data4: [u8; 8],
}

/// The upper-case hex digit for `d < 16`.
pub open spec fn hex_digit(d: nat) -> char {
    if d < 10 {
        ('0' as nat + d) as char
    } else {
        ('A' as nat + d - 10) as char
    }
}

/// The last `w` hex digits of `n`, zero-padded, most significant first.
pub open spec fn hex_fixed(n: nat, w: nat) -> Seq<char>
    decreases w,
{
    if w == 0 {
        Seq::empty()
    } else {
        hex_fixed(n / 16, (w - 1) as nat).push(hex_digit(n % 16))
    }
}

/// The registry form of a GUID: `{XXXXXXXX-XXXX-XXXX-XXXX-XXXXXXXXXXXX}`.
pub open spec fn guid_text(g: Guid) -> Seq<char> {
    seq!['{'] + hex_fixed(g.data1 as nat, 8) + seq!['-'] + hex_fixed(g.data2 as nat, 4) + seq!['-'] + hex_fixed(
        g.data3 as nat,
        4,
    ) + seq!['-'] + hex_fixed(g.data4[0] as nat, 2) + hex_fixed(g.data4[1] as nat, 2) + seq!['-']
        + hex_fixed(g.data4[2] as nat, 2) + hex_fixed(g.data4[3] as nat, 2) + hex_fixed(g.data4[4] as nat, 2)
        + hex_fixed(g.data4[5] as nat, 2) + hex_fixed(g.data4[6] as nat, 2) + hex_fixed(g.data4[7] as nat, 2)
        + seq!['}']
}

/// Appends the last `w` hex digits of `n` to `out`.
fn push_hex(out: &mut Vec<char>, n: u64, w: usize)
    requires
        w <= 16,
    ensures
        final(out)@ == old(out)@ + hex_fixed(n as nat, w as nat),
{
    let mut digits: Vec<char> = Vec::new();
    let mut m: u64 = n;
    let mut k: usize = 0;
    while k < w
        invariant
            k <= w,
            w <= 16,
            digits@.len() == k,
            hex_fixed(n as nat, w as nat) == hex_fixed(m as nat, (w - k) as nat) + digits@,
        decreases w - k,
    {
        let d = m % 16;
        let c: char = if d < 10 {
            ((0x30 + d) as u8) as char
        } else {
            ((0x41 + d - 10) as u8) as char
        };
        proof {
            assert(c == hex_digit(d as nat));
            assert(hex_fixed(m as nat, (w - k) as nat) == hex_fixed((m / 16) as nat, (w - k - 1) as nat).push(c));
            assert(hex_fixed((m / 16) as nat, (w - k - 1) as nat).push(c) + digits@ =~= hex_fixed(
                (m / 16) as nat,
                (w - k - 1) as nat,
            ) + seq![c].add(digits@));
        }
        digits.insert(0, c);
        m = m / 16;
        k = k + 1;
    }
    assert(hex_fixed(m as nat, 0) =~= Seq::<char>::empty());
    assert(hex_fixed(n as nat, w as nat) =~= digits@);
    let mut i: usize = 0;
    let ghost start = out@;
    while i < digits.len()
        invariant
            i <= digits@.len(),
            out@ == start + digits@.take(i as int),
        decreases digits@.len() - i,
    {
        out.push(digits[i]);
        i = i + 1;
        assert(out@ =~= start + digits@.take(i as int));
    }
    assert(digits@.take(digits@.len() as int) =~= digits@);
}

/// Formats a GUID in registry form.
pub fn guid_braced(guid: &Guid) -> (s: Vec<char>)
    ensures
        s@ == guid_text(*guid),
{
    let mut out: Vec<char> = Vec::new();
    out.push('{');
    push_hex(&mut out, guid.data1 as u64, 8);
    out.push('-');
    push_hex(&mut out, guid.data2 as u64, 4);
    out.push('-');
    push_hex(&mut out, guid.data3 as u64, 4);
    out.push('-');
    push_hex(&mut out, guid.data4[0] as u64, 2);
    push_hex(&mut out, guid.data4[1] as u64, 2);
    out.push('-');
    push_hex(&mut out, guid.data4[2] as u64, 2);
    push_hex(&mut out, guid.data4[3] as u64, 2);
    push_hex(&mut out, guid.data4[4] as u64, 2);
    push_hex(&mut out, guid.data4[5] as u64, 2);
    push_hex(&mut out, guid.data4[6] as u64, 2);
    push_hex(&mut out, guid.data4[7] as u64, 2);
    out.push('}');
    assert(out@ =~= guid_text(*guid));
    out
}

/// The text service's display name.
pub const TEXT_SERVICE_DESCRIPTION: &'static str = "KhmerIME";

/// The Khmer language identifier the input profile registers under.
pub const KHMER_LANGUAGE_ID: u16 = 0x0453;

/// The text service's COM class identifier,
/// `{79F0A9C7-FEC5-4637-9D9D-4DFC54C8B5C2}`.
pub fn clsid_khmerime_text_service() -> (g: Guid)
    ensures
        g == (Guid {
            data1: 0x79f0a9c7,
            data2: 0xfec5,
            data3: 0x4637,
            data4: [0x9d, 0x9d, 0x4d, 0xfc, 0x54, 0xc8, 0xb5, 0xc2],
        }),
{
    Guid { data1: 0x79f0a9c7, data2: 0xfec5, data3: 0x4637, data4: [0x9d, 0x9d, 0x4d, 0xfc, 0x54, 0xc8, 0xb5, 0xc2] }
}

/// The text service's input profile identifier,
/// `{40FA8742-C6EF-4C1B-9F9A-AE064A6EC66D}`.
pub fn guid_khmerime_profile() -> (g: Guid)
    ensures
        g == (Guid {
            data1: 0x40fa8742,
            data2: 0xc6ef,
            data3: 0x4c1b,
            data4: [0x9f, 0x9a, 0xae, 0x06, 0x4a, 0x6e, 0xc6, 0x6d],
        }),
{
    Guid { data1: 0x40fa8742, data2: 0xc6ef, data3: 0x4c1b, data4: [0x9f, 0x9a, 0xae, 0x06, 0x4a, 0x6e, 0xc6, 0x6d] }
}

/// One registry value to write under `HKEY_CLASSES_ROOT`: its key, its name
/// (the key's default value when none) and its text.
#[derive(Clone, Debug, PartialEq, Eq)]
pub struct RegistryValue {
    pub subkey: String,
    pub name: Option<String>,
    pub value: String,
}

/// The key of a COM class: `CLSID\` and the class's braced identifier.
pub open spec fn class_key_text(clsid: Guid) -> Seq<char> {
    "CLSID\\"@ + guid_text(clsid)
}

/// The key of a COM class, which unregistering deletes whole.
pub fn com_class_key(clsid: &Guid) -> (k: String)
    ensures
        k@ == class_key_text(*clsid),
{
    proof {
        reveal_strlit("CLSID\\");
    }
    let mut out = chars_of("CLSID\\");
    let braced = guid_braced(clsid);
    append_chars(&mut out, braced.as_slice());
    string_from_chars(out.as_slice())
}

/// The view of a registry value.
pub open spec fn registry_value_view(v: RegistryValue) -> (Seq<char>, Option<Seq<char>>, Seq<char>) {
    (
        v.subkey@,
        match v.name {
            Some(n) => Some(n@),
            None => None,
        },
        v.value@,
    )
}

/// The values that register an in-process COM class served by
/// `server_path`: the class key's name, its server path, and the apartment
/// threading model.
pub open spec fn class_registration(clsid: Guid, server_path: Seq<char>) -> Seq<
    (Seq<char>, Option<Seq<char>>, Seq<char>),
> {
    let key = class_key_text(clsid);
    let server = key + "\\InprocServer32"@;
    seq![
        (key, None, TEXT_SERVICE_DESCRIPTION@),
        (server, None, server_path),
        (server, Some("ThreadingModel"@), "Apartment"@),
    ]
}

/// The registry values that register the text service's COM class (see
/// `class_registration`).
pub fn com_class_registry_values(clsid: &Guid, server_path: &str) -> (v: Vec<RegistryValue>)
    ensures
        v@.map_values(|r: RegistryValue| registry_value_view(r)) == class_registration(*clsid, server_path@),
{
    proof {
        reveal_strlit("\\InprocServer32");
    }
    let key = com_class_key(clsid);
    let mut server_chars = chars_of(key.as_str());
    append_chars(&mut server_chars, chars_of("\\InprocServer32").as_slice());
    let server = string_from_chars(server_chars.as_slice());
    let server2 = string_from_chars(server_chars.as_slice());
    let mut v: Vec<RegistryValue> = Vec::new();
    v.push(RegistryValue { subkey: key, name: None, value: TEXT_SERVICE_DESCRIPTION.to_string() });
    v.push(RegistryValue { subkey: server, name: None, value: server_path.to_string() });
    v.push(
        RegistryValue {
            subkey: server2,
            name: Some("ThreadingModel".to_string()),
            value: "Apartment".to_string(),
        },
    );
    assert(v@.map_values(|r: RegistryValue| registry_value_view(r)) =~= class_registration(*clsid, server_path@));
    v
}

} // verus!
