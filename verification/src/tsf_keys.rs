//! Windows key handling for the TSF text service: virtual-key conversion to
//! the session's keysym contract, the characters a virtual key types, the
//! modifier bits read from the keyboard state, and the prediction of whether
//! the session will eat a key.

use vstd::prelude::*;
use crate::session::{NativeKeyEvent, SessionSnapshot};

verus! {

/// Key conversion is implemented for the contract layer.
pub const KEY_CONVERSION_IMPLEMENTED: bool = true;

pub const VK_BACK: u32 = 0x08;
pub const VK_TAB: u32 = 0x09;
pub const VK_RETURN: u32 = 0x0D;
pub const VK_ESCAPE: u32 = 0x1B;
pub const VK_SPACE: u32 = 0x20;
pub const VK_LEFT: u32 = 0x25;
pub const VK_UP: u32 = 0x26;
pub const VK_RIGHT: u32 = 0x27;
pub const VK_DOWN: u32 = 0x28;

pub const SESSION_KEY_BACKSPACE: u32 = 0xFF08;
pub const SESSION_KEY_ESCAPE: u32 = 0xFF1B;
pub const SESSION_KEY_LEFT: u32 = 0xFF51;
pub const SESSION_KEY_UP: u32 = 0xFF52;
pub const SESSION_KEY_RIGHT: u32 = 0xFF53;
pub const SESSION_KEY_DOWN: u32 = 0xFF54;
pub const SESSION_KEY_RETURN: u32 = 0xFF0D;
pub const SESSION_KEY_SPACE: u32 = 0x20;

/// The session's modifier bits used for shortcut pass-through.
pub const STATE_CONTROL_MASK: u32 = 0x4;
pub const STATE_ALT_MASK: u32 = 0x8;
pub const STATE_SUPER_MASK: u32 = 0x400_0000;
pub const STATE_RELEASE_MASK: u32 = 0x4000_0000;

/// A key as the text service's key sink sees it.
#[derive(Clone, Copy, Debug, Default, PartialEq, Eq, Structural)]
pub struct WindowsKeyInput {
    /// Windows virtual-key code from `wParam`.
    pub virtual_key: u32,
    /// Scan code from `lParam`.
    pub scan_code: u32,
    /// Modifier state in the session's masks.
    pub state: u32,
    /// The printable character the key types, when there is one.
    pub translated_char: Option<char>,
}

/// What becomes of a Windows key.
#[derive(Clone, Copy, Debug, PartialEq, Eq, Structural)]
pub enum ConvertedKey {
    /// Hand this event to the session.
    Event(NativeKeyEvent),
    /// Let the host application handle the key.
    PassThrough,
}

/// Whether a modifier state marks a host shortcut (Control, Alt, Super) or
/// a key release.
pub open spec fn shortcut_state(state: u32) -> bool {
    state & (STATE_CONTROL_MASK | STATE_ALT_MASK | STATE_SUPER_MASK | STATE_RELEASE_MASK) != 0
}

/// A printable, non-space ASCII character: `char::is_ascii_graphic`.
pub open spec fn ascii_graphic(c: u32) -> bool {
    0x21 <= c <= 0x7E
}

/// The session keysym of a virtual key that has a fixed one.
pub open spec fn special_keyval(virtual_key: u32) -> Option<u32> {
    if virtual_key == VK_BACK {
        Some(SESSION_KEY_BACKSPACE)
    } else if virtual_key == VK_RETURN {
        Some(SESSION_KEY_RETURN)
    } else if virtual_key == VK_ESCAPE {
        Some(SESSION_KEY_ESCAPE)
    } else if virtual_key == VK_SPACE {
        Some(SESSION_KEY_SPACE)
    } else if virtual_key == VK_LEFT {
        Some(SESSION_KEY_LEFT)
    } else if virtual_key == VK_UP {
        Some(SESSION_KEY_UP)
    } else if virtual_key == VK_RIGHT {
        Some(SESSION_KEY_RIGHT)
    } else if virtual_key == VK_DOWN {
        Some(SESSION_KEY_DOWN)
    } else {
        None
    }
}

/// What a Windows key becomes: shortcuts, releases and Tab pass through;
/// editing and arrow keys map to their keysyms; any other key is sent as its
/// printable ASCII character, or passes through when it has none.
pub open spec fn converted(input: WindowsKeyInput) -> ConvertedKey {
    let keyval: Option<u32> = if shortcut_state(input.state) || input.virtual_key == VK_TAB {
        None
    } else {
        match special_keyval(input.virtual_key) {
            Some(k) => Some(k),
            None => match input.translated_char {
                Some(ch) => if ascii_graphic(ch as u32) {
                    Some(ch as u32)
                } else {
                    None
                },
                None => None,
            },
        }
    };
    match keyval {
        Some(k) => ConvertedKey::Event(NativeKeyEvent { keyval: k, keycode: input.virtual_key, state: input.state }),
        None => ConvertedKey::PassThrough,
    }
}

/// Whether a modifier state marks a host shortcut or a release.
pub fn is_shortcut_state(state: u32) -> (b: bool)
    ensures
        b == shortcut_state(state),
{
    state & (STATE_CONTROL_MASK | STATE_ALT_MASK | STATE_SUPER_MASK | STATE_RELEASE_MASK) != 0
}

/// Converts a Windows key to a session event, or passes it through.
pub fn convert_windows_key(input: WindowsKeyInput) -> (c: ConvertedKey)
    ensures
        c == converted(input),
{
    if is_shortcut_state(input.state) {
        return ConvertedKey::PassThrough;
    }
    let keyval: u32 = if input.virtual_key == VK_BACK {
        SESSION_KEY_BACKSPACE
    } else if input.virtual_key == VK_RETURN {
        SESSION_KEY_RETURN
    } else if input.virtual_key == VK_ESCAPE {
        SESSION_KEY_ESCAPE
    } else if input.virtual_key == VK_SPACE {
        SESSION_KEY_SPACE
    } else if input.virtual_key == VK_LEFT {
        SESSION_KEY_LEFT
    } else if input.virtual_key == VK_UP {
        SESSION_KEY_UP
    } else if input.virtual_key == VK_RIGHT {
        SESSION_KEY_RIGHT
    } else if input.virtual_key == VK_DOWN {
        SESSION_KEY_DOWN
    } else if input.virtual_key == VK_TAB {
        return ConvertedKey::PassThrough;
    } else {
        match input.translated_char {
            Some(ch) => {
                let code = ch as u32;
                if 0x21 <= code && code <= 0x7E {
                    code
                } else {
                    return ConvertedKey::PassThrough;
                }
            },
            None => {
                return ConvertedKey::PassThrough;
            },
        }
    };
    ConvertedKey::Event(NativeKeyEvent { keyval, keycode: input.virtual_key, state: input.state })
}

/// Whether the session would receive this key: the prediction `OnTestKeyDown`
/// answers, made by the same conversion `OnKeyDown` uses.
pub fn would_handle_windows_key(input: WindowsKeyInput) -> (b: bool)
    ensures
        b == (converted(input) is Event),
{
    match convert_windows_key(input) {
        ConvertedKey::Event(_) => true,
        ConvertedKey::PassThrough => false,
    }
}

/// The character Shift types on a digit key of the US layout.
pub open spec fn shifted_digit(vk: u32) -> char {
    if vk == 0x30 {
        ')'
    } else if vk == 0x31 {
        '!'
    } else if vk == 0x32 {
        '@'
    } else if vk == 0x33 {
        '#'
    } else if vk == 0x34 {
        '$'
    } else if vk == 0x35 {
        '%'
    } else if vk == 0x36 {
        '^'
    } else if vk == 0x37 {
        '&'
    } else if vk == 0x38 {
        '*'
    } else {
        '('
    }
}

/// The character Shift types on digit key `vk` (`0x30..=0x39`).
pub fn shift_digit_char(vk: u32) -> (c: char)
    requires
        0x30 <= vk <= 0x39,
    ensures
        c == shifted_digit(vk),
{
    if vk == 0x30 {
        ')'
    } else if vk == 0x31 {
        '!'
    } else if vk == 0x32 {
        '@'
    } else if vk == 0x33 {
        '#'
    } else if vk == 0x34 {
        '$'
    } else if vk == 0x35 {
        '%'
    } else if vk == 0x36 {
        '^'
    } else if vk == 0x37 {
        '&'
    } else if vk == 0x38 {
        '*'
    } else {
        '('
    }
}

/// The character a virtual key types: digits (or their shifted symbols) and
/// lower-case letters; nothing for other keys.
pub open spec fn typed_char(virtual_key: u32, shift_down: bool) -> Option<char> {
    if 0x30 <= virtual_key <= 0x39 {
        if shift_down {
            Some(shifted_digit(virtual_key))
        } else {
            Some(virtual_key as char)
        }
    } else if 0x41 <= virtual_key <= 0x5A {
        Some((virtual_key + 0x20) as char)
    } else {
        None
    }
}

/// The character virtual key `virtual_key` types, given whether Shift is
/// held.
pub fn translated_key_char(virtual_key: u32, shift_down: bool) -> (c: Option<char>)
    ensures
        c == typed_char(virtual_key, shift_down),
{
    if 0x30 <= virtual_key && virtual_key <= 0x39 {
        if shift_down {
            Some(shift_digit_char(virtual_key))
        } else {
            Some((virtual_key as u8) as char)
        }
    } else if 0x41 <= virtual_key && virtual_key <= 0x5A {
        Some(((virtual_key + 0x20) as u8) as char)
    } else {
        None
    }
}

/// The session modifier state from the keyboard: Control, Alt, either
/// Windows key, and the release flag (bit 31 of `lParam`).
pub open spec fn modifier_state_spec(control_down: bool, alt_down: bool, win_down: bool, lparam: u64) -> u32 {
    (if control_down { STATE_CONTROL_MASK } else { 0u32 }) | (if alt_down { STATE_ALT_MASK } else { 0u32 }) | (
    if win_down { STATE_SUPER_MASK } else { 0u32 }) | (if (lparam >> 31u64) & 1 != 0 { STATE_RELEASE_MASK } else { 0u32 })
}

/// Composes the session modifier state from the key states the key sink
/// reads.
pub fn modifier_state(control_down: bool, alt_down: bool, win_down: bool, lparam: u64) -> (state: u32)
    ensures
        state == modifier_state_spec(control_down, alt_down, win_down, lparam),
{
    let control: u32 = if control_down { STATE_CONTROL_MASK } else { 0 };
    let alt: u32 = if alt_down { STATE_ALT_MASK } else { 0 };
    let win: u32 = if win_down { STATE_SUPER_MASK } else { 0 };
    let release: u32 = if (lparam >> 31u64) & 1 != 0 { STATE_RELEASE_MASK } else { 0 };
    control | alt | win | release
}

/// The key input for a key message: the virtual key from `wParam`, the
/// scan code from bits 16..24 of `lParam`, and the character it types.
pub fn windows_key_input_with_state(wparam: u64, lparam: u64, state: u32, shift_down: bool) -> (input: WindowsKeyInput)
    ensures
        input.virtual_key == wparam as u32,
        input.scan_code == ((lparam >> 16u64) & 0xff) as u32,
        input.state == state,
        input.translated_char == typed_char(wparam as u32, shift_down),
{
    let virtual_key = wparam as u32;
    WindowsKeyInput {
        virtual_key,
        scan_code: ((lparam >> 16u64) & 0xff) as u32,
        state,
        translated_char: translated_key_char(virtual_key, shift_down),
    }
}

/// Whether the session will consume a converted event in this state:
/// editing keys only while composing, Left/Right only in a segmented
/// composition, Up/Down there or with candidates showing, and printable
/// ASCII always.
pub open spec fn consumed_spec(keyval: u32, snapshot: SessionSnapshot) -> bool {
    if keyval == SESSION_KEY_BACKSPACE || keyval == SESSION_KEY_ESCAPE || keyval == SESSION_KEY_RETURN
        || keyval == SESSION_KEY_SPACE {
        snapshot.raw_preedit@.len() > 0
    } else if keyval == SESSION_KEY_LEFT || keyval == SESSION_KEY_RIGHT {
        snapshot.segmented_active
    } else if keyval == SESSION_KEY_UP || keyval == SESSION_KEY_DOWN {
        snapshot.segmented_active || snapshot.candidates@.len() > 0
    } else {
        ascii_graphic(keyval)
    }
}

/// Predicts whether the session will consume `event` in `snapshot`'s state.
pub fn event_would_be_consumed(event: NativeKeyEvent, snapshot: &SessionSnapshot) -> (b: bool)
    ensures
        b == consumed_spec(event.keyval, *snapshot),
{
    let k = event.keyval;
    if k == SESSION_KEY_BACKSPACE || k == SESSION_KEY_ESCAPE || k == SESSION_KEY_RETURN || k == SESSION_KEY_SPACE {
        !snapshot.raw_preedit.as_str().is_empty()
    } else if k == SESSION_KEY_LEFT || k == SESSION_KEY_RIGHT {
        snapshot.segmented_active
    } else if k == SESSION_KEY_UP || k == SESSION_KEY_DOWN {
        snapshot.segmented_active || snapshot.candidates.len() > 0
    } else {
        0x21 <= k && k <= 0x7E
    }
}


/// Without Control, Alt, Super or release bits (mask 0x4400_000C), each
/// editing and arrow key becomes the session keysym of the same meaning,
/// keeping its key code and state: Backspace (0x08) 0xFF08, Enter (0x0D)
/// 0xFF0D, Escape (0x1B) 0xFF1B, Space (0x20) 0x20, Left (0x25) 0xFF51, Up
/// (0x26) 0xFF52, Right (0x27) 0xFF53 and Down (0x28) 0xFF54; Tab (0x09)
/// passes through. So distinct arrow keys never meet in one keysym.
pub proof fn law_fixed_keys_keep_their_meaning(input: WindowsKeyInput)
    requires
        input.state & 0x4400_000Cu32 == 0,
    ensures
        ({
            let ev = |k: u32| ConvertedKey::Event(NativeKeyEvent { keyval: k, keycode: input.virtual_key, state: input.state });
            &&& input.virtual_key == 0x08 ==> converted(input) == ev(0xFF08)
            &&& input.virtual_key == 0x0D ==> converted(input) == ev(0xFF0D)
            &&& input.virtual_key == 0x1B ==> converted(input) == ev(0xFF1B)
            &&& input.virtual_key == 0x20 ==> converted(input) == ev(0x20)
            &&& input.virtual_key == 0x25 ==> converted(input) == ev(0xFF51)
            &&& input.virtual_key == 0x26 ==> converted(input) == ev(0xFF52)
            &&& input.virtual_key == 0x27 ==> converted(input) == ev(0xFF53)
            &&& input.virtual_key == 0x28 ==> converted(input) == ev(0xFF54)
            &&& input.virtual_key == 0x09 ==> converted(input) == ConvertedKey::PassThrough
        }),
{
    let st = input.state;
    assert(st & (0x4u32 | 0x8u32 | 0x400_0000u32 | 0x4000_0000u32) == 0) by (bit_vector)
        requires
            st & 0x4400_000Cu32 == 0,
    ;
}

/// Any key pressed with Control, Alt or Super, or released, passes through
/// to the host application.
pub proof fn law_shortcuts_pass_through(input: WindowsKeyInput)
    requires
        input.state & 0x4400_000Cu32 != 0,
    ensures
        converted(input) == ConvertedKey::PassThrough,
{
    let st = input.state;
    assert(st & (0x4u32 | 0x8u32 | 0x400_0000u32 | 0x4000_0000u32) != 0) by (bit_vector)
        requires
            st & 0x4400_000Cu32 != 0,
    ;
}

/// Without those bits, any other key is sent as the printable ASCII
/// character it types (code 0x21 to 0x7E), keeping its key code and
/// state, and passes through when it types none.
pub proof fn law_printable_keys_send_their_character(input: WindowsKeyInput)
    requires
        input.state & 0x4400_000Cu32 == 0,
        !(0x08 <= input.virtual_key <= 0x09 || input.virtual_key == 0x0D || input.virtual_key == 0x1B
            || input.virtual_key == 0x20 || 0x25 <= input.virtual_key <= 0x28),
    ensures
        ({
            match input.translated_char {
                Some(ch) => if 0x21 <= (ch as u32) <= 0x7E {
                    converted(input) == ConvertedKey::Event(
                        NativeKeyEvent { keyval: ch as u32, keycode: input.virtual_key, state: input.state },
                    )
                } else {
                    converted(input) == ConvertedKey::PassThrough
                },
                None => converted(input) == ConvertedKey::PassThrough,
            }
        }),
{
    let st = input.state;
    assert(st & (0x4u32 | 0x8u32 | 0x400_0000u32 | 0x4000_0000u32) == 0) by (bit_vector)
        requires
            st & 0x4400_000Cu32 == 0,
    ;
}


/// The characters keys type on the US layout: a digit key types its digit,
/// or with Shift the symbol printed above it (`)!@#$%^&*(` for 0 to 9); a
/// letter key types the lower-case letter; other keys type nothing.
pub proof fn law_typed_characters(virtual_key: u32, shift_down: bool)
    ensures
        0x30 <= virtual_key <= 0x39 && !shift_down ==> (typed_char(virtual_key, shift_down) matches Some(c) && c as u32
            == ('0' as u32) + (virtual_key - 0x30)),
        0x41 <= virtual_key <= 0x5A ==> (typed_char(virtual_key, shift_down) matches Some(c) && c as u32 == ('a' as u32) + (
        virtual_key - 0x41)),
        !(0x30 <= virtual_key <= 0x39) && !(0x41 <= virtual_key <= 0x5A) ==> typed_char(virtual_key, shift_down)
            is None,
        typed_char(0x30, true) == Some(')') && typed_char(0x31, true) == Some('!') && typed_char(0x32, true)
            == Some('@') && typed_char(0x33, true) == Some('#') && typed_char(0x34, true) == Some('$')
            && typed_char(0x35, true) == Some('%') && typed_char(0x36, true) == Some('^') && typed_char(0x37, true)
            == Some('&') && typed_char(0x38, true) == Some('*') && typed_char(0x39, true) == Some('('),
{
}

} // verus!
