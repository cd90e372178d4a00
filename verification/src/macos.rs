//! macOS InputMethodKit adapter logic: key-code translation for NIDA mode,
//! modifier mapping, whole-page candidate jumps, and the render records the
//! Swift shell receives.

use vstd::prelude::*;
use vstd::hash_map::StringHashMap;
use crate::session::{
    clone_opt_string, clone_strings, opt_str, strs, widen_index, widened, CandidateDisplayEntry,
    PhraseCandidate, SegmentPreviewEntry, SessionResult, SessionSnapshot,
};
use crate::text::{char_is_space, chars_of, is_space, push_char};
use vstd::arithmetic::div_mod::{
    lemma_add_mod_noop, lemma_add_mod_noop_right, lemma_fundamental_div_mod, lemma_small_mod,
};
use crate::index::wrap_index;
use crate::startup::{decoder_mode_for, parse_decoder_mode, DecoderMode};
use crate::tsf_driver::{span_mode_spec, span_proposal_mode_for, SpanProposalMode};

verus! {

/// The evdev scan code for a macOS virtual key code (`NSEvent.keyCode`) on
/// the ANSI layout; 0 for keys outside the table.
pub open spec fn evdev_for_mac(mac_keycode: u16) -> u32 {
    match mac_keycode {
        0x00 => 30,
        0x01 => 31,
        0x02 => 32,
        0x03 => 33,
        0x04 => 35,
        0x05 => 34,
        0x06 => 44,
        0x07 => 45,
        0x08 => 46,
        0x09 => 47,
        0x0B => 48,
        0x0C => 16,
        0x0D => 17,
        0x0E => 18,
        0x0F => 19,
        0x10 => 21,
        0x11 => 20,
        0x12 => 2,
        0x13 => 3,
        0x14 => 4,
        0x15 => 5,
        0x16 => 7,
        0x17 => 6,
        0x18 => 13,
        0x19 => 10,
        0x1A => 8,
        0x1B => 12,
        0x1C => 9,
        0x1D => 11,
        0x1E => 27,
        0x1F => 24,
        0x20 => 22,
        0x21 => 26,
        0x22 => 23,
        0x23 => 25,
        0x25 => 38,
        0x26 => 36,
        0x27 => 40,
        0x28 => 37,
        0x29 => 39,
        0x2A => 43,
        0x2B => 51,
        0x2C => 53,
        0x2D => 49,
        0x2E => 50,
        0x2F => 52,
        0x32 => 41,
        _ => 0,
    }
}

/// Converts a macOS virtual key code to the evdev scan code NIDA mode looks
/// up (0 when the key is not in the ANSI table).
pub fn keycode_mac_to_evdev(mac_keycode: u16) -> (code: u32)
    ensures
        code == evdev_for_mac(mac_keycode),
{
    match mac_keycode {
        0x00 => 30,
        0x01 => 31,
        0x02 => 32,
        0x03 => 33,
        0x04 => 35,
        0x05 => 34,
        0x06 => 44,
        0x07 => 45,
        0x08 => 46,
        0x09 => 47,
        0x0B => 48,
        0x0C => 16,
        0x0D => 17,
        0x0E => 18,
        0x0F => 19,
        0x10 => 21,
        0x11 => 20,
        0x12 => 2,
        0x13 => 3,
        0x14 => 4,
        0x15 => 5,
        0x16 => 7,
        0x17 => 6,
        0x18 => 13,
        0x19 => 10,
        0x1A => 8,
        0x1B => 12,
        0x1C => 9,
        0x1D => 11,
        0x1E => 27,
        0x1F => 24,
        0x20 => 22,
        0x21 => 26,
        0x22 => 23,
        0x23 => 25,
        0x25 => 38,
        0x26 => 36,
        0x27 => 40,
        0x28 => 37,
        0x29 => 39,
        0x2A => 43,
        0x2B => 51,
        0x2C => 53,
        0x2D => 49,
        0x2E => 50,
        0x2F => 52,
        0x32 => 41,
        _ => 0,
    }
}

/// Two different keys in the table never share an evdev code.
pub proof fn law_keycode_table_injective(a: u16, b: u16)
    requires
        evdev_for_mac(a) != 0,
        evdev_for_mac(a) == evdev_for_mac(b),
    ensures
        a == b,
{
}

/// The XKB modifier state for `NSEvent.modifierFlags`: Shift (bit 17) to
/// 1, Control (bit 18) to 4, Option (bit 19) to 8.
pub open spec fn xkb_state_for(flags: u32) -> u32 {
    (if flags & 0x20000 != 0 { 1u32 } else { 0u32 }) | (if flags & 0x40000 != 0 { 4u32 } else { 0u32 })
        | (if flags & 0x80000 != 0 { 8u32 } else { 0u32 })
}

/// Maps macOS modifier flags to XKB-style modifier bits.
pub fn modifier_flags_to_xkb_state(flags: u32) -> (state: u32)
    ensures
        state == xkb_state_for(flags),
{
    let shift: u32 = if flags & 0x20000 != 0 { 1 } else { 0 };
    let control: u32 = if flags & 0x40000 != 0 { 4 } else { 0 };
    let option: u32 = if flags & 0x80000 != 0 { 8 } else { 0 };
    shift | control | option
}

/// Rows the candidate panel paints per page.
pub const MACOS_PAGE_SIZE: usize = 10;

/// The index a whole-page jump lands on: `direction` pages away (pages
/// wrap), on the same row, clamped to the destination page's length; 0 for
/// an empty list. A page size of 0 counts as 1.
pub open spec fn page_jump(selected: int, len: int, page_size: int, direction: int) -> int {
    if len <= 0 {
        0
    } else {
        let ps = if page_size < 1 {
            1
        } else {
            page_size
        };
        let page_count = (len + ps - 1) / ps;
        let row = selected % ps;
        let next_page = (selected / ps + direction) % page_count;
        let page_start = next_page * ps;
        let page_len = if len - page_start < ps {
            len - page_start
        } else {
            ps
        };
        page_start + if row < page_len - 1 {
            row
        } else {
            page_len - 1
        }
    }
}

proof fn lemma_page_bounds(len: int, ps: int, p: int)
    requires
        len > 0,
        ps >= 1,
        0 <= p < (len + ps - 1) / ps,
    ensures
        0 <= p * ps < len,
{
    let pc = (len + ps - 1) / ps;
    assert(pc * ps <= len + ps - 1) by (nonlinear_arith)
        requires
            pc == (len + ps - 1) / ps,
            ps >= 1,
            len > 0,
    ;
    assert(p * ps <= (pc - 1) * ps) by (nonlinear_arith)
        requires
            0 <= p <= pc - 1,
            ps >= 1,
    ;
    assert((pc - 1) * ps == pc * ps - ps) by (nonlinear_arith);
    assert(p * ps >= 0) by (nonlinear_arith)
        requires
            p >= 0,
            ps >= 1,
    ;
}

/// The page size a jump works with: at least one row.
pub open spec fn effective_page_size(page_size: int) -> int {
    if page_size < 1 {
        1
    } else {
        page_size
    }
}

proof fn lemma_page_count_positive(len: int, ps: int)
    requires
        len > 0,
        ps >= 1,
    ensures
        (len + ps - 1) / ps >= 1,
{
    assert((len + ps - 1) / ps >= 1) by (nonlinear_arith)
        requires
            len > 0,
            ps >= 1,
    ;
}

/// A page jump over a non-empty list always lands on one of its candidates.
pub proof fn law_page_jump_in_range(selected: int, len: int, page_size: int, direction: int)
    requires
        0 <= selected,
        0 < len,
    ensures
        0 <= page_jump(selected, len, page_size, direction) < len,
{
    let ps = effective_page_size(page_size);
    let pc = (len + ps - 1) / ps;
    lemma_page_count_positive(len, ps);
    let np = (selected / ps + direction) % pc;
    assert(0 <= np < pc);
    lemma_page_bounds(len, ps, np);
    assert(0 <= selected % ps < ps);
}

/// When the candidate's row exists on the page a jump lands on, jumping the
/// same number of pages back returns to that candidate.
pub proof fn law_page_jump_round_trip(selected: int, len: int, page_size: int, direction: int)
    requires
        0 <= selected < len,
        page_jump(selected, len, page_size, direction) % effective_page_size(page_size) == selected
            % effective_page_size(page_size),
    ensures
        page_jump(page_jump(selected, len, page_size, direction), len, page_size, -direction) == selected,
{
    let ps = effective_page_size(page_size);
    let pc = (len + ps - 1) / ps;
    lemma_page_count_positive(len, ps);
    let cp = selected / ps;
    let row = selected % ps;
    let np = (cp + direction) % pc;
    lemma_page_bounds(len, ps, np);
    let there = page_jump(selected, len, page_size, direction);
    let k = there - np * ps;
    assert(0 <= k < ps);
    assert(there / ps == np && there % ps == k) by (nonlinear_arith)
        requires
            there == np * ps + k,
            0 <= k < ps,
            np >= 0,
    ;
    lemma_fundamental_div_mod(selected, ps);
    assert(cp < pc && cp >= 0) by (nonlinear_arith)
        requires
            selected == ps * cp + row,
            0 <= row < ps,
            0 <= selected < len,
            pc == (len + ps - 1) / ps,
            ps >= 1,
    ;
    lemma_add_mod_noop(cp + direction, -direction, pc);
    lemma_add_mod_noop_right(np, -direction, pc);
    lemma_small_mod(cp as nat, pc as nat);
    assert((np - direction) % pc == cp);
    assert(cp * ps + row == selected) by (nonlinear_arith)
        requires
            selected == ps * cp + row,
    ;
}

/// The candidate index a page jump lands on (see `page_jump`).
pub fn page_jump_target(selected: usize, len: usize, page_size: usize, direction: isize) -> (r: usize)
    ensures
        r as int == page_jump(selected as int, len as int, page_size as int, direction as int),
{
    if len == 0 {
        return 0;
    }
    let ps: usize = if page_size < 1 { 1 } else { page_size };
    proof {
        if ps == 1 {
            assert(len % ps == 0);
        } else {
            assert(len / ps <= len / 2) by (nonlinear_arith)
                requires
                    ps >= 2,
                    len > 0,
            ;
        }
    }
    let page_count: usize = len / ps + if len % ps == 0 { 0 } else { 1 };
    proof {
        assert(page_count as int == (len + ps - 1) / (ps as int)) by (nonlinear_arith)
            requires
                page_count == len / ps + (if len % ps == 0 { 0int } else { 1int }),
                ps >= 1,
                len > 0,
        ;
        assert(page_count >= 1) by (nonlinear_arith)
            requires
                page_count == (len + ps - 1) / (ps as int),
                ps >= 1,
                len > 0,
        ;
    }
    let current_page = selected / ps;
    let row = selected % ps;
    let next_page = wrap_index(current_page, page_count, direction);
    proof {
        lemma_page_bounds(len as int, ps as int, next_page as int);
    }
    let page_start = next_page * ps;
    let rest = len - page_start;
    let page_len = if rest < ps { rest } else { ps };
    let last_row = page_len - 1;
    page_start + if row < last_row { row } else { last_row }
}

/// Key value of PageUp.
pub const KEY_PAGE_UP: u32 = 0xFF55;

/// Key value of PageDown.
pub const KEY_PAGE_DOWN: u32 = 0xFF56;

/// The page direction of a key: back for PageUp, forward for PageDown, none
/// for any other key (the arrows keep their one-step cycling).
pub fn page_key_direction(keyval: u32) -> (d: isize)
    ensures
        d == (if keyval == KEY_PAGE_UP {
            -1isize
        } else if keyval == KEY_PAGE_DOWN {
            1isize
        } else {
            0isize
        }),
{
    if keyval == KEY_PAGE_UP {
        -1
    } else if keyval == KEY_PAGE_DOWN {
        1
    } else {
        0
    }
}

/// How many one-step forward moves lead from `selected` to `target` among
/// `len` candidates, wrapping: `(target - selected) mod len`.
pub fn page_jump_steps(selected: usize, target: usize, len: usize) -> (steps: usize)
    requires
        len > 0,
        target < len,
    ensures
        steps as int == (target as int - selected as int) % (len as int),
        steps < len,
        (selected + steps) % (len as int) == target,
{
    let s = selected % len;
    let steps = if target >= s {
        target - s
    } else {
        len - s + target
    };
    proof {
        assert(steps as int == (target as int - selected as int) % (len as int) && (selected + steps) % (len as int)
            == target) by (nonlinear_arith)
            requires
                len > 0,
                target < len,
                s == selected % len,
                steps == (if target >= s { target - s } else { len - s + target }),
        {
            let q = (selected as int) / (len as int);
            assert(selected == q * len + s);
            assert(0 <= s < len);
            if target >= s {
                assert(target - selected == (target - s) - q * len);
                assert(selected + steps == q * len + target);
            } else {
                assert(target - selected == (len - s + target) - (q + 1) * len);
                assert(selected + steps == (q + 1) * len + target);
            }
        }
    }
    steps
}

/// One segment entry of the candidate panel's header.
#[derive(Clone, Debug, Default)]
pub struct MacosSegmentEntry {
    pub output: String,
    pub input: String,
    pub focused: bool,
}

impl View for MacosSegmentEntry {
    type V = (Seq<char>, Seq<char>, bool);

    open spec fn view(&self) -> (Seq<char>, Seq<char>, bool) {
        (self.output@, self.input@, self.focused)
    }
}

impl MacosSegmentEntry {
    /// The panel entry for one segmented-preview chunk.
    pub fn from_preview(s: &SegmentPreviewEntry) -> (e: Self)
        ensures
            e@ == s@,
    {
        MacosSegmentEntry { output: s.output.clone(), input: s.input.clone(), focused: s.focused }
    }
}

/// Display metadata for one visible candidate. An empty `roman_hints` list
/// tells the panel to draw a derived marker rather than invent a hint.
#[derive(Clone, Debug, Default)]
pub struct MacosCandidateDisplayEntry {
    pub output: String,
    pub recommended: bool,
    pub roman_hints: Vec<String>,
    /// A span-proposal provider contributed this candidate.
    pub from_model: bool,
    /// The candidate is a word of the lexicon.
    pub lexicon_verified: bool,
}

/// The characters of `s` that are not white space, in order.
pub open spec fn without_spaces(s: Seq<char>) -> Seq<char>
    decreases s.len(),
{
    if s.len() == 0 {
        s
    } else if is_space(s.last()) {
        without_spaces(s.drop_last())
    } else {
        without_spaces(s.drop_last()).push(s.last())
    }
}

/// The key that matches a display candidate to a phrase candidate: the text
/// with its white space removed.
pub fn provenance_key(item: &str) -> (key: String)
    ensures
        key@ == without_spaces(item@),
{
    let chars = chars_of(item);
    let mut key = String::new();
    for i in 0..chars.len()
        invariant
            chars@ == item@,
            key@ == without_spaces(chars@.take(i as int)),
    {
        proof {
            assert(chars@.take(i + 1).drop_last() =~= chars@.take(i as int));
        }
        if !char_is_space(chars[i]) {
            push_char(&mut key, chars[i]);
        }
    }
    assert(chars@.take(chars@.len() as int) =~= chars@);
    key
}

/// Provenance of the phrase candidates, keyed by `provenance_key` of their
/// text: whether a model proposed the reading, and whether the lexicon
/// knows it. A later candidate with the same key replaces an earlier one.
pub open spec fn provenance_map(pcs: Seq<PhraseCandidate>) -> Map<Seq<char>, (bool, bool)>
    decreases pcs.len(),
{
    if pcs.len() == 0 {
        Map::empty()
    } else {
        provenance_map(pcs.drop_last()).insert(
            without_spaces(pcs.last().text@),
            (pcs.last().from_model, pcs.last().lexicon_verified),
        )
    }
}

/// The provenance a display candidate gets: its entry in the map, or
/// `(false, true)` (a plain lexicon candidate) when it has none.
pub open spec fn provenance_of(output: Seq<char>, m: Map<Seq<char>, (bool, bool)>) -> (bool, bool) {
    let key = without_spaces(output);
    if m.contains_key(key) {
        m[key]
    } else {
        (false, true)
    }
}

/// The panel entry for a display candidate, given the provenance map.
pub open spec fn display_entry_matches(
    e: MacosCandidateDisplayEntry,
    d: CandidateDisplayEntry,
    m: Map<Seq<char>, (bool, bool)>,
) -> bool {
    &&& e.output@ == d.output@
    &&& e.recommended == d.recommended
    &&& strs(e.roman_hints@) == strs(d.roman_hints@)
    &&& (e.from_model, e.lexicon_verified) == provenance_of(d.output@, m)
}

impl MacosCandidateDisplayEntry {
    /// The panel entry for `entry`, with its provenance looked up in
    /// `provenance`.
    pub fn from_display(entry: &CandidateDisplayEntry, provenance: &StringHashMap<(bool, bool)>) -> (e: Self)
        ensures
            display_entry_matches(e, *entry, provenance@),
    {
        let key = provenance_key(entry.output.as_str());
        let (from_model, lexicon_verified) = match provenance.get(key.as_str()) {
            Some(p) => *p,
            None => (false, true),
        };
        MacosCandidateDisplayEntry {
            output: entry.output.clone(),
            recommended: entry.recommended,
            roman_hints: clone_strings(&entry.roman_hints),
            from_model,
            lexicon_verified,
        }
    }
}

/// Builds the provenance map of `provenance_map`.
pub fn build_provenance(pcs: &Vec<PhraseCandidate>) -> (m: StringHashMap<(bool, bool)>)
    ensures
        m@ == provenance_map(pcs@),
{
    let mut m: StringHashMap<(bool, bool)> = StringHashMap::new();
    for i in 0..pcs.len()
        invariant
            m@ == provenance_map(pcs@.take(i as int)),
    {
        proof {
            assert(pcs@.take(i + 1).drop_last() =~= pcs@.take(i as int));
        }
        let key = provenance_key(pcs[i].text.as_str());
        m.insert(key, (pcs[i].from_model, pcs[i].lexicon_verified));
    }
    assert(pcs@.take(pcs@.len() as int) =~= pcs@);
    m
}

/// The record the Swift shell receives after every session call. `preedit`
/// is the raw roman text shown as marked text.
#[derive(Clone, Debug, Default)]
pub struct MacosRenderState {
    pub candidates: Vec<String>,
    pub candidate_display: Vec<MacosCandidateDisplayEntry>,
    pub selected_index: Option<u64>,
    pub preedit: String,
    pub segments: Vec<MacosSegmentEntry>,
    pub focused_segment_index: Option<u64>,
    /// Set only right after a commit.
    pub commit_text: Option<String>,
    pub segment_edit_active: bool,
    pub segment_edit_index: Option<u64>,
    /// False until the engines have finished warming up.
    pub is_ready: bool,
    /// The session consumed the key event.
    pub consumed: bool,
    /// `preedit` differs from the previous call's; the session handle sets
    /// it after comparing.
    pub preedit_changed: bool,
}

/// `r` is the projection of a snapshot and a result for the Swift shell.
pub open spec fn macos_render_matches(
    r: MacosRenderState,
    snapshot: SessionSnapshot,
    result: SessionResult,
    ready: bool,
) -> bool {
    let m = provenance_map(snapshot.phrase_candidates@);
    &&& strs(r.candidates@) == strs(snapshot.candidates@)
    &&& r.candidate_display@.len() == snapshot.candidate_display@.len()
    &&& forall|i: int|
        0 <= i < r.candidate_display@.len() ==> display_entry_matches(
            #[trigger] r.candidate_display@[i],
            snapshot.candidate_display@[i],
            m,
        )
    &&& r.selected_index == widened(snapshot.selected_index)
    &&& r.preedit@ == snapshot.raw_preedit@
    &&& r.segments@.map_values(|e: MacosSegmentEntry| e@) == snapshot.segment_preview@.map_values(
        |e: SegmentPreviewEntry| e@,
    )
    &&& r.focused_segment_index == widened(snapshot.focused_segment_index)
    &&& opt_str(r.commit_text) == opt_str(result.commit_text)
    &&& r.segment_edit_active == snapshot.segment_edit_active
    &&& r.segment_edit_index == widened(snapshot.segment_edit_index)
    &&& r.is_ready == ready
    &&& r.consumed == result.consumed
    &&& !r.preedit_changed
}

/// Projects a session snapshot and result into the Swift render record.
pub fn render_state(snapshot: &SessionSnapshot, result: &SessionResult, ready: bool) -> (r: MacosRenderState)
    ensures
        macos_render_matches(r, *snapshot, *result, ready),
{
    let provenance = build_provenance(&snapshot.phrase_candidates);
    let mut display: Vec<MacosCandidateDisplayEntry> = Vec::new();
    for i in 0..snapshot.candidate_display.len()
        invariant
            provenance@ == provenance_map(snapshot.phrase_candidates@),
            display@.len() == i,
            forall|j: int|
                0 <= j < i ==> display_entry_matches(
                    #[trigger] display@[j],
                    snapshot.candidate_display@[j],
                    provenance@,
                ),
    {
        display.push(MacosCandidateDisplayEntry::from_display(&snapshot.candidate_display[i], &provenance));
    }
    let mut segments: Vec<MacosSegmentEntry> = Vec::new();
    for i in 0..snapshot.segment_preview.len()
        invariant
            segments@.len() == i,
            forall|j: int| 0 <= j < i ==> #[trigger] segments@[j]@ == snapshot.segment_preview@[j]@,
    {
        segments.push(MacosSegmentEntry::from_preview(&snapshot.segment_preview[i]));
    }
    assert(segments@.map_values(|e: MacosSegmentEntry| e@) =~= snapshot.segment_preview@.map_values(
        |e: SegmentPreviewEntry| e@,
    ));
    MacosRenderState {
        candidates: clone_strings(&snapshot.candidates),
        candidate_display: display,
        selected_index: widen_index(snapshot.selected_index),
        preedit: snapshot.raw_preedit.clone(),
        segments,
        focused_segment_index: widen_index(snapshot.focused_segment_index),
        commit_text: clone_opt_string(&result.commit_text),
        segment_edit_active: snapshot.segment_edit_active,
        segment_edit_index: widen_index(snapshot.segment_edit_index),
        is_ready: ready,
        consumed: result.consumed,
        preedit_changed: false,
    }
}

/// Latency budget of the live keystroke decoder, in milliseconds: a slow
/// decode falls back to the cheaper result instead of holding the key.
pub const MACOS_LIVE_MAX_LATENCY_MS: u64 = 75;

/// Latency budget of the debounced visible refiner, in milliseconds.
pub const MACOS_REFINER_MAX_LATENCY_MS: u64 = 250;

/// Decoder settings laid over the interactive shadow preset: the decoder
/// (`None` keeps the preset's), the latency budget, and the span-proposal
/// provider attached.
#[derive(Clone, Copy, Debug, PartialEq, Eq, Structural)]
pub struct MacosDecoderSettings {
    pub mode: Option<DecoderMode>,
    pub max_latency_ms: u64,
    pub span_proposals: SpanProposalMode,
}

/// The characters of an optional string.
pub open spec fn str_opt(v: Option<&str>) -> Option<Seq<char>> {
    match v {
        Some(s) => Some(s@),
        None => None,
    }
}

/// The live decoder's settings, from the decoder-mode and span-proposal
/// variables: the named decoder (an unknown name keeps the preset's), the
/// live latency budget, and only the instant static-test provider, so the
/// keystroke path stays deterministic.
pub fn macos_live_decoder_config(mode_var: Option<&str>, span_var: Option<&str>) -> (c: MacosDecoderSettings)
    ensures
        c.mode == match mode_var {
            Some(m) => decoder_mode_for(m@),
            None => None,
        },
        c.max_latency_ms == MACOS_LIVE_MAX_LATENCY_MS,
        c.span_proposals == if span_mode_spec(str_opt(span_var)) == SpanProposalMode::StaticTest {
            SpanProposalMode::StaticTest
        } else {
            SpanProposalMode::Disabled
        },
{
    let mode = match mode_var {
        Some(m) => parse_decoder_mode(m),
        None => None,
    };
    let span = if span_proposal_mode_for(span_var) == SpanProposalMode::StaticTest {
        SpanProposalMode::StaticTest
    } else {
        SpanProposalMode::Disabled
    };
    MacosDecoderSettings { mode, max_latency_ms: MACOS_LIVE_MAX_LATENCY_MS, span_proposals: span }
}

/// The visible refiner's settings: the hybrid decoder, the refiner latency
/// budget, and the provider the span-proposal variable arms.
pub fn macos_visible_refiner_config(span_var: Option<&str>) -> (c: MacosDecoderSettings)
    ensures
        c.mode == Some(DecoderMode::Hybrid),
        c.max_latency_ms == MACOS_REFINER_MAX_LATENCY_MS,
        c.span_proposals == span_mode_spec(str_opt(span_var)),
{
    MacosDecoderSettings {
        mode: Some(DecoderMode::Hybrid),
        max_latency_ms: MACOS_REFINER_MAX_LATENCY_MS,
        span_proposals: span_proposal_mode_for(span_var),
    }
}

/// Whether a span-proposal provider is configured; without one the visible
/// refiner is not built at all.
pub fn span_provider_active(span_var: Option<&str>) -> (b: bool)
    ensures
        b == (span_mode_spec(str_opt(span_var)) != SpanProposalMode::Disabled),
{
    span_proposal_mode_for(span_var) != SpanProposalMode::Disabled
}

} // verus!
