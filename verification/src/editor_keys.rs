//! Keyboard decisions of the web editor: what each key press does, which
//! candidate a cycling key selects, and what the horizontal arrows do at
//! each candidate level.

use vstd::prelude::*;

verus! {

/// What the candidate bar is showing.
#[derive(Clone, Copy, Debug, PartialEq, Eq, Structural)]
pub enum CandidateMode {
    /// No candidates are showing.
    Inactive,
    Transliteration,
    NextWord,
}

/// How the composition's candidates are grouped.
#[derive(Clone, Copy, Debug, PartialEq, Eq, Structural)]
pub enum CandidateLevel {
    Flat,
    Phrase,
    Segment,
}

/// Whether Space cycles the candidates: only transliteration candidates,
/// and only while there are some. Next-word predictions are tapped.
pub fn space_cycle_enabled(has_live_suggestions: bool, candidate_mode: CandidateMode) -> (b: bool)
    ensures
        b == (has_live_suggestions && candidate_mode == CandidateMode::Transliteration),
{
    has_live_suggestions && candidate_mode == CandidateMode::Transliteration
}

/// The candidate a cycling key moves to among `len` candidates: before any
/// selection, the first (forward) or the last (backward); after one, the
/// next or the previous, wrapping around.
pub open spec fn cycled_index(selected: usize, started: bool, len: usize, backward: bool) -> int {
    if !started {
        if backward {
            len - 1
        } else {
            0
        }
    } else if backward {
        (selected + len - 1) % (len as int)
    } else {
        (selected + 1) % (len as int)
    }
}

/// The candidate a cycling key moves to (see `cycled_index`); none when
/// there are no candidates. `delta` below zero cycles backward.
pub fn cycle_target(selected: usize, started: bool, len: usize, delta: isize) -> (r: Option<usize>)
    requires
        started ==> selected < len,
    ensures
        len == 0 ==> r is None,
        len > 0 ==> r == Some(cycled_index(selected, started, len, delta < 0) as usize),
        r matches Some(i) ==> i < len,
{
    if len == 0 {
        return None;
    }
    let next = if !started {
        if delta < 0 {
            len - 1
        } else {
            0
        }
    } else if delta < 0 {
        let prev = if selected == 0 {
            len - 1
        } else {
            selected - 1
        };
        assert(prev == (selected + len - 1) % (len as int)) by (nonlinear_arith)
            requires
                selected < len,
                prev == (if selected == 0 { len - 1 } else { selected - 1 }),
        ;
        prev
    } else {
        let after = if selected + 1 == len {
            0
        } else {
            selected + 1
        };
        assert(after == (selected + 1) % (len as int)) by (nonlinear_arith)
            requires
                selected < len,
                after == (if selected + 1 == len { 0 } else { selected + 1 }),
        ;
        after
    };
    Some(next)
}

/// What a horizontal arrow does in the editor.
#[derive(Clone, Copy, Debug, PartialEq, Eq, Structural)]
pub enum ArrowAction {
    /// Swallow the key: phrase mode keeps the caret out of the composition.
    Consume,
    /// Move the focused segment (the key is swallowed even at either end).
    MoveSegmentFocus,
    /// Cycle the live candidates.
    CycleCandidates,
    /// Leave the key to the text area.
    PassThrough,
}

/// The horizontal arrow's action: phrase level swallows it, segment level
/// moves the segment focus, and otherwise it cycles live candidates once a
/// selection or a number pick has begun.
pub open spec fn arrow_action(
    level: CandidateLevel,
    has_live_suggestions: bool,
    selection_started: bool,
    number_pick_mode: bool,
) -> ArrowAction {
    if level == CandidateLevel::Phrase {
        ArrowAction::Consume
    } else if level == CandidateLevel::Segment {
        ArrowAction::MoveSegmentFocus
    } else if has_live_suggestions && (selection_started || number_pick_mode) {
        ArrowAction::CycleCandidates
    } else {
        ArrowAction::PassThrough
    }
}

/// Decides a horizontal arrow (see `arrow_action`).
pub fn horizontal_arrow_action(
    level: CandidateLevel,
    has_live_suggestions: bool,
    selection_started: bool,
    number_pick_mode: bool,
) -> (a: ArrowAction)
    ensures
        a == arrow_action(level, has_live_suggestions, selection_started, number_pick_mode),
{
    if level == CandidateLevel::Phrase {
        ArrowAction::Consume
    } else if level == CandidateLevel::Segment {
        ArrowAction::MoveSegmentFocus
    } else if has_live_suggestions && (selection_started || number_pick_mode) {
        ArrowAction::CycleCandidates
    } else {
        ArrowAction::PassThrough
    }
}

/// Cycling forward and then backward returns to the selected candidate,
/// and so does backward then forward.
pub proof fn law_cycle_round_trip(selected: usize, len: usize)
    requires
        selected < len,
    ensures
        cycled_index(cycled_index(selected, true, len, false) as usize, true, len, true) == selected,
        cycled_index(cycled_index(selected, true, len, true) as usize, true, len, false) == selected,
{
    let f = cycled_index(selected, true, len, false);
    let b = cycled_index(selected, true, len, true);
    if selected + 1 == len {
        assert(f == 0) by (nonlinear_arith)
            requires
                f == (selected + 1) % (len as int),
                selected + 1 == len,
                len > 0,
        ;
    } else {
        assert(f == selected + 1) by (nonlinear_arith)
            requires
                f == (selected + 1) % (len as int),
                selected + 1 < len,
        ;
    }
    if selected == 0 {
        assert(b == len - 1) by (nonlinear_arith)
            requires
                b == (selected + len - 1) % (len as int),
                selected == 0,
                len > 0,
        ;
    } else {
        assert(b == selected - 1) by (nonlinear_arith)
            requires
                b == (selected + len - 1) % (len as int),
                0 < selected < len,
        ;
    }
    let fb = cycled_index(f as usize, true, len, true);
    let bf = cycled_index(b as usize, true, len, false);
    if f == 0 {
        assert(fb == len - 1) by (nonlinear_arith)
            requires
                fb == (0 + len - 1) % (len as int),
                len > 0,
        ;
    } else {
        assert(fb == f - 1) by (nonlinear_arith)
            requires
                fb == (f + len - 1) % (len as int),
                0 < f < len,
        ;
    }
    if b == len - 1 {
        assert(bf == 0) by (nonlinear_arith)
            requires
                bf == (b + 1) % (len as int),
                b + 1 == len,
                len > 0,
        ;
    } else {
        assert(bf == b + 1) by (nonlinear_arith)
            requires
                bf == (b + 1) % (len as int),
                0 <= b,
                b + 1 < len,
        ;
    }
}


/// `(selected + 1) % len`: the candidate after `selected`, wrapping.
fn index_after(selected: usize, len: usize) -> (r: usize)
    requires
        len > 0,
    ensures
        r == (selected + 1) % (len as int),
{
    let s = selected % len;
    proof {
        vstd::arithmetic::div_mod::lemma_add_mod_noop_right(1, selected as int, len as int);
    }
    let r = if s + 1 == len {
        0
    } else {
        s + 1
    };
    assert(r == (1 + s) % (len as int)) by (nonlinear_arith)
        requires
            s < len,
            r == (if s + 1 == len { 0 } else { s + 1 }),
    ;
    r
}

/// `(selected + len - 1) % len`: the candidate before `selected`,
/// wrapping.
fn index_before(selected: usize, len: usize) -> (r: usize)
    requires
        len > 0,
    ensures
        r == (selected + len - 1) % (len as int),
{
    let s = selected % len;
    proof {
        vstd::arithmetic::div_mod::lemma_add_mod_noop_right(len - 1, selected as int, len as int);
    }
    let r = if s == 0 {
        len - 1
    } else {
        s - 1
    };
    assert(r == (len - 1 + s) % (len as int)) by (nonlinear_arith)
        requires
            s < len,
            r == (if s == 0 { len - 1 } else { s - 1 }),
    ;
    r
}

/// The kinds of key the editor's key handler tells apart.
#[derive(Clone, Copy, Debug, PartialEq, Eq, Structural)]
pub enum EditorKeyKind {
    /// Alt+Ctrl+K, which switches Roman input on and off.
    ToggleRoman,
    ArrowLeft,
    ArrowRight,
    Tab,
    ArrowDown,
    ArrowUp,
    Space,
    Enter,
    /// Any other key.
    Other,
}

/// A key press, as the editor's key handler reads it.
#[derive(Clone, Copy, Debug, PartialEq, Eq, Structural)]
pub struct EditorKey {
    pub kind: EditorKeyKind,
    /// Shift is held.
    pub shift: bool,
    /// Control, Alt or Meta is held.
    pub command_modifier: bool,
    /// The key is repeating from being held down.
    pub auto_repeat: bool,
    /// The candidate shortcut the key stands for: its offset on the
    /// visible page of candidates.
    pub shortcut_offset: Option<usize>,
    /// The key ends number picking.
    pub exits_number_pick: bool,
    /// The key is one character.
    pub single_char: bool,
}

/// What the editor knows when a key goes down.
#[derive(Clone, Copy, Debug, PartialEq, Eq, Structural)]
pub struct EditorKeyContext {
    pub roman_enabled: bool,
    /// A spell review with flagged words is showing.
    pub spell_has_issues: bool,
    pub candidate_mode: CandidateMode,
    pub candidate_level: CandidateLevel,
    /// How many candidates the bar holds.
    pub suggestion_count: usize,
    pub selected: usize,
    pub selection_started: bool,
    pub number_pick_mode: bool,
    /// Segmented refinement is on.
    pub segmented_refine: bool,
    /// A segmented session is open.
    pub has_segment_session: bool,
    /// How many candidates the open segment has.
    pub segment_candidate_count: usize,
    /// The first candidate of the visible page.
    pub visible_page_start: usize,
}

/// What the editor does with a key press.
#[derive(Clone, Copy, Debug, PartialEq, Eq, Structural)]
pub enum EditorKeyAction {
    /// Leave the key to the text area.
    PassThrough,
    /// Swallow the key and do nothing else.
    Swallow,
    /// Switch Roman input to `enable` (clearing the candidates when it goes
    /// off, refreshing them when it comes on).
    ToggleRoman { enable: bool },
    /// Move the spell review to the previous or next flagged word.
    MoveSpellSelection { forward: bool },
    /// A horizontal arrow with the action `arrow_action` gives it.
    HorizontalArrow { forward: bool, action: ArrowAction },
    /// Open the segments of the selected phrase.
    EnterSegmentEdit,
    /// Go back from the segments to the phrases.
    ExitSegmentEdit,
    /// Select candidate `index`: in the open segment when `in_segment`,
    /// marking the selection as started when `mark_started`, and setting
    /// number picking to `number_pick`.
    Select { index: usize, in_segment: bool, mark_started: bool, number_pick: bool },
    /// Select candidate `index` by its shortcut and turn number picking on;
    /// at phrase level, also commit it as if clicked.
    PickShortcut { index: usize, in_segment: bool, click: bool },
    /// Commit the active selection.
    Commit,
    /// Leave number picking: no selection, no lock.
    ExitNumberPick,
}

/// Whether live (keyboard-driven) candidates are showing: next-word
/// predictions are tapped, not keyed.
pub open spec fn has_live(ctx: EditorKeyContext) -> bool {
    ctx.suggestion_count > 0 && ctx.candidate_mode != CandidateMode::NextWord
}

/// Whether selections go to the open segment.
pub open spec fn in_segment(ctx: EditorKeyContext) -> bool {
    ctx.segmented_refine && ctx.has_segment_session
}

/// The index after `selected` among `len`, or the first one when no
/// selection has started.
pub open spec fn forward_index(ctx: EditorKeyContext, len: usize) -> usize {
    if !ctx.selection_started {
        0
    } else {
        ((ctx.selected + 1) % (len as int)) as usize
    }
}

/// The editor's key decision. Alt+Ctrl+K toggles Roman input first of all;
/// then, during a spell review with flagged words, the horizontal arrows
/// move between them; with Roman input off everything else passes. Tab
/// opens a phrase's segments and closes them again, and otherwise cycles
/// forward like ArrowDown; ArrowUp cycles backward; Space starts, then
/// continues, a number pick, and Shift+Space or Enter commits; a shortcut
/// picks a candidate of the visible page; while a number pick is locked,
/// the keys that end it end it and other plain characters are swallowed.
pub open spec fn editor_keydown_spec(ctx: EditorKeyContext, key: EditorKey) -> EditorKeyAction {
    let live = has_live(ctx);
    let len = ctx.suggestion_count;
    let can_cycle = live && ctx.candidate_mode == CandidateMode::Transliteration;
    let lock = live && ctx.number_pick_mode;
    let seg = in_segment(ctx);
    let horizontal = key.kind == EditorKeyKind::ArrowLeft || key.kind == EditorKeyKind::ArrowRight;
    if key.kind == EditorKeyKind::ToggleRoman {
        EditorKeyAction::ToggleRoman { enable: !ctx.roman_enabled }
    } else if ctx.spell_has_issues && horizontal {
        EditorKeyAction::MoveSpellSelection { forward: key.kind == EditorKeyKind::ArrowRight }
    } else if !ctx.roman_enabled {
        EditorKeyAction::PassThrough
    } else if horizontal {
        EditorKeyAction::HorizontalArrow {
            forward: key.kind == EditorKeyKind::ArrowRight,
            action: arrow_action(ctx.candidate_level, live, ctx.selection_started, ctx.number_pick_mode),
        }
    } else if key.kind == EditorKeyKind::Tab && ctx.candidate_level == CandidateLevel::Phrase {
        EditorKeyAction::EnterSegmentEdit
    } else if key.kind == EditorKeyKind::Tab && ctx.candidate_level == CandidateLevel::Segment {
        EditorKeyAction::ExitSegmentEdit
    } else if key.kind == EditorKeyKind::Tab && live {
        EditorKeyAction::Select { index: forward_index(ctx, len), in_segment: seg, mark_started: !seg, number_pick: false }
    } else if key.kind == EditorKeyKind::ArrowDown && live {
        if key.auto_repeat {
            EditorKeyAction::Swallow
        } else if ctx.segmented_refine {
            if !ctx.has_segment_session || ctx.segment_candidate_count == 0 {
                EditorKeyAction::Swallow
            } else {
                EditorKeyAction::Select {
                    index: forward_index(ctx, ctx.segment_candidate_count),
                    in_segment: true,
                    mark_started: true,
                    number_pick: false,
                }
            }
        } else {
            EditorKeyAction::Select { index: forward_index(ctx, len), in_segment: false, mark_started: true, number_pick: false }
        }
    } else if key.kind == EditorKeyKind::ArrowUp && live {
        if key.auto_repeat {
            EditorKeyAction::PassThrough
        } else {
            EditorKeyAction::Select {
                index: if !ctx.selection_started {
                    (len - 1) as usize
                } else {
                    ((ctx.selected + len - 1) % (len as int)) as usize
                },
                in_segment: seg,
                mark_started: !seg,
                number_pick: false,
            }
        }
    } else if key.kind == EditorKeyKind::Space && key.shift && can_cycle {
        EditorKeyAction::Commit
    } else if key.kind == EditorKeyKind::Space && can_cycle {
        EditorKeyAction::Select { index: forward_index(ctx, len), in_segment: seg, mark_started: !seg, number_pick: true }
    } else if key.kind == EditorKeyKind::Enter && live {
        EditorKeyAction::Commit
    } else if live && !key.command_modifier && key.shortcut_offset is Some && ctx.visible_page_start
        + key.shortcut_offset->0 < len {
        EditorKeyAction::PickShortcut {
            index: (ctx.visible_page_start + key.shortcut_offset->0) as usize,
            in_segment: seg,
            click: ctx.candidate_level == CandidateLevel::Phrase,
        }
    } else if lock {
        if key.exits_number_pick {
            EditorKeyAction::ExitNumberPick
        } else if key.single_char && !key.command_modifier {
            EditorKeyAction::Swallow
        } else {
            EditorKeyAction::PassThrough
        }
    } else {
        EditorKeyAction::PassThrough
    }
}

/// Decides what the editor does with a key press (see
/// `editor_keydown_spec`).
pub fn editor_keydown_action(ctx: EditorKeyContext, key: EditorKey) -> (a: EditorKeyAction)
    ensures
        a == editor_keydown_spec(ctx, key),
{
    let live = ctx.suggestion_count > 0 && ctx.candidate_mode != CandidateMode::NextWord;
    let len = ctx.suggestion_count;
    let can_cycle = space_cycle_enabled(live, ctx.candidate_mode);
    let lock = live && ctx.number_pick_mode;
    let seg = ctx.segmented_refine && ctx.has_segment_session;
    let horizontal = key.kind == EditorKeyKind::ArrowLeft || key.kind == EditorKeyKind::ArrowRight;
    if key.kind == EditorKeyKind::ToggleRoman {
        return EditorKeyAction::ToggleRoman { enable: !ctx.roman_enabled };
    }
    if ctx.spell_has_issues && horizontal {
        return EditorKeyAction::MoveSpellSelection { forward: key.kind == EditorKeyKind::ArrowRight };
    }
    if !ctx.roman_enabled {
        return EditorKeyAction::PassThrough;
    }
    if horizontal {
        let action = horizontal_arrow_action(ctx.candidate_level, live, ctx.selection_started, ctx.number_pick_mode);
        return EditorKeyAction::HorizontalArrow { forward: key.kind == EditorKeyKind::ArrowRight, action };
    }
    if key.kind == EditorKeyKind::Tab && ctx.candidate_level == CandidateLevel::Phrase {
        return EditorKeyAction::EnterSegmentEdit;
    }
    if key.kind == EditorKeyKind::Tab && ctx.candidate_level == CandidateLevel::Segment {
        return EditorKeyAction::ExitSegmentEdit;
    }
    if key.kind == EditorKeyKind::Tab && live {
        let index = if !ctx.selection_started { 0 } else { index_after(ctx.selected, len) };
        return EditorKeyAction::Select { index, in_segment: seg, mark_started: !seg, number_pick: false };
    }
    if key.kind == EditorKeyKind::ArrowDown && live {
        if key.auto_repeat {
            return EditorKeyAction::Swallow;
        }
        if ctx.segmented_refine {
            if !ctx.has_segment_session || ctx.segment_candidate_count == 0 {
                return EditorKeyAction::Swallow;
            }
            let n = ctx.segment_candidate_count;
            let index = if !ctx.selection_started { 0 } else { index_after(ctx.selected, n) };
            return EditorKeyAction::Select { index, in_segment: true, mark_started: true, number_pick: false };
        }
        let index = if !ctx.selection_started { 0 } else { index_after(ctx.selected, len) };
        return EditorKeyAction::Select { index, in_segment: false, mark_started: true, number_pick: false };
    }
    if key.kind == EditorKeyKind::ArrowUp && live {
        if key.auto_repeat {
            return EditorKeyAction::PassThrough;
        }
        let index = if !ctx.selection_started { len - 1 } else { index_before(ctx.selected, len) };
        return EditorKeyAction::Select { index, in_segment: seg, mark_started: !seg, number_pick: false };
    }
    if key.kind == EditorKeyKind::Space && key.shift && can_cycle {
        return EditorKeyAction::Commit;
    }
    if key.kind == EditorKeyKind::Space && can_cycle {
        let index = if !ctx.selection_started { 0 } else { index_after(ctx.selected, len) };
        return EditorKeyAction::Select { index, in_segment: seg, mark_started: !seg, number_pick: true };
    }
    if key.kind == EditorKeyKind::Enter && live {
        return EditorKeyAction::Commit;
    }
    if live && !key.command_modifier {
        if let Some(offset) = key.shortcut_offset {
            if offset < len && ctx.visible_page_start < len - offset {
                return EditorKeyAction::PickShortcut {
                    index: ctx.visible_page_start + offset,
                    in_segment: seg,
                    click: ctx.candidate_level == CandidateLevel::Phrase,
                };
            }
        }
    }
    if lock {
        if key.exits_number_pick {
            return EditorKeyAction::ExitNumberPick;
        }
        if key.single_char && !key.command_modifier {
            return EditorKeyAction::Swallow;
        }
    }
    EditorKeyAction::PassThrough
}


/// What each key does, stated from the key and the editor's state alone.
/// Alt+Ctrl+K flips Roman input whatever else holds. During a spell review
/// with flagged words the horizontal arrows move between them, forward on
/// ArrowRight. With Roman input off every other key reaches the text area.
/// With Roman input on and transliteration candidates showing (some
/// candidates, not next-word predictions): Enter commits the selection, and
/// so does Shift+Space; plain Space and Tab at flat level pick the first
/// candidate before any selection and the next one (wrapping) after;
/// ArrowUp picks the last before any selection and the previous one
/// (wrapping) after, and a held ArrowUp reaches the text area while a held
/// ArrowDown is swallowed. Tab opens a phrase's segments and closes them
/// again. Without live candidates, Enter, Tab, Space and the vertical
/// arrows reach the text area.
pub proof fn law_editor_key_outcomes(ctx: EditorKeyContext, key: EditorKey)
    ensures
        (key.kind == EditorKeyKind::ToggleRoman ==> editor_keydown_spec(ctx, key) == (EditorKeyAction::ToggleRoman {
            enable: !ctx.roman_enabled,
        })),
        (ctx.spell_has_issues && key.kind == EditorKeyKind::ArrowLeft ==> editor_keydown_spec(ctx, key)
            == (EditorKeyAction::MoveSpellSelection { forward: false })),
        (ctx.spell_has_issues && key.kind == EditorKeyKind::ArrowRight ==> editor_keydown_spec(ctx, key)
            == (EditorKeyAction::MoveSpellSelection { forward: true })),
        !ctx.roman_enabled && key.kind != EditorKeyKind::ToggleRoman && !(ctx.spell_has_issues && (key.kind
            == EditorKeyKind::ArrowLeft || key.kind == EditorKeyKind::ArrowRight)) ==> editor_keydown_spec(ctx, key)
            == EditorKeyAction::PassThrough,
        ({
            let live = ctx.suggestion_count > 0 && ctx.candidate_mode != CandidateMode::NextWord;
            let n = ctx.suggestion_count as int;
            let seg = ctx.segmented_refine && ctx.has_segment_session;
            let next = if ctx.selection_started { (ctx.selected + 1) % n } else { 0 };
            let prev = if ctx.selection_started { (ctx.selected + n - 1) % n } else { n - 1 };
            ctx.roman_enabled ==> {
                &&& key.kind == EditorKeyKind::Enter && live ==> editor_keydown_spec(ctx, key)
                    == EditorKeyAction::Commit
                &&& key.kind == EditorKeyKind::Space && key.shift && live && ctx.candidate_mode
                    == CandidateMode::Transliteration ==> editor_keydown_spec(ctx, key) == EditorKeyAction::Commit
                &&& key.kind == EditorKeyKind::Space && !key.shift && live && ctx.candidate_mode
                    == CandidateMode::Transliteration ==> editor_keydown_spec(ctx, key) == EditorKeyAction::Select {
                    index: next as usize,
                    in_segment: seg,
                    mark_started: !seg,
                    number_pick: true,
                }
                &&& key.kind == EditorKeyKind::Tab && ctx.candidate_level == CandidateLevel::Phrase
                    ==> editor_keydown_spec(ctx, key) == EditorKeyAction::EnterSegmentEdit
                &&& key.kind == EditorKeyKind::Tab && ctx.candidate_level == CandidateLevel::Segment
                    ==> editor_keydown_spec(ctx, key) == EditorKeyAction::ExitSegmentEdit
                &&& key.kind == EditorKeyKind::Tab && ctx.candidate_level == CandidateLevel::Flat && live
                    ==> editor_keydown_spec(ctx, key) == EditorKeyAction::Select {
                    index: next as usize,
                    in_segment: seg,
                    mark_started: !seg,
                    number_pick: false,
                }
                &&& key.kind == EditorKeyKind::ArrowDown && live && !key.auto_repeat && !ctx.segmented_refine
                    ==> editor_keydown_spec(ctx, key) == EditorKeyAction::Select {
                    index: next as usize,
                    in_segment: false,
                    mark_started: true,
                    number_pick: false,
                }
                &&& key.kind == EditorKeyKind::ArrowDown && live && key.auto_repeat ==> editor_keydown_spec(ctx, key)
                    == EditorKeyAction::Swallow
                &&& key.kind == EditorKeyKind::ArrowUp && live && !key.auto_repeat ==> editor_keydown_spec(ctx, key)
                    == EditorKeyAction::Select { index: prev as usize, in_segment: seg, mark_started: !seg, number_pick: false }
                &&& key.kind == EditorKeyKind::ArrowUp && live && key.auto_repeat ==> editor_keydown_spec(ctx, key)
                    == EditorKeyAction::PassThrough
                &&& !live && !ctx.number_pick_mode && (key.kind == EditorKeyKind::Enter || key.kind == EditorKeyKind::Space
                    || key.kind == EditorKeyKind::ArrowUp || key.kind == EditorKeyKind::ArrowDown || (key.kind
                    == EditorKeyKind::Tab && ctx.candidate_level == CandidateLevel::Flat)) ==> editor_keydown_spec(ctx, key)
                    == EditorKeyAction::PassThrough
            }
        }),
{
}

/// The horizontal arrows with Roman input on and no spell review: phrase
/// level swallows them, segment level moves the segment focus, and at flat
/// level they cycle live candidates once a selection or number pick has
/// begun and otherwise reach the text area; ArrowRight goes forward.
pub proof fn law_editor_horizontal_arrows(ctx: EditorKeyContext, key: EditorKey)
    requires
        ctx.roman_enabled,
        !ctx.spell_has_issues,
        key.kind == EditorKeyKind::ArrowLeft || key.kind == EditorKeyKind::ArrowRight,
    ensures
        ({
            let action = if ctx.candidate_level == CandidateLevel::Phrase {
                ArrowAction::Consume
            } else if ctx.candidate_level == CandidateLevel::Segment {
                ArrowAction::MoveSegmentFocus
            } else if ctx.suggestion_count > 0 && ctx.candidate_mode != CandidateMode::NextWord && (ctx.selection_started
                || ctx.number_pick_mode) {
                ArrowAction::CycleCandidates
            } else {
                ArrowAction::PassThrough
            };
            editor_keydown_spec(ctx, key) == EditorKeyAction::HorizontalArrow {
                forward: key.kind == EditorKeyKind::ArrowRight,
                action,
            }
        }),
{
}

/// Candidate shortcuts and the number-pick lock, for any other key with
/// Roman input on and live candidates: an unmodified shortcut picks the
/// candidate at its offset on the visible page when there is one (and, at
/// phrase level, commits it); otherwise, while a number pick is on, a key
/// that ends it ends it, and another unmodified single character is
/// swallowed so it does not edit the text.
pub proof fn law_editor_shortcuts_and_lock(ctx: EditorKeyContext, key: EditorKey)
    requires
        ctx.roman_enabled,
        key.kind == EditorKeyKind::Other,
        ctx.suggestion_count > 0,
        ctx.candidate_mode != CandidateMode::NextWord,
    ensures
        ({
            !key.command_modifier && key.shortcut_offset is Some && ctx.visible_page_start + key.shortcut_offset->0
                < ctx.suggestion_count ==> editor_keydown_spec(ctx, key) == EditorKeyAction::PickShortcut {
                index: (ctx.visible_page_start + key.shortcut_offset->0) as usize,
                in_segment: ctx.segmented_refine && ctx.has_segment_session,
                click: ctx.candidate_level == CandidateLevel::Phrase,
            }
        }),
        (key.shortcut_offset is None && ctx.number_pick_mode && key.exits_number_pick ==> editor_keydown_spec(ctx, key)
            == EditorKeyAction::ExitNumberPick),
        (key.shortcut_offset is None && ctx.number_pick_mode && !key.exits_number_pick && key.single_char
            && !key.command_modifier ==> editor_keydown_spec(ctx, key) == EditorKeyAction::Swallow),
        (key.shortcut_offset is None && !ctx.number_pick_mode ==> editor_keydown_spec(ctx, key)
            == EditorKeyAction::PassThrough),
{
}

/// Cycling among `len` candidates: before any selection forward picks the
/// first and backward the last; after one, forward moves to the next and
/// backward to the previous, the last wrapping to the first and back.
pub proof fn law_cycle_steps(selected: usize, len: usize)
    requires
        selected < len,
    ensures
        cycled_index(selected, false, len, false) == 0,
        cycled_index(selected, false, len, true) == len - 1,
        selected + 1 < len ==> cycled_index(selected, true, len, false) == selected + 1,
        selected + 1 == len ==> cycled_index(selected, true, len, false) == 0,
        selected > 0 ==> cycled_index(selected, true, len, true) == selected - 1,
        selected == 0 ==> cycled_index(selected, true, len, true) == len - 1,
{
    let f = cycled_index(selected, true, len, false);
    let b = cycled_index(selected, true, len, true);
    assert(selected + 1 < len ==> f == selected + 1) by (nonlinear_arith)
        requires
            f == (selected + 1) % (len as int),
    ;
    assert(selected + 1 == len ==> f == 0) by (nonlinear_arith)
        requires
            f == (selected + 1) % (len as int),
            len > 0,
    ;
    assert(selected > 0 ==> b == selected - 1) by (nonlinear_arith)
        requires
            b == (selected + len - 1) % (len as int),
            selected < len,
    ;
    assert(selected == 0 ==> b == len - 1) by (nonlinear_arith)
        requires
            b == (selected + len - 1) % (len as int),
            len > 0,
    ;
}

} // verus!
