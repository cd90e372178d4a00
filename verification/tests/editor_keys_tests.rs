use khmerime::editor_keys::{
    cycle_target, editor_keydown_action, horizontal_arrow_action, space_cycle_enabled, ArrowAction, CandidateLevel,
    CandidateMode, EditorKey, EditorKeyAction, EditorKeyContext, EditorKeyKind,
};

#[test]
fn space_cycle_is_disabled_for_next_word_mode() {
    assert!(!space_cycle_enabled(true, CandidateMode::NextWord));
}

#[test]
fn space_cycle_is_enabled_for_transliteration_mode() {
    assert!(space_cycle_enabled(true, CandidateMode::Transliteration));
}

#[test]
fn space_cycle_needs_live_suggestions() {
    assert!(!space_cycle_enabled(false, CandidateMode::Transliteration));
    assert!(!space_cycle_enabled(true, CandidateMode::Inactive));
}

#[test]
fn first_cycle_picks_an_end() {
    assert_eq!(cycle_target(3, false, 5, 1), Some(0));
    assert_eq!(cycle_target(3, false, 5, -1), Some(4));
    assert_eq!(cycle_target(0, false, 0, 1), None);
}

#[test]
fn cycling_wraps_both_ways() {
    assert_eq!(cycle_target(4, true, 5, 1), Some(0));
    assert_eq!(cycle_target(0, true, 5, -1), Some(4));
    assert_eq!(cycle_target(2, true, 5, 1), Some(3));
    assert_eq!(cycle_target(2, true, 5, -1), Some(1));
}

#[test]
fn forward_then_backward_returns() {
    for selected in 0..4usize {
        let forward = cycle_target(selected, true, 4, 1).unwrap();
        assert_eq!(cycle_target(forward, true, 4, -1), Some(selected));
    }
}

#[test]
fn arrows_by_candidate_level() {
    assert_eq!(horizontal_arrow_action(CandidateLevel::Phrase, false, false, false), ArrowAction::Consume);
    assert_eq!(horizontal_arrow_action(CandidateLevel::Segment, true, true, true), ArrowAction::MoveSegmentFocus);
    assert_eq!(horizontal_arrow_action(CandidateLevel::Flat, true, true, false), ArrowAction::CycleCandidates);
    assert_eq!(horizontal_arrow_action(CandidateLevel::Flat, true, false, true), ArrowAction::CycleCandidates);
    assert_eq!(horizontal_arrow_action(CandidateLevel::Flat, true, false, false), ArrowAction::PassThrough);
    assert_eq!(horizontal_arrow_action(CandidateLevel::Flat, false, true, true), ArrowAction::PassThrough);
}

fn ctx() -> EditorKeyContext {
    EditorKeyContext {
        roman_enabled: true,
        spell_has_issues: false,
        candidate_mode: CandidateMode::Transliteration,
        candidate_level: CandidateLevel::Flat,
        suggestion_count: 5,
        selected: 0,
        selection_started: false,
        number_pick_mode: false,
        segmented_refine: false,
        has_segment_session: false,
        segment_candidate_count: 0,
        visible_page_start: 0,
    }
}

fn press(kind: EditorKeyKind) -> EditorKey {
    EditorKey {
        kind,
        shift: false,
        command_modifier: false,
        auto_repeat: false,
        shortcut_offset: None,
        exits_number_pick: false,
        single_char: false,
    }
}

#[test]
fn alt_ctrl_k_toggles_roman_input_first() {
    let mut c = ctx();
    c.spell_has_issues = true;
    assert_eq!(editor_keydown_action(c, press(EditorKeyKind::ToggleRoman)), EditorKeyAction::ToggleRoman { enable: false });
    c.roman_enabled = false;
    assert_eq!(editor_keydown_action(c, press(EditorKeyKind::ToggleRoman)), EditorKeyAction::ToggleRoman { enable: true });
}

#[test]
fn spell_review_takes_the_horizontal_arrows() {
    let mut c = ctx();
    c.spell_has_issues = true;
    c.roman_enabled = false;
    assert_eq!(editor_keydown_action(c, press(EditorKeyKind::ArrowLeft)), EditorKeyAction::MoveSpellSelection { forward: false });
    assert_eq!(editor_keydown_action(c, press(EditorKeyKind::ArrowRight)), EditorKeyAction::MoveSpellSelection { forward: true });
    c.spell_has_issues = false;
    assert_eq!(editor_keydown_action(c, press(EditorKeyKind::ArrowRight)), EditorKeyAction::PassThrough);
}

#[test]
fn arrows_follow_the_candidate_level() {
    let mut c = ctx();
    c.candidate_level = CandidateLevel::Phrase;
    assert_eq!(
        editor_keydown_action(c, press(EditorKeyKind::ArrowLeft)),
        EditorKeyAction::HorizontalArrow { forward: false, action: ArrowAction::Consume }
    );
    c.candidate_level = CandidateLevel::Flat;
    assert_eq!(
        editor_keydown_action(c, press(EditorKeyKind::ArrowRight)),
        EditorKeyAction::HorizontalArrow { forward: true, action: ArrowAction::PassThrough }
    );
}

#[test]
fn tab_opens_and_closes_segments_and_cycles_otherwise() {
    let mut c = ctx();
    c.candidate_level = CandidateLevel::Phrase;
    assert_eq!(editor_keydown_action(c, press(EditorKeyKind::Tab)), EditorKeyAction::EnterSegmentEdit);
    c.candidate_level = CandidateLevel::Segment;
    assert_eq!(editor_keydown_action(c, press(EditorKeyKind::Tab)), EditorKeyAction::ExitSegmentEdit);
    c.candidate_level = CandidateLevel::Flat;
    c.selection_started = true;
    c.selected = 4;
    assert_eq!(
        editor_keydown_action(c, press(EditorKeyKind::Tab)),
        EditorKeyAction::Select { index: 0, in_segment: false, mark_started: true, number_pick: false }
    );
    c.suggestion_count = 0;
    assert_eq!(editor_keydown_action(c, press(EditorKeyKind::Tab)), EditorKeyAction::PassThrough);
}

#[test]
fn arrow_keys_cycle_and_ignore_repeats() {
    let mut c = ctx();
    assert_eq!(
        editor_keydown_action(c, press(EditorKeyKind::ArrowUp)),
        EditorKeyAction::Select { index: 4, in_segment: false, mark_started: true, number_pick: false }
    );
    c.selection_started = true;
    c.selected = 2;
    assert_eq!(
        editor_keydown_action(c, press(EditorKeyKind::ArrowDown)),
        EditorKeyAction::Select { index: 3, in_segment: false, mark_started: true, number_pick: false }
    );
    let mut held = press(EditorKeyKind::ArrowDown);
    held.auto_repeat = true;
    assert_eq!(editor_keydown_action(c, held), EditorKeyAction::Swallow);
    held.kind = EditorKeyKind::ArrowUp;
    assert_eq!(editor_keydown_action(c, held), EditorKeyAction::PassThrough);
    c.segmented_refine = true;
    assert_eq!(editor_keydown_action(c, press(EditorKeyKind::ArrowDown)), EditorKeyAction::Swallow);
    c.has_segment_session = true;
    c.segment_candidate_count = 3;
    assert_eq!(
        editor_keydown_action(c, press(EditorKeyKind::ArrowDown)),
        EditorKeyAction::Select { index: 0, in_segment: true, mark_started: true, number_pick: false }
    );
}

#[test]
fn space_starts_and_continues_a_number_pick() {
    let mut c = ctx();
    assert_eq!(
        editor_keydown_action(c, press(EditorKeyKind::Space)),
        EditorKeyAction::Select { index: 0, in_segment: false, mark_started: true, number_pick: true }
    );
    c.selection_started = true;
    c.selected = 1;
    assert_eq!(
        editor_keydown_action(c, press(EditorKeyKind::Space)),
        EditorKeyAction::Select { index: 2, in_segment: false, mark_started: true, number_pick: true }
    );
    let mut shifted = press(EditorKeyKind::Space);
    shifted.shift = true;
    assert_eq!(editor_keydown_action(c, shifted), EditorKeyAction::Commit);
    c.candidate_mode = CandidateMode::NextWord;
    assert_eq!(editor_keydown_action(c, press(EditorKeyKind::Space)), EditorKeyAction::PassThrough);
    assert_eq!(editor_keydown_action(c, press(EditorKeyKind::Enter)), EditorKeyAction::PassThrough);
}

#[test]
fn shortcuts_pick_from_the_visible_page() {
    let mut c = ctx();
    c.suggestion_count = 12;
    c.visible_page_start = 9;
    let mut k = press(EditorKeyKind::Other);
    k.shortcut_offset = Some(2);
    assert_eq!(editor_keydown_action(c, k), EditorKeyAction::PickShortcut { index: 11, in_segment: false, click: false });
    k.shortcut_offset = Some(3);
    assert_eq!(editor_keydown_action(c, k), EditorKeyAction::PassThrough);
    k.shortcut_offset = Some(0);
    k.command_modifier = true;
    assert_eq!(editor_keydown_action(c, k), EditorKeyAction::PassThrough);
    c.candidate_level = CandidateLevel::Phrase;
    k.command_modifier = false;
    assert_eq!(editor_keydown_action(c, k), EditorKeyAction::PickShortcut { index: 9, in_segment: false, click: true });
}

#[test]
fn number_pick_locks_plain_keys_until_an_exit_key() {
    let mut c = ctx();
    c.number_pick_mode = true;
    let mut k = press(EditorKeyKind::Other);
    k.single_char = true;
    assert_eq!(editor_keydown_action(c, k), EditorKeyAction::Swallow);
    k.command_modifier = true;
    assert_eq!(editor_keydown_action(c, k), EditorKeyAction::PassThrough);
    k.exits_number_pick = true;
    assert_eq!(editor_keydown_action(c, k), EditorKeyAction::ExitNumberPick);
    c.number_pick_mode = false;
    assert_eq!(editor_keydown_action(c, k), EditorKeyAction::PassThrough);
}
