use khmerime::flick::{
    backspace_at, direction_class, insert_at, key, key_family_label, keymap, preview_member_class, Direction, Key, Preedit,
};

// A key with all four leans present.
fn full() -> Key {
    key("ក", "ង", "ឃ", "ខ", "គ")
}

#[test]
fn member_returns_the_glyph_for_a_direction() {
    assert_eq!(full().member(Direction::Center), "ក");
    assert_eq!(full().member(Direction::Up), "ង");
    assert_eq!(full().member(Direction::Down), "គ");
}

#[test]
fn member_covers_the_side_leans() {
    assert_eq!(full().member(Direction::Left), "ឃ");
    assert_eq!(full().member(Direction::Right), "ខ");
    let r = key("រ", "ល", "យ", "វ", "");
    assert!(r.has(Direction::Up));
    assert!(!r.has(Direction::Down));
}

#[test]
fn keymap_is_four_by_five() {
    let keymap = keymap();
    assert_eq!(keymap.len(), 4);
    assert!(keymap.iter().all(|row| row.len() == 5));
}

#[test]
fn multi_codepoint_members_are_single_entry_units() {
    let keymap = keymap();
    assert_eq!(keymap[3][1].center, "ឲ្យ");
    assert!(keymap[3][1].center.chars().count() > 1);
}

#[test]
fn preedit_stacks_units_and_joins_text() {
    let mut p = Preedit::default();
    p.push("ខ");
    p.push("្ញ");
    p.push("ុំ");
    assert_eq!(p.text(), "ខ្ញុំ");
}

#[test]
fn backspace_pops_one_entry_unit_atomically() {
    let mut p = Preedit::default();
    p.push("ឲ្យ");
    p.push("ក");
    assert!(p.backspace());
    assert_eq!(p.text(), "ឲ្យ");
    assert!(p.backspace());
    assert_eq!(p.text(), "");
    assert!(!p.backspace());
}

#[test]
fn pop_unit_returns_the_complete_last_entry_unit() {
    let mut p = Preedit::default();
    p.push("ក");
    p.push("ឲ្យ");
    assert_eq!(p.pop_unit().as_deref(), Some("ឲ្យ"));
    assert_eq!(p.text(), "ក");
}

#[test]
fn push_ignores_empty_members() {
    let mut p = Preedit::default();
    p.push("");
    assert!(p.is_empty());
}

#[test]
fn take_returns_text_and_clears() {
    let mut p = Preedit::default();
    p.push("ក");
    p.push("ា");
    assert_eq!(p.take(), "កា");
    assert!(p.is_empty());
}

#[test]
fn preedit_from_text_holds_one_unit() {
    let mut p = Preedit::from_text("កា".to_owned());
    assert_eq!(p.text(), "កា");
    assert_eq!(p.pop_unit().as_deref(), Some("កា"));
    assert_eq!(p.pop_unit(), None);
    assert!(Preedit::from_text(String::new()).is_empty());
}

#[test]
fn insert_at_caret_puts_text_and_advances_caret() {
    let e = insert_at("ខ្ញុំ ", 6, 6, "ទៅ");
    assert_eq!(e.text, "ខ្ញុំ ទៅ");
    assert_eq!(e.caret, 8);
}

#[test]
fn insert_replaces_a_selection() {
    let e = insert_at("abc", 0, 2, "ក");
    assert_eq!(e.text, "កc");
    assert_eq!(e.caret, 1);
}

#[test]
fn insert_multi_codepoint_unit_advances_by_unit_char_len() {
    let e = insert_at("", 0, 0, "ឲ្យ");
    assert_eq!(e.text, "ឲ្យ");
    assert_eq!(e.caret, "ឲ្យ".chars().count());
}

#[test]
fn insert_clamps_a_selection_past_the_end() {
    let e = insert_at("ab", 5, 1, "x");
    assert_eq!(e.text, "abx");
    assert_eq!(e.caret, 3);
}

#[test]
fn backspace_deletes_one_char_before_caret() {
    let e = backspace_at("កា", 2, 2);
    assert_eq!(e.text, "ក");
    assert_eq!(e.caret, 1);
}

#[test]
fn backspace_at_start_is_noop() {
    let e = backspace_at("ក", 0, 0);
    assert_eq!(e.text, "ក");
    assert_eq!(e.caret, 0);
}

#[test]
fn backspace_deletes_a_selection() {
    let e = backspace_at("abcd", 1, 3);
    assert_eq!(e.text, "ad");
    assert_eq!(e.caret, 1);
}

#[test]
fn backspace_after_insert_restores_the_text() {
    let e = insert_at("abc", 1, 1, "x");
    let back = backspace_at(&e.text, e.caret, e.caret);
    assert_eq!(back.text, "abc");
    assert_eq!(back.caret, 1);
}

#[test]
fn preview_classes_mark_the_selected_lean() {
    assert_eq!(direction_class(Direction::Left), "left");
    assert_eq!(preview_member_class(Direction::Up, Direction::Up), "flick-preview-member up selected");
    assert_eq!(preview_member_class(Direction::Down, Direction::Center), "flick-preview-member down");
}

#[test]
fn key_labels_list_present_members_centre_first() {
    assert_eq!(key_family_label(&key("ក", "ខ", "", "គ", "")), "ក ខ គ");
    assert_eq!(key_family_label(&key("", "", "", "", "")), "");
    assert_eq!(key_family_label(&key("ា", "", "", "", "ិ")), "ា ិ");
}
