use khmerime::user_dictionary::{
    normalize_user_dictionary_key, parse_user_dictionary, remove_user_dictionary_mapping, replace_manual_save_request,
    save_manual_save_request, serialize_user_dictionary, ManualSaveRequest, UserDictionary,
};

fn request(roman: &str, khmer: &str) -> ManualSaveRequest {
    ManualSaveRequest { roman: roman.to_string(), khmer: khmer.to_string() }
}

fn strings(v: &[&str]) -> Vec<String> {
    v.iter().map(|s| s.to_string()).collect()
}

#[test]
fn normalizes_saved_roman_keys() {
    assert_eq!(normalize_user_dictionary_key("  KhNhom  "), "khnhom");
}

#[test]
fn saving_a_pair_offers_the_newest_spelling_first() {
    let mut d = UserDictionary::new();
    assert!(save_manual_save_request(request("Jea", " ជា "), &mut d));
    assert!(save_manual_save_request(request("jea", "ជារ"), &mut d));
    assert_eq!(d.get("jea"), Some(strings(&["ជារ", "ជា"])));
    assert_eq!(d.get("Jea"), None);
}

#[test]
fn saving_a_known_spelling_changes_nothing() {
    let mut d = UserDictionary::new();
    assert!(save_manual_save_request(request("jea", "ជា"), &mut d));
    assert!(save_manual_save_request(request("jea", "ជារ"), &mut d));
    assert!(save_manual_save_request(request("jea", "ជា"), &mut d));
    assert_eq!(d.get("jea"), Some(strings(&["ជារ", "ជា"])));
}

#[test]
fn empty_key_or_spelling_is_refused() {
    let mut d = UserDictionary::new();
    assert!(!save_manual_save_request(request("   ", "ជា"), &mut d));
    assert!(!save_manual_save_request(request("jea", "  "), &mut d));
    assert_eq!(d.len(), 0);
}

#[test]
fn editing_a_pair_moves_it() {
    let mut d = UserDictionary::new();
    assert!(save_manual_save_request(request("jea", "ជា"), &mut d));
    assert!(replace_manual_save_request(Some(request(" JEA", "ជា ")), request("chea", "ជា"), &mut d));
    assert_eq!(d.get("jea"), None);
    assert_eq!(d.get("chea"), Some(strings(&["ជា"])));
}

#[test]
fn editing_keeps_the_other_spellings_of_the_old_key() {
    let mut d = UserDictionary::new();
    assert!(save_manual_save_request(request("jea", "ជា"), &mut d));
    assert!(save_manual_save_request(request("jea", "ជារ"), &mut d));
    assert!(replace_manual_save_request(Some(request("jea", "ជារ")), request("jear", "ជារ"), &mut d));
    assert_eq!(d.get("jea"), Some(strings(&["ជា"])));
    assert_eq!(d.get("jear"), Some(strings(&["ជារ"])));
}

#[test]
fn removing_pairs() {
    let mut d = UserDictionary::new();
    assert!(save_manual_save_request(request("jea", "ជា"), &mut d));
    assert!(save_manual_save_request(request("jea", "ជារ"), &mut d));
    assert!(!remove_user_dictionary_mapping("jea", "ក", &mut d));
    assert!(!remove_user_dictionary_mapping("ka", "ជា", &mut d));
    assert!(!remove_user_dictionary_mapping("jea", " ជា", &mut d));
    assert!(remove_user_dictionary_mapping(" JEA ", "ជា", &mut d));
    assert_eq!(d.get("jea"), Some(strings(&["ជារ"])));
    assert!(remove_user_dictionary_mapping("jea", "ជារ", &mut d));
    assert_eq!(d.get("jea"), None);
    assert_eq!(d.len(), 0);
}

#[test]
fn stored_rows_are_grouped_sorted_and_deduplicated() {
    let d = parse_user_dictionary("jea\tជារ\n ka \t ក \nbroken\n\tx\njea\tជា\njea\tជារ\r\n");
    assert_eq!(d.get("jea"), Some(strings(&["ជា", "ជារ"])));
    assert_eq!(d.get("ka"), Some(strings(&["ក"])));
    assert_eq!(d.len(), 2);
}

#[test]
fn stored_text_sorts_keys_and_spellings() {
    let mut d = UserDictionary::new();
    assert!(save_manual_save_request(request("ka", "ក"), &mut d));
    assert!(save_manual_save_request(request("jea", "ជា"), &mut d));
    assert!(save_manual_save_request(request("jea", "ជារ"), &mut d));
    assert_eq!(serialize_user_dictionary(&d), "jea\tជា\njea\tជារ\nka\tក");
    assert_eq!(serialize_user_dictionary(&UserDictionary::new()), "");
}

#[test]
fn storing_and_reading_back_keeps_the_pairs() {
    let mut d = UserDictionary::new();
    assert!(save_manual_save_request(request("ka", "ក"), &mut d));
    assert!(save_manual_save_request(request("jea", "ជារ"), &mut d));
    assert!(save_manual_save_request(request("jea", "ជា"), &mut d));
    let back = parse_user_dictionary(&serialize_user_dictionary(&d));
    assert_eq!(back.get("jea"), Some(strings(&["ជា", "ជារ"])));
    assert_eq!(back.get("ka"), Some(strings(&["ក"])));
    assert_eq!(back.len(), 2);
}
