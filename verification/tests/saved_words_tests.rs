use khmerime::saved_words::{
    contains_chars, filter_saved_pairs, saved_pair_matches, saved_words_listing, saved_words_page,
};
use khmerime::user_dictionary::{parse_user_dictionary, saved_word_pairs, ManualSaveRequest};

fn pair(roman: &str, khmer: &str) -> ManualSaveRequest {
    ManualSaveRequest { roman: roman.to_string(), khmer: khmer.to_string() }
}

fn chars(s: &str) -> Vec<char> {
    s.chars().collect()
}

#[test]
fn saved_pairs_are_ordered_by_roman_then_khmer() {
    let d = parse_user_dictionary("sok\tសុខ\nkam\tកម្ម\nsok\tសុក\n");
    let pairs = saved_word_pairs(&d);
    assert_eq!(pairs, vec![pair("kam", "កម្ម"), pair("sok", "សុក"), pair("sok", "សុខ")]);
}

#[test]
fn substring_search_finds_runs_only() {
    assert!(contains_chars(&chars("khmer"), &chars("hme")));
    assert!(contains_chars(&chars("khmer"), &chars("")));
    assert!(contains_chars(&chars(""), &chars("")));
    assert!(!contains_chars(&chars("khmer"), &chars("kmr")));
    assert!(!contains_chars(&chars("km"), &chars("khmer")));
    assert!(contains_chars(&chars("សុខសប្បាយ"), &chars("សប្")));
}

#[test]
fn pair_matching_checks_roman_then_khmer() {
    assert!(saved_pair_matches("sok", "សុខ", "", ""));
    assert!(saved_pair_matches("sok", "សុខ", "ok", "ok"));
    assert!(saved_pair_matches("sok", "សុខ", "xx", "ុខ"));
    assert!(!saved_pair_matches("sok", "សុខ", "xx", "xx"));
}

#[test]
fn search_lowercases_and_trims_the_query() {
    let pairs = vec![pair("Sok", "សុខ"), pair("kam", "កម្ម")];
    assert_eq!(filter_saved_pairs(&pairs, "  SO "), vec![pair("Sok", "សុខ")]);
}

#[test]
fn search_matches_khmer_spellings() {
    let pairs = vec![pair("sok", "សុខ"), pair("kam", "កម្ម")];
    assert_eq!(filter_saved_pairs(&pairs, " កម្ម "), vec![pair("kam", "កម្ម")]);
    assert_eq!(filter_saved_pairs(&pairs, "zz"), Vec::<ManualSaveRequest>::new());
}

#[test]
fn blank_search_keeps_every_pair() {
    let pairs = vec![pair("sok", "សុខ"), pair("kam", "កម្ម")];
    assert_eq!(filter_saved_pairs(&pairs, "   "), pairs);
}

#[test]
fn pages_hold_twenty_rows_and_clamp_to_the_last() {
    let rows: Vec<ManualSaveRequest> = (0..45).map(|i| pair(&format!("k{:02}", i), "ក")).collect();
    let (first, shown, count) = saved_words_page(rows.clone(), 0);
    assert_eq!((shown, count, first.len()), (0, 3, 20));
    assert_eq!(first[0], pair("k00", "ក"));
    let (last, shown, count) = saved_words_page(rows.clone(), 9);
    assert_eq!((shown, count, last.len()), (2, 3, 5));
    assert_eq!(last[0], pair("k40", "ក"));
    let (exact, _, count) = saved_words_page(rows[..40].to_vec(), 1);
    assert_eq!((count, exact.len()), (2, 20));
}

#[test]
fn an_empty_list_has_one_empty_page() {
    let (rows, shown, count) = saved_words_page(Vec::new(), 4);
    assert_eq!((rows.len(), shown, count), (0, 0, 1));
}

#[test]
fn listing_counts_every_pair_and_pages_the_search() {
    let d = parse_user_dictionary("sok\tសុខ\nkam\tកម្ម\nsok\tសុក\n");
    let page = saved_words_listing(&d, "SOK", 3);
    assert_eq!(page.total, 3);
    assert_eq!(page.page, 0);
    assert_eq!(page.page_count, 1);
    assert_eq!(page.entries, vec![pair("sok", "សុក"), pair("sok", "សុខ")]);
}
