use khmerime::text::{char_len, slice_chars};

#[test]
fn slices_count_characters_not_bytes() {
    assert_eq!(slice_chars("សួស្តី", 1, 3), "ួស");
    assert_eq!(char_len("សួស្តី"), 6);
}

#[test]
fn slices_past_the_end_are_cut_short() {
    assert_eq!(slice_chars("abc", 1, 10), "bc");
    assert_eq!(slice_chars("abc", 5, 10), "");
    assert_eq!(slice_chars("abc", 2, 1), "");
    assert_eq!(slice_chars("", 0, 0), "");
}
