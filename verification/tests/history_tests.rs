use std::collections::HashMap;

use khmerime::history::{
    desktop_history_path, join_component, parse_desktop_history_rows, keep_persisted_rows, serialize_history_rows, DesktopHistoryStore,
    HistoryRow, PLANNED_HISTORY_PATH,
};

fn as_map(rows: Vec<HistoryRow>) -> HashMap<String, usize> {
    rows.into_iter().map(|row| (row.word, row.count)).collect()
}

fn rows_of(history: &HashMap<String, usize>) -> Vec<HistoryRow> {
    history
        .iter()
        .map(|(word, count)| HistoryRow { word: word.clone(), count: *count })
        .collect()
}

#[test]
fn parse_history_rows_skips_invalid_lines() {
    let parsed = as_map(parse_desktop_history_rows("ខ្ញុំ\t3\n\t1\nbad\nទៅ\tnope\nទៅ\t4"));
    assert_eq!(parsed.get("ខ្ញុំ"), Some(&3usize));
    assert_eq!(parsed.get("ទៅ"), Some(&4usize));
    assert_eq!(parsed.len(), 2);
}

#[test]
fn serialize_history_rows_is_sorted() {
    let mut history = HashMap::new();
    history.insert("ទៅ".to_owned(), 2usize);
    history.insert("ខ្ញុំ".to_owned(), 5usize);
    assert_eq!(serialize_history_rows(&rows_of(&history)), "ខ្ញុំ\t5\nទៅ\t2");
}

#[test]
fn wasm_stub_load_returns_empty() {
    let loaded = DesktopHistoryStore.history_from_file(None);
    assert!(loaded.is_empty());
    let empty: HashMap<String, usize> = HashMap::new();
    assert_eq!(empty.len(), 0);
}

#[test]
fn parse_trims_words_and_counts_and_keeps_the_last_row() {
    let parsed = as_map(parse_desktop_history_rows("  ក \t 7 \nក\t9\r\nខ\t+3\nគ\t-1\nឃ\t18446744073709551616"));
    assert_eq!(parsed.get("ក"), Some(&9usize));
    assert_eq!(parsed.get("ខ"), Some(&3usize));
    assert_eq!(parsed.len(), 2);
}

#[test]
fn history_round_trips_through_the_file_text() {
    let mut history = HashMap::new();
    history.insert("ខ្ញុំ".to_owned(), 5usize);
    history.insert("ទៅ".to_owned(), 0usize);
    history.insert("salaa".to_owned(), 123456usize);
    let text = DesktopHistoryStore.file_text(&rows_of(&history));
    let back = as_map(DesktopHistoryStore.history_from_file(Some(&text)));
    assert_eq!(back, history);
}

#[test]
fn empty_history_serializes_to_empty_text() {
    assert_eq!(serialize_history_rows(&[]), "");
    assert!(parse_desktop_history_rows("").is_empty());
}

#[test]
fn history_path_prefers_xdg_config_home() {
    assert_eq!(
        desktop_history_path(Some("/home/u/.cfg"), Some("/home/u")).as_deref(),
        Some("/home/u/.cfg/khmerime/history.tsv")
    );
    assert_eq!(
        desktop_history_path(None, Some("/home/u")).as_deref(),
        Some("/home/u/.config/khmerime/history.tsv")
    );
    assert_eq!(desktop_history_path(None, None), None);
    assert_eq!(
        desktop_history_path(Some("/cfg/"), None).as_deref(),
        Some("/cfg/khmerime/history.tsv")
    );
}

#[test]
fn joining_adds_a_separator_only_when_needed() {
    assert_eq!(join_component("", "a"), "a");
    assert_eq!(join_component("/", "a"), "/a");
    assert_eq!(join_component("/x", "a"), "/x/a");
    assert_eq!(PLANNED_HISTORY_PATH, "%APPDATA%\\khmerime\\history.tsv");
}

#[test]
fn stored_history_keeps_words_as_written_and_later_rows_win() {
    let rows = khmerime::history::parse_stored_history_rows("jea\t3\n\t2\nbad\nka\t 4\nka\t5\r\nka\t+6\n");
    let mut got: Vec<(String, usize)> = rows.iter().map(|r| (r.word.clone(), r.count)).collect();
    got.sort();
    assert_eq!(got, vec![(String::new(), 2), ("jea".to_string(), 3), ("ka".to_string(), 6)]);
}

#[test]
fn parsed_history_words_are_trimmed_and_non_empty() {
    let rows = parse_desktop_history_rows("  a b \t 3\n \t4\nc\t5\n\u{3000}d\u{3000}\t6\n");
    for row in &rows {
        assert!(!row.word.is_empty());
        assert_eq!(row.word.trim(), row.word);
    }
    let m = as_map(rows);
    assert_eq!(m.len(), 3);
    assert_eq!(m.get("a b"), Some(&3));
    assert_eq!(m.get("d"), Some(&6));
}

#[test]
fn parse_history_rows_skips_invalid_and_overlong_words() {
    let rows = parse_desktop_history_rows("ខ្ញុំ\t3\n\t1\nbad\nabcdefghijklmnopqr\t4\nabcdefghijklmnopqrs\t5");
    // Stand-in for the session's persistence check, which refuses the
    // 19-character word of this input.
    let keep: Vec<bool> = rows.iter().map(|r| r.word.chars().count() <= 18).collect();
    let parsed = as_map(keep_persisted_rows(rows, &keep));

    assert_eq!(parsed.get("ខ្ញុំ"), Some(&3usize));
    assert_eq!(parsed.get("abcdefghijklmnopqr"), Some(&4usize));
    assert_eq!(parsed.get("abcdefghijklmnopqrs"), None);
    assert_eq!(parsed.len(), 2);
}

#[test]
fn refused_words_are_dropped_in_order() {
    let rows = vec![
        HistoryRow { word: "a".to_owned(), count: 1 },
        HistoryRow { word: "b".to_owned(), count: 2 },
        HistoryRow { word: "c".to_owned(), count: 3 },
    ];
    let kept = keep_persisted_rows(rows, &[true, false, true]);
    assert_eq!(kept, vec![HistoryRow { word: "a".to_owned(), count: 1 }, HistoryRow { word: "c".to_owned(), count: 3 }]);
}
