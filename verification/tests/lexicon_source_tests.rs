use khmerime::lexicon_source::{
    compile_lexicon, encode_lexicon, parse_csv_entries, parse_csv_fields, parse_lexicon_entries, parse_tsv_entries,
    LexiconError, LexiconSourceFormat,
};

fn pairs(v: &[(&str, &str)]) -> Vec<(String, String)> {
    v.iter().map(|(a, b)| (a.to_string(), b.to_string())).collect()
}

#[test]
fn csv_fields_split_on_commas() {
    assert_eq!(parse_csv_fields("jea,ជា", 1).unwrap(), vec!["jea".to_string(), "ជា".to_string()]);
    assert_eq!(parse_csv_fields("a,,b", 1).unwrap(), vec!["a".to_string(), String::new(), "b".to_string()]);
    assert_eq!(parse_csv_fields("", 1).unwrap(), vec![String::new()]);
}

#[test]
fn csv_quoted_fields_keep_commas_and_doubled_quotes() {
    assert_eq!(
        parse_csv_fields("\"a,b\",\"say \"\"hi\"\"\"", 1).unwrap(),
        vec!["a,b".to_string(), "say \"hi\"".to_string()]
    );
}

#[test]
fn csv_quote_inside_unquoted_field_is_refused() {
    assert_eq!(parse_csv_fields("ab\"c,d", 7), Err(LexiconError::CsvUnexpectedQuote { line: 7 }));
}

#[test]
fn csv_unterminated_quote_is_refused() {
    assert_eq!(parse_csv_fields("\"abc,d", 3), Err(LexiconError::CsvUnterminatedQuote { line: 3 }));
}

#[test]
fn csv_entries_skip_header_blank_lines_and_bom() {
    let source = "\u{feff}Roman, Target\n\njea,ជា\r\nkhnhom,ខ្ញុំ\n";
    assert_eq!(parse_csv_entries(source).unwrap(), pairs(&[("jea", "ជា"), ("khnhom", "ខ្ញុំ")]));
}

#[test]
fn csv_header_is_only_dropped_on_the_first_row() {
    let source = "jea,ជា\nroman,target\n";
    assert_eq!(parse_csv_entries(source).unwrap(), pairs(&[("jea", "ជា"), ("roman", "target")]));
}

#[test]
fn csv_bom_is_stripped_from_the_first_line_only() {
    let source = "\u{feff}jea,ជា\n\u{feff}ka,ក\n";
    assert_eq!(parse_csv_entries(source).unwrap(), pairs(&[("jea", "ជា"), ("\u{feff}ka", "ក")]));
}

#[test]
fn csv_rows_must_hold_two_columns() {
    assert_eq!(parse_csv_entries("jea,ជា\na,b,c\n"), Err(LexiconError::CsvColumnCount { line: 2, got: 3 }));
    assert_eq!(parse_csv_entries("\n\nsolo\n"), Err(LexiconError::CsvColumnCount { line: 3, got: 1 }));
}

#[test]
fn csv_field_errors_carry_the_line_number() {
    assert_eq!(parse_csv_entries("jea,ជា\n\"open,x\n"), Err(LexiconError::CsvUnterminatedQuote { line: 2 }));
}

#[test]
fn tsv_entries_split_at_the_first_tab() {
    let source = "jea\tជា\n  \nk\tx\ty\n";
    assert_eq!(parse_tsv_entries(source).unwrap(), pairs(&[("jea", "ជា"), ("k", "x\ty")]));
}

#[test]
fn tsv_line_without_tab_is_refused() {
    assert_eq!(parse_tsv_entries("jea\tជា\nbroken\n"), Err(LexiconError::TsvMissingTab { line: 2 }));
}

#[test]
fn lexicon_format_selects_the_parser() {
    assert_eq!(parse_lexicon_entries("a,b", LexiconSourceFormat::Csv).unwrap(), pairs(&[("a", "b")]));
    assert_eq!(parse_lexicon_entries("a\tb", LexiconSourceFormat::Tsv).unwrap(), pairs(&[("a", "b")]));
    assert_eq!(parse_lexicon_entries("a,b", LexiconSourceFormat::Tsv), Err(LexiconError::TsvMissingTab { line: 1 }));
}

#[test]
fn compiled_lexicon_layout() {
    let bytes = compile_lexicon("jea\tជា\n", LexiconSourceFormat::Tsv).unwrap();
    let mut expected = b"RLX1".to_vec();
    expected.extend_from_slice(&1u32.to_le_bytes());
    expected.extend_from_slice("jea".as_bytes());
    expected.push(0);
    expected.extend_from_slice("ជា".as_bytes());
    expected.push(0);
    assert_eq!(bytes, expected);
}

#[test]
fn empty_lexicon_compiles_to_header_only() {
    assert_eq!(compile_lexicon("", LexiconSourceFormat::Csv).unwrap(), vec![b'R', b'L', b'X', b'1', 0, 0, 0, 0]);
}

#[test]
fn nul_in_an_entry_is_refused() {
    let entries = pairs(&[("a", "b"), ("c\0", "d")]);
    assert_eq!(encode_lexicon(&entries), Err(LexiconError::NulByte { entry: 2 }));
}

#[test]
fn quoted_csv_row_round_trips() {
    let fields = vec!["a,\"b\"".to_string(), String::new()];
    let row = fields
        .iter()
        .map(|f| format!("\"{}\"", f.replace('"', "\"\"")))
        .collect::<Vec<_>>()
        .join(",");
    assert_eq!(parse_csv_fields(&row, 1).unwrap(), fields);
}

#[test]
fn tsv_rows_round_trip() {
    let entries = pairs(&[("jea", "ជា"), ("k k", "x\ty"), ("", "ក")]);
    let text = entries.iter().map(|(a, b)| format!("{a}\t{b}")).collect::<Vec<_>>().join("\n");
    assert_eq!(parse_tsv_entries(&text).unwrap(), entries);
}
