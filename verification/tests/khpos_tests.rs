use khmerime::khpos::{compile_khpos_stats, parse_khpos_sentences, KhposError};

fn put_u32(out: &mut Vec<u8>, v: u32) {
    out.extend_from_slice(&v.to_le_bytes());
}

fn put_str(out: &mut Vec<u8>, s: &str) {
    out.extend_from_slice(s.as_bytes());
    out.push(0);
}

fn block(out: &mut Vec<u8>, records: &[(&[&str], u32)]) {
    put_u32(out, records.len() as u32);
    for (key, count) in records {
        for part in key.iter() {
            put_str(out, part);
        }
        put_u32(out, *count);
    }
}

const TRAIN: &str = "a/X b/Y\n\nc/X b/Y d/Z\n";
const TAGS: &str = "X Y\nX Y Z\n";

fn expected(surfaces: &[(&[&str], u32)]) -> Vec<u8> {
    let mut out = b"KPS1".to_vec();
    block(&mut out, &[(&["a"], 1), (&["b"], 2), (&["c"], 1), (&["d"], 1)]);
    block(&mut out, &[(&["a", "b"], 1), (&["b", "d"], 1), (&["c", "b"], 1)]);
    block(&mut out, surfaces);
    block(&mut out, &[(&["X"], 2), (&["Y"], 2), (&["Z"], 1)]);
    block(&mut out, &[(&["X", "Y"], 2), (&["Y", "Z"], 1)]);
    block(&mut out, &[(&["a", "X"], 1), (&["b", "Y"], 2), (&["c", "X"], 1), (&["d", "Z"], 1)]);
    out
}

#[test]
fn khpos_statistics_layout() {
    let all: &[(&[&str], u32)] = &[
        (&["a"], 1),
        (&["ab"], 1),
        (&["b"], 2),
        (&["bd"], 1),
        (&["c"], 1),
        (&["cb"], 1),
        (&["cbd"], 1),
        (&["d"], 1),
    ];
    assert_eq!(compile_khpos_stats(TRAIN, TAGS, 1, None).unwrap(), expected(all));
}

#[test]
fn surface_min_count_drops_rare_forms() {
    let kept: &[(&[&str], u32)] = &[(&["b"], 2)];
    assert_eq!(compile_khpos_stats(TRAIN, TAGS, 2, None).unwrap(), expected(kept));
}

#[test]
fn surface_top_n_keeps_the_most_frequent_then_earliest() {
    let kept: &[(&[&str], u32)] = &[(&["a"], 1), (&["ab"], 1), (&["b"], 2)];
    assert_eq!(compile_khpos_stats(TRAIN, TAGS, 1, Some(3)).unwrap(), expected(kept));
}

#[test]
fn surface_top_n_of_zero_or_above_the_size_keeps_everything() {
    let full = compile_khpos_stats(TRAIN, TAGS, 1, None).unwrap();
    assert_eq!(compile_khpos_stats(TRAIN, TAGS, 1, Some(0)).unwrap(), full);
    assert_eq!(compile_khpos_stats(TRAIN, TAGS, 1, Some(8)).unwrap(), full);
}

#[test]
fn dominant_tag_prefers_the_most_frequent_then_the_smallest_tag() {
    let train = "w/B w/A w/B v/Q v/P\n";
    let tags = "B A B Q P\n";
    let bytes = compile_khpos_stats(train, tags, 1, None).unwrap();
    let mut tail = Vec::new();
    block(&mut tail, &[(&["v", "P"], 1), (&["w", "B"], 2)]);
    assert!(bytes.ends_with(&tail));
}

#[test]
fn words_keep_everything_before_the_last_slash() {
    let sentences = parse_khpos_sentences("1/2/NUM\n", "NUM\n").unwrap();
    assert_eq!(sentences, vec![vec![(vec!['1', '/', '2'], vec!['N', 'U', 'M'])]]);
}

#[test]
fn sentence_counts_must_match() {
    assert_eq!(
        compile_khpos_stats("a/X\nb/Y\n", "X\n", 1, None),
        Err(KhposError::SentenceCountMismatch { train: 2, tags: 1 })
    );
}

#[test]
fn token_counts_must_match() {
    assert_eq!(
        compile_khpos_stats("a/X\nb/Y c/Z\n", "X\nY\n", 1, None),
        Err(KhposError::TokenTagMismatch { line: 2, tokens: 2, tags: 1 })
    );
}

#[test]
fn tokens_need_a_separator() {
    assert_eq!(
        compile_khpos_stats("a/X bY\n", "X Y\n", 1, None),
        Err(KhposError::MissingSeparator { line: 1, column: 2 })
    );
}

#[test]
fn word_and_tag_must_be_non_empty() {
    assert_eq!(compile_khpos_stats("/X\n", "X\n", 1, None), Err(KhposError::EmptyPart { line: 1, column: 1 }));
    assert_eq!(compile_khpos_stats("a/\n", "X\n", 1, None), Err(KhposError::EmptyPart { line: 1, column: 1 }));
}

#[test]
fn tags_must_agree_with_the_tag_file() {
    assert_eq!(
        compile_khpos_stats("a/X b/Q\n", "X Y\n", 1, None),
        Err(KhposError::TagMismatch { line: 1, column: 2, observed: "Q".to_string(), expected: "Y".to_string() })
    );
}

#[test]
fn nul_in_a_word_is_refused() {
    assert_eq!(
        compile_khpos_stats("b\0/X a/X\n", "X X\n", 1, None),
        Err(KhposError::NulText { text: "b\0".to_string() })
    );
}

#[test]
fn empty_corpus_compiles_to_empty_tables() {
    let mut expected = b"KPS1".to_vec();
    for _ in 0..6 {
        put_u32(&mut expected, 0);
    }
    assert_eq!(compile_khpos_stats("", "\n  \n", 1, None).unwrap(), expected);
}
