use khmerime::checker::{
    check_text, dedup_suggestions, rank_window, select_issues, sort_suggestions, target_frequencies, LexiconEntry,
    RankedIssue, RunSegmentation, SuggestionRec,
};
use khmerime::spellcheck::{ContextDetectorStatus, SpellIssue, SpellIssueKind, SpellSegment};

fn entry(target: &str, frequency: u32) -> LexiconEntry {
    LexiconEntry { target: target.to_owned(), frequency }
}

fn seg(tokens: &[&str]) -> Option<RunSegmentation> {
    let mut segments = Vec::new();
    let mut at = 0;
    for t in tokens {
        let n = t.chars().count();
        segments.push((at, at + n));
        at += n;
    }
    Some(RunSegmentation { tokens: tokens.iter().map(|t| t.to_string()).collect(), segments })
}

fn entries() -> Vec<LexiconEntry> {
    vec![entry("សាលារៀន", 14), entry("នៅ", 4_000), entry("ផ្ទះ", 2_000)]
}

#[test]
fn unknown_token_surfaces_a_one_edit_word() {
    let result = check_text("សាលារៀណនៅផ្ទះ", &entries(), &[], &[seg(&["សាលារៀណ", "នៅ", "ផ្ទះ"])]);
    assert_eq!(result.detector_status, ContextDetectorStatus::NotChecked);
    assert_eq!(result.segments.len(), 3);
    assert_eq!(result.segments[1], SpellSegment { start: 7, end: 9 });
    assert_eq!(result.issues.len(), 1);
    let issue = &result.issues[0];
    assert_eq!((issue.start, issue.end), (0, 7));
    assert_eq!(issue.source, "សាលារៀណ");
    assert_eq!(issue.suggestions, vec!["សាលារៀន".to_owned()]);
    assert_eq!(issue.kind, SpellIssueKind::Error);
}

#[test]
fn correct_text_is_not_flagged() {
    let result = check_text("សាលារៀននៅផ្ទះ", &entries(), &[], &[seg(&["សាលារៀន", "នៅ", "ផ្ទះ"])]);
    assert!(result.issues.is_empty());
    assert_eq!(result.segments.len(), 3);
}

fn school_entries() -> Vec<LexiconEntry> {
    vec![
        entry("សាលា", 1_825),
        entry("រាន", 111),
        entry("សាលារៀន", 14),
        entry("នៅ", 4_000),
        entry("ក្បែរ", 500),
        entry("ផ្ទះ", 2_000),
    ]
}

#[test]
fn unknown_single_token_surfaces_one_edit_word() {
    let result = check_text("សាលារៀណ", &school_entries(), &[], &[seg(&["សាលារៀណ"])]);
    assert_eq!(result.issues.len(), 1);
    assert_eq!(result.issues[0].source, "សាលារៀណ");
    assert_eq!(result.issues[0].suggestions.first().map(String::as_str), Some("សាលារៀន"));
}

#[test]
fn correct_long_word_is_not_flagged() {
    let result = check_text(
        "សាលារៀននៅក្បែរផ្ទះ",
        &school_entries(),
        &[],
        &[seg(&["សាលារៀន", "នៅ", "ក្បែរ", "ផ្ទះ"])],
    );
    assert!(result.issues.is_empty());
}

#[test]
fn saved_word_suppresses_possible_correction() {
    let saved = vec!["សាលារាន".to_owned()];
    let result = check_text("សាលារាន", &school_entries(), &saved, &[seg(&["សាលា", "រាន"])]);
    assert!(result.issues.is_empty());
}

#[test]
fn runs_start_at_their_text_position() {
    let result = check_text("ab សាលារៀណ!", &entries(), &[], &[seg(&["សាលារៀណ"])]);
    assert_eq!(result.segments, vec![SpellSegment { start: 3, end: 10 }]);
    assert_eq!((result.issues[0].start, result.issues[0].end), (3, 10));
}

#[test]
fn unsegmented_or_mismatched_runs_are_skipped() {
    assert!(check_text("សាលារៀណ", &entries(), &[], &[]).segments.is_empty());
    let wrong = check_text("សាលារៀណ", &entries(), &[], &[seg(&["សាលា"])]);
    assert!(wrong.segments.is_empty() && wrong.issues.is_empty());
}

#[test]
fn an_empty_lexicon_checks_nothing() {
    let result = check_text("សាលារៀណ", &[entry("abc", 5)], &["xyz".to_owned()], &[seg(&["សាលារៀណ"])]);
    assert!(result.issues.is_empty() && result.segments.is_empty());
}

#[test]
fn frequencies_keep_the_first_entry_and_raise_it() {
    let f = target_frequencies(&[entry("ក", 0), entry("ខ", 5), entry("ខ", 3), entry("ខ", 9), entry("x", 7)], &[]);
    assert_eq!(f.len(), 2);
    assert!(f.contains("ក") && f.contains("ខ") && !f.contains("x"));
    let g = target_frequencies(&[], &["គ".to_owned(), "gh".to_owned(), "គ".to_owned()]);
    assert_eq!(g.len(), 1);
}

fn sugg(term: &str, distance: usize, count: usize) -> SuggestionRec {
    SuggestionRec { term: term.to_owned(), distance, count }
}

#[test]
fn suggestions_sort_by_distance_length_frequency_then_text() {
    let sorted = sort_suggestions(vec![
        sugg("ab", 1, 5),
        sugg("abc", 1, 2),
        sugg("b", 0, 1),
        sugg("ac", 1, 9),
        sugg("aa", 1, 9),
    ]);
    let terms: Vec<&str> = sorted.iter().map(|s| s.term.as_str()).collect();
    assert_eq!(terms, vec!["b", "abc", "aa", "ac", "ab"]);
}

#[test]
fn dedup_keeps_the_first_of_each_term() {
    let deduped = dedup_suggestions(&vec![sugg("a", 1, 3), sugg("b", 1, 2), sugg("a", 2, 9)]);
    assert_eq!(deduped, vec![sugg("a", 1, 3), sugg("b", 1, 2)]);
}

#[test]
fn window_ranking_filters_and_limits() {
    // distance 0 and single-occurrence words are dropped; at most three shown.
    let shown = rank_window(
        vec![sugg("x", 0, 50), sugg("aaaa", 1, 1), sugg("bbbb", 1, 7), sugg("cccc", 1, 6), sugg("dddd", 1, 5), sugg("eeee", 1, 4), sugg("ffff", 2, 90)],
        true,
        0,
    )
    .unwrap();
    let terms: Vec<&str> = shown.iter().map(|s| s.term.as_str()).collect();
    assert_eq!(terms, vec!["bbbb", "cccc", "dddd"]);
    // a multi-token window needs suggestions longer than its longest token.
    assert_eq!(rank_window(vec![sugg("ab", 1, 9)], false, 2), None);
    assert!(rank_window(vec![sugg("abc", 1, 9)], false, 2).is_some());
    assert_eq!(rank_window(vec![], true, 0), None);
}

#[test]
fn distance_two_needs_a_confident_lead() {
    assert_eq!(rank_window(vec![sugg("abcdef", 2, 99)], true, 0), None);
    assert!(rank_window(vec![sugg("abcdef", 2, 100)], true, 0).is_some());
    assert_eq!(rank_window(vec![sugg("abcdef", 2, 400), sugg("abcdeg", 2, 101)], true, 0), None);
    let shown = rank_window(vec![sugg("abcdef", 2, 400), sugg("abcdeg", 2, 100)], true, 0).unwrap();
    assert_eq!(shown.len(), 2);
}

fn ranked(start: usize, end: usize, distance: usize, gap: usize) -> RankedIssue {
    RankedIssue {
        issue: SpellIssue {
            start,
            end,
            source: String::new(),
            suggestions: vec![],
            kind: SpellIssueKind::Error,
            confidence_millis: None,
        },
        best_distance: distance,
        best_length: 3,
        length_gap: gap,
        token_count: 1,
        best_frequency: 10,
    }
}

#[test]
fn selection_prefers_rank_skips_overlaps_and_orders_by_position() {
    let issues = select_issues(vec![ranked(10, 14, 1, 2), ranked(0, 4, 1, 0), ranked(2, 6, 1, 1), ranked(20, 22, 2, 0)]);
    let spans: Vec<(usize, usize)> = issues.iter().map(|i| (i.start, i.end)).collect();
    assert_eq!(spans, vec![(0, 4), (10, 14), (20, 22)]);
}

#[test]
fn selection_stops_at_twenty_issues() {
    let many: Vec<RankedIssue> = (0..30).map(|k| ranked(k * 2, k * 2 + 1, 1, 0)).collect();
    let issues = select_issues(many);
    assert_eq!(issues.len(), 20);
    assert_eq!(issues[19].start, 38);
}

#[test]
fn a_window_made_of_known_words_is_not_looked_up() {
    let result = check_text("សាលារាន", &school_entries(), &[], &[seg(&["សាលា", "រាន"])]);
    assert!(result.issues.is_empty());
    assert_eq!(result.segments.len(), 2);
}

fn edit_distance(a: &str, b: &str) -> usize {
    let a: Vec<char> = a.chars().collect();
    let b: Vec<char> = b.chars().collect();
    let mut d = vec![vec![0usize; b.len() + 1]; a.len() + 1];
    for i in 0..=a.len() {
        d[i][0] = i;
    }
    for j in 0..=b.len() {
        d[0][j] = j;
    }
    for i in 1..=a.len() {
        for j in 1..=b.len() {
            let cost = if a[i - 1] == b[j - 1] { 0 } else { 1 };
            let mut best = (d[i - 1][j] + 1).min(d[i][j - 1] + 1).min(d[i - 1][j - 1] + cost);
            if i > 1 && j > 1 && a[i - 1] == b[j - 2] && a[i - 2] == b[j - 1] {
                best = best.min(d[i - 2][j - 2] + 1);
            }
            d[i][j] = best;
        }
    }
    d[a.len()][b.len()]
}

#[test]
fn flagged_suggestions_are_lexicon_words_near_the_source() {
    let lexicon = vec![entry("សាលារៀន", 14), entry("សាលា", 300), entry("នៅ", 4_000), entry("ផ្ទះ", 2_000)];
    let result = check_text("សាលារៀណនៅផ្ទាះ", &lexicon, &[], &[seg(&["សាលារៀណ", "នៅ", "ផ្ទាះ"])]);
    assert!(!result.issues.is_empty());
    for issue in &result.issues {
        for s in &issue.suggestions {
            assert!(lexicon.iter().any(|e| &e.target == s));
            assert!(edit_distance(&issue.source, s) <= 2);
        }
    }
}
