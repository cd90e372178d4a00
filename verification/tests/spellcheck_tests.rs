use khmerime::spellcheck::{
    caret_after_replacement, ContextDetectorStatus, SpellCheckResult, SpellIssue, SpellIssueKind, SpellReview,
    SpellSegment, resolve_service_endpoint, segment_pieces, spell_pieces, SegmentPiece, SpellPiece, api_check_result,
    ApiIssue, check_result_applies,
};

#[test]
fn remote_service_endpoint_uses_page_hostname() {
    assert_eq!(
        resolve_service_endpoint(None, "http:", "192.168.40.240", 8901, "/check"),
        "http://192.168.40.240:8901/check"
    );
    assert_eq!(
        resolve_service_endpoint(Some("http://model.local:8091/check"), "http:", "192.168.40.240", 8901, "/check"),
        "http://model.local:8091/check"
    );
}

#[test]
fn ipv6_hosts_are_bracketed() {
    assert_eq!(resolve_service_endpoint(None, "https:", "::1", 443, "/x"), "https://[::1]:443/x");
}

fn issue(start: usize, end: usize, source: &str, suggestion: &str) -> SpellIssue {
    SpellIssue {
        start,
        end,
        source: source.to_owned(),
        suggestions: vec![suggestion.to_owned()],
        kind: SpellIssueKind::Error,
        confidence_millis: None,
    }
}

#[test]
fn accepting_issue_replaces_span_and_shifts_following_issue() {
    let mut review = SpellReview::complete(SpellCheckResult {
        issues: vec![issue(0, 2, "កខ", "កខគ"), issue(3, 5, "ឃង", "ឃងច")],
        segments: vec![SpellSegment { start: 0, end: 2 }, SpellSegment { start: 3, end: 5 }],
        detector_status: ContextDetectorStatus::NotChecked,
    });
    let (text, caret) = review.accept(0, "កខគ", "កខ ឃង").unwrap();
    assert_eq!(text, "កខគ ឃង");
    assert_eq!(caret, 3);
    assert_eq!((review.issues[0].start, review.issues[0].end), (4, 6));
    assert_eq!((review.segments[0].start, review.segments[0].end), (0, 3));
    assert_eq!((review.segments[1].start, review.segments[1].end), (4, 6));
}

#[test]
fn accepting_a_missing_issue_changes_nothing() {
    let mut review = SpellReview::complete(SpellCheckResult {
        issues: vec![issue(0, 2, "កខ", "កខគ")],
        segments: vec![],
        detector_status: ContextDetectorStatus::NotChecked,
    });
    assert_eq!(review.accept(5, "កខគ", "កខ"), None);
    assert_eq!(review.issues.len(), 1);
    let (text, caret) = review.accept(0, "ក", "កខឃ").unwrap();
    assert_eq!((text.as_str(), caret), ("កឃ", 1));
    assert!(review.issues.is_empty());
}

#[test]
fn replacement_preserves_and_adjusts_the_users_caret() {
    assert_eq!(caret_after_replacement(2, 4, 7, 5), 2);
    assert_eq!(caret_after_replacement(5, 4, 7, 5), 9);
    assert_eq!(caret_after_replacement(12, 4, 7, 5), 14);
    assert_eq!(caret_after_replacement(12, 4, 9, 2), 9);
}

#[test]
fn the_text_splits_around_its_issues() {
    let issues = vec![issue(1, 3, "ខគ", "ខគឃ"), issue(4, 5, "ច", "ចា")];
    let pieces = spell_pieces("កខគ ចឆ", &issues);
    assert_eq!(
        pieces,
        vec![
            SpellPiece::Plain("ក".to_owned()),
            SpellPiece::Issue { index: 0, text: "ខគ".to_owned() },
            SpellPiece::Plain(" ".to_owned()),
            SpellPiece::Issue { index: 1, text: "ច".to_owned() },
            SpellPiece::Plain("ឆ".to_owned()),
        ]
    );
    assert_eq!(spell_pieces("", &[]), vec![]);
    assert_eq!(spell_pieces("ab", &[]), vec![SpellPiece::Plain("ab".to_owned())]);
}

#[test]
fn the_text_splits_around_its_segments() {
    let segments = vec![SpellSegment { start: 0, end: 2 }, SpellSegment { start: 2, end: 3 }];
    assert_eq!(
        segment_pieces("កខគ", &segments),
        vec![
            SegmentPiece::Segment { index: 0, text: "កខ".to_owned() },
            SegmentPiece::Segment { index: 1, text: "គ".to_owned() },
        ]
    );
}

#[test]
fn api_issues_keep_their_ranked_suggestions_or_the_single_one() {
    use_api_result();
}

fn api_issue(start: usize, kind: &str, suggestion: Option<&str>, suggestions: &[&str]) -> ApiIssue {
    ApiIssue {
        start,
        end: start + 2,
        word: "កខ".to_owned(),
        kind: kind.to_owned(),
        suggestion: suggestion.map(str::to_owned),
        suggestions: suggestions.iter().map(|s| s.to_string()).collect(),
    }
}

fn use_api_result() {
    let issues = vec![
        api_issue(0, "likely-typo", Some("old"), &["a", "b"]),
        api_issue(3, "unknown", Some("only"), &[]),
        api_issue(6, "likely-typo", None, &[]),
    ];
    let result = api_check_result(&issues);
    assert_eq!(result.detector_status, ContextDetectorStatus::Connected);
    assert!(result.segments.is_empty());
    assert_eq!(result.issues.len(), 3);
    assert_eq!(result.issues[0].suggestions, vec!["a".to_owned(), "b".to_owned()]);
    assert_eq!(result.issues[0].kind, SpellIssueKind::Error);
    assert_eq!(result.issues[1].suggestions, vec!["only".to_owned()]);
    assert_eq!(result.issues[1].kind, SpellIssueKind::Warning);
    assert!(result.issues[2].suggestions.is_empty());
    assert_eq!(result.issues[2].confidence_millis, None);
    let many: Vec<ApiIssue> = (0..25).map(|k| api_issue(k * 3, "unknown", None, &[])).collect();
    let capped = api_check_result(&many);
    assert_eq!(capped.issues.len(), 20);
    assert_eq!(capped.issues[19].start, 57);
}

#[test]
fn a_result_applies_only_to_the_text_that_was_checked() {
    assert!(check_result_applies("សួស្តី", "សួស្តី"));
    assert!(!check_result_applies("សួស្តី ", "សួស្តី"));
}

#[test]
fn a_clean_review_is_cleared_only_while_text_and_review_stand() {
    let clean = SpellReview::complete(SpellCheckResult {
        issues: Vec::new(),
        segments: Vec::new(),
        detector_status: ContextDetectorStatus::NotChecked,
    });
    assert!(clean.should_clear_after_confirmation("ក", "ក"));
    assert!(!clean.should_clear_after_confirmation("កខ", "ក"));
    assert!(!SpellReview::checking().should_clear_after_confirmation("ក", "ក"));
}
