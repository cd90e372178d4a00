use khmerime::checker::{build_dictionary, check_text, target_frequencies, LexiconEntry, RunSegmentation, SuggestionRec};
use khmerime::detector::{
    best_model_guided_candidate, combine_detector_result, guided_from_answer, merge_detector_spans, sentence_has_stronger_detection,
    smallest_known_covering_span, DetectorSpan, HotspotWindow,
};
use khmerime::spellcheck::{ContextDetectorStatus, SpellCheckResult, SpellIssue, SpellIssueKind, SpellSegment};

fn entry(target: &str, frequency: u32) -> LexiconEntry {
    LexiconEntry { target: target.to_owned(), frequency }
}

fn span(start: usize, end: usize, confidence: f32) -> DetectorSpan {
    let clamped = confidence.clamp(0.0, 1.0);
    DetectorSpan {
        start,
        end,
        confidence_millis: (clamped * 1_000.0).round() as u16,
        below_warning: confidence < 0.5,
    }
}

fn base(segments: Vec<SpellSegment>) -> SpellCheckResult {
    SpellCheckResult { issues: Vec::new(), segments, detector_status: ContextDetectorStatus::NotChecked }
}

#[test]
fn model_hotspot_can_join_short_segments_into_confirmed_error() {
    let result = combine_detector_result(
        "របស",
        &[entry("របស់", 70_801)],
        &[],
        base(vec![SpellSegment { start: 0, end: 2 }, SpellSegment { start: 2, end: 3 }]),
        &[span(2, 3, 0.97)],
    );
    assert_eq!(result.issues.len(), 1);
    assert_eq!(result.issues[0].source, "របស");
    assert_eq!(result.issues[0].suggestions, vec!["របស់"]);
    assert_eq!(result.issues[0].kind, SpellIssueKind::Error);
}

#[test]
fn unresolved_model_hotspot_becomes_warning_for_whole_segment() {
    let result = combine_detector_result(
        "មនោ",
        &[entry("សាលារៀន", 14)],
        &[],
        base(vec![SpellSegment { start: 0, end: 3 }]),
        &[span(2, 3, 0.82)],
    );
    assert_eq!(result.issues.len(), 1);
    assert_eq!(result.issues[0].source, "មនោ");
    assert!(result.issues[0].suggestions.is_empty());
    assert_eq!(result.issues[0].kind, SpellIssueKind::Warning);
}

#[test]
fn low_confidence_unconfirmed_hotspot_is_hidden_beside_stronger_sentence_signal() {
    let text = "ឯកឧត្តម សាលារាន";
    let low = span(5, 6, 0.376);
    let high_start = text.chars().position(|c| c == 'រ').unwrap();
    let high = span(high_start, high_start + 1, 0.99);
    assert!(sentence_has_stronger_detection(text, &low, &[low, high]));
}

#[test]
fn a_stronger_detection_in_another_sentence_does_not_count() {
    let text = "ក។ខ";
    let low = span(0, 1, 0.3);
    let other = span(2, 3, 0.9);
    assert!(!sentence_has_stronger_detection(text, &low, &[low, other]));
    let weak_neighbour = span(0, 1, 0.4);
    assert!(!sentence_has_stronger_detection(text, &low, &[weak_neighbour]));
}

#[test]
fn touching_spans_merge_into_one_hotspot() {
    let merged = merge_detector_spans(&[span(6, 8, 0.2), span(0, 2, 0.4), span(2, 4, 0.7), span(10, 11, 0.1)]);
    assert_eq!(merged.len(), 3);
    assert_eq!((merged[0].start, merged[0].end), (0, 4));
    assert_eq!(merged[0].confidence_millis, 700);
    assert!(!merged[0].below_warning);
    assert_eq!((merged[1].start, merged[1].end), (6, 8));
    assert!(merged[1].below_warning);
    assert_eq!((merged[2].start, merged[2].end), (10, 11));
}

#[test]
fn no_detections_only_marks_the_detector_connected() {
    let issue = SpellIssue {
        start: 0,
        end: 1,
        source: "ក".to_owned(),
        suggestions: vec![],
        kind: SpellIssueKind::Error,
        confidence_millis: None,
    };
    let result = combine_detector_result(
        "ក",
        &[entry("ក", 1)],
        &[],
        SpellCheckResult {
            issues: vec![issue],
            segments: vec![SpellSegment { start: 0, end: 1 }],
            detector_status: ContextDetectorStatus::NotChecked,
        },
        &[],
    );
    assert_eq!(result.detector_status, ContextDetectorStatus::Connected);
    assert_eq!(result.issues.len(), 1);
}

#[test]
fn a_hotspot_replaces_the_issues_it_overlaps() {
    let entries = [entry("សាលារៀន", 14), entry("នៅ", 4_000), entry("ផ្ទះ", 2_000)];
    let text = "សាលារៀណនៅផ្ទះ";
    let seg = RunSegmentation {
        tokens: vec!["សាលារៀណ".to_owned(), "នៅ".to_owned(), "ផ្ទះ".to_owned()],
        segments: vec![(0, 7), (7, 9), (9, 13)],
    };
    let checked = check_text(text, &entries, &[], &[Some(seg)]);
    assert_eq!(checked.issues.len(), 1);
    let result = combine_detector_result(text, &entries, &[], checked, &[span(7, 8, 0.9)]);
    assert_eq!(result.issues.len(), 2);
    assert_eq!(result.issues[0].source, "សាលារៀណ");
    assert_eq!(result.issues[1].source, "នៅ");
    assert_eq!(result.issues[1].kind, SpellIssueKind::Warning);
    assert_eq!(result.issues[1].confidence_millis, Some(900));
}

#[test]
fn the_narrowest_known_word_covers_the_hotspot() {
    let freqs = target_frequencies(&[entry("កខ", 5), entry("កខគ", 5)], &[]);
    let segs = [SpellSegment { start: 0, end: 1 }, SpellSegment { start: 1, end: 2 }, SpellSegment { start: 2, end: 3 }];
    assert_eq!(smallest_known_covering_span("កខគ", &segs, 1, 1, &freqs), Some((0, 2)));
    assert_eq!(smallest_known_covering_span("កខគ", &segs, 2, 2, &freqs), Some((0, 3)));
    let apart = [SpellSegment { start: 0, end: 1 }, SpellSegment { start: 2, end: 3 }];
    assert_eq!(smallest_known_covering_span("ក ខ", &apart, 1, 1, &freqs), None);
}

fn sugg(term: &str, distance: usize, count: usize) -> SuggestionRec {
    SuggestionRec { term: term.to_owned(), distance, count }
}

fn window(source: &str, joined: bool, longest: usize) -> HotspotWindow {
    HotspotWindow {
        start: 0,
        end: source.chars().count(),
        source: source.to_owned(),
        joined_segments: joined,
        longest_component: longest,
    }
}

#[test]
fn a_dominant_repair_inside_the_hotspot_is_picked() {
    let w = window("កខគ", false, 0);
    let raw = vec![sugg("កខគ", 0, 90), sugg("កខឃ", 1, 40), sugg("កឆគ", 1, 80), sugg("កខគង", 1, 5)];
    let picked = guided_from_answer(&raw, &w, 2, 3).unwrap();
    assert_eq!(picked.suggestions, vec!["កខឃ", "កខគង"]);
    assert_eq!((picked.distance, picked.length_gap, picked.frequency), (1, 0, 40));
    let close = vec![sugg("កខឃ", 1, 40), sugg("កខង", 1, 20)];
    assert!(guided_from_answer(&close, &w, 2, 3).is_none());
    let joined = window("កខគ", true, 2);
    assert!(guided_from_answer(&raw, &joined, 2, 3).is_some());
    let joined_wide = window("កខគ", true, 3);
    assert!(guided_from_answer(&raw, &joined_wide, 2, 3).is_none());
}

#[test]
fn a_guided_repair_offers_lexicon_words_one_edit_away() {
    let lexicon = vec![entry("របស់", 70_801), entry("សាលា", 300)];
    let spell = build_dictionary(&target_frequencies(&lexicon, &[]));
    let segments = vec![SpellSegment { start: 0, end: 2 }, SpellSegment { start: 2, end: 3 }];
    let found = best_model_guided_candidate("របស", &segments, 0, 1, 2, 3, &spell).expect("a repair");
    assert_eq!(found.suggestions, vec!["របស់".to_owned()]);
    assert_eq!(found.distance, 1);
    for s in &found.suggestions {
        assert!(lexicon.iter().any(|e| &e.target == s));
    }
}
