use khmerime::android::{make_render_state, smart_refiner_config, SMART_REFINE_MAX_LATENCY_MS};
use khmerime::session::{PhraseCandidate, PhraseSegment, SegmentPreviewEntry, SessionResult, SessionSnapshot};
use khmerime::tsf_driver::SpanProposalMode;

#[test]
fn render_state_carries_the_phrase_wheel_and_its_selection() {
    let snapshot = SessionSnapshot {
        preedit: "khnhom".to_owned(),
        candidates: vec!["ខ្ញុំ".to_owned()],
        selected_index: Some(0),
        segment_preview: vec![SegmentPreviewEntry { output: "ខ្ញុំ".to_owned(), input: "khnhom".to_owned(), focused: true }],
        phrase_candidates: vec![PhraseCandidate {
            text: "ខ្ញុំ".to_owned(),
            segments: vec![PhraseSegment { input: "khnhom".to_owned(), output: "ខ្ញុំ".to_owned(), roman_hints: vec![] }],
            ..Default::default()
        }],
        selected_phrase_index: 2,
        segment_edit_index: Some(1),
        ..Default::default()
    };
    let result = SessionResult { consumed: true, commit_text: None };
    let state = make_render_state(&snapshot, &result);
    assert_eq!(state.preedit, "khnhom");
    assert_eq!(state.selected_index, Some(0));
    assert_eq!(state.segments.len(), 1);
    assert!(state.segments[0].focused);
    assert_eq!(state.phrase_candidates[0].segments[0].input, "khnhom");
    assert!(!state.phrase_candidates[0].segments[0].focused);
    assert_eq!(state.selected_phrase_index, 2);
    assert_eq!(state.segment_edit_index, Some(1));
    assert_eq!(state.commit_text, None);
}

#[test]
fn the_smart_refiner_runs_the_model_with_a_long_budget() {
    assert_eq!(smart_refiner_config(), (SpanProposalMode::Model, 2_000));
    assert_eq!(SMART_REFINE_MAX_LATENCY_MS, 2_000);
}
