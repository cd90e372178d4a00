use khmerime::macos::{page_jump_steps, page_key_direction, KEY_PAGE_DOWN, KEY_PAGE_UP};
use khmerime::macos::{macos_live_decoder_config, macos_visible_refiner_config, span_provider_active, MACOS_LIVE_MAX_LATENCY_MS};
use khmerime::startup::DecoderMode;
use khmerime::tsf_driver::SpanProposalMode;
use khmerime::macos::{
    keycode_mac_to_evdev, modifier_flags_to_xkb_state, page_jump_target, provenance_key, render_state,
    MacosSegmentEntry, MACOS_PAGE_SIZE,
};
use khmerime::macos_surface::{CandidateSurface, CandidateSurfaceMode};
use khmerime::session::{
    CandidateDisplayEntry, PhraseCandidate, PhraseSegment, SegmentPreviewEntry, SessionCommand, SessionResult,
    SessionSnapshot,
};

#[test]
fn keycode_mac_to_evdev_covers_full_ansi_layout() {
    let letter_keys: &[u16] = &[
        0x00, 0x01, 0x02, 0x03, 0x04, 0x05, 0x06, 0x07, // A S D F H G Z X
        0x08, 0x09, 0x0B, 0x0C, 0x0D, 0x0E, 0x0F, 0x10, // C V B Q W E R Y
        0x11, 0x1F, 0x20, 0x22, 0x23, 0x25, 0x26, 0x28, // T O U I P L J K
        0x2D, 0x2E, // N M
    ];
    for &mac_kc in letter_keys {
        assert_ne!(
            keycode_mac_to_evdev(mac_kc),
            0,
            "mac keycode 0x{mac_kc:02X} must map to a non-zero evdev code"
        );
    }
}

#[test]
fn keycode_mac_unknown_key_returns_zero() {
    assert_eq!(keycode_mac_to_evdev(0xFF), 0);
}

#[test]
fn keycodes_map_to_their_evdev_letters() {
    assert_eq!(keycode_mac_to_evdev(0x00), 30); // A
    assert_eq!(keycode_mac_to_evdev(0x0C), 16); // Q
    assert_eq!(keycode_mac_to_evdev(0x12), 2); // 1
    assert_eq!(keycode_mac_to_evdev(0x32), 41); // `
    assert_eq!(keycode_mac_to_evdev(0x0A), 0);
    assert_eq!(keycode_mac_to_evdev(0x24), 0);
}

#[test]
fn page_jump_moves_a_whole_page_keeping_the_row() {
    assert_eq!(page_jump_target(3, 21, 10, 1), 13);
    assert_eq!(page_jump_target(13, 21, 10, -1), 3);
}

#[test]
fn page_jump_clamps_to_a_short_final_page() {
    assert_eq!(page_jump_target(15, 21, 10, 1), 20);
}

#[test]
fn page_jump_wraps_like_space_does() {
    assert_eq!(page_jump_target(20, 21, 10, 1), 0);
    assert_eq!(page_jump_target(3, 21, 10, -1), 20);
}

#[test]
fn page_jump_survives_a_stale_selection_past_the_end() {
    assert_eq!(page_jump_target(50, 3, 10, 1), 0);
    assert_eq!(page_jump_target(50, 3, 10, -1), 0);
    assert_eq!(page_jump_target(0, 0, 10, 1), 0);
    assert_eq!(page_jump_target(0, 1, 0, 1), 0);
}

#[test]
fn page_jump_handles_extreme_directions() {
    assert_eq!(page_jump_target(3, 21, 10, isize::MAX), page_jump_target(3, 21, 10, isize::MAX % 3));
    assert_eq!(page_jump_target(3, 21, 10, isize::MIN), page_jump_target(3, 21, 10, (isize::MIN % 3) + 3));
    assert_eq!(page_jump_target(4, 21, 10, 4), 14);
    assert_eq!(MACOS_PAGE_SIZE, 10);
}

#[test]
fn modifier_flags_map_to_xkb_bits() {
    assert_eq!(modifier_flags_to_xkb_state(0), 0);
    assert_eq!(modifier_flags_to_xkb_state(1 << 17), 1);
    assert_eq!(modifier_flags_to_xkb_state(1 << 18), 4);
    assert_eq!(modifier_flags_to_xkb_state(1 << 19), 8);
    assert_eq!(modifier_flags_to_xkb_state((1 << 17) | (1 << 19) | (1 << 20)), 9);
    assert_eq!(modifier_flags_to_xkb_state(u32::MAX), 13);
}

#[test]
fn provenance_key_drops_white_space() {
    assert_eq!(provenance_key(" ខ្ញុំ ទៅ\t"), "ខ្ញុំទៅ");
    assert_eq!(provenance_key(""), "");
}

fn segment(input: &str, output: &str) -> PhraseSegment {
    PhraseSegment { input: input.to_owned(), output: output.to_owned(), roman_hints: vec![] }
}

fn phrase(text: &str, segments: Vec<PhraseSegment>, from_model: bool, lexicon_verified: bool) -> PhraseCandidate {
    PhraseCandidate { text: text.to_owned(), segments, from_model, lexicon_verified }
}

fn display(output: &str, recommended: bool, hints: &[&str]) -> CandidateDisplayEntry {
    CandidateDisplayEntry {
        output: output.to_owned(),
        recommended,
        roman_hints: hints.iter().map(|h| h.to_string()).collect(),
        ..Default::default()
    }
}

#[test]
fn render_state_projects_snapshot_and_provenance() {
    let snapshot = SessionSnapshot {
        preedit: "ខ្ញុំទៅ".to_owned(),
        raw_preedit: "khnhomtov".to_owned(),
        candidates: vec!["ខ្ញុំ ទៅ".to_owned(), "ខ្ចុំ".to_owned()],
        selected_index: Some(1),
        candidate_display: vec![display("ខ្ញុំ ទៅ", true, &["khnhom tov"]), display("ខ្ចុំ", false, &[])],
        segment_preview: vec![SegmentPreviewEntry { output: "ខ្ញុំ".to_owned(), input: "khnhom".to_owned(), focused: true }],
        phrase_candidates: vec![phrase("ខ្ញុំទៅ", vec![segment("khnhom", "ខ្ញុំ")], true, false)],
        focused_segment_index: Some(0),
        ..Default::default()
    };
    let result = SessionResult { consumed: true, commit_text: Some("ក".to_owned()) };
    let state = render_state(&snapshot, &result, true);
    assert_eq!(state.candidates, snapshot.candidates);
    assert_eq!(state.preedit, "khnhomtov");
    assert_eq!(state.selected_index, Some(1));
    assert_eq!(state.focused_segment_index, Some(0));
    assert_eq!(state.commit_text.as_deref(), Some("ក"));
    assert!(state.is_ready && state.consumed && !state.preedit_changed);
    assert_eq!(state.segments.len(), 1);
    assert_eq!(state.segments[0].input, "khnhom");
    assert!(state.segments[0].focused);
    assert_eq!(state.candidate_display.len(), 2);
    assert!(state.candidate_display[0].from_model);
    assert!(!state.candidate_display[0].lexicon_verified);
    assert_eq!(state.candidate_display[0].roman_hints, vec!["khnhom tov".to_owned()]);
    assert!(!state.candidate_display[1].from_model);
    assert!(state.candidate_display[1].lexicon_verified);
}

#[test]
fn segment_entry_copies_preview_fields() {
    let entry = MacosSegmentEntry::from_preview(&SegmentPreviewEntry {
        output: "ទៅ".to_owned(),
        input: "tov".to_owned(),
        focused: false,
    });
    assert_eq!((entry.output.as_str(), entry.input.as_str(), entry.focused), ("ទៅ", "tov", false));
}

fn mixed_phrase_snapshot() -> SessionSnapshot {
    SessionSnapshot {
        segmented_active: true,
        segment_edit_active: false,
        selected_phrase_index: 0,
        phrase_candidates: vec![
            phrase("ខ្ញុំទៅ", vec![segment("khnhom", "ខ្ញុំ"), segment("tov", "ទៅ")], false, true),
            phrase("ខ្ចុំ", vec![segment("khnhomtov", "ខ្ចុំ")], false, true),
            phrase("ខ្ចុំទៅ", vec![segment("khnhom", "ខ្ចុំ"), segment("tov", "ទៅ")], false, true),
            phrase("ខ្ញុំទៅ៏", vec![segment("khnhomtov", "ខ្ញុំទៅ៏")], true, true),
        ],
        ..Default::default()
    }
}

#[test]
fn phrase_mode_keeps_real_phrases_and_ai_rescues() {
    let surface = CandidateSurface::from_snapshot(&mixed_phrase_snapshot());
    assert_eq!(surface.mode(), CandidateSurfaceMode::Phrase);
    assert_eq!(surface.rows(), &["ខ្ញុំទៅ".to_owned(), "ខ្ចុំទៅ".to_owned(), "ខ្ញុំទៅ៏".to_owned()]);
    assert_eq!(surface.selected_index(), Some(0));
    assert!(surface.display()[0].recommended);
    assert!(!surface.display()[1].recommended);
    assert_eq!(surface.display()[0].roman_hints, vec!["khnhom tov".to_owned()]);
    assert_eq!(surface.display()[2].roman_hints, vec!["khnhomtov".to_owned()]);
}

#[test]
fn phrase_selection_maps_back_to_the_session_index() {
    let surface = CandidateSurface::from_snapshot(&mixed_phrase_snapshot());
    assert_eq!(surface.select_phrase_row(1), Some(SessionCommand::SelectPhrase(2)));
    assert_eq!(surface.select_phrase_row(2), Some(SessionCommand::SelectPhrase(3)));
    assert_eq!(surface.select_phrase_row(3), None);
    assert_eq!(surface.command_for_key(0x32), Some(SessionCommand::SelectPhrase(2)));
    assert_eq!(surface.command_for_key(0xFF54), Some(SessionCommand::SelectPhrase(2)));
    assert_eq!(surface.command_for_key(0xFF52), Some(SessionCommand::SelectPhrase(3)));
    assert_eq!(surface.command_for_key(0x30), None);
    assert_eq!(surface.command_for_key(0x61), None);
}

#[test]
fn hidden_selected_phrase_has_no_visible_row() {
    let mut snapshot = mixed_phrase_snapshot();
    snapshot.selected_phrase_index = 1;
    let surface = CandidateSurface::from_snapshot(&snapshot);
    assert_eq!(surface.selected_index(), None);
    assert_eq!(surface.cycle_phrase(1), Some(SessionCommand::SelectPhrase(2)));
}

#[test]
fn flat_and_segment_surfaces_delegate_keys() {
    let snapshot = SessionSnapshot {
        candidates: vec!["ក".to_owned(), "ខ".to_owned()],
        selected_index: Some(1),
        ..Default::default()
    };
    let surface = CandidateSurface::from_snapshot(&snapshot);
    assert_eq!(surface.mode(), CandidateSurfaceMode::Flat);
    assert_eq!(surface.rows(), &["ក".to_owned(), "ខ".to_owned()]);
    assert_eq!(surface.command_for_key(0x31), None);
    assert_eq!(surface.cycle_phrase(1), None);
    let editing = SessionSnapshot { segmented_active: true, segment_edit_active: true, ..snapshot };
    assert_eq!(CandidateSurface::from_snapshot(&editing).mode(), CandidateSurfaceMode::Segment);
}

#[test]
fn live_decoder_stays_deterministic_and_fast() {
    let plain = macos_live_decoder_config(None, None);
    assert_eq!(plain.mode, None);
    assert_eq!(plain.max_latency_ms, MACOS_LIVE_MAX_LATENCY_MS);
    assert_eq!(plain.max_latency_ms, 75);
    assert_eq!(plain.span_proposals, SpanProposalMode::Disabled);
    let wfst = macos_live_decoder_config(Some("weighted-span"), Some("model"));
    assert_eq!(wfst.mode, Some(DecoderMode::Wfst));
    assert_eq!(wfst.span_proposals, SpanProposalMode::Disabled);
    let fixed = macos_live_decoder_config(Some("nonsense"), Some("static-test"));
    assert_eq!(fixed.mode, None);
    assert_eq!(fixed.span_proposals, SpanProposalMode::StaticTest);
}

#[test]
fn visible_refiner_takes_the_armed_provider() {
    let model = macos_visible_refiner_config(Some("model"));
    assert_eq!(model.mode, Some(DecoderMode::Hybrid));
    assert_eq!(model.max_latency_ms, 250);
    assert_eq!(model.span_proposals, SpanProposalMode::Model);
    assert_eq!(macos_visible_refiner_config(None).span_proposals, SpanProposalMode::Disabled);
    assert!(span_provider_active(Some("static-test")));
    assert!(!span_provider_active(Some("static")));
    assert!(!span_provider_active(None));
}

const KEY_SPACE: u32 = 0x20;
const KEY_DOWN: u32 = 0xFF54;
const KEY_UP: u32 = 0xFF52;

fn preview(output: &str) -> SegmentPreviewEntry {
    SegmentPreviewEntry { output: output.to_owned(), ..Default::default() }
}

fn segmented_snapshot() -> SessionSnapshot {
    SessionSnapshot {
        segmented_active: true,
        segment_edit_active: false,
        selected_phrase_index: 0,
        phrase_candidates: vec![
            phrase("ខ្ញុំទៅ", vec![segment("khnhom", "ខ្ញុំ"), segment("tov", "ទៅ")], false, false),
            phrase("ខ្ចុំទៅ", vec![segment("khnhom", "ខ្ចុំ"), segment("tov", "ទៅ")], false, false),
        ],
        segment_preview: vec![preview("ខ្ញុំ"), preview("ទៅ")],
        candidates: vec!["ខ្ញុំ".to_owned(), "ខ្ចុំ".to_owned()],
        ..Default::default()
    }
}

fn original_mixed_phrase_snapshot() -> SessionSnapshot {
    SessionSnapshot {
        segmented_active: true,
        segment_edit_active: false,
        selected_phrase_index: 0,
        phrase_candidates: vec![
            phrase("ខ្ញុំទៅ", vec![segment("khnhom", "ខ្ញុំ"), segment("tov", "ទៅ")], false, false),
            phrase("ខ្ចុំ", vec![segment("khnhomtov", "ខ្ចុំ")], false, false),
            phrase("ខ្ចុំទៅ", vec![segment("khnhom", "ខ្ចុំ"), segment("tov", "ទៅ")], false, false),
            phrase("ខ្ញុំទៅ៏", vec![segment("khnhomtov", "ខ្ញុំទៅ៏")], true, false),
        ],
        segment_preview: vec![preview("ខ្ញុំ"), preview("ទៅ")],
        ..Default::default()
    }
}

#[test]
fn phrase_mode_keeps_real_phrases_and_ai_rescues_drops_flat_fallbacks() {
    let surface = CandidateSurface::from_snapshot(&original_mixed_phrase_snapshot());
    assert_eq!(surface.mode(), CandidateSurfaceMode::Phrase);
    assert_eq!(
        surface.rows(),
        &["ខ្ញុំទៅ".to_owned(), "ខ្ចុំទៅ".to_owned(), "ខ្ញុំទៅ៏".to_owned()],
        "phrases + the AI single-word rescue are kept; the flat single-word fallback is dropped"
    );
}

#[test]
fn phrase_selection_maps_back_to_the_unfiltered_session_index() {
    let surface = CandidateSurface::from_snapshot(&original_mixed_phrase_snapshot());
    assert_eq!(surface.select_phrase_row(1), Some(SessionCommand::SelectPhrase(2)));
    assert_eq!(surface.select_phrase_row(2), Some(SessionCommand::SelectPhrase(3)));
    assert_eq!(surface.command_for_key(KEY_SPACE), Some(SessionCommand::SelectPhrase(2)));
}

#[test]
fn segmented_composition_projects_phrase_mode_with_phrase_rows() {
    let surface = CandidateSurface::from_snapshot(&segmented_snapshot());
    assert_eq!(surface.mode(), CandidateSurfaceMode::Phrase);
    assert_eq!(surface.rows(), &["ខ្ញុំទៅ".to_owned(), "ខ្ចុំទៅ".to_owned()]);
    assert_eq!(surface.selected_index(), Some(0));
}

#[test]
fn segment_edit_projects_segment_mode_with_word_rows() {
    let mut snap = segmented_snapshot();
    snap.segment_edit_active = true;
    snap.selected_index = Some(1);
    let surface = CandidateSurface::from_snapshot(&snap);
    assert_eq!(surface.mode(), CandidateSurfaceMode::Segment);
    assert_eq!(surface.rows(), &["ខ្ញុំ".to_owned(), "ខ្ចុំ".to_owned()]);
    assert_eq!(surface.selected_index(), Some(1));
}

#[test]
fn flat_composition_projects_flat_mode_with_no_context() {
    let snap = SessionSnapshot {
        segmented_active: false,
        candidates: vec!["ជា".to_owned(), "ចា".to_owned()],
        selected_index: Some(0),
        ..Default::default()
    };
    let surface = CandidateSurface::from_snapshot(&snap);
    assert_eq!(surface.mode(), CandidateSurfaceMode::Flat);
    assert_eq!(surface.rows(), &["ជា".to_owned(), "ចា".to_owned()]);
}

#[test]
fn phrase_mode_keys_cycle_and_select_phrases() {
    let surface = CandidateSurface::from_snapshot(&segmented_snapshot());
    assert_eq!(surface.command_for_key(KEY_SPACE), Some(SessionCommand::SelectPhrase(1)));
    assert_eq!(surface.command_for_key(KEY_DOWN), Some(SessionCommand::SelectPhrase(1)));
    assert_eq!(surface.command_for_key(KEY_UP), Some(SessionCommand::SelectPhrase(1)));
    assert_eq!(surface.command_for_key(0x31), Some(SessionCommand::SelectPhrase(0)));
    assert_eq!(surface.command_for_key(0x32), Some(SessionCommand::SelectPhrase(1)));
    assert_eq!(surface.command_for_key(0x39), None);
    assert_eq!(surface.command_for_key(0xFF09), None);
}

#[test]
fn flat_and_segment_modes_delegate_keys_to_the_session() {
    let flat = SessionSnapshot {
        segmented_active: false,
        candidates: vec!["ជា".to_owned()],
        ..Default::default()
    };
    assert_eq!(CandidateSurface::from_snapshot(&flat).command_for_key(KEY_SPACE), None);
    let mut seg = segmented_snapshot();
    seg.segment_edit_active = true;
    assert_eq!(CandidateSurface::from_snapshot(&seg).command_for_key(KEY_SPACE), None);
}

#[test]
fn live_keystroke_path_carries_a_latency_budget() {
    assert_eq!(
        macos_live_decoder_config(None, None).max_latency_ms,
        75,
        "the live keystroke decoder must keep the 75 ms interactive budget"
    );
}

#[test]
fn page_keys_have_directions_and_arrows_do_not() {
    assert_eq!(page_key_direction(KEY_PAGE_UP), -1);
    assert_eq!(page_key_direction(KEY_PAGE_DOWN), 1);
    assert_eq!(page_key_direction(0xFF54), 0);
}

#[test]
fn page_jump_is_reached_by_forward_steps() {
    let len = 12;
    let target = page_jump_target(7, len, 9, 1);
    let steps = page_jump_steps(7, target, len);
    assert_eq!((7 + steps) % len, target);
    assert_eq!(page_jump_steps(5, 2, 6), 3);
    assert_eq!(page_jump_steps(2, 5, 6), 3);
    assert_eq!(page_jump_steps(4, 4, 6), 0);
}
