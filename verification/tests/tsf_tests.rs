use khmerime::history::PLANNED_HISTORY_PATH;
use khmerime::session::{
    CandidateDisplayEntry, CursorLocation, NativeKeyEvent, PhraseCandidate, PhraseSegment, SegmentPreviewEntry,
    SessionCommand, SessionResult, SessionSnapshot,
};
use khmerime::tsf_candidates::{
    candidate_window_height, candidate_window_placement, candidate_window_rows, candidate_window_width_for_text_width, clamp,
    display_candidate_rows, inline_preview_text, segment_preview_text, work_area_width, Rect, MAX_WIN_W, MIN_WIN_W,
};
use khmerime::tsf_com::{
    clsid_khmerime_text_service, com_class_key, com_class_registry_values, guid_braced, guid_khmerime_profile, wide_null,
    ComServerCounts, Guid, KhmerImeClassFactory,
};
use khmerime::tsf_driver::{
    maybe_complete_full_upgrade, poll_full_warmup, refine_route, span_proposal_mode_for, visible_refiner_config,
    DriverReadiness, EngineAction, RefineRoute, SpanProposalMode, WarmupPoll, FIRST_IMPLEMENTATION_MILESTONE,
    MODEL_REFINE_MAX_LATENCY_MS,
};
use khmerime::tsf_keys::{
    convert_windows_key, event_would_be_consumed, modifier_state, shift_digit_char, translated_key_char,
    windows_key_input_with_state, would_handle_windows_key, ConvertedKey, WindowsKeyInput,
    KEY_CONVERSION_IMPLEMENTED, SESSION_KEY_BACKSPACE, SESSION_KEY_DOWN, SESSION_KEY_ESCAPE, SESSION_KEY_LEFT,
    SESSION_KEY_RETURN, SESSION_KEY_RIGHT, SESSION_KEY_SPACE, SESSION_KEY_UP, STATE_ALT_MASK, STATE_CONTROL_MASK,
    STATE_RELEASE_MASK, STATE_SUPER_MASK, VK_BACK, VK_DOWN, VK_ESCAPE, VK_LEFT, VK_RETURN, VK_SPACE, VK_TAB,
};
use khmerime::tsf_render::{
    callback_map, derive_render_state, map_callback_to_session_command, map_callback_to_session_commands,
    RenderAction, WindowsTsfCallback,
};
use khmerime::tsf_surface::{CandidateSurface, CandidateSurfaceMode};

#[test]
fn callback_map_keeps_tsf_boundaries_visible() {
    let callbacks: Vec<_> = callback_map().iter().map(|mapping| mapping.callback).collect();

    assert!(callbacks.contains(&"ITfTextInputProcessor::Activate"));
    assert!(callbacks.contains(&"ITfTextInputProcessor::Deactivate"));
    assert!(callbacks.contains(&"ITfKeyEventSink::OnKeyDown"));
}

#[test]
fn callback_mapping_expands_lifecycle_events() {
    assert_eq!(
        map_callback_to_session_commands(&WindowsTsfCallback::Activate),
        vec![SessionCommand::Enable, SessionCommand::FocusIn]
    );
    assert_eq!(
        map_callback_to_session_commands(&WindowsTsfCallback::Deactivate),
        vec![SessionCommand::FocusOut, SessionCommand::Disable]
    );
    assert_eq!(
        map_callback_to_session_command(&WindowsTsfCallback::ResetRequested),
        Some(SessionCommand::Reset)
    );
    let event = NativeKeyEvent { keyval: 0x61, keycode: 0x41, state: 0 };
    assert_eq!(
        map_callback_to_session_commands(&WindowsTsfCallback::KeyDown(event)),
        vec![SessionCommand::ProcessKeyEvent(event)]
    );
}

#[test]
fn render_state_mirrors_session_snapshot_and_result() {
    let snapshot = SessionSnapshot {
        preedit: "chea".to_owned(),
        candidates: vec!["candidate".to_owned(), "chea".to_owned()],
        selected_index: Some(0),
        cursor_location: CursorLocation { x: 10, y: 20, width: 2, height: 16 },
        ..SessionSnapshot::default()
    };
    let result = SessionResult { consumed: true, commit_text: Some("candidate".to_owned()) };

    let render_state = derive_render_state(&snapshot, &result);

    assert!(render_state.consumed);
    assert_eq!(render_state.preedit, "chea");
    assert_eq!(render_state.candidates, vec!["candidate", "chea"]);
    assert_eq!(render_state.selected_index, Some(0));
    assert_eq!(render_state.commit_text.as_deref(), Some("candidate"));
    assert_eq!(render_state.cursor_location.x, 10);
    assert_eq!(
        render_state.actions,
        vec![RenderAction::CommitText, RenderAction::UpdateComposition, RenderAction::UpdateCandidates]
    );
    let idle = derive_render_state(&SessionSnapshot::default(), &SessionResult::default());
    assert_eq!(idle.actions, vec![RenderAction::ClearComposition, RenderAction::ClearCandidates]);
}

#[test]
fn exports_module_boundaries() {
    assert!(KEY_CONVERSION_IMPLEMENTED);
    assert_eq!(FIRST_IMPLEMENTATION_MILESTONE, "pure Rust Windows session driver around ImeSession");
    assert_eq!(PLANNED_HISTORY_PATH, "%APPDATA%\\khmerime\\history.tsv");
}

#[test]
fn candidate_window_width_grows_with_content_and_clamps_to_bounds() {
    assert_eq!(candidate_window_width_for_text_width(40, 800), MIN_WIN_W);
    assert_eq!(candidate_window_width_for_text_width(420, 800), 452);
    assert_eq!(candidate_window_width_for_text_width(2000, 800), MAX_WIN_W);
}

#[test]
fn candidate_window_width_respects_small_work_area() {
    assert_eq!(candidate_window_width_for_text_width(2000, 240), 240);
}

#[test]
fn candidate_window_height_counts_rows() {
    assert_eq!(candidate_window_height(0), 12);
    assert_eq!(candidate_window_height(9), 300);
    assert_eq!(candidate_window_width_for_text_width(-100, 0), 1);
}

fn work_area() -> Rect {
    Rect { left: 0, top: 0, right: 800, bottom: 600 }
}

#[test]
fn placement_sits_just_below_normal_anchor() {
    let placement =
        candidate_window_placement(&CursorLocation { x: 100, y: 200, width: 2, height: 18 }, 220, 74, work_area());
    assert_eq!(placement.x, 100);
    assert_eq!(placement.y, 220);
}

#[test]
fn placement_flips_above_near_bottom_edge() {
    let placement =
        candidate_window_placement(&CursorLocation { x: 100, y: 570, width: 2, height: 18 }, 220, 74, work_area());
    assert_eq!(placement.y, 494);
}

#[test]
fn placement_clamps_to_work_area_edges() {
    let left = candidate_window_placement(&CursorLocation { x: -30, y: 100, width: 2, height: 18 }, 220, 74, work_area());
    let right = candidate_window_placement(&CursorLocation { x: 760, y: 100, width: 2, height: 18 }, 220, 74, work_area());
    assert_eq!(left.x, 0);
    assert_eq!(right.x, 580);
}

#[test]
fn placement_clamps_when_neither_side_fits() {
    let tall = candidate_window_placement(&CursorLocation { x: 0, y: 40, width: 2, height: 18 }, 220, 590, work_area());
    assert_eq!(tall.y, 10);
    assert_eq!(clamp(5, 10, 3), 10);
    assert_eq!(work_area_width(Rect { left: 10, top: 0, right: 5, bottom: 0 }), 1);
    assert_eq!(work_area_width(work_area()), 800);
}

#[test]
fn segment_preview_marks_focused_chunk() {
    let preview = segment_preview_text(&[
        SegmentPreviewEntry { output: "first".to_owned(), input: "foo".to_owned(), focused: true },
        SegmentPreviewEntry { output: "second".to_owned(), input: "bar".to_owned(), focused: false },
    ]);
    assert_eq!(preview.as_deref(), Some("[first(foo)] | second(bar)"));
}

#[test]
fn segment_preview_skips_blank_output_and_trims() {
    let preview = segment_preview_text(&[
        SegmentPreviewEntry { output: "  ".to_owned(), input: "x".to_owned(), focused: true },
        SegmentPreviewEntry { output: " ទៅ ".to_owned(), input: "  ".to_owned(), focused: false },
    ]);
    assert_eq!(preview.as_deref(), Some("ទៅ"));
    assert_eq!(segment_preview_text(&[]), None);
}

#[test]
fn candidate_rows_match_ibus_metadata_labels() {
    let rows = display_candidate_rows(
        &["ជា".to_owned(), "ជៀ".to_owned(), "jea".to_owned()],
        &[
            CandidateDisplayEntry {
                output: "ជា".to_owned(),
                recommended: true,
                roman_hints: vec!["jea".to_owned(), "chea".to_owned()],
                ..Default::default()
            },
            CandidateDisplayEntry {
                output: "ជៀ".to_owned(),
                recommended: false,
                roman_hints: vec!["jia".to_owned()],
                ..Default::default()
            },
            CandidateDisplayEntry {
                output: "jea".to_owned(),
                recommended: false,
                roman_hints: vec![],
                is_raw_fallback: true,
                from_model: false,
            },
        ],
    );
    assert_eq!(rows, vec!["\u{2713} ជា (jea / chea)", "ជៀ (jia)", "~ jea"]);
}

#[test]
fn candidate_rows_fall_back_to_plain_candidates_without_metadata() {
    let rows = display_candidate_rows(&["ជា".to_owned(), "jea".to_owned()], &[]);
    assert_eq!(rows, vec!["ជា", "jea"]);
}

#[test]
fn candidate_rows_show_at_most_three_hints() {
    let rows = display_candidate_rows(
        &["ក".to_owned()],
        &[CandidateDisplayEntry {
            output: "  ".to_owned(),
            recommended: false,
            roman_hints: vec![" a ".to_owned(), "".to_owned(), "b".to_owned(), "c".to_owned(), "d".to_owned()],
            ..Default::default()
        }],
    );
    assert_eq!(rows, vec!["ក (a / b / c)"]);
}

fn surface_with(preedit_rows: Vec<String>, selected: Option<usize>) -> CandidateSurface {
    CandidateSurface::from_snapshot(&SessionSnapshot {
        candidates: preedit_rows,
        selected_index: selected,
        ..Default::default()
    })
}

#[test]
fn inline_preview_marks_selected_candidate() {
    let surface = surface_with(vec!["ក".to_owned(), "ខ".to_owned()], Some(1));
    assert_eq!(inline_preview_text("ka", &surface).as_deref(), Some("ka  [1. ក  2. *ខ]"));
    assert_eq!(inline_preview_text("", &surface), None);
    let empty = surface_with(vec![], None);
    assert_eq!(inline_preview_text("ka", &empty).as_deref(), Some("ka"));
}

#[test]
fn inline_preview_shows_five_rows_and_the_segments() {
    let rows: Vec<String> = (0..7).map(|i| format!("r{i}")).collect();
    let surface = CandidateSurface::from_snapshot(&SessionSnapshot {
        candidates: rows,
        selected_index: Some(0),
        segmented_active: true,
        segment_edit_active: true,
        segment_preview: vec![SegmentPreviewEntry { output: "ក".to_owned(), input: "k".to_owned(), focused: true }],
        ..Default::default()
    });
    assert_eq!(surface.mode(), CandidateSurfaceMode::Segment);
    assert_eq!(
        inline_preview_text("kx", &surface).as_deref(),
        Some("kx  {[ក(k)]}  [1. *r0  2. r1  3. r2  4. r3  5. r4]")
    );
}

fn key(virtual_key: u32, state: u32, ch: Option<char>) -> WindowsKeyInput {
    WindowsKeyInput { virtual_key, scan_code: 0, state, translated_char: ch }
}

#[test]
fn printable_ascii_becomes_session_keyval() {
    assert_eq!(
        convert_windows_key(key(0x41, 0, Some('a'))),
        ConvertedKey::Event(NativeKeyEvent { keyval: 'a' as u32, keycode: 0x41, state: 0 })
    );
}

fn keyval_for(virtual_key: u32) -> Option<u32> {
    match convert_windows_key(WindowsKeyInput { virtual_key, ..WindowsKeyInput::default() }) {
        ConvertedKey::Event(event) => Some(event.keyval),
        ConvertedKey::PassThrough => None,
    }
}

#[test]
fn special_keys_map_to_session_contract() {
    assert_eq!(keyval_for(VK_BACK), Some(SESSION_KEY_BACKSPACE));
    assert_eq!(keyval_for(VK_RETURN), Some(SESSION_KEY_RETURN));
    assert_eq!(keyval_for(VK_ESCAPE), Some(SESSION_KEY_ESCAPE));
    assert_eq!(keyval_for(VK_LEFT), Some(SESSION_KEY_LEFT));
    assert_eq!(keyval_for(VK_DOWN), Some(SESSION_KEY_DOWN));
    assert_eq!(keyval_for(VK_SPACE), Some(SESSION_KEY_SPACE));
    assert_eq!(keyval_for(VK_TAB), None);
}

#[test]
fn shortcuts_pass_through() {
    for state in [STATE_CONTROL_MASK, STATE_ALT_MASK, STATE_SUPER_MASK, STATE_RELEASE_MASK] {
        assert_eq!(convert_windows_key(key(0x41, state, Some('a'))), ConvertedKey::PassThrough);
        assert!(!would_handle_windows_key(key(0x41, state, Some('a'))));
    }
    assert_eq!(convert_windows_key(key(0x41, 1, Some('a'))), ConvertedKey::Event(NativeKeyEvent { keyval: 0x61, keycode: 0x41, state: 1 }));
    assert_eq!(convert_windows_key(key(0x20, 0, Some(' '))), ConvertedKey::Event(NativeKeyEvent { keyval: 0x20, keycode: 0x20, state: 0 }));
    assert_eq!(convert_windows_key(key(0xDE, 0, Some('ក'))), ConvertedKey::PassThrough);
}

#[test]
fn test_and_down_prediction_share_conversion() {
    let input = key(0x41, 0, Some('a'));
    assert_eq!(would_handle_windows_key(input), matches!(convert_windows_key(input), ConvertedKey::Event(_)));
}

#[test]
fn shift_digit_chars_cover_full_row() {
    assert_eq!(shift_digit_char(0x30), ')');
    assert_eq!(shift_digit_char(0x31), '!');
    assert_eq!(shift_digit_char(0x32), '@');
    assert_eq!(shift_digit_char(0x33), '#');
    assert_eq!(shift_digit_char(0x34), '$');
    assert_eq!(shift_digit_char(0x35), '%');
    assert_eq!(shift_digit_char(0x36), '^');
    assert_eq!(shift_digit_char(0x37), '&');
    assert_eq!(shift_digit_char(0x38), '*');
    assert_eq!(shift_digit_char(0x39), '(');
}

#[test]
fn translated_chars_follow_the_us_layout() {
    assert_eq!(translated_key_char(0x32, false), Some('2'));
    assert_eq!(translated_key_char(0x32, true), Some('@'));
    assert_eq!(translated_key_char(0x41, false), Some('a'));
    assert_eq!(translated_key_char(0x5A, true), Some('z'));
    assert_eq!(translated_key_char(0x25, false), None);
}

#[test]
fn key_input_reads_wparam_and_lparam() {
    let input = windows_key_input_with_state(0x41, 0x001E_0001, 0, false);
    assert_eq!(input.virtual_key, 0x41);
    assert_eq!(input.scan_code, 0x1E);
    assert_eq!(input.translated_char, Some('a'));
    assert_eq!(modifier_state(true, false, true, 0), STATE_CONTROL_MASK | STATE_SUPER_MASK);
    assert_eq!(modifier_state(false, true, false, 1 << 31), STATE_ALT_MASK | STATE_RELEASE_MASK);
    assert_eq!(modifier_state(false, false, false, 0), 0);
}

fn event(keyval: u32) -> NativeKeyEvent {
    NativeKeyEvent { keyval, keycode: keyval, state: 0 }
}

#[test]
fn idle_editor_control_keys_pass_through() {
    let snapshot = SessionSnapshot::default();
    for keyval in [
        SESSION_KEY_BACKSPACE,
        SESSION_KEY_ESCAPE,
        SESSION_KEY_RETURN,
        SESSION_KEY_SPACE,
        SESSION_KEY_LEFT,
        SESSION_KEY_RIGHT,
        SESSION_KEY_UP,
        SESSION_KEY_DOWN,
    ] {
        assert!(!event_would_be_consumed(event(keyval), &snapshot));
    }
}

#[test]
fn composing_editor_control_keys_are_handled() {
    let snapshot = SessionSnapshot {
        raw_preedit: "jea".to_owned(),
        preedit: "jea".to_owned(),
        candidates: vec!["candidate".to_owned()],
        ..SessionSnapshot::default()
    };
    for keyval in [SESSION_KEY_BACKSPACE, SESSION_KEY_ESCAPE, SESSION_KEY_RETURN, SESSION_KEY_SPACE] {
        assert!(event_would_be_consumed(event(keyval), &snapshot));
    }
    assert!(event_would_be_consumed(event(SESSION_KEY_UP), &snapshot));
    assert!(event_would_be_consumed(event(SESSION_KEY_DOWN), &snapshot));
    assert!(!event_would_be_consumed(event(SESSION_KEY_LEFT), &snapshot));
}

#[test]
fn printable_keys_still_start_composition_or_keycap_commit() {
    let snapshot = SessionSnapshot::default();
    assert!(event_would_be_consumed(event('a' as u32), &snapshot));
    assert!(event_would_be_consumed(event('2' as u32), &snapshot));
    assert!(event_would_be_consumed(event('@' as u32), &snapshot));
    assert!(!event_would_be_consumed(event(0x7F), &snapshot));
}

#[test]
fn converted_idle_editor_control_keys_match_prediction() {
    for virtual_key in [VK_BACK, VK_RETURN, VK_SPACE] {
        let ConvertedKey::Event(event) = convert_windows_key(WindowsKeyInput { virtual_key, ..WindowsKeyInput::default() })
        else {
            panic!("special key should convert");
        };
        assert!(!event_would_be_consumed(event, &SessionSnapshot::default()));
    }
}

fn phrase(text: &str, hints: &[&[&str]], from_model: bool) -> PhraseCandidate {
    PhraseCandidate {
        text: text.to_owned(),
        segments: hints
            .iter()
            .map(|hs| PhraseSegment {
                input: String::new(),
                output: String::new(),
                roman_hints: hs.iter().map(|h| h.to_string()).collect(),
            })
            .collect(),
        from_model,
        lexicon_verified: true,
    }
}

#[test]
fn windows_phrase_surface_lists_every_reading_with_its_hints() {
    let snapshot = SessionSnapshot {
        segmented_active: true,
        selected_phrase_index: 1,
        phrase_candidates: vec![
            phrase("ខ្ញុំទៅ", &[&["khnhom", "knhom"], &["tov"]], false),
            phrase("ខ្ញុំ", &[&["khnhom", "knhom"]], true),
            phrase("ខ្ចុំទៅ", &[&["khchom"], &[]], false),
        ],
        segment_preview: vec![SegmentPreviewEntry { output: "ខ្ញុំ".to_owned(), input: "khnhom".to_owned(), focused: false }],
        ..Default::default()
    };
    let surface = CandidateSurface::from_snapshot(&snapshot);
    assert_eq!(surface.mode(), CandidateSurfaceMode::Phrase);
    assert_eq!(surface.rows().len(), 3);
    assert_eq!(surface.selected_index(), Some(1));
    assert_eq!(surface.display()[0].roman_hints, vec!["khnhom tov".to_owned()]);
    assert!(surface.display()[0].recommended);
    assert_eq!(surface.display()[1].roman_hints, vec!["khnhom".to_owned(), "knhom".to_owned()]);
    assert!(surface.display()[1].from_model);
    assert!(surface.display()[2].roman_hints.is_empty());
    assert_eq!(surface.context().len(), 1);
    assert_eq!(surface.select_phrase_row(2), Some(SessionCommand::SelectPhrase(2)));
    assert_eq!(surface.select_phrase_row(3), None);
    assert_eq!(surface.command_for_key(SESSION_KEY_UP), Some(SessionCommand::SelectPhrase(0)));
    assert_eq!(surface.command_for_key(SESSION_KEY_SPACE), Some(SessionCommand::SelectPhrase(2)));
    assert_eq!(surface.command_for_key(0x33), Some(SessionCommand::SelectPhrase(2)));
}

#[test]
fn windows_flat_surface_keeps_context_only_when_segmented() {
    let flat = CandidateSurface::from_snapshot(&SessionSnapshot {
        candidates: vec!["ក".to_owned()],
        segment_preview: vec![SegmentPreviewEntry::default()],
        ..Default::default()
    });
    assert_eq!(flat.mode(), CandidateSurfaceMode::Flat);
    assert!(flat.context().is_empty());
    assert_eq!(flat.command_for_key(SESSION_KEY_DOWN), None);
    assert_eq!(flat.command_for_key(SESSION_KEY_RIGHT), None);
}

#[test]
fn com_counts_track_objects_and_locks() {
    let mut counts = ComServerCounts::new();
    assert!(counts.can_unload_now());
    let factory = KhmerImeClassFactory::new(&mut counts);
    assert_eq!(counts.objects, 1);
    assert!(!counts.can_unload_now());
    counts.lock_server(true);
    factory.release(&mut counts);
    assert_eq!(counts.objects, 0);
    assert!(!counts.can_unload_now());
    counts.lock_server(false);
    assert!(counts.can_unload_now());
    counts.object_released();
    assert_eq!(counts.objects, u32::MAX);
    counts.object_created();
    assert_eq!(counts.objects, 0);
}

#[test]
fn wide_strings_are_nul_terminated_utf16() {
    assert_eq!(wide_null("KhmerIME"), "KhmerIME".encode_utf16().chain(std::iter::once(0)).collect::<Vec<u16>>());
    assert_eq!(wide_null("ក😀"), vec![0x1780, 0xD83D, 0xDE00, 0]);
    assert_eq!(wide_null(""), vec![0]);
}

#[test]
fn guids_format_in_registry_form() {
    let clsid = Guid { data1: 0x79f0a9c7, data2: 0xfec5, data3: 0x4637, data4: [0x9d, 0x9d, 0x4d, 0xfc, 0x54, 0xc8, 0xb5, 0xc2] };
    let text: String = guid_braced(&clsid).into_iter().collect();
    assert_eq!(text, "{79F0A9C7-FEC5-4637-9D9D-4DFC54C8B5C2}");
    let zero = Guid { data1: 1, data2: 0, data3: 0x0a, data4: [0; 8] };
    let text: String = guid_braced(&zero).into_iter().collect();
    assert_eq!(text, "{00000001-0000-000A-0000-000000000000}");
}

#[test]
fn warmup_defers_the_swap_during_a_composition() {
    assert_eq!(
        poll_full_warmup(DriverReadiness::PhaseA, WarmupPoll::Ready, false),
        (DriverReadiness::FullPending, EngineAction::Defer)
    );
    assert_eq!(
        poll_full_warmup(DriverReadiness::PhaseA, WarmupPoll::Ready, true),
        (DriverReadiness::Full, EngineAction::Apply)
    );
    assert_eq!(
        poll_full_warmup(DriverReadiness::PhaseA, WarmupPoll::Empty, true),
        (DriverReadiness::PhaseA, EngineAction::KeepWaiting)
    );
    assert_eq!(
        poll_full_warmup(DriverReadiness::PhaseA, WarmupPoll::Disconnected, true),
        (DriverReadiness::Failed, EngineAction::GiveUp)
    );
    assert_eq!(maybe_complete_full_upgrade(DriverReadiness::FullPending, false), (DriverReadiness::FullPending, false));
    assert_eq!(maybe_complete_full_upgrade(DriverReadiness::FullPending, true), (DriverReadiness::Full, true));
    assert_eq!(maybe_complete_full_upgrade(DriverReadiness::PhaseA, true), (DriverReadiness::PhaseA, false));
}

#[test]
fn span_proposals_arm_only_for_known_values() {
    assert_eq!(span_proposal_mode_for(Some("model")), SpanProposalMode::Model);
    assert_eq!(span_proposal_mode_for(Some("static-test")), SpanProposalMode::StaticTest);
    assert_eq!(span_proposal_mode_for(Some("Model")), SpanProposalMode::Disabled);
    assert_eq!(span_proposal_mode_for(None), SpanProposalMode::Disabled);
    assert_eq!(visible_refiner_config(None), None);
    assert_eq!(
        visible_refiner_config(Some("model")),
        Some((SpanProposalMode::Model, MODEL_REFINE_MAX_LATENCY_MS))
    );
    assert_eq!(refine_route("", true), RefineRoute::Nothing);
    assert_eq!(refine_route("ka", true), RefineRoute::SegmentedPreview);
    assert_eq!(refine_route("ka", false), RefineRoute::CandidateList);
}

#[test]
fn long_rows_are_cut_with_an_ellipsis() {
    let text = "abcdef";
    let widths: Vec<i32> = (1..=6).map(|k| k * 10 + 6).collect();
    assert_eq!(khmerime::tsf_candidates::ellipsize_text(text, 100, 60, 6, &widths), "abcdef");
    assert_eq!(khmerime::tsf_candidates::ellipsize_text(text, 40, 60, 6, &widths), "abc...");
    assert_eq!(khmerime::tsf_candidates::ellipsize_text(text, 6, 60, 6, &widths), "...");
    assert_eq!(khmerime::tsf_candidates::ellipsize_text(text, 10, 60, 6, &widths), "...");
    assert_eq!(khmerime::tsf_candidates::ellipsize_text(text, 59, 60, 6, &widths), "abcde...");
}


#[test]
fn phrase_rows_show_the_canonical_roman_of_their_own_reading() {
    let snapshot = SessionSnapshot {
        segmented_active: true,
        phrase_candidates: vec![PhraseCandidate {
            text: "ដំរី".to_owned(),
            segments: vec![PhraseSegment {
                input: "domra".to_owned(),
                output: "ដំរី".to_owned(),
                roman_hints: vec!["damrei".to_owned()],
            }],
            ..PhraseCandidate::default()
        }],
        ..SessionSnapshot::default()
    };
    let surface = CandidateSurface::from_snapshot(&snapshot);
    assert_eq!(
        surface.display()[0].roman_hints,
        ["damrei"],
        "a phrase row must show its own reading's roman, not the input"
    );
}

#[test]
fn a_single_segment_phrase_row_shows_every_canonical_spelling() {
    let snapshot = SessionSnapshot {
        segmented_active: true,
        phrase_candidates: vec![PhraseCandidate {
            text: "ដំរី".to_owned(),
            segments: vec![PhraseSegment {
                input: "domra".to_owned(),
                output: "ដំរី".to_owned(),
                roman_hints: vec!["damrei".to_owned(), "domrei".to_owned()],
            }],
            ..PhraseCandidate::default()
        }],
        ..SessionSnapshot::default()
    };
    let surface = CandidateSurface::from_snapshot(&snapshot);
    assert_eq!(surface.display()[0].roman_hints, ["damrei", "domrei"]);
}

#[test]
fn a_phrase_row_with_no_canonical_roman_shows_none() {
    let snapshot = SessionSnapshot {
        segmented_active: true,
        phrase_candidates: vec![PhraseCandidate {
            text: "ដំរី".to_owned(),
            segments: vec![PhraseSegment { input: "domra".to_owned(), ..PhraseSegment::default() }],
            ..PhraseCandidate::default()
        }],
        ..SessionSnapshot::default()
    };
    let surface = CandidateSurface::from_snapshot(&snapshot);
    assert!(
        surface.display()[0].roman_hints.is_empty(),
        "phrase rows must not repeat roman; got {:?}",
        surface.display()[0].roman_hints
    );
}

#[test]
fn a_model_derived_phrase_row_carries_its_provenance() {
    let snapshot = SessionSnapshot {
        segmented_active: true,
        phrase_candidates: vec![
            PhraseCandidate { text: "ដុំរ៉ា".to_owned(), from_model: false, ..PhraseCandidate::default() },
            PhraseCandidate { text: "ដំរី".to_owned(), from_model: true, ..PhraseCandidate::default() },
        ],
        ..SessionSnapshot::default()
    };
    let surface = CandidateSurface::from_snapshot(&snapshot);
    assert!(!surface.display()[0].from_model);
    assert!(surface.display()[1].from_model);
}

#[test]
fn segmented_composition_projects_whole_phrase_candidates_by_default() {
    let snapshot = SessionSnapshot {
        candidates: vec!["word one".to_owned(), "word two".to_owned()],
        segmented_active: true,
        phrase_candidates: vec![
            PhraseCandidate { text: "whole phrase one".to_owned(), ..PhraseCandidate::default() },
            PhraseCandidate { text: "whole phrase two".to_owned(), ..PhraseCandidate::default() },
        ],
        selected_phrase_index: 1,
        ..SessionSnapshot::default()
    };
    let surface = CandidateSurface::from_snapshot(&snapshot);
    assert_eq!(surface.mode(), CandidateSurfaceMode::Phrase);
    assert_eq!(surface.rows(), ["whole phrase one", "whole phrase two"]);
    assert_eq!(surface.selected_index(), Some(1));
}

#[test]
fn segment_edit_projects_only_the_focused_words_candidates() {
    let snapshot = SessionSnapshot {
        candidates: vec!["word one".to_owned(), "word two".to_owned()],
        candidate_display: vec![CandidateDisplayEntry {
            output: "word one".to_owned(),
            recommended: true,
            ..CandidateDisplayEntry::default()
        }],
        selected_index: Some(0),
        segmented_active: true,
        segment_edit_active: true,
        segment_preview: vec![SegmentPreviewEntry {
            output: "word one".to_owned(),
            input: "roman".to_owned(),
            focused: true,
        }],
        phrase_candidates: vec![PhraseCandidate { text: "whole phrase".to_owned(), ..PhraseCandidate::default() }],
        ..SessionSnapshot::default()
    };
    let surface = CandidateSurface::from_snapshot(&snapshot);
    assert_eq!(surface.mode(), CandidateSurfaceMode::Segment);
    assert_eq!(surface.rows(), ["word one", "word two"]);
    assert_eq!(surface.context(), snapshot.segment_preview);
    assert!(surface.display()[0].recommended);
}

#[test]
fn flat_composition_preserves_the_existing_candidate_list() {
    let snapshot = SessionSnapshot {
        candidates: vec!["flat one".to_owned(), "flat two".to_owned()],
        selected_index: Some(1),
        ..SessionSnapshot::default()
    };
    let surface = CandidateSurface::from_snapshot(&snapshot);
    assert_eq!(surface.mode(), CandidateSurfaceMode::Flat);
    assert_eq!(surface.rows(), snapshot.candidates);
    assert!(surface.context().is_empty());
}

#[test]
fn phrase_surface_owns_phrase_navigation_commands() {
    let snapshot = SessionSnapshot {
        segmented_active: true,
        phrase_candidates: vec![
            PhraseCandidate {
                text: "one".to_owned(),
                segments: vec![PhraseSegment {
                    input: "muoy".to_owned(),
                    output: "one".to_owned(),
                    roman_hints: vec![],
                }],
                ..PhraseCandidate::default()
            },
            PhraseCandidate { text: "two".to_owned(), ..PhraseCandidate::default() },
        ],
        ..SessionSnapshot::default()
    };
    let surface = CandidateSurface::from_snapshot(&snapshot);
    assert_eq!(surface.cycle_phrase(1), Some(SessionCommand::SelectPhrase(1)));
    assert_eq!(surface.cycle_phrase(-1), Some(SessionCommand::SelectPhrase(1)));
    assert_eq!(surface.select_phrase_row(0), Some(SessionCommand::SelectPhrase(0)));
    assert_eq!(surface.select_phrase_row(2), None);
    assert!(surface.display()[0].roman_hints.is_empty());
    assert_eq!(surface.command_for_key(SESSION_KEY_DOWN), Some(SessionCommand::SelectPhrase(1)));
    assert_eq!(surface.command_for_key('2' as u32), Some(SessionCommand::SelectPhrase(1)));
}

#[test]
fn an_unarmed_build_has_no_visible_refiner() {
    assert!(visible_refiner_config(None).is_none());
    assert!(visible_refiner_config(Some("")).is_none());
}

#[test]
fn an_armed_refiner_gets_a_budget_neural_inference_can_meet() {
    let config = visible_refiner_config(Some("model")).expect("model arming builds a refiner");
    assert!(config.1 >= 2_000, "armed refiner budget too tight for inference: {}ms", config.1);
}

#[test]
fn ctrl_shortcut_is_not_sent_to_session() {
    let converted = convert_windows_key(WindowsKeyInput {
        virtual_key: 0x41,
        state: STATE_CONTROL_MASK,
        translated_char: Some('a'),
        ..WindowsKeyInput::default()
    });
    assert_eq!(converted, ConvertedKey::PassThrough);
}

#[test]
fn special_virtual_keys_convert_for_driver() {
    for (virtual_key, expected) in [
        (VK_BACK, SESSION_KEY_BACKSPACE),
        (VK_ESCAPE, SESSION_KEY_ESCAPE),
        (VK_SPACE, SESSION_KEY_SPACE),
        (VK_RETURN, SESSION_KEY_RETURN),
    ] {
        let ConvertedKey::Event(event) = convert_windows_key(WindowsKeyInput { virtual_key, ..WindowsKeyInput::default() })
        else {
            panic!("special key should convert");
        };
        assert_eq!(event.keyval, expected);
    }
}

#[test]
fn ctrl_a_passes_through_to_host_shortcut() {
    let input = windows_key_input_with_state(0x41, 0, STATE_CONTROL_MASK, false);
    assert_eq!(convert_windows_key(input), ConvertedKey::PassThrough);
}

#[test]
fn plain_a_remains_ime_handled() {
    let input = windows_key_input_with_state(0x41, 0, 0, false);
    assert!(matches!(convert_windows_key(input), ConvertedKey::Event(_)));
}

#[test]
fn plain_digit_is_ime_handled() {
    let input = windows_key_input_with_state(0x32, 0, 0, false);
    assert!(matches!(convert_windows_key(input), ConvertedKey::Event(_)));
}

#[test]
fn inline_preview_includes_segment_preview_when_active() {
    let surface = CandidateSurface::from_snapshot(&SessionSnapshot {
        candidates: vec!["first".to_owned()],
        selected_index: Some(0),
        segmented_active: true,
        segment_edit_active: true,
        segment_preview: vec![
            SegmentPreviewEntry { output: "first".to_owned(), input: "foo".to_owned(), focused: true },
            SegmentPreviewEntry { output: "second".to_owned(), input: "bar".to_owned(), focused: false },
        ],
        ..SessionSnapshot::default()
    });
    let preview = inline_preview_text("firstsecond", &surface);
    assert_eq!(preview.as_deref(), Some("firstsecond  {[first(foo)] | second(bar)}  [1. *first]"));
}

#[test]
fn empty_preedit_hides_preview() {
    let surface = CandidateSurface::from_snapshot(&SessionSnapshot::default());
    assert!(inline_preview_text("", &surface).is_none());
}

#[test]
fn the_com_class_registers_its_server_and_threading_model() {
    let clsid = clsid_khmerime_text_service();
    let key = com_class_key(&clsid);
    assert_eq!(key, "CLSID\\{79F0A9C7-FEC5-4637-9D9D-4DFC54C8B5C2}");
    let values = com_class_registry_values(&clsid, "C:\\ime\\khmerime.dll");
    assert_eq!(values.len(), 3);
    assert_eq!((values[0].subkey.as_str(), values[0].name.as_deref(), values[0].value.as_str()), (key.as_str(), None, "KhmerIME"));
    let server = format!("{key}\\InprocServer32");
    assert_eq!((values[1].subkey.as_str(), values[1].value.as_str()), (server.as_str(), "C:\\ime\\khmerime.dll"));
    assert_eq!(values[2].name.as_deref(), Some("ThreadingModel"));
    assert_eq!(values[2].value, "Apartment");
    assert_eq!(guid_braced(&guid_khmerime_profile()).iter().collect::<String>(), "{40FA8742-C6EF-4C1B-9F9A-AE064A6EC66D}");
}

#[test]
fn candidate_window_numbers_rows_and_highlights_the_selection() {
    let surface = surface_with(vec!["ក".to_owned(), "ខ".to_owned()], Some(1));
    assert_eq!(
        candidate_window_rows(&surface),
        Some(vec![("1  ក".to_owned(), false), ("2  ខ".to_owned(), true)])
    );
    assert_eq!(candidate_window_rows(&surface_with(vec![], None)), None);
}

#[test]
fn candidate_window_shows_at_most_nine_rows() {
    let rows: Vec<String> = (0..12).map(|i| format!("r{i}")).collect();
    let painted = candidate_window_rows(&surface_with(rows, None)).unwrap();
    assert_eq!(painted.len(), 9);
    assert_eq!(painted[8], ("9  r8".to_owned(), false));
}

#[test]
fn candidate_window_puts_the_segment_preview_first() {
    let preview = vec![SegmentPreviewEntry { output: "ក".to_owned(), input: "k".to_owned(), focused: true }];
    let surface = CandidateSurface::from_snapshot(&SessionSnapshot {
        candidates: vec!["a".to_owned(), "b".to_owned()],
        selected_index: Some(0),
        segmented_active: true,
        segment_edit_active: true,
        segment_preview: preview.clone(),
        ..Default::default()
    });
    let painted = candidate_window_rows(&surface).unwrap();
    assert_eq!(painted[0], (segment_preview_text(&preview).unwrap(), false));
    assert_eq!(painted[1], ("1  a".to_owned(), true));
    assert_eq!(painted.len(), 3);
}
