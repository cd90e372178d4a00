use khmerime::bridge::{
    command_emits_timings, history_save_error, command_consumed, complete_bridge_upgrade, poll_bridge_warmup, BRIDGE_COMMIT_REFINER_MAX_LATENCY_MS,
    BRIDGE_VISIBLE_REFINER_MAX_LATENCY_MS, enter_refiner_grace, needs_segmented_preview_for_keyval, parse_bridge_options,
    plan_command, BridgeCommand, BridgeReadiness, InputMode, LONG_ENTER_REFINER_GRACE,
};
use khmerime::tsf_driver::{EngineAction, WarmupPoll};

#[test]
fn short_enter_commits_do_not_wait_for_full_refiner() {
    assert_eq!(enter_refiner_grace("jea"), None);
    assert_eq!(enter_refiner_grace("khnhomtov"), None);
}

#[test]
fn long_enter_commits_get_only_tiny_refiner_grace() {
    assert_eq!(enter_refiner_grace("jeanggettengos"), Some(LONG_ENTER_REFINER_GRACE));
    assert_eq!(enter_refiner_grace("nihjeasnadaiborkbrae"), Some(LONG_ENTER_REFINER_GRACE));
}

#[test]
fn grace_starts_at_twelve_raw_characters() {
    assert_eq!(enter_refiner_grace("abcdefghijk"), None);
    assert_eq!(enter_refiner_grace("abcdefghijkl"), Some(5));
}

#[test]
fn preview_keys_are_space_arrows_and_digits() {
    for keyval in [0x20, 0xFF51, 0xFF52, 0xFF53, 0xFF54, 0xFF89, 0xFF96, 0xFF98, 0xFF99, 0x31, 0x39, 0xFFB1, 0xFFB9] {
        assert!(needs_segmented_preview_for_keyval(keyval), "{keyval:#x}");
    }
    for keyval in [0x30, 0x3A, 0x61, 0xFF0D, 0xFFB0, 0xFFBA, 0xFF97] {
        assert!(!needs_segmented_preview_for_keyval(keyval), "{keyval:#x}");
    }
}

#[test]
fn enter_waits_only_in_phase_a_with_a_long_composition() {
    let enter = BridgeCommand::ProcessKeyEvent { keyval: 0xFF0D, keycode: 28, state: 0 };
    let long = "jeanggettengos";
    let plan = plan_command(&enter, BridgeReadiness::PhaseA, long, false, false, false);
    assert_eq!(plan.wait_for_refiner_ms, Some(LONG_ENTER_REFINER_GRACE));
    assert!(!plan.exit_after);
    let plan = plan_command(&enter, BridgeReadiness::Full, long, false, false, false);
    assert_eq!(plan.wait_for_refiner_ms, None);
    let plan = plan_command(&enter, BridgeReadiness::PhaseA, "jea", false, false, false);
    assert_eq!(plan.wait_for_refiner_ms, None);
    let kp_enter = BridgeCommand::ProcessKeyEvent { keyval: 0xFF8D, keycode: 96, state: 0 };
    let plan = plan_command(&kp_enter, BridgeReadiness::PhaseA, long, false, false, false);
    assert_eq!(plan.wait_for_refiner_ms, Some(LONG_ENTER_REFINER_GRACE));
}

#[test]
fn deferred_preview_is_built_before_navigation_keys() {
    let space = BridgeCommand::ProcessKeyEvent { keyval: 0x20, keycode: 57, state: 0 };
    assert!(plan_command(&space, BridgeReadiness::Full, "khnhom", true, false, false).sync_segmented_preview);
    assert!(!plan_command(&space, BridgeReadiness::Full, "khnhom", false, false, false).sync_segmented_preview);
    assert!(!plan_command(&space, BridgeReadiness::Full, "khnhom", true, true, false).sync_segmented_preview);
    assert!(!plan_command(&space, BridgeReadiness::Full, "", true, false, true).sync_segmented_preview);
}

#[test]
fn shutdown_exits_and_toggle_is_consumed() {
    let plan = plan_command(&BridgeCommand::Shutdown, BridgeReadiness::Full, "", false, false, true);
    assert!(plan.exit_after);
    assert_eq!(command_consumed(&BridgeCommand::ToggleInputMode), Some(true));
    assert_eq!(command_consumed(&BridgeCommand::Snapshot), Some(false));
    assert_eq!(
        command_consumed(&BridgeCommand::ProcessKeyEvent { keyval: 0x61, keycode: 30, state: 0 }),
        None
    );
}

fn args(list: &[&str]) -> Vec<String> {
    list.iter().map(|s| s.to_string()).collect()
}

#[test]
fn bridge_options_default_to_roman() {
    let options = parse_bridge_options(&args(&[])).unwrap();
    assert_eq!(options.initial_input_mode, InputMode::Roman);
    assert!(!options.disable_full_warmup);
    assert!(!options.synchronous_full_startup);
    assert!(!options.deferred_segmented_preview);
}

#[test]
fn bridge_options_read_modes_and_flags() {
    let options = parse_bridge_options(&args(&[
        "--initial-input-mode=nida",
        "--disable-full-warmup",
        "--unknown",
        "--deferred-segmented-preview",
    ]))
    .unwrap();
    assert_eq!(options.initial_input_mode, InputMode::Nida);
    assert!(options.disable_full_warmup);
    assert!(!options.synchronous_full_startup);
    assert!(options.deferred_segmented_preview);

    let options = parse_bridge_options(&args(&["--initial-input-mode", "nida", "--synchronous-full-startup"])).unwrap();
    assert_eq!(options.initial_input_mode, InputMode::Nida);
    assert!(options.synchronous_full_startup);

    let options = parse_bridge_options(&args(&["--initial-input-mode"])).unwrap();
    assert_eq!(options.initial_input_mode, InputMode::Roman);
}

#[test]
fn bridge_options_reject_an_unknown_mode() {
    assert_eq!(
        parse_bridge_options(&args(&["--initial-input-mode=klingon"])),
        Err("invalid --initial-input-mode value: klingon".to_owned())
    );
    assert_eq!(
        parse_bridge_options(&args(&["--initial-input-mode", "Roman"])),
        Err("invalid --initial-input-mode value: Roman".to_owned())
    );
}

#[test]
fn bridge_warmup_landing_on_empty_composition_installs_engines() {
    assert_eq!(
        poll_bridge_warmup(BridgeReadiness::PhaseA, WarmupPoll::Ready, true),
        (BridgeReadiness::Full, EngineAction::Apply)
    );
}

#[test]
fn bridge_warmup_landing_mid_composition_is_held_until_idle() {
    let (readiness, action) = poll_bridge_warmup(BridgeReadiness::PhaseA, WarmupPoll::Ready, false);
    assert_eq!((readiness, action), (BridgeReadiness::FullPending, EngineAction::Defer));
    assert_eq!(complete_bridge_upgrade(readiness, false, true), (BridgeReadiness::FullPending, false));
    assert_eq!(complete_bridge_upgrade(readiness, true, true), (BridgeReadiness::Full, true));
}

#[test]
fn bridge_warmup_failure_and_disconnect_give_up() {
    assert_eq!(
        poll_bridge_warmup(BridgeReadiness::PhaseA, WarmupPoll::Failed, true),
        (BridgeReadiness::Failed, EngineAction::GiveUp)
    );
    assert_eq!(
        poll_bridge_warmup(BridgeReadiness::PhaseA, WarmupPoll::Disconnected, false),
        (BridgeReadiness::Failed, EngineAction::GiveUp)
    );
    assert_eq!(
        poll_bridge_warmup(BridgeReadiness::PhaseA, WarmupPoll::Empty, false),
        (BridgeReadiness::PhaseA, EngineAction::KeepWaiting)
    );
}

#[test]
fn bridge_refiner_latency_budgets() {
    assert_eq!(BRIDGE_VISIBLE_REFINER_MAX_LATENCY_MS, 75);
    assert_eq!(BRIDGE_COMMIT_REFINER_MAX_LATENCY_MS, 150);
}

#[test]
fn bridge_readiness_only_moves_forward_over_a_session() {
    let (r, a) = poll_bridge_warmup(BridgeReadiness::PhaseA, WarmupPoll::Empty, false);
    assert_eq!((r, a), (BridgeReadiness::PhaseA, EngineAction::KeepWaiting));
    let (r, a) = poll_bridge_warmup(r, WarmupPoll::Ready, false);
    assert_eq!((r, a), (BridgeReadiness::FullPending, EngineAction::Defer));
    let (r, installed) = complete_bridge_upgrade(r, false, true);
    assert_eq!((r, installed), (BridgeReadiness::FullPending, false));
    let (r, installed) = complete_bridge_upgrade(r, true, true);
    assert_eq!((r, installed), (BridgeReadiness::Full, true));
    let (r, installed) = complete_bridge_upgrade(r, true, false);
    assert_eq!((r, installed), (BridgeReadiness::Full, false));
    let (failed, a) = poll_bridge_warmup(BridgeReadiness::PhaseA, WarmupPoll::Disconnected, true);
    assert_eq!((failed, a), (BridgeReadiness::Failed, EngineAction::GiveUp));
    assert_eq!(complete_bridge_upgrade(failed, true, false), (BridgeReadiness::Failed, false));
}

#[test]
fn only_key_refine_and_refresh_responses_carry_timings() {
    assert!(command_emits_timings(&BridgeCommand::ProcessKeyEvent { keyval: 0x61, keycode: 0, state: 0 }));
    assert!(command_emits_timings(&BridgeCommand::RefineComposition { raw_preedit: "jea".to_owned() }));
    assert!(command_emits_timings(&BridgeCommand::RefreshSegmentedPreview { raw_preedit: "jea".to_owned() }));
    assert!(!command_emits_timings(&BridgeCommand::Snapshot));
    assert!(!command_emits_timings(&BridgeCommand::ToggleInputMode));
}

#[test]
fn a_failed_history_save_is_reported_only_when_history_changed() {
    assert_eq!(history_save_error(true, Some("disk full")), Some("history save failed: disk full".to_owned()));
    assert_eq!(history_save_error(false, Some("disk full")), None);
    assert_eq!(history_save_error(true, None), None);
}
