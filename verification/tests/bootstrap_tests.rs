use khmerime::bootstrap::{
    bootstrap_step, BootstrapAction, BootstrapAsset, BootstrapEvent, BootstrapStage, BootstrapState,
};
use khmerime::startup::{EngineReadiness, StartupProfile};

fn idle() -> BootstrapState {
    BootstrapState { readiness: EngineReadiness::Booting, progress: 0, ready: false, stage: BootstrapStage::Idle }
}

/// Runs `profile` with every fetch, read and build succeeding; returns the
/// states and actions seen.
fn run(profile: StartupProfile) -> Vec<(BootstrapState, BootstrapAction)> {
    let mut state = idle();
    let mut event = BootstrapEvent::Started { fetching: true, has_window: true };
    let mut seen = Vec::new();
    for _ in 0..20 {
        let (next, action) = bootstrap_step(profile, state, event);
        seen.push((next, action));
        state = next;
        event = match action {
            BootstrapAction::FetchAssets { .. } | BootstrapAction::AwaitResponse { .. } => {
                BootstrapEvent::Responded { ok: true }
            },
            BootstrapAction::ReadBody { .. } => BootstrapEvent::BytesRead { ok: true },
            BootstrapAction::BuildPhaseA => BootstrapEvent::PhaseABuilt { ok: true },
            BootstrapAction::StoreSupportAndPromote => BootstrapEvent::Promoted,
            _ => break,
        };
    }
    seen
}

#[test]
fn defer_full_is_legacy_ready_before_full_ready() {
    let seen = run(StartupProfile::DeferFull);
    let legacy = seen.iter().position(|(s, _)| s.readiness == EngineReadiness::LegacyReady).unwrap();
    let full = seen.iter().position(|(s, _)| s.readiness == EngineReadiness::FullReady).unwrap();
    assert!(legacy < full);
    assert_eq!((seen[legacy].0.progress, seen[legacy].0.ready), (80, true));
    let last = seen.last().unwrap();
    assert_eq!(last.0, BootstrapState { readiness: EngineReadiness::FullReady, progress: 100, ready: true, stage: BootstrapStage::Finished });
    assert_eq!(last.1, BootstrapAction::EmitTrace { readiness: EngineReadiness::FullReady });
}

#[test]
fn baseline_is_ready_only_when_full() {
    for profile in [StartupProfile::Baseline, StartupProfile::BaselineCompressionAudit] {
        let seen = run(profile);
        for (s, _) in &seen {
            assert!(!s.ready || s.readiness == EngineReadiness::FullReady);
        }
        assert!(seen.iter().any(|(s, _)| s.progress == 82));
        assert_eq!(seen.last().unwrap().0.readiness, EngineReadiness::FullReady);
    }
}

#[test]
fn the_compression_audit_records_headers() {
    let audit = run(StartupProfile::BaselineCompressionAudit);
    let reads: Vec<_> = audit.iter().filter_map(|(_, a)| match a {
        BootstrapAction::ReadBody { asset, record_headers } => Some((*asset, *record_headers)),
        _ => None,
    }).collect();
    assert_eq!(reads, vec![(BootstrapAsset::Lexicon, true), (BootstrapAsset::Khpos, true), (BootstrapAsset::NextWord, true)]);
    let baseline = run(StartupProfile::Baseline);
    assert!(baseline.iter().all(|(_, a)| !matches!(a, BootstrapAction::ReadBody { record_headers: true, .. })));
}

#[test]
fn lexicon_only_never_fetches_khpos() {
    let seen = run(StartupProfile::LexiconOnly);
    assert_eq!(seen[0].1, BootstrapAction::FetchAssets { khpos_and_next_word: false });
    for (_, a) in &seen {
        assert!(!matches!(a, BootstrapAction::AwaitResponse { asset: BootstrapAsset::Khpos | BootstrapAsset::NextWord }));
        assert!(!matches!(a, BootstrapAction::StoreSupportAndPromote));
    }
    let last = seen.last().unwrap();
    assert_eq!(last.0, BootstrapState { readiness: EngineReadiness::LegacyReady, progress: 100, ready: true, stage: BootstrapStage::Finished });
}

#[test]
fn a_failed_fetch_fails_the_bootstrap() {
    let booting = BootstrapState { readiness: EngineReadiness::Booting, progress: 10, ready: false, stage: BootstrapStage::LexiconResponse };
    let (s, a) = bootstrap_step(StartupProfile::DeferFull, booting, BootstrapEvent::Responded { ok: false });
    assert_eq!(s, BootstrapState { readiness: EngineReadiness::Failed, progress: 100, ready: true, stage: BootstrapStage::Finished });
    assert_eq!(a, BootstrapAction::EmitTrace { readiness: EngineReadiness::Failed });
    let legacy = BootstrapState { readiness: EngineReadiness::LegacyReady, progress: 80, ready: true, stage: BootstrapStage::DeferKhposBytes };
    let (s, _) = bootstrap_step(StartupProfile::DeferFull, legacy, BootstrapEvent::BytesRead { ok: false });
    assert_eq!(s.readiness, EngineReadiness::Failed);
    let (s, a) = bootstrap_step(StartupProfile::Baseline, idle(), BootstrapEvent::Started { fetching: true, has_window: false });
    assert_eq!((s.readiness, s.progress, s.ready), (EngineReadiness::Failed, 100, true));
    assert_eq!(a, BootstrapAction::EmitTrace { readiness: EngineReadiness::Failed });
}

#[test]
fn an_engine_already_full_finishes_at_once() {
    let full = BootstrapState { readiness: EngineReadiness::FullReady, progress: 0, ready: false, stage: BootstrapStage::Idle };
    let (s, a) = bootstrap_step(StartupProfile::Baseline, full, BootstrapEvent::Started { fetching: true, has_window: true });
    assert_eq!((s.readiness, s.progress, s.ready), (EngineReadiness::FullReady, 100, true));
    assert_eq!(a, BootstrapAction::Finish);
}

#[test]
fn without_fetching_the_built_in_engine_is_warmed() {
    let (s, a) = bootstrap_step(StartupProfile::DeferFull, idle(), BootstrapEvent::Started { fetching: false, has_window: false });
    assert_eq!((s.progress, s.ready, a), (85, false, BootstrapAction::WarmLegacyEngine));
    let (s, a) = bootstrap_step(StartupProfile::DeferFull, s, BootstrapEvent::Warmed);
    assert_eq!((s.readiness, s.progress, s.ready, a), (EngineReadiness::FullReady, 100, true, BootstrapAction::Finish));
}

#[test]
fn unexpected_events_change_nothing() {
    let booting = BootstrapState { readiness: EngineReadiness::Booting, progress: 10, ready: false, stage: BootstrapStage::LexiconBytes };
    assert_eq!(bootstrap_step(StartupProfile::Baseline, booting, BootstrapEvent::Promoted), (booting, BootstrapAction::Ignore));
}
