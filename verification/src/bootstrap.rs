//! The web editor's engine bootstrap as a state machine. The caller
//! performs each action (a fetch, a read, an engine build) and hands back
//! what came of it; the machine decides the readiness, the progress shown,
//! when the editor stops showing its loading state, and what comes next.

use vstd::prelude::*;
use crate::startup::{EngineReadiness, StartupProfile};

verus! {

/// The data files the bootstrap fetches.
#[derive(Clone, Copy, Debug, PartialEq, Eq, Structural)]
pub enum BootstrapAsset {
    Lexicon,
    Khpos,
    NextWord,
}

/// What the bootstrap is waiting for.
#[derive(Clone, Copy, Debug, PartialEq, Eq, Structural)]
pub enum BootstrapStage {
    /// Not started.
    Idle,
    /// The lexicon's response.
    LexiconResponse,
    /// The lexicon's bytes.
    LexiconBytes,
    /// The phase-A engine.
    PhaseA,
    /// Before ready: the khPOS response.
    FullKhposResponse,
    /// Before ready: the khPOS bytes.
    FullKhposBytes,
    /// Before ready: the next-word response.
    FullNextWordResponse,
    /// Before ready: the next-word bytes.
    FullNextWordBytes,
    /// Before ready: the full engine.
    FullPromotion,
    /// After legacy-ready: the khPOS response.
    DeferKhposResponse,
    /// After legacy-ready: the next-word response.
    DeferNextWordResponse,
    /// After legacy-ready: the khPOS bytes.
    DeferKhposBytes,
    /// After legacy-ready: the next-word bytes.
    DeferNextWordBytes,
    /// After legacy-ready: the full engine.
    DeferPromotion,
    /// Without data fetching: the warm-up of the built-in engine.
    Warming,
    /// Done, in success or failure.
    Finished,
}

/// The bootstrap's state: the readiness and progress the editor shows,
/// whether it has stopped showing its loading state, and the stage.
#[derive(Clone, Copy, Debug, PartialEq, Eq, Structural)]
pub struct BootstrapState {
    pub readiness: EngineReadiness,
    pub progress: u8,
    pub ready: bool,
    pub stage: BootstrapStage,
}

/// What the caller reports.
#[derive(Clone, Copy, Debug, PartialEq, Eq, Structural)]
pub enum BootstrapEvent {
    /// The bootstrap starts; `fetching` when the data files are fetched,
    /// `has_window` when there is a browser window to fetch them with.
    Started { fetching: bool, has_window: bool },
    /// The awaited response arrived (`ok`) or its fetch failed.
    Responded { ok: bool },
    /// The awaited body was read (`ok`) or reading it failed.
    BytesRead { ok: bool },
    /// The phase-A engine was built (`ok`) or building it failed.
    PhaseABuilt { ok: bool },
    /// The full engine is in.
    Promoted,
    /// The built-in engine is warm.
    Warmed,
}

/// What the caller does next.
#[derive(Clone, Copy, Debug, PartialEq, Eq, Structural)]
pub enum BootstrapAction {
    /// Nothing: the event was not awaited.
    Ignore,
    /// Nothing more: the bootstrap is over, without a trace.
    Finish,
    /// Start fetching the lexicon and, when asked, the khPOS and next-word
    /// data.
    FetchAssets { khpos_and_next_word: bool },
    /// Wait for the response of `asset`.
    AwaitResponse { asset: BootstrapAsset },
    /// Read the body of `asset`, recording its headers first when asked.
    ReadBody { asset: BootstrapAsset, record_headers: bool },
    /// Keep the lexicon and build the phase-A engine from it.
    BuildPhaseA,
    /// Keep the khPOS and next-word data and promote the full engine.
    StoreSupportAndPromote,
    /// Warm up the built-in engine.
    WarmLegacyEngine,
    /// Emit the startup trace with the final readiness; the bootstrap is
    /// over.
    EmitTrace { readiness: EngineReadiness },
}

/// Whether the profile fetches the khPOS and next-word data.
pub open spec fn fetches_support(p: StartupProfile) -> bool {
    p != StartupProfile::LexiconOnly
}

/// Whether the profile waits for the full engine before ready.
pub open spec fn waits_for_full(p: StartupProfile) -> bool {
    p == StartupProfile::Baseline || p == StartupProfile::BaselineCompressionAudit
}

/// Whether the profile records response headers.
pub open spec fn records_headers(p: StartupProfile) -> bool {
    p == StartupProfile::BaselineCompressionAudit
}

/// `s` waiting at `stage`, all else as it was.
pub open spec fn at_stage(s: BootstrapState, stage: BootstrapStage) -> BootstrapState {
    BootstrapState { readiness: s.readiness, progress: s.progress, ready: s.ready, stage }
}

/// A finished state.
pub open spec fn finished(readiness: EngineReadiness) -> BootstrapState {
    BootstrapState { readiness, progress: 100, ready: true, stage: BootstrapStage::Finished }
}

/// A failure: failed, full progress, ready, and the trace emitted.
pub open spec fn failure() -> (BootstrapState, BootstrapAction) {
    (finished(EngineReadiness::Failed), BootstrapAction::EmitTrace { readiness: EngineReadiness::Failed })
}

/// Where a step that succeeded leads: `next` and its action.
pub open spec fn go(s: BootstrapState, ok: bool, next: BootstrapStage, a: BootstrapAction) -> (
    BootstrapState,
    BootstrapAction,
) {
    if ok {
        (at_stage(s, next), a)
    } else {
        failure()
    }
}

/// The bootstrap's step. Starting when the full engine is already in
/// finishes at once; without data fetching the built-in engine is warmed
/// (progress 85) and the editor is then full-ready. Otherwise it boots
/// (progress 10), fetches the lexicon (and the khPOS and next-word data in
/// every profile but the lexicon-only one), reads it (recording headers in
/// the compression audit) and builds the phase-A engine. The baseline
/// profiles then read the khPOS and next-word data, promote the full engine
/// (progress 82) and only then become ready, full-ready. The others become
/// legacy-ready at once (progress 70), finishing there when nothing more
/// was fetched, else going on (progress 80) to read the data and promote
/// the full engine. Every failed fetch, read or build fails the bootstrap:
/// failed, progress 100, ready, trace emitted. Events that are not awaited
/// change nothing.
pub open spec fn bootstrap_spec(profile: StartupProfile, s: BootstrapState, e: BootstrapEvent) -> (
    BootstrapState,
    BootstrapAction,
) {
    let audit = records_headers(profile);
    match (s.stage, e) {
        (BootstrapStage::Idle, BootstrapEvent::Started { fetching, has_window }) => {
            if s.readiness == EngineReadiness::FullReady {
                (finished(EngineReadiness::FullReady), BootstrapAction::Finish)
            } else if !fetching {
                (
                    BootstrapState {
                        readiness: EngineReadiness::Booting,
                        progress: 85,
                        ready: false,
                        stage: BootstrapStage::Warming,
                    },
                    BootstrapAction::WarmLegacyEngine,
                )
            } else if !has_window {
                failure()
            } else {
                (
                    BootstrapState {
                        readiness: EngineReadiness::Booting,
                        progress: 10,
                        ready: false,
                        stage: BootstrapStage::LexiconResponse,
                    },
                    BootstrapAction::FetchAssets { khpos_and_next_word: fetches_support(profile) },
                )
            }
        },
        (BootstrapStage::Warming, BootstrapEvent::Warmed) => (
            finished(EngineReadiness::FullReady),
            BootstrapAction::Finish,
        ),
        (BootstrapStage::LexiconResponse, BootstrapEvent::Responded { ok }) => go(
            s,
            ok,
            BootstrapStage::LexiconBytes,
            BootstrapAction::ReadBody { asset: BootstrapAsset::Lexicon, record_headers: audit },
        ),
        (BootstrapStage::LexiconBytes, BootstrapEvent::BytesRead { ok }) => go(
            s,
            ok,
            BootstrapStage::PhaseA,
            BootstrapAction::BuildPhaseA,
        ),
        (BootstrapStage::PhaseA, BootstrapEvent::PhaseABuilt { ok }) => {
            if !ok {
                failure()
            } else if waits_for_full(profile) {
                if !fetches_support(profile) {
                    failure()
                } else {
                    (
                        at_stage(s, BootstrapStage::FullKhposResponse),
                        BootstrapAction::AwaitResponse { asset: BootstrapAsset::Khpos },
                    )
                }
            } else if !fetches_support(profile) {
                (
                    finished(EngineReadiness::LegacyReady),
                    BootstrapAction::EmitTrace { readiness: EngineReadiness::LegacyReady },
                )
            } else {
                (
                    BootstrapState {
                        readiness: EngineReadiness::LegacyReady,
                        progress: 80,
                        ready: true,
                        stage: BootstrapStage::DeferKhposResponse,
                    },
                    BootstrapAction::AwaitResponse { asset: BootstrapAsset::Khpos },
                )
            }
        },
        (BootstrapStage::FullKhposResponse, BootstrapEvent::Responded { ok }) => go(
            s,
            ok,
            BootstrapStage::FullKhposBytes,
            BootstrapAction::ReadBody { asset: BootstrapAsset::Khpos, record_headers: audit },
        ),
        (BootstrapStage::FullKhposBytes, BootstrapEvent::BytesRead { ok }) => go(
            s,
            ok,
            BootstrapStage::FullNextWordResponse,
            BootstrapAction::AwaitResponse { asset: BootstrapAsset::NextWord },
        ),
        (BootstrapStage::FullNextWordResponse, BootstrapEvent::Responded { ok }) => go(
            s,
            ok,
            BootstrapStage::FullNextWordBytes,
            BootstrapAction::ReadBody { asset: BootstrapAsset::NextWord, record_headers: audit },
        ),
        (BootstrapStage::FullNextWordBytes, BootstrapEvent::BytesRead { ok }) => {
            if ok {
                (
                    BootstrapState {
                        readiness: s.readiness,
                        progress: 82,
                        ready: s.ready,
                        stage: BootstrapStage::FullPromotion,
                    },
                    BootstrapAction::StoreSupportAndPromote,
                )
            } else {
                failure()
            }
        },
        (BootstrapStage::FullPromotion, BootstrapEvent::Promoted) => (
            finished(EngineReadiness::FullReady),
            BootstrapAction::EmitTrace { readiness: EngineReadiness::FullReady },
        ),
        (BootstrapStage::DeferKhposResponse, BootstrapEvent::Responded { ok }) => go(
            s,
            ok,
            BootstrapStage::DeferNextWordResponse,
            BootstrapAction::AwaitResponse { asset: BootstrapAsset::NextWord },
        ),
        (BootstrapStage::DeferNextWordResponse, BootstrapEvent::Responded { ok }) => go(
            s,
            ok,
            BootstrapStage::DeferKhposBytes,
            BootstrapAction::ReadBody { asset: BootstrapAsset::Khpos, record_headers: false },
        ),
        (BootstrapStage::DeferKhposBytes, BootstrapEvent::BytesRead { ok }) => go(
            s,
            ok,
            BootstrapStage::DeferNextWordBytes,
            BootstrapAction::ReadBody { asset: BootstrapAsset::NextWord, record_headers: false },
        ),
        (BootstrapStage::DeferNextWordBytes, BootstrapEvent::BytesRead { ok }) => go(
            s,
            ok,
            BootstrapStage::DeferPromotion,
            BootstrapAction::StoreSupportAndPromote,
        ),
        (BootstrapStage::DeferPromotion, BootstrapEvent::Promoted) => (
            finished(EngineReadiness::FullReady),
            BootstrapAction::EmitTrace { readiness: EngineReadiness::FullReady },
        ),
        _ => (s, BootstrapAction::Ignore),
    }
}

fn finished_exec(readiness: EngineReadiness) -> (r: BootstrapState)
    ensures
        r == finished(readiness),
{
    BootstrapState { readiness, progress: 100, ready: true, stage: BootstrapStage::Finished }
}

fn failure_exec() -> (r: (BootstrapState, BootstrapAction))
    ensures
        r == failure(),
{
    (finished_exec(EngineReadiness::Failed), BootstrapAction::EmitTrace { readiness: EngineReadiness::Failed })
}

fn go_exec(s: BootstrapState, ok: bool, next: BootstrapStage, a: BootstrapAction) -> (r: (
    BootstrapState,
    BootstrapAction,
))
    ensures
        r == go(s, ok, next, a),
{
    if ok {
        (BootstrapState { readiness: s.readiness, progress: s.progress, ready: s.ready, stage: next }, a)
    } else {
        failure_exec()
    }
}

/// One step of the bootstrap (see `bootstrap_spec`).
pub fn bootstrap_step(profile: StartupProfile, state: BootstrapState, event: BootstrapEvent) -> (r: (
    BootstrapState,
    BootstrapAction,
))
    ensures
        r == bootstrap_spec(profile, state, event),
{
    let audit = profile.should_audit_headers();
    let support = profile.should_fetch_khpos();
    let wait = profile.should_wait_for_full_before_ready();
    let s = state;
    match (s.stage, event) {
        (BootstrapStage::Idle, BootstrapEvent::Started { fetching, has_window }) => {
            if s.readiness == EngineReadiness::FullReady {
                (finished_exec(EngineReadiness::FullReady), BootstrapAction::Finish)
            } else if !fetching {
                (
                    BootstrapState {
                        readiness: EngineReadiness::Booting,
                        progress: 85,
                        ready: false,
                        stage: BootstrapStage::Warming,
                    },
                    BootstrapAction::WarmLegacyEngine,
                )
            } else if !has_window {
                failure_exec()
            } else {
                (
                    BootstrapState {
                        readiness: EngineReadiness::Booting,
                        progress: 10,
                        ready: false,
                        stage: BootstrapStage::LexiconResponse,
                    },
                    BootstrapAction::FetchAssets { khpos_and_next_word: support },
                )
            }
        },
        (BootstrapStage::Warming, BootstrapEvent::Warmed) => (
            finished_exec(EngineReadiness::FullReady),
            BootstrapAction::Finish,
        ),
        (BootstrapStage::LexiconResponse, BootstrapEvent::Responded { ok }) => go_exec(
            s,
            ok,
            BootstrapStage::LexiconBytes,
            BootstrapAction::ReadBody { asset: BootstrapAsset::Lexicon, record_headers: audit },
        ),
        (BootstrapStage::LexiconBytes, BootstrapEvent::BytesRead { ok }) => go_exec(
            s,
            ok,
            BootstrapStage::PhaseA,
            BootstrapAction::BuildPhaseA,
        ),
        (BootstrapStage::PhaseA, BootstrapEvent::PhaseABuilt { ok }) => {
            if !ok {
                failure_exec()
            } else if wait {
                if !support {
                    failure_exec()
                } else {
                    (
                        BootstrapState {
                            readiness: s.readiness,
                            progress: s.progress,
                            ready: s.ready,
                            stage: BootstrapStage::FullKhposResponse,
                        },
                        BootstrapAction::AwaitResponse { asset: BootstrapAsset::Khpos },
                    )
                }
            } else if !support {
                (
                    finished_exec(EngineReadiness::LegacyReady),
                    BootstrapAction::EmitTrace { readiness: EngineReadiness::LegacyReady },
                )
            } else {
                (
                    BootstrapState {
                        readiness: EngineReadiness::LegacyReady,
                        progress: 80,
                        ready: true,
                        stage: BootstrapStage::DeferKhposResponse,
                    },
                    BootstrapAction::AwaitResponse { asset: BootstrapAsset::Khpos },
                )
            }
        },
        (BootstrapStage::FullKhposResponse, BootstrapEvent::Responded { ok }) => go_exec(
            s,
            ok,
            BootstrapStage::FullKhposBytes,
            BootstrapAction::ReadBody { asset: BootstrapAsset::Khpos, record_headers: audit },
        ),
        (BootstrapStage::FullKhposBytes, BootstrapEvent::BytesRead { ok }) => go_exec(
            s,
            ok,
            BootstrapStage::FullNextWordResponse,
            BootstrapAction::AwaitResponse { asset: BootstrapAsset::NextWord },
        ),
        (BootstrapStage::FullNextWordResponse, BootstrapEvent::Responded { ok }) => go_exec(
            s,
            ok,
            BootstrapStage::FullNextWordBytes,
            BootstrapAction::ReadBody { asset: BootstrapAsset::NextWord, record_headers: audit },
        ),
        (BootstrapStage::FullNextWordBytes, BootstrapEvent::BytesRead { ok }) => {
            if ok {
                (
                    BootstrapState {
                        readiness: s.readiness,
                        progress: 82,
                        ready: s.ready,
                        stage: BootstrapStage::FullPromotion,
                    },
                    BootstrapAction::StoreSupportAndPromote,
                )
            } else {
                failure_exec()
            }
        },
        (BootstrapStage::FullPromotion, BootstrapEvent::Promoted) => (
            finished_exec(EngineReadiness::FullReady),
            BootstrapAction::EmitTrace { readiness: EngineReadiness::FullReady },
        ),
        (BootstrapStage::DeferKhposResponse, BootstrapEvent::Responded { ok }) => go_exec(
            s,
            ok,
            BootstrapStage::DeferNextWordResponse,
            BootstrapAction::AwaitResponse { asset: BootstrapAsset::NextWord },
        ),
        (BootstrapStage::DeferNextWordResponse, BootstrapEvent::Responded { ok }) => go_exec(
            s,
            ok,
            BootstrapStage::DeferKhposBytes,
            BootstrapAction::ReadBody { asset: BootstrapAsset::Khpos, record_headers: false },
        ),
        (BootstrapStage::DeferKhposBytes, BootstrapEvent::BytesRead { ok }) => go_exec(
            s,
            ok,
            BootstrapStage::DeferNextWordBytes,
            BootstrapAction::ReadBody { asset: BootstrapAsset::NextWord, record_headers: false },
        ),
        (BootstrapStage::DeferNextWordBytes, BootstrapEvent::BytesRead { ok }) => go_exec(
            s,
            ok,
            BootstrapStage::DeferPromotion,
            BootstrapAction::StoreSupportAndPromote,
        ),
        (BootstrapStage::DeferPromotion, BootstrapEvent::Promoted) => (
            finished_exec(EngineReadiness::FullReady),
            BootstrapAction::EmitTrace { readiness: EngineReadiness::FullReady },
        ),
        _ => (s, BootstrapAction::Ignore),
    }
}

/// What holds of every state the bootstrap reaches under `profile` (a
/// bootstrap that has not started meets it whatever it shows): each
/// stage shows its readiness and progress, the stages of one profile's
/// path only under that profile, and a finished bootstrap is ready at full
/// progress, legacy-ready only where readiness does not wait for the full
/// engine.
pub open spec fn bootstrap_ok(profile: StartupProfile, s: BootstrapState) -> bool {
    let booting = s.readiness == EngineReadiness::Booting && !s.ready;
    let full_path = waits_for_full(profile) && fetches_support(profile);
    let defer_path = !waits_for_full(profile) && fetches_support(profile);
    match s.stage {
        BootstrapStage::Idle => true,
        BootstrapStage::LexiconResponse | BootstrapStage::LexiconBytes | BootstrapStage::PhaseA => booting
            && s.progress == 10,
        BootstrapStage::FullKhposResponse | BootstrapStage::FullKhposBytes | BootstrapStage::FullNextWordResponse
        | BootstrapStage::FullNextWordBytes => booting && s.progress == 10 && full_path,
        BootstrapStage::FullPromotion => booting && s.progress == 82 && full_path,
        BootstrapStage::DeferKhposResponse | BootstrapStage::DeferNextWordResponse | BootstrapStage::DeferKhposBytes
        | BootstrapStage::DeferNextWordBytes | BootstrapStage::DeferPromotion => s.readiness
            == EngineReadiness::LegacyReady && s.ready && s.progress == 80 && defer_path,
        BootstrapStage::Warming => booting && s.progress == 85,
        BootstrapStage::Finished => s.ready && s.progress == 100 && s.readiness != EngineReadiness::Booting && (
        s.readiness == EngineReadiness::LegacyReady ==> !waits_for_full(profile)),
    }
}

/// Readiness `b` may follow `a` once the bootstrap runs: booting may become
/// anything, legacy-ready only full-ready or failed, and full-ready and
/// failed stay.
pub open spec fn readiness_follows(a: EngineReadiness, b: EngineReadiness) -> bool {
    ||| a == b
    ||| a == EngineReadiness::Booting
    ||| (a == EngineReadiness::LegacyReady && (b == EngineReadiness::FullReady || b == EngineReadiness::Failed))
}

/// Whether `e` is a fetch, read or build that failed.
pub open spec fn failed_event(e: BootstrapEvent) -> bool {
    ||| e == BootstrapEvent::Responded { ok: false }
    ||| e == BootstrapEvent::BytesRead { ok: false }
    ||| e == BootstrapEvent::PhaseABuilt { ok: false }
}

/// Actions that touch the khPOS or next-word data.
pub open spec fn touches_support(a: BootstrapAction) -> bool {
    ||| a == BootstrapAction::FetchAssets { khpos_and_next_word: true }
    ||| a matches BootstrapAction::AwaitResponse { asset } && asset != BootstrapAsset::Lexicon
    ||| a matches BootstrapAction::ReadBody { asset, .. } && asset != BootstrapAsset::Lexicon
    ||| a == BootstrapAction::StoreSupportAndPromote
}

/// The bootstrap's promises, step by step from any state it reaches:
/// every step keeps `bootstrap_ok` and only moves readiness forward; a
/// failed fetch, read or build that was awaited fails the bootstrap (failed,
/// progress 100, ready, trace emitted); the lexicon-only profile never
/// touches the khPOS or next-word data; under the baseline profiles the
/// editor is ready only when full-ready or failed; and under `defer_full`
/// the full engine arrives only after legacy-ready.
pub proof fn law_bootstrap_steps(profile: StartupProfile, s: BootstrapState, e: BootstrapEvent)
    requires
        bootstrap_ok(profile, s),
    ensures
        ({
            let (t, a) = bootstrap_spec(profile, s, e);
            &&& bootstrap_ok(profile, t)
            &&& s.stage != BootstrapStage::Idle ==> readiness_follows(s.readiness, t.readiness)
            &&& failed_event(e) && a != BootstrapAction::Ignore ==> (t, a) == failure()
            &&& profile == StartupProfile::LexiconOnly ==> !touches_support(a)
            &&& waits_for_full(profile) && t.stage != BootstrapStage::Idle && t.ready ==> (t.readiness
                == EngineReadiness::FullReady || t.readiness == EngineReadiness::Failed)
            &&& profile == StartupProfile::DeferFull && t.readiness == EngineReadiness::FullReady && s.readiness
                != EngineReadiness::FullReady && s.stage != BootstrapStage::Idle && s.stage
                != BootstrapStage::Warming ==> s.readiness == EngineReadiness::LegacyReady
        }),
        forall|a: EngineReadiness, b: EngineReadiness, c: EngineReadiness|
            #[trigger] readiness_follows(a, b) && #[trigger] readiness_follows(b, c) ==> readiness_follows(a, c),
{
}

} // verus!
