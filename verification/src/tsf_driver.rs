//! Decisions of the Windows session driver: the two-stage engine warmup, the
//! arming switch of the span-proposal seam, and where a visible refine goes.
//! The driver performs the engine swaps and session calls these decisions
//! name.

use vstd::prelude::*;
use crate::text::{chars_eq, chars_of};

verus! {

/// The first implementation milestone of the Windows adapter.
pub const FIRST_IMPLEMENTATION_MILESTONE: &'static str = "pure Rust Windows session driver around ImeSession";

/// Environment variable that arms the span-proposal seam.
pub const SPAN_PROPOSALS_ENV: &'static str = "KHMERIME_SPAN_PROPOSALS";

/// How far along the two-stage warmup the driver is. `FullPending` holds a
/// finished full engine back while a composition is active, so in-flight
/// input is never re-decoded by a different engine.
#[derive(Clone, Copy, Debug, PartialEq, Eq, Structural)]
pub enum DriverReadiness {
    PhaseA,
    FullPending,
    Full,
    Failed,
}

/// What polling the full-warmup channel found.
#[derive(Clone, Copy, Debug, PartialEq, Eq, Structural)]
pub enum WarmupPoll {
    /// Nothing yet.
    Empty,
    /// The full engines are built.
    Ready,
    /// The build failed.
    Failed,
    /// The builder went away without answering.
    Disconnected,
}

/// What the driver does with the full engines after a poll.
#[derive(Clone, Copy, Debug, PartialEq, Eq, Structural)]
pub enum EngineAction {
    /// Keep the channel and poll again later.
    KeepWaiting,
    /// Install the engines now.
    Apply,
    /// Hold the engines until the composition goes idle.
    Defer,
    /// Stop polling; no engines will come.
    GiveUp,
}

/// The readiness and action after a poll.
pub open spec fn poll_step(readiness: DriverReadiness, poll: WarmupPoll, composition_empty: bool) -> (
    DriverReadiness,
    EngineAction,
) {
    match poll {
        WarmupPoll::Empty => (readiness, EngineAction::KeepWaiting),
        WarmupPoll::Ready => if composition_empty {
            (DriverReadiness::Full, EngineAction::Apply)
        } else {
            (DriverReadiness::FullPending, EngineAction::Defer)
        },
        WarmupPoll::Failed => (DriverReadiness::Failed, EngineAction::GiveUp),
        WarmupPoll::Disconnected => (DriverReadiness::Failed, EngineAction::GiveUp),
    }
}

/// Adopts the full engines when they land, deferring while a composition is
/// active.
pub fn poll_full_warmup(readiness: DriverReadiness, poll: WarmupPoll, composition_empty: bool) -> (r: (
    DriverReadiness,
    EngineAction,
))
    ensures
        r == poll_step(readiness, poll, composition_empty),
{
    match poll {
        WarmupPoll::Empty => (readiness, EngineAction::KeepWaiting),
        WarmupPoll::Ready => {
            if composition_empty {
                (DriverReadiness::Full, EngineAction::Apply)
            } else {
                (DriverReadiness::FullPending, EngineAction::Defer)
            }
        },
        WarmupPoll::Failed => (DriverReadiness::Failed, EngineAction::GiveUp),
        WarmupPoll::Disconnected => (DriverReadiness::Failed, EngineAction::GiveUp),
    }
}

/// After a session call: a deferred upgrade is applied once the
/// composition is empty. Returns the new readiness and whether to install
/// the held engines.
pub fn maybe_complete_full_upgrade(readiness: DriverReadiness, composition_empty: bool) -> (r: (
    DriverReadiness,
    bool,
))
    ensures
        r == (if readiness == DriverReadiness::FullPending && composition_empty {
            (DriverReadiness::Full, true)
        } else {
            (readiness, false)
        }),
{
    if readiness == DriverReadiness::FullPending && composition_empty {
        (DriverReadiness::Full, true)
    } else {
        (readiness, false)
    }
}

/// Engines are never swapped under an active composition: a poll installs
/// them only when the composition is empty, and otherwise defers.
pub proof fn law_no_swap_mid_composition(readiness: DriverReadiness, poll: WarmupPoll)
    ensures
        poll_step(readiness, poll, false).1 != EngineAction::Apply,
        poll == WarmupPoll::Ready ==> poll_step(readiness, poll, false) == (
            DriverReadiness::FullPending,
            EngineAction::Defer,
        ),
{
}

/// A deferred upgrade completes as soon as the composition is empty, and
/// the driver is then fully ready.
pub proof fn law_deferred_upgrade_completes(readiness: DriverReadiness)
    ensures
        poll_step(readiness, WarmupPoll::Ready, false).0 == DriverReadiness::FullPending,
        (if poll_step(readiness, WarmupPoll::Ready, false).0 == DriverReadiness::FullPending {
            (DriverReadiness::Full, true)
        } else {
            (poll_step(readiness, WarmupPoll::Ready, false).0, false)
        }) == (DriverReadiness::Full, true),
{
}

/// Which span-proposal provider the seam uses.
#[derive(Clone, Copy, Debug, PartialEq, Eq, Structural)]
pub enum SpanProposalMode {
    Disabled,
    Model,
    StaticTest,
}

/// The span-proposal mode for the arming variable's value: `model` and
/// `static-test` arm it; anything else, or no value, leaves it disabled.
pub open spec fn span_mode_spec(value: Option<Seq<char>>) -> SpanProposalMode {
    match value {
        Some(v) => if v == "model"@ {
            SpanProposalMode::Model
        } else if v == "static-test"@ {
            SpanProposalMode::StaticTest
        } else {
            SpanProposalMode::Disabled
        },
        None => SpanProposalMode::Disabled,
    }
}

/// Reads the arming switch of the span-proposal seam.
pub fn span_proposal_mode_for(value: Option<&str>) -> (m: SpanProposalMode)
    ensures
        m == span_mode_spec(match value {
            Some(v) => Some(v@),
            None => None,
        }),
{
    match value {
        Some(v) => {
            let chars = chars_of(v);
            let model = chars_of("model");
            let static_test = chars_of("static-test");
            if chars_eq(chars.as_slice(), model.as_slice()) {
                SpanProposalMode::Model
            } else if chars_eq(chars.as_slice(), static_test.as_slice()) {
                SpanProposalMode::StaticTest
            } else {
                SpanProposalMode::Disabled
            }
        },
        None => SpanProposalMode::Disabled,
    }
}

/// Latency budget of an armed visible refiner, in milliseconds: neural
/// inference needs more than the stock budget sized for a deterministic
/// refiner.
pub const MODEL_REFINE_MAX_LATENCY_MS: u64 = 2000;

/// The visible-refiner settings for an arming value: none at all when the
/// seam is disabled, otherwise the armed mode with the model latency budget.
pub fn visible_refiner_config(value: Option<&str>) -> (c: Option<(SpanProposalMode, u64)>)
    ensures
        c == (if span_mode_spec(
            match value {
                Some(v) => Some(v@),
                None => None,
            },
        ) == SpanProposalMode::Disabled {
            None
        } else {
            Some(
                (
                    span_mode_spec(
                        match value {
                            Some(v) => Some(v@),
                            None => None,
                        },
                    ),
                    MODEL_REFINE_MAX_LATENCY_MS,
                ),
            )
        }),
{
    let mode = span_proposal_mode_for(value);
    if mode == SpanProposalMode::Disabled {
        None
    } else {
        Some((mode, MODEL_REFINE_MAX_LATENCY_MS))
    }
}

/// Where a visible refine goes.
#[derive(Clone, Copy, Debug, PartialEq, Eq, Structural)]
pub enum RefineRoute {
    /// Nothing to refine.
    Nothing,
    /// Refresh the segmented preview.
    SegmentedPreview,
    /// Refine the flat candidate list.
    CandidateList,
}

/// Routes a visible refine: nothing for an empty composition, the
/// segmented preview when one is active, the candidate list otherwise.
pub fn refine_route(raw_preedit: &str, segmented_preview_active: bool) -> (r: RefineRoute)
    ensures
        r == (if raw_preedit@.len() == 0 {
            RefineRoute::Nothing
        } else if segmented_preview_active {
            RefineRoute::SegmentedPreview
        } else {
            RefineRoute::CandidateList
        }),
{
    if raw_preedit.is_empty() {
        RefineRoute::Nothing
    } else if segmented_preview_active {
        RefineRoute::SegmentedPreview
    } else {
        RefineRoute::CandidateList
    }
}

} // verus!
