//! Decisions of the Linux IBus bridge process: its command vocabulary, the
//! readiness it reports, its command-line options, and, for each command,
//! whether to wait for the full refiner, whether to build the segmented
//! preview first, and whether the bridge exits afterwards. The bridge
//! process performs the session calls these decisions name.

use vstd::prelude::*;
use crate::text::{append_chars, chars_eq, chars_of, slice_to_vec, string_from_chars};
use crate::tsf_driver::{EngineAction, WarmupPoll};

verus! {

/// Warmup state the bridge reports with every response.
#[derive(Clone, Copy, Debug, PartialEq, Eq, Structural)]
pub enum BridgeReadiness {
    PhaseA,
    FullPending,
    Full,
    Failed,
}

/// The session's input modes.
#[derive(Clone, Copy, Debug, PartialEq, Eq, Structural)]
pub enum InputMode {
    Roman,
    Nida,
    CharPick,
    ManualCharacterTyping,
}

/// The commands the IBus adapter sends, one per line.
#[derive(Clone, Debug)]
pub enum BridgeCommand {
    ProcessKeyEvent { keyval: u32, keycode: u32, state: u32 },
    RefineComposition { raw_preedit: String },
    RefreshSegmentedPreview { raw_preedit: String },
    SetInputMode { input_mode: InputMode },
    ToggleInputMode,
    FocusIn,
    FocusOut,
    Reset,
    Enable,
    Disable,
    SetCursorLocation { x: i32, y: i32, width: i32, height: i32 },
    /// Select phrase candidate `index` (a session index, not a row).
    SelectPhrase { index: usize },
    Snapshot,
    Shutdown,
}

/// How long Enter may wait for the full refiner, in milliseconds.
pub const LONG_ENTER_REFINER_GRACE: u64 = 5;

/// Shortest raw composition for which Enter waits for the full refiner.
pub const ENTER_REFINER_MIN_RAW_CHARS: usize = 12;

/// Keys that need the segmented preview before the session sees them:
/// Space, the arrows, the keypad Tab and arrows, the digits 1-9 and the
/// keypad digits 1-9.
pub open spec fn preview_key(keyval: u32) -> bool {
    ||| keyval == 0x0020
    ||| keyval == 0xFF51
    ||| keyval == 0xFF52
    ||| keyval == 0xFF53
    ||| keyval == 0xFF54
    ||| keyval == 0xFF89
    ||| keyval == 0xFF96
    ||| keyval == 0xFF98
    ||| keyval == 0xFF99
    ||| 0x0031 <= keyval <= 0x0039
    ||| 0xFFB1 <= keyval <= 0xFFB9
}

/// Whether a key needs the segmented preview before the session handles it.
pub fn needs_segmented_preview_for_keyval(keyval: u32) -> (b: bool)
    ensures
        b == preview_key(keyval),
{
    keyval == 0x0020 || keyval == 0xFF51 || keyval == 0xFF52 || keyval == 0xFF53 || keyval == 0xFF54 || keyval
        == 0xFF89 || keyval == 0xFF96 || keyval == 0xFF98 || keyval == 0xFF99 || (0x0031 <= keyval && keyval
        <= 0x0039) || (0xFFB1 <= keyval && keyval <= 0xFFB9)
}

/// How long an Enter commit may wait for the full refiner: a short grace for
/// long compositions, none for short ones, which commit at once.
pub fn enter_refiner_grace(raw_preedit: &str) -> (g: Option<u64>)
    ensures
        g == (if raw_preedit@.len() >= ENTER_REFINER_MIN_RAW_CHARS {
            Some(LONG_ENTER_REFINER_GRACE)
        } else {
            None
        }),
{
    let chars = chars_of(raw_preedit);
    if chars.len() >= ENTER_REFINER_MIN_RAW_CHARS {
        Some(LONG_ENTER_REFINER_GRACE)
    } else {
        None
    }
}

/// What the bridge does around one command.
#[derive(Clone, Copy, Debug, PartialEq, Eq, Structural)]
pub struct CommandPlan {
    /// Wait this many milliseconds for the full refiner before the command.
    pub wait_for_refiner_ms: Option<u64>,
    /// Build the segmented preview before the command.
    pub sync_segmented_preview: bool,
    /// Exit after answering.
    pub exit_after: bool,
}

/// Whether a key is Enter or keypad Enter.
pub open spec fn enter_key(keyval: u32) -> bool {
    keyval == 0xFF0D || keyval == 0xFF8D
}

/// The plan for a command: Enter waits for the full refiner only in phase A
/// and for a long composition; a preview key builds a deferred segmented
/// preview first when the composition has none yet; Shutdown exits.
pub open spec fn plan_spec(
    command: BridgeCommand,
    readiness: BridgeReadiness,
    raw_len: nat,
    deferred_preview: bool,
    preview_active: bool,
    composition_empty: bool,
) -> CommandPlan {
    match command {
        BridgeCommand::ProcessKeyEvent { keyval, .. } => CommandPlan {
            wait_for_refiner_ms: if enter_key(keyval) && readiness == BridgeReadiness::PhaseA && raw_len
                >= ENTER_REFINER_MIN_RAW_CHARS {
                Some(LONG_ENTER_REFINER_GRACE)
            } else {
                None
            },
            sync_segmented_preview: preview_key(keyval) && deferred_preview && !preview_active
                && !composition_empty,
            exit_after: false,
        },
        BridgeCommand::Shutdown => CommandPlan {
            wait_for_refiner_ms: None,
            sync_segmented_preview: false,
            exit_after: true,
        },
        _ => CommandPlan { wait_for_refiner_ms: None, sync_segmented_preview: false, exit_after: false },
    }
}

/// Plans one command from the bridge's state.
pub fn plan_command(
    command: &BridgeCommand,
    readiness: BridgeReadiness,
    raw_preedit: &str,
    deferred_preview: bool,
    preview_active: bool,
    composition_empty: bool,
) -> (p: CommandPlan)
    ensures
        p == plan_spec(
            *command,
            readiness,
            raw_preedit@.len(),
            deferred_preview,
            preview_active,
            composition_empty,
        ),
{
    match command {
        BridgeCommand::ProcessKeyEvent { keyval, .. } => {
            let is_enter = *keyval == 0xFF0D || *keyval == 0xFF8D;
            let wait = if is_enter && readiness == BridgeReadiness::PhaseA {
                enter_refiner_grace(raw_preedit)
            } else {
                None
            };
            let sync = needs_segmented_preview_for_keyval(*keyval) && deferred_preview && !preview_active
                && !composition_empty;
            CommandPlan { wait_for_refiner_ms: wait, sync_segmented_preview: sync, exit_after: false }
        },
        BridgeCommand::Shutdown => CommandPlan {
            wait_for_refiner_ms: None,
            sync_segmented_preview: false,
            exit_after: true,
        },
        _ => CommandPlan { wait_for_refiner_ms: None, sync_segmented_preview: false, exit_after: false },
    }
}

/// The session update a command reports when the command itself decides it
/// (every command but a key event, which the session answers): toggling
/// the input mode is consumed; nothing else is, and no command but a key
/// event commits text or changes history.
pub open spec fn fixed_consumed(command: BridgeCommand) -> Option<bool> {
    match command {
        BridgeCommand::ProcessKeyEvent { .. } => None,
        BridgeCommand::ToggleInputMode => Some(true),
        _ => Some(false),
    }
}

/// Whether a command is consumed, when the command itself decides it.
pub fn command_consumed(command: &BridgeCommand) -> (c: Option<bool>)
    ensures
        c == fixed_consumed(*command),
{
    match command {
        BridgeCommand::ProcessKeyEvent { .. } => None,
        BridgeCommand::ToggleInputMode => Some(true),
        _ => Some(false),
    }
}

/// The commands whose responses carry timings: key events and the
/// refinement and preview refreshes.
pub open spec fn timed_command(command: BridgeCommand) -> bool {
    ||| command is ProcessKeyEvent
    ||| command is RefineComposition
    ||| command is RefreshSegmentedPreview
}

/// Whether the response to `command` carries timings (see
/// `timed_command`).
pub fn command_emits_timings(command: &BridgeCommand) -> (b: bool)
    ensures
        b == timed_command(*command),
{
    match command {
        BridgeCommand::ProcessKeyEvent { .. } => true,
        BridgeCommand::RefineComposition { .. } => true,
        BridgeCommand::RefreshSegmentedPreview { .. } => true,
        _ => false,
    }
}

/// The response's error after a key event: none unless the history
/// changed and saving it failed with `save_error`.
pub fn history_save_error(history_changed: bool, save_error: Option<&str>) -> (r: Option<String>)
    ensures
        r matches Some(m) ==> history_changed && save_error is Some && m@ == "history save failed: "@ + save_error->0@,
        r is None ==> !history_changed || save_error is None,
{
    if !history_changed {
        return None;
    }
    match save_error {
        None => None,
        Some(e) => {
            let mut out: Vec<char> = Vec::new();
            let prefix = chars_of("history save failed: ");
            append_chars(&mut out, prefix.as_slice());
            append_chars(&mut out, chars_of(e).as_slice());
            Some(string_from_chars(out.as_slice()))
        },
    }
}

/// The bridge process's command-line options.
#[derive(Clone, Copy, Debug, PartialEq, Eq, Structural)]
pub struct BridgeOptions {
    pub initial_input_mode: InputMode,
    pub disable_full_warmup: bool,
    pub synchronous_full_startup: bool,
    pub deferred_segmented_preview: bool,
}

/// The options before any argument is read.
pub open spec fn default_options() -> BridgeOptions {
    BridgeOptions {
        initial_input_mode: InputMode::Roman,
        disable_full_warmup: false,
        synchronous_full_startup: false,
        deferred_segmented_preview: false,
    }
}

/// The input mode named by an option value, or the error for any other
/// value.
pub open spec fn mode_value(value: Seq<char>) -> Result<InputMode, Seq<char>> {
    if value == "roman"@ {
        Ok(InputMode::Roman)
    } else if value == "nida"@ {
        Ok(InputMode::Nida)
    } else {
        Err("invalid --initial-input-mode value: "@ + value)
    }
}

/// Options parsed from the remaining arguments, starting from `acc`:
/// `--initial-input-mode=V` and `--initial-input-mode V` set the mode (a
/// trailing `--initial-input-mode` with no value is ignored); the three
/// flags set themselves; anything else is ignored.
pub open spec fn parse_options_spec(args: Seq<Seq<char>>, acc: BridgeOptions) -> Result<BridgeOptions, Seq<char>>
    decreases args.len(),
{
    if args.len() == 0 {
        Ok(acc)
    } else {
        let arg = args[0];
        let prefix = "--initial-input-mode="@;
        if arg.len() >= prefix.len() && arg.take(prefix.len() as int) == prefix {
            match mode_value(arg.skip(prefix.len() as int)) {
                Ok(m) => parse_options_spec(args.skip(1), BridgeOptions { initial_input_mode: m, ..acc }),
                Err(e) => Err(e),
            }
        } else if arg == "--initial-input-mode"@ {
            if args.len() < 2 {
                Ok(acc)
            } else {
                match mode_value(args[1]) {
                    Ok(m) => parse_options_spec(args.skip(2), BridgeOptions { initial_input_mode: m, ..acc }),
                    Err(e) => Err(e),
                }
            }
        } else if arg == "--disable-full-warmup"@ {
            parse_options_spec(args.skip(1), BridgeOptions { disable_full_warmup: true, ..acc })
        } else if arg == "--synchronous-full-startup"@ {
            parse_options_spec(args.skip(1), BridgeOptions { synchronous_full_startup: true, ..acc })
        } else if arg == "--deferred-segmented-preview"@ {
            parse_options_spec(args.skip(1), BridgeOptions { deferred_segmented_preview: true, ..acc })
        } else {
            parse_options_spec(args.skip(1), acc)
        }
    }
}

/// Reads an input-mode option value.
fn parse_mode_value(value: &[char]) -> (r: Result<InputMode, String>)
    ensures
        match r {
            Ok(m) => mode_value(value@) == Ok::<InputMode, Seq<char>>(m),
            Err(e) => mode_value(value@) == Err::<InputMode, Seq<char>>(e@),
        },
{
    let roman = chars_of("roman");
    let nida = chars_of("nida");
    if chars_eq(value, roman.as_slice()) {
        Ok(InputMode::Roman)
    } else if chars_eq(value, nida.as_slice()) {
        Ok(InputMode::Nida)
    } else {
        let mut message = chars_of("invalid --initial-input-mode value: ");
        append_chars(&mut message, value);
        Err(string_from_chars(message.as_slice()))
    }
}

/// Whether `arg` starts with `prefix`.
fn starts_with(arg: &[char], prefix: &[char]) -> (b: bool)
    ensures
        b == (arg@.len() >= prefix@.len() && arg@.take(prefix@.len() as int) == prefix@),
{
    if arg.len() < prefix.len() {
        return false;
    }
    let head = slice_to_vec(arg, 0, prefix.len());
    assert(arg@.subrange(0, prefix@.len() as int) =~= arg@.take(prefix@.len() as int));
    chars_eq(head.as_slice(), prefix)
}

/// Parses the bridge's command-line arguments (without the program name).
pub fn parse_bridge_options(args: &Vec<String>) -> (r: Result<BridgeOptions, String>)
    ensures
        match r {
            Ok(o) => parse_options_spec(args@.map_values(|a: String| a@), default_options()) == Ok::<
                BridgeOptions,
                Seq<char>,
            >(o),
            Err(e) => parse_options_spec(args@.map_values(|a: String| a@), default_options()) == Err::<
                BridgeOptions,
                Seq<char>,
            >(e@),
        },
{
    let ghost all = args@.map_values(|a: String| a@);
    let prefix = chars_of("--initial-input-mode=");
    let bare = chars_of("--initial-input-mode");
    let no_warmup = chars_of("--disable-full-warmup");
    let sync_startup = chars_of("--synchronous-full-startup");
    let deferred = chars_of("--deferred-segmented-preview");
    let mut acc = BridgeOptions {
        initial_input_mode: InputMode::Roman,
        disable_full_warmup: false,
        synchronous_full_startup: false,
        deferred_segmented_preview: false,
    };
    let mut i: usize = 0;
    assert(all.skip(0) =~= all);
    while i < args.len()
        invariant
            all == args@.map_values(|a: String| a@),
            i <= args@.len(),
            prefix@ == "--initial-input-mode="@,
            bare@ == "--initial-input-mode"@,
            no_warmup@ == "--disable-full-warmup"@,
            sync_startup@ == "--synchronous-full-startup"@,
            deferred@ == "--deferred-segmented-preview"@,
            parse_options_spec(all, default_options()) == parse_options_spec(all.skip(i as int), acc),
        decreases args@.len() - i,
    {
        let ghost rest = all.skip(i as int);
        assert(rest[0] == args@[i as int]@);
        let arg = chars_of(args[i].as_str());
        if starts_with(arg.as_slice(), prefix.as_slice()) {
            let value = slice_to_vec(arg.as_slice(), prefix.len(), arg.len());
            assert(value@ =~= arg@.skip(prefix@.len() as int));
            match parse_mode_value(value.as_slice()) {
                Ok(m) => {
                    acc = BridgeOptions { initial_input_mode: m, ..acc };
                },
                Err(e) => {
                    return Err(e);
                },
            }
            assert(rest.skip(1) =~= all.skip(i + 1));
            i = i + 1;
        } else if chars_eq(arg.as_slice(), bare.as_slice()) {
            if i + 1 >= args.len() {
                return Ok(acc);
            }
            assert(rest[1] == args@[i + 1]@);
            let value = chars_of(args[i + 1].as_str());
            match parse_mode_value(value.as_slice()) {
                Ok(m) => {
                    acc = BridgeOptions { initial_input_mode: m, ..acc };
                },
                Err(e) => {
                    return Err(e);
                },
            }
            assert(rest.skip(2) =~= all.skip(i + 2));
            i = i + 2;
        } else {
            if chars_eq(arg.as_slice(), no_warmup.as_slice()) {
                acc = BridgeOptions { disable_full_warmup: true, ..acc };
            } else if chars_eq(arg.as_slice(), sync_startup.as_slice()) {
                acc = BridgeOptions { synchronous_full_startup: true, ..acc };
            } else if chars_eq(arg.as_slice(), deferred.as_slice()) {
                acc = BridgeOptions { deferred_segmented_preview: true, ..acc };
            }
            assert(rest.skip(1) =~= all.skip(i + 1));
            i = i + 1;
        }
    }
    assert(all.skip(i as int) =~= Seq::<Seq<char>>::empty());
    Ok(acc)
}

/// The bridge's readiness and action after polling the full warmup: the
/// engines are installed when they land on an empty composition, held back
/// while one is active, and given up on when the build fails or its sender
/// goes away.
pub open spec fn bridge_poll_step(readiness: BridgeReadiness, poll: WarmupPoll, composition_empty: bool) -> (
    BridgeReadiness,
    EngineAction,
) {
    match poll {
        WarmupPoll::Empty => (readiness, EngineAction::KeepWaiting),
        WarmupPoll::Ready => if composition_empty {
            (BridgeReadiness::Full, EngineAction::Apply)
        } else {
            (BridgeReadiness::FullPending, EngineAction::Defer)
        },
        WarmupPoll::Failed => (BridgeReadiness::Failed, EngineAction::GiveUp),
        WarmupPoll::Disconnected => (BridgeReadiness::Failed, EngineAction::GiveUp),
    }
}

/// Polls (or, before Enter, waits on) the full warmup (see
/// `bridge_poll_step`).
pub fn poll_bridge_warmup(readiness: BridgeReadiness, poll: WarmupPoll, composition_empty: bool) -> (r: (
    BridgeReadiness,
    EngineAction,
))
    ensures
        r == bridge_poll_step(readiness, poll, composition_empty),
{
    match poll {
        WarmupPoll::Empty => (readiness, EngineAction::KeepWaiting),
        WarmupPoll::Ready => {
            if composition_empty {
                (BridgeReadiness::Full, EngineAction::Apply)
            } else {
                (BridgeReadiness::FullPending, EngineAction::Defer)
            }
        },
        WarmupPoll::Failed => (BridgeReadiness::Failed, EngineAction::GiveUp),
        WarmupPoll::Disconnected => (BridgeReadiness::Failed, EngineAction::GiveUp),
    }
}

/// After a command: held engines are installed once the composition is
/// empty; otherwise nothing changes.
pub open spec fn bridge_upgrade_step(readiness: BridgeReadiness, composition_empty: bool, engines_held: bool) -> (
    BridgeReadiness,
    bool,
) {
    if readiness == BridgeReadiness::FullPending && composition_empty && engines_held {
        (BridgeReadiness::Full, true)
    } else {
        (readiness, false)
    }
}

/// Completes a held upgrade (see `bridge_upgrade_step`). Returns the new
/// readiness and whether to install the held engines.
pub fn complete_bridge_upgrade(readiness: BridgeReadiness, composition_empty: bool, engines_held: bool) -> (r: (
    BridgeReadiness,
    bool,
))
    ensures
        r == bridge_upgrade_step(readiness, composition_empty, engines_held),
{
    if readiness == BridgeReadiness::FullPending && composition_empty && engines_held {
        (BridgeReadiness::Full, true)
    } else {
        (readiness, false)
    }
}

/// The bridge never swaps engines under an active composition: a warmup
/// that lands then is held, and the held upgrade completes, installing the
/// engines, at the first point where the composition is empty.
pub proof fn law_bridge_upgrade_waits_for_idle(readiness: BridgeReadiness, poll: WarmupPoll)
    ensures
        bridge_poll_step(readiness, poll, false).1 != EngineAction::Apply,
        poll == WarmupPoll::Ready ==> bridge_poll_step(readiness, poll, false).0 == BridgeReadiness::FullPending,
        poll == WarmupPoll::Ready ==> bridge_upgrade_step(bridge_poll_step(readiness, poll, false).0, false, true)
            == (BridgeReadiness::FullPending, false),
        poll == WarmupPoll::Ready ==> bridge_upgrade_step(bridge_poll_step(readiness, poll, false).0, true, true)
            == (BridgeReadiness::Full, true),
{
}

/// The bridge's warmup bookkeeping is consistent: a warmup is still awaited
/// only in phase A, and engines are held back exactly while the upgrade is
/// pending.
pub open spec fn warmup_state_ok(readiness: BridgeReadiness, awaiting: bool, held: bool) -> bool {
    &&& awaiting ==> readiness == BridgeReadiness::PhaseA
    &&& held <==> readiness == BridgeReadiness::FullPending
}

/// `b` may follow `a`: phase A may become anything, a pending upgrade only
/// completes, and full or failed readiness stays as it is.
pub open spec fn readiness_advances(a: BridgeReadiness, b: BridgeReadiness) -> bool {
    ||| a == b
    ||| a == BridgeReadiness::PhaseA
    ||| (a == BridgeReadiness::FullPending && b == BridgeReadiness::Full)
}

/// Readiness, whether the warmup is still awaited and whether engines are
/// held, after polling (or waiting on) the warmup. Once it has answered,
/// there is nothing left to poll.
pub open spec fn polled_state(
    readiness: BridgeReadiness,
    awaiting: bool,
    held: bool,
    poll: WarmupPoll,
    composition_empty: bool,
) -> (BridgeReadiness, bool, bool) {
    if !awaiting {
        (readiness, awaiting, held)
    } else {
        let (r, action) = bridge_poll_step(readiness, poll, composition_empty);
        (r, poll == WarmupPoll::Empty, held || action == EngineAction::Defer)
    }
}

/// The same after the end-of-command upgrade check.
pub open spec fn upgraded_state(readiness: BridgeReadiness, awaiting: bool, held: bool, composition_empty: bool) -> (
    BridgeReadiness,
    bool,
    bool,
) {
    let (r, installed) = bridge_upgrade_step(readiness, composition_empty, held);
    (r, awaiting, held && !installed)
}

/// Every warmup poll and every upgrade check a command makes keeps the
/// bookkeeping consistent and only moves readiness forward: it never
/// returns to phase A and never leaves full or failed readiness; and a
/// command that ends with the upgrade still pending ends with a composition
/// in progress.
pub proof fn law_bridge_readiness_advances(
    readiness: BridgeReadiness,
    awaiting: bool,
    held: bool,
    poll: WarmupPoll,
    composition_empty: bool,
)
    requires
        warmup_state_ok(readiness, awaiting, held),
    ensures
        ({
            let (r, a, h) = polled_state(readiness, awaiting, held, poll, composition_empty);
            warmup_state_ok(r, a, h) && readiness_advances(readiness, r)
        }),
        ({
            let (r, a, h) = upgraded_state(readiness, awaiting, held, composition_empty);
            warmup_state_ok(r, a, h) && readiness_advances(readiness, r) && (r == BridgeReadiness::FullPending
                ==> !composition_empty)
        }),
        forall|a: BridgeReadiness, b: BridgeReadiness, c: BridgeReadiness|
            #[trigger] readiness_advances(a, b) && #[trigger] readiness_advances(b, c) ==> readiness_advances(a, c),
{
}

/// Latency budget of the bridge's visible refiner, in milliseconds.
pub const BRIDGE_VISIBLE_REFINER_MAX_LATENCY_MS: u64 = 75;

/// Latency budget of the bridge's commit refiner, in milliseconds.
pub const BRIDGE_COMMIT_REFINER_MAX_LATENCY_MS: u64 = 150;

} // verus!
