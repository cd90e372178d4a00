//! The TSF text service's boundary with the shared session: which session
//! commands each TSF callback stands for, and which native render actions a
//! session snapshot and result call for.

use vstd::prelude::*;
use crate::session::{
    clone_opt_string, clone_strings, opt_str, strs, CursorLocation, NativeKeyEvent, SessionCommand,
    SessionResult, SessionSnapshot,
};

verus! {

/// The callbacks TSF delivers, reduced to what the session needs.
#[derive(Clone, Copy, Debug, PartialEq, Eq, Structural)]
pub enum WindowsTsfCallback {
    /// `ITfTextInputProcessor::Activate`.
    Activate,
    /// `ITfTextInputProcessor::Deactivate`.
    Deactivate,
    /// Key event sink callback (`OnKeyDown`/`OnTestKeyDown`).
    KeyDown(NativeKeyEvent),
    /// The client's caret rectangle changed.
    CursorRectChanged(CursorLocation),
    /// A compartment or profile change asked for a reset.
    ResetRequested,
}

/// One row of the callback table kept for documentation and contract
/// checks.
#[derive(Clone, Copy, Debug, PartialEq, Eq)]
pub struct CallbackMapping {
    pub callback: &'static str,
    pub session_intent: &'static str,
    pub notes: &'static str,
}

/// The callback table: each TSF entry point and the session intent behind
/// it.
pub fn callback_map() -> (m: Vec<CallbackMapping>)
    ensures
        m@.len() == 4,
        m@[0].callback@ == "ITfTextInputProcessor::Activate"@,
        m@[0].session_intent@ == "focus_in + enable"@,
        m@[1].callback@ == "ITfTextInputProcessor::Deactivate"@,
        m@[1].session_intent@ == "focus_out + disable"@,
        m@[2].callback@ == "ITfKeyEventSink::OnKeyDown"@,
        m@[2].session_intent@ == "process_key_event"@,
        m@[3].callback@ == "ITfContextView::GetTextExt / selection updates"@,
        m@[3].session_intent@ == "set_cursor_location"@,
        m@[0].notes@ == "initialize active text-service session"@,
        m@[1].notes@ == "tear down session and clear preedit"@,
        m@[2].notes@ == "main transliteration key path"@,
        m@[3].notes@ == "anchor candidate and segment preview UI"@,
{
    let mut m: Vec<CallbackMapping> = Vec::new();
    m.push(
        CallbackMapping {
            callback: "ITfTextInputProcessor::Activate",
            session_intent: "focus_in + enable",
            notes: "initialize active text-service session",
        },
    );
    m.push(
        CallbackMapping {
            callback: "ITfTextInputProcessor::Deactivate",
            session_intent: "focus_out + disable",
            notes: "tear down session and clear preedit",
        },
    );
    m.push(
        CallbackMapping {
            callback: "ITfKeyEventSink::OnKeyDown",
            session_intent: "process_key_event",
            notes: "main transliteration key path",
        },
    );
    m.push(
        CallbackMapping {
            callback: "ITfContextView::GetTextExt / selection updates",
            session_intent: "set_cursor_location",
            notes: "anchor candidate and segment preview UI",
        },
    );
    m
}

/// The session commands a callback stands for, in order.
pub open spec fn commands_for(callback: WindowsTsfCallback) -> Seq<SessionCommand> {
    match callback {
        WindowsTsfCallback::Activate => seq![SessionCommand::Enable, SessionCommand::FocusIn],
        WindowsTsfCallback::Deactivate => seq![SessionCommand::FocusOut, SessionCommand::Disable],
        WindowsTsfCallback::KeyDown(event) => seq![SessionCommand::ProcessKeyEvent(event)],
        WindowsTsfCallback::CursorRectChanged(location) => seq![SessionCommand::SetCursorLocation(location)],
        WindowsTsfCallback::ResetRequested => seq![SessionCommand::Reset],
    }
}

/// Converts a callback to the session commands it stands for.
pub fn map_callback_to_session_commands(callback: &WindowsTsfCallback) -> (cmds: Vec<SessionCommand>)
    ensures
        cmds@ == commands_for(*callback),
{
    let mut cmds: Vec<SessionCommand> = Vec::new();
    match callback {
        WindowsTsfCallback::Activate => {
            cmds.push(SessionCommand::Enable);
            cmds.push(SessionCommand::FocusIn);
        },
        WindowsTsfCallback::Deactivate => {
            cmds.push(SessionCommand::FocusOut);
            cmds.push(SessionCommand::Disable);
        },
        WindowsTsfCallback::KeyDown(event) => {
            cmds.push(SessionCommand::ProcessKeyEvent(*event));
        },
        WindowsTsfCallback::CursorRectChanged(location) => {
            cmds.push(SessionCommand::SetCursorLocation(*location));
        },
        WindowsTsfCallback::ResetRequested => {
            cmds.push(SessionCommand::Reset);
        },
    }
    assert(cmds@ =~= commands_for(*callback));
    cmds
}

/// The first session command of a callback.
pub fn map_callback_to_session_command(callback: &WindowsTsfCallback) -> (cmd: Option<SessionCommand>)
    ensures
        cmd == Some(commands_for(*callback)[0]),
{
    let cmds = map_callback_to_session_commands(callback);
    Some(cmds[0])
}

/// Coarse native rendering responsibilities.
#[derive(Clone, Copy, Debug, PartialEq, Eq, Structural)]
pub enum RenderAction {
    /// Update or start the composition text from the preedit.
    UpdateComposition,
    /// Clear or end the active composition.
    ClearComposition,
    /// Refresh the candidate UI.
    UpdateCandidates,
    /// Hide the candidate UI.
    ClearCandidates,
    /// Commit one-shot text to the document.
    CommitText,
}

/// What the native layer must do after a session call.
#[derive(Clone, Debug, Default)]
pub struct WindowsRenderState {
    /// Whether TSF should eat the original key.
    pub consumed: bool,
    /// Candidate list for the candidate UI.
    pub candidates: Vec<String>,
    /// Highlighted candidate.
    pub selected_index: Option<usize>,
    /// Composition string.
    pub preedit: String,
    /// Text to commit to the document.
    pub commit_text: Option<String>,
    /// Caret rectangle for anchoring the candidate UI.
    pub cursor_location: CursorLocation,
    /// Render actions, in the order to perform them.
    pub actions: Vec<RenderAction>,
}

/// The render actions for a session call: commit first when there is text
/// to commit, then update or clear the composition, then the candidates.
pub open spec fn actions_for(snapshot: SessionSnapshot, result: SessionResult) -> Seq<RenderAction> {
    let commit: Seq<RenderAction> = if result.commit_text is Some {
        seq![RenderAction::CommitText]
    } else {
        Seq::empty()
    };
    let composition = if snapshot.preedit@.len() == 0 {
        RenderAction::ClearComposition
    } else {
        RenderAction::UpdateComposition
    };
    let candidates = if snapshot.candidates@.len() == 0 {
        RenderAction::ClearCandidates
    } else {
        RenderAction::UpdateCandidates
    };
    commit.push(composition).push(candidates)
}

/// `r` is the render state for a snapshot and a result.
pub open spec fn render_matches(r: WindowsRenderState, snapshot: SessionSnapshot, result: SessionResult) -> bool {
    &&& r.consumed == result.consumed
    &&& strs(r.candidates@) == strs(snapshot.candidates@)
    &&& r.selected_index == snapshot.selected_index
    &&& r.preedit@ == snapshot.preedit@
    &&& opt_str(r.commit_text) == opt_str(result.commit_text)
    &&& r.cursor_location == snapshot.cursor_location
    &&& r.actions@ == actions_for(snapshot, result)
}

/// Derives the native render responsibilities from a session call.
pub fn derive_render_state(snapshot: &SessionSnapshot, result: &SessionResult) -> (r: WindowsRenderState)
    ensures
        render_matches(r, *snapshot, *result),
{
    let mut actions: Vec<RenderAction> = Vec::new();
    if result.commit_text.is_some() {
        actions.push(RenderAction::CommitText);
    }
    if snapshot.preedit.as_str().is_empty() {
        actions.push(RenderAction::ClearComposition);
    } else {
        actions.push(RenderAction::UpdateComposition);
    }
    if snapshot.candidates.len() == 0 {
        actions.push(RenderAction::ClearCandidates);
    } else {
        actions.push(RenderAction::UpdateCandidates);
    }
    assert(actions@ =~= actions_for(*snapshot, *result));
    WindowsRenderState {
        consumed: result.consumed,
        candidates: clone_strings(&snapshot.candidates),
        selected_index: snapshot.selected_index,
        preedit: snapshot.preedit.clone(),
        commit_text: clone_opt_string(&result.commit_text),
        cursor_location: snapshot.cursor_location,
        actions,
    }
}

} // verus!
