use vstd::prelude::*;

verus! {

/// Whether the recall window is currently shown.
#[derive(Clone, Copy, Debug, PartialEq, Eq, Structural)]
pub enum WindowState {
    Hidden,
    Visible,
}

/// An event the host shell hands to the window state machine.
#[derive(Clone, Copy, Debug, PartialEq, Eq, Structural)]
pub enum ShellEvent {
    /// The tray icon was clicked: toggle the window.
    TrayToggle,
    /// The global hotkey fired: toggle the window.
    HotkeyToggle,
    /// The window lost focus: it hides itself.
    FocusLost,
    /// The quit entry of the tray menu was chosen.
    MenuQuit,
}

/// What the host shell must do after a step of the state machine.
#[derive(Clone, Copy, Debug, PartialEq, Eq, Structural)]
pub enum ShellAction {
    /// Position the window, show it, focus it, and announce it opened.
    ShowWindow,
    /// Hide the window and announce it closed.
    HideWindow,
    /// Terminate the process.
    Quit,
    /// Nothing to do.
    Stay,
}

/// The two-state window machine the shell runs: toggles flip the state,
/// losing focus hides, quitting changes nothing but demands termination.
pub open spec fn spec_shell_step(state: WindowState, event: ShellEvent) -> (
    WindowState,
    ShellAction,
) {
    match event {
        ShellEvent::TrayToggle | ShellEvent::HotkeyToggle => match state {
            WindowState::Hidden => (WindowState::Visible, ShellAction::ShowWindow),
            WindowState::Visible => (WindowState::Hidden, ShellAction::HideWindow),
        },
        ShellEvent::FocusLost => match state {
            WindowState::Visible => (WindowState::Hidden, ShellAction::HideWindow),
            WindowState::Hidden => (WindowState::Hidden, ShellAction::Stay),
        },
        ShellEvent::MenuQuit => (state, ShellAction::Quit),
    }
}

/// One step of the window state machine; the host shell performs the
/// returned action and keeps the returned state.
pub fn shell_step(state: WindowState, event: ShellEvent) -> (r: (WindowState, ShellAction))
    ensures
        r == spec_shell_step(state, event),
{
    match event {
        ShellEvent::TrayToggle | ShellEvent::HotkeyToggle => match state {
            WindowState::Hidden => (WindowState::Visible, ShellAction::ShowWindow),
            WindowState::Visible => (WindowState::Hidden, ShellAction::HideWindow),
        },
        ShellEvent::FocusLost => match state {
            WindowState::Visible => (WindowState::Hidden, ShellAction::HideWindow),
            WindowState::Hidden => (WindowState::Hidden, ShellAction::Stay),
        },
        ShellEvent::MenuQuit => (state, ShellAction::Quit),
    }
}

/// Toggling twice returns the window to where it started.
pub proof fn lemma_toggle_involutive(state: WindowState)
    ensures
        spec_shell_step(spec_shell_step(state, ShellEvent::TrayToggle).0, ShellEvent::TrayToggle).0
            == state,
{
}

} // verus!
