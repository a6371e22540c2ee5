use vstd::prelude::*;

use crate::types::ActiveWindow;

verus! {

/// A key press, as far as the main loop tells keys apart.
#[derive(PartialEq, Eq, Structural, Clone, Copy, Debug)]
pub enum Key {
    Char(char),
    Tab,
    Other,
}

/// What the main loop does for a key press.
#[derive(PartialEq, Eq, Structural, Clone, Copy, Debug)]
pub enum KeyAction {
    /// Leave the program.
    Quit,
    /// Move the focus to another panel.
    Focus(ActiveWindow),
    /// Move the Files cursor down.
    NextFile,
    /// Move the Files cursor up.
    PreviousFile,
    /// Read `svn status` again.
    Refresh,
    /// Nothing to do.
    Ignore,
}

/// The panel `Tab` moves the focus to: Files, Branches, Revisions and Diff in turn,
/// back to Files after Diff. Other windows keep the focus.
pub open spec fn next_panel(w: ActiveWindow) -> ActiveWindow {
    match w {
        ActiveWindow::ChangedFiles => ActiveWindow::Branches,
        ActiveWindow::Branches => ActiveWindow::Revisions,
        ActiveWindow::Revisions => ActiveWindow::Diff,
        ActiveWindow::Diff => ActiveWindow::ChangedFiles,
        other => other,
    }
}

/// What a key press does with `window` focused: `q` quits, `Tab` moves to the next
/// panel, `j` and `k` move the Files cursor down and up while the Files panel has
/// the focus, `r` refreshes; anything else does nothing.
pub open spec fn action_for(window: ActiveWindow, key: Key) -> KeyAction {
    match key {
        Key::Char('q') => KeyAction::Quit,
        Key::Tab => KeyAction::Focus(next_panel(window)),
        Key::Char('j') => if window == ActiveWindow::ChangedFiles {
            KeyAction::NextFile
        } else {
            KeyAction::Ignore
        },
        Key::Char('k') => if window == ActiveWindow::ChangedFiles {
            KeyAction::PreviousFile
        } else {
            KeyAction::Ignore
        },
        Key::Char('r') => KeyAction::Refresh,
        _ => KeyAction::Ignore,
    }
}

/// The action for a key press with `window` focused (see `action_for`).
pub fn key_action(window: ActiveWindow, key: Key) -> (res: KeyAction)
    ensures
        res == action_for(window, key),
{
    match key {
        Key::Char('q') => KeyAction::Quit,
        Key::Tab => KeyAction::Focus(
            match window {
                ActiveWindow::ChangedFiles => ActiveWindow::Branches,
                ActiveWindow::Branches => ActiveWindow::Revisions,
                ActiveWindow::Revisions => ActiveWindow::Diff,
                ActiveWindow::Diff => ActiveWindow::ChangedFiles,
                other => other,
            },
        ),
        Key::Char('j') => if window == ActiveWindow::ChangedFiles {
            KeyAction::NextFile
        } else {
            KeyAction::Ignore
        },
        Key::Char('k') => if window == ActiveWindow::ChangedFiles {
            KeyAction::PreviousFile
        } else {
            KeyAction::Ignore
        },
        Key::Char('r') => KeyAction::Refresh,
        _ => KeyAction::Ignore,
    }
}

} // verus!
