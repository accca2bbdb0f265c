//! What each key means, in the browse modes and while a secret is entered.

use vstd::prelude::*;
use crate::selection::InputEvent;

verus! {

/// A key press, as the front end reports it.
#[derive(Clone, Copy, PartialEq, Eq, Debug, Structural)]
pub enum Key {
    Enter,
    Escape,
    Backspace,
    Tab,
    Up,
    Down,
    Char(char),
    Other,
}

/// What a key press asks for.
#[derive(Clone, Copy, PartialEq, Eq, Debug, Structural)]
pub enum Command {
    /// An input to the selection state machine.
    Input(InputEvent),
    /// Graph the next interface.
    NextGraph,
    /// Open the editor of connections.
    OpenEditor,
    /// Leave the dashboard.
    Quit,
    /// Nothing.
    Ignored,
}

/// The meaning of a key. While a secret is entered every character belongs
/// to the secret, so the letters that are commands elsewhere are typed.
pub open spec fn binding(key: Key, entering: bool) -> Command {
    if entering {
        match key {
            Key::Enter => Command::Input(InputEvent::Confirm),
            Key::Escape => Command::Input(InputEvent::Cancel),
            Key::Backspace => Command::Input(InputEvent::Backspace),
            Key::Char(c) => Command::Input(InputEvent::CharInput(c)),
            _ => Command::Ignored,
        }
    } else {
        match key {
            Key::Tab => Command::Input(InputEvent::ModeToggle),
            Key::Down => Command::Input(InputEvent::CursorDown),
            Key::Up => Command::Input(InputEvent::CursorUp),
            Key::Enter => Command::Input(InputEvent::Confirm),
            Key::Char(c) => if c == 'j' {
                Command::Input(InputEvent::CursorDown)
            } else if c == 'k' {
                Command::Input(InputEvent::CursorUp)
            } else if c == 'x' {
                Command::Input(InputEvent::Disconnect)
            } else if c == 'r' {
                Command::Input(InputEvent::Refresh)
            } else if c == 'g' {
                Command::NextGraph
            } else if c == 'a' {
                Command::OpenEditor
            } else if c == 'q' {
                Command::Quit
            } else {
                Command::Ignored
            },
            _ => Command::Ignored,
        }
    }
}

/// The meaning of a key; `entering` says whether a secret is under entry.
pub fn interpret(key: Key, entering: bool) -> (command: Command)
    ensures
        command == binding(key, entering),
{
    if entering {
        match key {
            Key::Enter => Command::Input(InputEvent::Confirm),
            Key::Escape => Command::Input(InputEvent::Cancel),
            Key::Backspace => Command::Input(InputEvent::Backspace),
            Key::Char(c) => Command::Input(InputEvent::CharInput(c)),
            _ => Command::Ignored,
        }
    } else {
        match key {
            Key::Tab => Command::Input(InputEvent::ModeToggle),
            Key::Down => Command::Input(InputEvent::CursorDown),
            Key::Up => Command::Input(InputEvent::CursorUp),
            Key::Enter => Command::Input(InputEvent::Confirm),
            Key::Char('j') => Command::Input(InputEvent::CursorDown),
            Key::Char('k') => Command::Input(InputEvent::CursorUp),
            Key::Char('x') => Command::Input(InputEvent::Disconnect),
            Key::Char('r') => Command::Input(InputEvent::Refresh),
            Key::Char('g') => Command::NextGraph,
            Key::Char('a') => Command::OpenEditor,
            Key::Char('q') => Command::Quit,
            _ => Command::Ignored,
        }
    }
}

} // verus!
