//! Key events, and what they ask of the search.

use vstd::prelude::*;

verus! {

/// The modifier keys held down with a key, as a sum of bits: 1 for shift, 2 for control, higher
/// bits for the others
pub struct KeyModifiers;

impl KeyModifiers {
    /// No modifier
    pub const NONE: u8 = 0;

    /// Shift alone
    pub const SHIFT: u8 = 1;

    /// Control alone
    pub const CONTROL: u8 = 2;
}

/// A key
#[derive(Clone, Copy, Debug, PartialEq, Eq, Structural)]
pub enum KeyCode {
    /// Backspace key
    Backspace,
    /// Enter key
    Enter,
    /// Left arrow key
    Left,
    /// Right arrow key
    Right,
    /// Up arrow key
    Up,
    /// Down arrow key
    Down,
    /// Home key
    Home,
    /// End key
    End,
    /// Tab key
    Tab,
    /// Delete key
    Delete,
    /// Escape key
    Esc,
    /// A key that writes a character
    Char(char),
    /// Any other key
    Other,
}

/// What happened to a key
#[derive(Clone, Copy, Debug, PartialEq, Eq, Structural)]
pub enum KeyEventKind {
    /// It was pressed.
    Press,
    /// It is held down.
    Repeat,
    /// It was released.
    Release,
}

/// A key event
#[derive(Clone, Copy, Debug, PartialEq, Eq, Structural)]
pub struct KeyEvent {
    /// The key
    pub code: KeyCode,
    /// The modifiers held down with it
    pub modifiers: u8,
    /// What happened to it
    pub kind: KeyEventKind,
}

/// What a key event asks of the search
#[derive(Clone, Copy, Debug, PartialEq, Eq, Structural)]
pub enum Action {
    /// Nothing
    Ignore,
    /// Leave without a command
    Cancel,
    /// Leave with the selected command
    Accept,
    /// Select the entry above
    SelectUp,
    /// Select the entry below
    SelectDown,
    /// Erase the character before the cursor
    EraseBefore,
    /// Erase the character at the cursor
    EraseAt,
    /// Move the cursor one character to the left
    CursorLeft,
    /// Move the cursor one character to the right
    CursorRight,
    /// Move the cursor before the query
    CursorHome,
    /// Move the cursor behind the query
    CursorEnd,
    /// Erase the whole query
    Clear,
    /// Write a character at the cursor
    Insert(char),
}

/// What a press of a key asks, with the modifiers held down.
///
/// Letters are commands with control alone: c cancels, p and n move the selection, u clears the
/// query. With no modifier or shift alone a character is written; with others it does nothing. The
/// other keys mean the same with any modifier.
pub open spec fn action_of_press(code: KeyCode, modifiers: u8) -> Action {
    match code {
        KeyCode::Esc => Action::Cancel,
        KeyCode::Enter => Action::Accept,
        KeyCode::Tab => Action::Accept,
        KeyCode::Up => Action::SelectUp,
        KeyCode::Down => Action::SelectDown,
        KeyCode::Backspace => Action::EraseBefore,
        KeyCode::Delete => Action::EraseAt,
        KeyCode::Left => Action::CursorLeft,
        KeyCode::Right => Action::CursorRight,
        KeyCode::Home => Action::CursorHome,
        KeyCode::End => Action::CursorEnd,
        KeyCode::Char(c) => if modifiers == KeyModifiers::CONTROL {
            if c == 'c' {
                Action::Cancel
            } else if c == 'p' {
                Action::SelectUp
            } else if c == 'n' {
                Action::SelectDown
            } else if c == 'u' {
                Action::Clear
            } else {
                Action::Ignore
            }
        } else if modifiers == KeyModifiers::NONE || modifiers == KeyModifiers::SHIFT {
            Action::Insert(c)
        } else {
            Action::Ignore
        },
        KeyCode::Other => Action::Ignore,
    }
}

impl KeyEvent {
    /// The press of a key
    pub fn new(code: KeyCode, modifiers: u8) -> (key: KeyEvent)
        ensures
            key.code == code,
            key.modifiers == modifiers,
            key.kind is Press,
    {
        KeyEvent { code, modifiers, kind: KeyEventKind::Press }
    }

    /// What the event asks: only presses ask anything.
    pub open spec fn asks(self) -> Action {
        if self.kind is Press {
            action_of_press(self.code, self.modifiers)
        } else {
            Action::Ignore
        }
    }

    /// What the event asks of the search
    pub fn action(&self) -> (action: Action)
        ensures
            action == self.asks(),
    {
        if self.kind != KeyEventKind::Press {
            return Action::Ignore;
        }
        let control = self.modifiers == KeyModifiers::CONTROL;
        let writes = self.modifiers == KeyModifiers::NONE || self.modifiers
            == KeyModifiers::SHIFT;
        match self.code {
            KeyCode::Esc => Action::Cancel,
            KeyCode::Enter | KeyCode::Tab => Action::Accept,
            KeyCode::Up => Action::SelectUp,
            KeyCode::Down => Action::SelectDown,
            KeyCode::Backspace => Action::EraseBefore,
            KeyCode::Delete => Action::EraseAt,
            KeyCode::Left => Action::CursorLeft,
            KeyCode::Right => Action::CursorRight,
            KeyCode::Home => Action::CursorHome,
            KeyCode::End => Action::CursorEnd,
            KeyCode::Char('c') if control => Action::Cancel,
            KeyCode::Char('p') if control => Action::SelectUp,
            KeyCode::Char('n') if control => Action::SelectDown,
            KeyCode::Char('u') if control => Action::Clear,
            KeyCode::Char(c) if writes => Action::Insert(c),
            _ => Action::Ignore,
        }
    }
}

/// Only a press asks anything.
pub proof fn lemma_only_presses_count(key: KeyEvent)
    requires
        key.kind !is Press,
    ensures
        key.asks() is Ignore,
{
}

/// A key event that is made is a press of the key with the modifiers; what it asks is what the
/// press asks.
pub proof fn lemma_pressed_key(code: KeyCode, modifiers: u8, key: KeyEvent, action: Action)
    requires
        call_ensures(KeyEvent::new, (code, modifiers), key),
        call_ensures(KeyEvent::action, (&key,), action),
    ensures
        key.kind is Press,
        key.code == code,
        key.modifiers == modifiers,
        action == key.asks(),
{
}

} // verus!
