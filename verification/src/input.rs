//! The keys that the input driver polled: the latest, and the one of the
//! tick before, so that an entity can tell a key that was just pressed from
//! one that is held.

use vstd::prelude::*;
use crossterm::event::KeyCode;
use crossterm::event::MediaKeyCode;
use crossterm::event::ModifierKeyCode;

verus! {

/// `crossterm::event::KeyCode`, read as crossterm declares it: an enum of
/// named keys, `F(u8)`, `Char(char)`, `Media(..)` and `Modifier(..)`.
#[verifier::external_type_specification]
pub struct ExKeyCode(KeyCode);

/// `crossterm::event::MediaKeyCode`, an enum of named keys that `KeyCode`
/// holds in `Media`.
#[verifier::external_type_specification]
pub struct ExMediaKeyCode(MediaKeyCode);

/// `crossterm::event::ModifierKeyCode`, an enum of named keys that `KeyCode`
/// holds in `Modifier`.
#[verifier::external_type_specification]
pub struct ExModifierKeyCode(ModifierKeyCode);

/// The key that ends the run.
pub open spec fn quit_key() -> KeyCode {
    KeyCode::Char('q')
}

/// What the input driver polled at the start of this tick and of the one
/// before: `None` where no key was waiting.
pub struct Input {
    pub current_input: Option<KeyCode>,
    pub last_input: Option<KeyCode>,
}

impl Input {
    /// No key seen yet.
    pub fn new() -> (input: Input)
        ensures
            input.current_input is None,
            input.last_input is None,
    {
        Input { current_input: None, last_input: None }
    }

    /// Starts a tick: what was the latest key becomes the previous one, and
    /// `polled` the latest.
    pub fn advance(&mut self, polled: Option<KeyCode>)
        ensures
            final(self).last_input == old(self).current_input,
            final(self).current_input == polled,
    {
        self.last_input = self.current_input;
        self.current_input = polled;
    }

    /// Whether the latest key asks to end the run.
    pub fn quit_requested(&self) -> (quit: bool)
        ensures
            quit == (self.current_input == Some(quit_key())),
    {
        match self.current_input {
            Some(KeyCode::Char(c)) => c == 'q',
            _ => false,
        }
    }
}

} // verus!
