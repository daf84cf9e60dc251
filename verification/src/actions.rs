//! The inputs a typing session reacts to, each carrying the time it
//! was dispatched.

use vstd::prelude::*;

verus! {

/// One user input: a typed character (the newline character stands
/// for pressing Enter), a backspace, or the (re)loading of the whole
/// target text.
#[derive(Debug, Clone)]
pub enum Action {
    Char(char),
    Backspace,
    SetTarget(String),
}

/// An action together with the wall-clock time, in milliseconds, at
/// which it was dispatched. The session's log of these is the sole
/// source of timing for the statistics.
#[derive(Debug, Clone)]
pub struct TimedAction {
    pub action: Action,
    pub time: u128,
}

} // verus!
