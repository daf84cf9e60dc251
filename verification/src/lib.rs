//! A typing-practice engine.
//!
//! The library holds a target text as a sequence of lines of typing
//! elements, tracks a cursor and the user's keystrokes against the
//! target, derives speed and accuracy statistics from a timestamped
//! action log, and maintains a decaying set of recently pressed keys
//! for a virtual-keyboard display parsed from a layout description.
//!
//! All time is injected: every operation that needs a timestamp takes
//! the current wall-clock time in milliseconds as an argument, so the
//! whole engine is deterministic and every behaviour is stated in its
//! contracts.

pub mod actions;
pub mod app_state;
pub mod keyboard;
pub mod text;

pub use actions::{Action, TimedAction};
pub use app_state::{HomeState, State, StateError, View};
pub use keyboard::{Keyboard, KeyboardError};
pub use text::{Element, ElementValue, Line};
pub use type_test::{Ratio, StateStats, TypeTestState};
