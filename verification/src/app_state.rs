//! The application's top-level state: which view is active, and the
//! typing session it drives.

use vstd::prelude::*;
use vstd::view::View as _;
use crate::actions::{Action, TimedAction};
use crate::keyboard::{Keyboard, HIGHLIGHT_MILLIS};
use crate::text::LineV;
use crate::type_test::{dispatch_spec, TypeTestState};

verus! {

/// Errors of the statistics queries.
#[derive(Clone, Copy, Debug, PartialEq, Eq, Structural)]
pub enum StateError {
    NoActionYet,
}

/// Which screen the application currently shows.
#[derive(Clone, Copy, Debug, PartialEq, Eq, Structural)]
pub enum View {
    Home,
    TypeTest,
}

/// The home screen holds no state of its own.
#[derive(Clone, Copy, Debug, PartialEq, Eq, Structural)]
pub struct HomeState {}

/// The whole application state.
pub struct State {
    pub current_view: View,
    pub home: HomeState,
    pub type_test: TypeTestState,
}

impl State {
    /// A fresh application state showing the typing view, with an
    /// empty target, an empty action log and the given keyboard.
    pub fn new(keyboard: Keyboard) -> (s: State)
        requires
            keyboard@.wf(),
        ensures
            s.current_view is TypeTest,
            s.type_test@.cursor == (0int, 0int),
            s.type_test@.lines == Seq::<LineV>::empty(),
            s.type_test@.actions == Seq::<TimedAction>::empty(),
            s.type_test@.keyboard == keyboard@,
            s.type_test@.last_modified is None,
            s.type_test@.wf(),
    {
        let s = State {
            current_view: View::TypeTest,
            home: HomeState {  },
            type_test: TypeTestState {
                cursor: (0, 0),
                last_modified: None,
                lines: Vec::new(),
                actions: Vec::new(),
                keyboard,
            },
        };
        proof {
            assert(s.type_test@.lines =~= Seq::<LineV>::empty());
        }
        s
    }

    /// Stamps the action with the given time and hands it to the
    /// active view: the typing session reacts, the home view ignores
    /// every action.
    pub fn dispatch(&mut self, action: Action, now: u128)
        requires
            old(self).type_test@.wf(),
            now + HIGHLIGHT_MILLIS <= u128::MAX,
        ensures
            final(self).current_view == old(self).current_view,
            old(self).current_view is Home ==> *final(self) == *old(self),
            old(self).current_view is TypeTest ==> final(self).home == old(self).home
                && final(self).type_test@ == dispatch_spec(
                old(self).type_test@,
                (TimedAction { action: action, time: now }),
            ),
            final(self).type_test@.wf(),
    {
        match self.current_view {
            View::Home => {},
            View::TypeTest => {
                self.type_test.dispatch(TimedAction { action, time: now });
            },
        }
    }
}

} // verus!
