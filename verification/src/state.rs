//! The modes of the editor.

use vstd::prelude::*;

verus! {

/// What the editor is in the middle of.
#[derive(Clone, Copy, Debug, PartialEq, Eq, Structural)]
pub enum State {
    /// No gesture is in progress.
    Idle,
    /// A node follows the pointer while the primary button is held.
    Dragging,
    /// A first node has been picked with the secondary button and the
    /// editor waits for the second.
    RightClicked,
    /// A node that is yet to be placed follows the pointer.
    AddNode,
}

impl Default for State {
    fn default() -> (s: State)
        ensures
            s == State::Idle,
    {
        State::Idle
    }
}

impl State {
    /// The name of the state as text.
    pub open spec fn name(self) -> Seq<char> {
        match self {
            State::Idle => "Idle"@,
            State::Dragging => "Dragging"@,
            State::RightClicked => "RightClicked"@,
            State::AddNode => "AddNode"@,
        }
    }

    /// The name of the state.
    pub fn to_string(&self) -> (s: String)
        ensures
            s@ == self.name(),
    {
        match self {
            State::Idle => "Idle".to_owned(),
            State::Dragging => "Dragging".to_owned(),
            State::RightClicked => "RightClicked".to_owned(),
            State::AddNode => "AddNode".to_owned(),
        }
    }
}

} // verus!
