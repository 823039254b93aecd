//! The input events that the editor consumes.

use vstd::prelude::*;
use crate::geometry::Pos2;

verus! {

/// A button of the pointing device.
#[derive(Clone, Copy, Debug, PartialEq, Eq, Structural)]
pub enum PointerButton {
    Primary,
    Secondary,
    Middle,
    Extra1,
    Extra2,
}

/// A key of the keyboard, as far as the editor tells keys apart.
#[derive(Clone, Copy, Debug, PartialEq, Eq, Structural)]
pub enum Key {
    /// The key that commits the node being placed.
    A,
    Other,
}

/// One input event.
#[derive(Clone, Copy, Debug, PartialEq, Eq, Structural)]
pub enum Event {
    /// The pointer is now at this position.
    PointerMoved(Pos2),
    /// A button went down (`pressed`) or up at `pos`.
    PointerButton { pos: Pos2, button: PointerButton, pressed: bool },
    /// A key went down (`pressed`) or up.
    Key { key: Key, pressed: bool },
    /// Anything else; the editor ignores it.
    Other,
}

impl Event {
    /// The position that a pointer move reports.
    pub open spec fn moved_to(self) -> Option<Pos2> {
        match self {
            Event::PointerMoved(p) => Some(p),
            _ => None,
        }
    }

    /// Where `button` went down, if this event is such a press.
    pub open spec fn pressed_at(self, button: PointerButton) -> Option<Pos2> {
        match self {
            Event::PointerButton { pos, button: b, pressed: true } if b == button => Some(pos),
            _ => None,
        }
    }

    /// Whether this event is the release of `button`.
    pub open spec fn is_release_of(self, button: PointerButton) -> bool {
        match self {
            Event::PointerButton { pos, button: b, pressed: false } => b == button,
            _ => false,
        }
    }

    /// Whether this event is `key` going down.
    pub open spec fn is_key_press(self, key: Key) -> bool {
        self == (Event::Key { key, pressed: true })
    }
}

} // verus!
