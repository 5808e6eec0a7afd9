//! From pressed keys to a directional intent.

use vstd::prelude::*;
use crate::components::{Direction, DirectionMessage};

verus! {

/// The intent that the arrow keys pressed in one frame stand for: of several
/// keys the first of left, right, down, up counts; no key gives no intent.
pub open spec fn intent_of(left: bool, right: bool, down: bool, up: bool) -> Option<
    DirectionMessage,
> {
    if left {
        Some(DirectionMessage(Direction::Left))
    } else if right {
        Some(DirectionMessage(Direction::Right))
    } else if down {
        Some(DirectionMessage(Direction::Down))
    } else if up {
        Some(DirectionMessage(Direction::Up))
    } else {
        None
    }
}

/// Turns the arrow keys that were pressed in one frame into at most one
/// directional intent.
pub fn generate_direction_messages(left: bool, right: bool, down: bool, up: bool) -> (message:
    Option<DirectionMessage>)
    ensures
        message == intent_of(left, right, down, up),
        message is Some <==> left || right || down || up,
{
    if left {
        Some(DirectionMessage(Direction::Left))
    } else if right {
        Some(DirectionMessage(Direction::Right))
    } else if down {
        Some(DirectionMessage(Direction::Down))
    } else if up {
        Some(DirectionMessage(Direction::Up))
    } else {
        None
    }
}

} // verus!
