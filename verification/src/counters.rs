//! The two rotating pointers that steer traversal: the direction pointer and
//! the codel chooser, together with the alternation marker that records which
//! of the two was toggled last.

use vstd::prelude::*;

verus! {

#[derive(Clone, Copy, PartialEq, Eq, Structural, Debug)]
pub enum DirectionPointer {
    Up,
    Right,
    Down,
    Left,
}

#[derive(Clone, Copy, PartialEq, Eq, Structural, Debug)]
pub enum CodelChooser {
    Right,
    Left,
}

/// Which pointer was toggled most recently; the engine alternates between the
/// two when it cannot move.
#[derive(Clone, Copy, PartialEq, Eq, Structural, Debug)]
pub enum Counters {
    DirectionPointer,
    CodelChooser,
}

/// One clockwise step of the direction pointer.
pub open spec fn clockwise(dp: DirectionPointer) -> DirectionPointer {
    match dp {
        DirectionPointer::Up => DirectionPointer::Right,
        DirectionPointer::Right => DirectionPointer::Down,
        DirectionPointer::Down => DirectionPointer::Left,
        DirectionPointer::Left => DirectionPointer::Up,
    }
}

/// `turns` clockwise steps of the direction pointer.
pub open spec fn rotated_cw(dp: DirectionPointer, turns: nat) -> DirectionPointer
    decreases turns,
{
    if turns == 0 {
        dp
    } else {
        rotated_cw(clockwise(dp), (turns - 1) as nat)
    }
}

/// The other codel chooser.
pub open spec fn flipped(cc: CodelChooser) -> CodelChooser {
    match cc {
        CodelChooser::Right => CodelChooser::Left,
        CodelChooser::Left => CodelChooser::Right,
    }
}

/// Rotate the direction pointer clockwise by the given number of steps.
pub fn turn_direction_pointer(dp: &mut DirectionPointer, turns: u32)
    ensures
        *final(dp) == rotated_cw(*old(dp), turns as nat),
    decreases turns,
{
    if turns == 0 {
        return;
    }
    *dp = match dp {
        DirectionPointer::Right => DirectionPointer::Down,
        DirectionPointer::Down => DirectionPointer::Left,
        DirectionPointer::Left => DirectionPointer::Up,
        DirectionPointer::Up => DirectionPointer::Right,
    };
    turn_direction_pointer(dp, turns - 1);
}

} // verus!
