//! A region ("block") of the program grid: a maximal 4-connected group of
//! codels sharing one hue and light, with its cached exit table.

use vstd::prelude::*;

use crate::block_exit::{is_exit_codel, spec_exit, BlockExit};
use crate::counters::{CodelChooser, DirectionPointer};

verus! {

/// One region: its member coordinates, its color, and (once computed) its
/// exit table.  The member count is the value the Push instruction pushes.
#[derive(Debug)]
pub struct Block {
    pub codel_coordinates: Vec<(usize, usize)>,
    pub hue: u8,
    pub light: u8,
    pub block_exit: Option<BlockExit>,
}

impl Block {
    /// The exit table is present and each of its eight entries is the
    /// tie-broken extreme member for its `(dp, cc)` pair.
    pub open spec fn exits_wf(&self) -> bool {
        match self.block_exit {
            Some(be) => forall|dp: DirectionPointer, cc: CodelChooser|
                is_exit_codel(self.codel_coordinates@, dp, cc, #[trigger] spec_exit(be, dp, cc)),
            None => false,
        }
    }

    /// The cached exit codel for `(dp, cc)`, or nothing if the exit table has
    /// not been computed.
    pub fn exit_coordinates(&self, dp: &DirectionPointer, cc: &CodelChooser) -> (r: Option<
        (usize, usize),
    >)
        ensures
            r == (match self.block_exit {
                Some(be) => Some(spec_exit(be, *dp, *cc)),
                None => None::<(usize, usize)>,
            }),
    {
        if let Some(block_exit) = &self.block_exit {
            let coord = match dp {
                DirectionPointer::Up => match cc {
                    CodelChooser::Right => block_exit.up_right,
                    CodelChooser::Left => block_exit.up_left,
                },
                DirectionPointer::Right => match cc {
                    CodelChooser::Right => block_exit.right_right,
                    CodelChooser::Left => block_exit.right_left,
                },
                DirectionPointer::Down => match cc {
                    CodelChooser::Right => block_exit.down_right,
                    CodelChooser::Left => block_exit.down_left,
                },
                DirectionPointer::Left => match cc {
                    CodelChooser::Right => block_exit.left_right,
                    CodelChooser::Left => block_exit.left_left,
                },
            };
            Some(coord)
        } else {
            None
        }
    }

    /// The region's size in codels.
    pub fn size(&self) -> (n: usize)
        ensures
            n == self.codel_coordinates@.len(),
    {
        self.codel_coordinates.len()
    }
}

} // verus!
