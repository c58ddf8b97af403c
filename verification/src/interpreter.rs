//! The execution engine: region analysis over the codel grid, the traversal
//! state machine with its rotating pointers, and stepwise execution of the
//! decoded instructions.
//!
//! The engine is a pure state machine.  `advance` performs one step; when an
//! instruction needs input the machine parks a request that the host answers
//! through `provide_input_byte` or `provide_input_line`, and bytes written by
//! instructions accumulate in a buffer the host drains with `take_output`.

use vstd::prelude::*;

use crate::block::Block;
use crate::block_exit::{is_exit_codel, spec_exit, BlockExit};
use crate::cmd_options::CmdOptions;
use crate::codel::{create_canvas, spec_rgb_to_codel, Codel};
use crate::command::{spec_command_from, spec_execute, Command, InputRequest};
use crate::codec::{is_unicode_scalar, parse_i64, parse_i64_spec, utf8_bytes};
use crate::counters::{clockwise, flipped, CodelChooser, Counters, DirectionPointer};

verus! {

/// The immutable program under execution: the annotated grid and its regions.
pub struct BoardV {
    pub canvas: Seq<Seq<Codel>>,
    pub blocks: Seq<Block>,
    pub width: usize,
    pub height: usize,
}

/// The abstract machine state: the board plus everything that one step may
/// change.
pub struct StateV {
    pub board: BoardV,
    pub dp: DirectionPointer,
    pub cc: CodelChooser,
    pub alive: bool,
    pub stack: Seq<i64>,
    pub step_counter: u128,
    pub max_steps: u128,
    pub unlimited_steps: bool,
    pub position: (usize, usize),
    pub toggles: u8,
    pub last_toggled: Counters,
    pub pending: Option<InputRequest>,
    pub output: Seq<u8>,
}

/// A coordinate lies on the board.
pub open spec fn in_bounds(board: BoardV, c: (usize, usize)) -> bool {
    c.0 < board.width && c.1 < board.height
}

/// The codel at a coordinate.
pub open spec fn codel_at(board: BoardV, c: (usize, usize)) -> Codel {
    board.canvas[c.1 as int][c.0 as int]
}

/// The region index recorded at a coordinate, if it holds an annotated color
/// codel.
pub open spec fn block_index_at(board: BoardV, c: (usize, usize)) -> Option<usize> {
    match codel_at(board, c) {
        Codel::Color { block_index, .. } => block_index,
        _ => None,
    }
}

/// The hue and light of the codel at a coordinate, if it is colored.
pub open spec fn color_class_at(
    canvas: Seq<Seq<Codel>>,
    c: (usize, usize),
) -> Option<(u8, u8)> {
    match canvas[c.1 as int][c.0 as int] {
        Codel::Color { hue, light, .. } => Some((hue, light)),
        _ => None,
    }
}

/// Two cells share an edge.
pub open spec fn adjacent4(a: (usize, usize), b: (usize, usize)) -> bool {
    (a.0 == b.0 && (a.1 + 1 == b.1 || b.1 + 1 == a.1)) || (a.1 == b.1 && (a.0 + 1 == b.0 || b.0
        + 1 == a.0))
}

/// The grid is a rectangle of the stated dimensions.
pub open spec fn grid_shape(canvas: Seq<Seq<Codel>>, width: usize, height: usize) -> bool {
    &&& canvas.len() == height
    &&& forall|y: int| 0 <= y < height ==> (#[trigger] canvas[y]).len() == width
}

/// Every annotated color cell points at a region that contains it and carries
/// its color.
pub open spec fn cell_wf(board: BoardV, x: int, y: int) -> bool {
    match board.canvas[y][x] {
        Codel::Color { hue, light, block_index } => match block_index {
            Some(i) => {
                &&& (i as int) < board.blocks.len()
                &&& board.blocks[i as int].codel_coordinates@.contains(
                    (x as usize, y as usize),
                )
                &&& board.blocks[i as int].hue == hue
                &&& board.blocks[i as int].light == light
            },
            None => false,
        },
        _ => true,
    }
}

/// Region member `m` of region `i` is on the board and its cell carries the
/// region's color and points back at region `i`.
pub open spec fn member_wf(board: BoardV, i: int, m: (usize, usize)) -> bool {
    &&& m.0 < board.width
    &&& m.1 < board.height
    &&& board.canvas[m.1 as int][m.0 as int] == (Codel::Color {
        hue: board.blocks[i].hue,
        light: board.blocks[i].light,
        block_index: Some(i as usize),
    })
}

/// Region `i` is non-empty, has its exit table, and all its members agree
/// with it.
pub open spec fn block_wf(board: BoardV, i: int) -> bool {
    let b = board.blocks[i];
    &&& b.codel_coordinates@.len() > 0
    &&& b.hue < 6
    &&& b.light < 3
    &&& b.exits_wf()
    &&& forall|j: int|
        0 <= j < b.codel_coordinates@.len() ==> member_wf(board, i, #[trigger] b.codel_coordinates@[j])
}

/// The board invariant: a rectangular grid whose color cells and regions
/// point at each other consistently, with no coordinate listed twice.
/// Together with `member_wf` this gives the partition property: every color
/// cell belongs to exactly one region, and appears in its member list exactly
/// once (so a region's size is its codel count).
pub open spec fn board_wf(board: BoardV) -> bool {
    &&& 1 <= board.width
    &&& 1 <= board.height
    &&& grid_shape(board.canvas, board.width, board.height)
    &&& forall|x: int, y: int|
        0 <= x < board.width && 0 <= y < board.height ==> #[trigger] cell_wf(board, x, y)
    &&& forall|i: int| 0 <= i < board.blocks.len() ==> #[trigger] block_wf(board, i)
    &&& blocks_disjoint(board.blocks)
}

/// The machine invariant: a well-formed board, the position on it, and the
/// toggle counter within its bound.
pub open spec fn engine_wf(s: StateV) -> bool {
    &&& board_wf(s.board)
    &&& s.position.0 < s.board.width
    &&& s.position.1 < s.board.height
    &&& s.toggles <= 8
}

/// The coordinate one codel in the direction of `dp`, or nothing at the edge.
pub open spec fn next_in_dir(
    dp: DirectionPointer,
    c: (usize, usize),
    width: usize,
    height: usize,
) -> Option<(usize, usize)> {
    match dp {
        DirectionPointer::Up => if c.1 == 0 {
            None
        } else {
            Some((c.0, (c.1 - 1) as usize))
        },
        DirectionPointer::Right => if c.0 + 1 >= width {
            None
        } else {
            Some(((c.0 + 1) as usize, c.1))
        },
        DirectionPointer::Down => if c.1 + 1 >= height {
            None
        } else {
            Some((c.0, (c.1 + 1) as usize))
        },
        DirectionPointer::Left => if c.0 == 0 {
            None
        } else {
            Some(((c.0 - 1) as usize, c.1))
        },
    }
}

/// How a walk across the grid ends: entering a colored codel, or stopped by
/// an obstruction with the last coordinate reached.
pub enum Walked {
    Entered { pos: (usize, usize), white: bool },
    Stopped { coord: (usize, usize) },
}

/// How far a walk can still travel before the edge ahead of it.
pub open spec fn walk_measure(
    dp: DirectionPointer,
    c: (usize, usize),
    width: usize,
    height: usize,
) -> int {
    match dp {
        DirectionPointer::Up => c.1 as int,
        DirectionPointer::Down => if c.1 < height {
            height - c.1
        } else {
            0
        },
        DirectionPointer::Left => c.0 as int,
        DirectionPointer::Right => if c.0 < width {
            width - c.0
        } else {
            0
        },
    }
}

/// A step in the travel direction stays on the board and strictly lowers the
/// walk measure.
proof fn lemma_next_in_dir_bounds(
    dp: DirectionPointer,
    c: (usize, usize),
    width: usize,
    height: usize,
)
    requires
        c.0 < width,
        c.1 < height,
    ensures
        match next_in_dir(dp, c, width, height) {
            Some(nc) => nc.0 < width && nc.1 < height && walk_measure(dp, nc, width, height)
                < walk_measure(dp, c, width, height) && 0 <= walk_measure(dp, nc, width, height)
                && adjacent4(c, nc),
            None => true,
        },
{
    match dp {
        DirectionPointer::Up => {},
        DirectionPointer::Right => {},
        DirectionPointer::Down => {},
        DirectionPointer::Left => {},
    }
}

/// The one-step unfolding of `spec_walk`.
proof fn lemma_walk_unfold(
    board: BoardV,
    dp: DirectionPointer,
    origin: Option<usize>,
    coord: (usize, usize),
    white: bool,
)
    ensures
        spec_walk(board, dp, origin, coord, white) == (match next_in_dir(
            dp,
            coord,
            board.width,
            board.height,
        ) {
            None => Walked::Stopped { coord },
            Some(nc) => match codel_at(board, nc) {
                Codel::Black => Walked::Stopped { coord },
                Codel::White => spec_walk(board, dp, origin, nc, true),
                Codel::Color { block_index, .. } => match origin {
                    Some(ob) => if block_index == Some(ob) {
                        spec_walk(board, dp, origin, nc, white)
                    } else if block_index is None {
                        Walked::Stopped { coord }
                    } else {
                        Walked::Entered { pos: nc, white }
                    },
                    None => Walked::Entered { pos: nc, white: true },
                },
            },
        }),
{
}

/// One traversal attempt: step from `coord` in the direction of `dp` until
/// obstructed by black or the edge, sliding through white, passing through
/// the origin region, and entering the first foreign colored codel.
pub open spec fn spec_walk(
    board: BoardV,
    dp: DirectionPointer,
    origin: Option<usize>,
    coord: (usize, usize),
    white: bool,
) -> Walked
    decreases walk_measure(dp, coord, board.width, board.height),
{
    match next_in_dir(dp, coord, board.width, board.height) {
        None => Walked::Stopped { coord },
        Some(nc) => match codel_at(board, nc) {
            Codel::Black => Walked::Stopped { coord },
            Codel::White => spec_walk(board, dp, origin, nc, true),
            Codel::Color { block_index, .. } => match origin {
                Some(ob) => if block_index == Some(ob) {
                    spec_walk(board, dp, origin, nc, white)
                } else if block_index is None {
                    Walked::Stopped { coord }
                } else {
                    Walked::Entered { pos: nc, white }
                },
                None => Walked::Entered { pos: nc, white: true },
            },
        },
    }
}

/// The move the engine reports after a walk: the new position, whether white
/// was crossed, and whether a new region was entered; or no move at all.
pub open spec fn walk_outcome(
    board: BoardV,
    dp: DirectionPointer,
    origin: Option<usize>,
    start: (usize, usize),
    position: (usize, usize),
) -> Option<((usize, usize), bool, bool)> {
    match spec_walk(board, dp, origin, start, false) {
        Walked::Entered { pos, white } => Some((pos, white, true)),
        Walked::Stopped { coord } => match origin {
            Some(_) => if block_index_at(board, coord) is Some {
                None
            } else {
                Some((coord, true, false))
            },
            None => if coord != position {
                Some((coord, true, false))
            } else {
                None
            },
        },
    }
}

/// Where one step tries to move: from the origin region's exit for the
/// current pointers, or from the bare position when it is not on a region.
pub open spec fn spec_find_next(
    board: BoardV,
    dp: DirectionPointer,
    cc: CodelChooser,
    position: (usize, usize),
) -> Option<((usize, usize), bool, bool)> {
    match block_index_at(board, position) {
        Some(ob) => match board.blocks[ob as int].block_exit {
            None => None,
            Some(be) => walk_outcome(board, dp, Some(ob), spec_exit(be, dp, cc), position),
        },
        None => walk_outcome(board, dp, None, position, position),
    }
}

/// Toggle one pointer, alternating: after the direction pointer it is the
/// codel chooser's turn and vice versa.
pub open spec fn toggled(s: StateV) -> StateV {
    match s.last_toggled {
        Counters::DirectionPointer => StateV {
            last_toggled: Counters::CodelChooser,
            cc: flipped(s.cc),
            ..s
        },
        Counters::CodelChooser => StateV {
            last_toggled: Counters::DirectionPointer,
            dp: clockwise(s.dp),
            ..s
        },
    }
}

/// The light and hue difference between the regions under two coordinates,
/// or `(0, 0)` when either is not on a region.
pub open spec fn spec_light_hue_diff(
    s: StateV,
    c1: (usize, usize),
    c2: (usize, usize),
) -> (u8, u8) {
    match (block_index_at(s.board, c1), block_index_at(s.board, c2)) {
        (Some(b1), Some(b2)) => {
            let blk1 = s.board.blocks[b1 as int];
            let blk2 = s.board.blocks[b2 as int];
            (
                (((blk2.light + 3 - blk1.light) as int % 3) as u8),
                (((blk2.hue + 6 - blk1.hue) as int % 6) as u8),
            )
        },
        _ => (0u8, 0u8),
    }
}

/// Run one instruction against the machine, with the region being left (the
/// one under `from`) supplying the size that Push pushes.
pub open spec fn spec_apply_command(s: StateV, cmd: Command, from: (usize, usize)) -> StateV {
    match block_index_at(s.board, from) {
        Some(bi) => {
            let bsize = s.board.blocks[bi as int].codel_coordinates@.len();
            let o = spec_execute(cmd, s.stack, s.dp, s.cc, bsize as usize);
            StateV {
                stack: o.stack,
                dp: o.dp,
                cc: o.cc,
                output: s.output + o.output,
                pending: o.request,
                ..s
            }
        },
        None => s,
    }
}

/// What happens after a move onto a new region without a white transit:
/// decode the color delta and run the instruction; a delta that decodes to no
/// instruction runs nothing.
pub open spec fn spec_transition(s: StateV, from: (usize, usize), to: (usize, usize)) -> StateV {
    match spec_command_from(spec_light_hue_diff(s, from, to)) {
        Some(cmd) => spec_apply_command(s, cmd, from),
        None => s,
    }
}

/// One call of `advance`: count the step, stop at the step limit or after
/// eight fruitless toggles, otherwise attempt a move and act on its outcome.
/// Only entering a new region clears the toggle counter: a walk that moved
/// but ended blocked toggles a pointer and leaves the counter alone.  A dead
/// machine, or one waiting for input, does not move.
pub open spec fn spec_step(s: StateV) -> StateV {
    if !s.alive || s.pending is Some {
        s
    } else {
        let counter: u128 = if s.step_counter < u128::MAX {
            (s.step_counter + 1) as u128
        } else {
            u128::MAX
        };
        let s1 = StateV { step_counter: counter, ..s };
        if (!s1.unlimited_steps && counter >= s1.max_steps) || s1.toggles >= 8 {
            StateV { alive: false, ..s1 }
        } else {
            match spec_find_next(s1.board, s1.dp, s1.cc, s1.position) {
                None => toggled(StateV { toggles: (s1.toggles + 1) as u8, ..s1 }),
                Some((pos, white, reached)) => {
                    if reached {
                        let s2 = StateV { toggles: 0, position: pos, ..s1 };
                        if white {
                            s2
                        } else {
                            spec_transition(s2, s.position, pos)
                        }
                    } else {
                        toggled(StateV { position: pos, ..s1 })
                    }
                },
            }
        }
    }
}

/// Answering a pending byte request: the byte is pushed; no byte (end of
/// input or a read failure) runs nothing.  Without a pending byte request the
/// event is ignored.
pub open spec fn spec_provide_byte(s: StateV, b: Option<u8>) -> StateV {
    if s.pending == Some(InputRequest::Byte) {
        let s1 = StateV { pending: None::<InputRequest>, ..s };
        match b {
            Some(v) => StateV { stack: s1.stack.push(v as i64), ..s1 },
            None => s1,
        }
    } else {
        s
    }
}

/// Answering a pending number request with a line of input: the line is
/// parsed as a decimal signed 64-bit number and pushed; a missing line or a
/// failed parse runs nothing.  Without a pending number request the event is
/// ignored.
pub open spec fn spec_provide_line(s: StateV, line: Option<Seq<u8>>) -> StateV {
    if s.pending == Some(InputRequest::NumberLine) {
        let s1 = StateV { pending: None::<InputRequest>, ..s };
        match line {
            Some(bs) => match parse_i64_spec(bs) {
                Some(n) => StateV { stack: s1.stack.push(n), ..s1 },
                None => s1,
            },
            None => s1,
        }
    } else {
        s
    }
}

/// The execution engine.
pub struct Interpreter {
    dp: DirectionPointer,
    cc: CodelChooser,
    alive: bool,
    stack: Vec<i64>,
    step_counter: u128,
    max_steps: u128,
    unlimited_steps: bool,
    canvas: Vec<Vec<Codel>>,
    blocks: Vec<Block>,
    width: usize,
    height: usize,
    current_position: (usize, usize),
    toggled_pointers_without_move: u8,
    last_toggled_pointer: Counters,
    pending_request: Option<InputRequest>,
    output: Vec<u8>,
}

impl View for Interpreter {
    type V = StateV;

    closed spec fn view(&self) -> StateV {
        StateV {
            board: BoardV {
                canvas: self.canvas@.map_values(|row: Vec<Codel>| row@),
                blocks: self.blocks@,
                width: self.width,
                height: self.height,
            },
            dp: self.dp,
            cc: self.cc,
            alive: self.alive,
            stack: self.stack@,
            step_counter: self.step_counter,
            max_steps: self.max_steps,
            unlimited_steps: self.unlimited_steps,
            position: self.current_position,
            toggles: self.toggled_pointers_without_move,
            last_toggled: self.last_toggled_pointer,
            pending: self.pending_request,
            output: self.output@,
        }
    }
}

/// One step in the direction of travel, or nothing at the right edge.
pub fn coord_right(coord: (usize, usize), width: usize, height: usize) -> (r: Option<
    (usize, usize),
>)
    ensures
        r == next_in_dir(DirectionPointer::Right, coord, width, height),
{
    if width == 0 || coord.0 >= width - 1 {
        None
    } else {
        Some((coord.0 + 1, coord.1))
    }
}

/// One step in the direction of travel, or nothing at the left edge.
pub fn coord_left(coord: (usize, usize), width: usize, height: usize) -> (r: Option<
    (usize, usize),
>)
    ensures
        r == next_in_dir(DirectionPointer::Left, coord, width, height),
{
    if coord.0 == 0 {
        None
    } else {
        Some((coord.0 - 1, coord.1))
    }
}

/// One step in the direction of travel, or nothing at the top edge.
pub fn coord_up(coord: (usize, usize), width: usize, height: usize) -> (r: Option<
    (usize, usize),
>)
    ensures
        r == next_in_dir(DirectionPointer::Up, coord, width, height),
{
    if coord.1 == 0 {
        None
    } else {
        Some((coord.0, coord.1 - 1))
    }
}

/// One step in the direction of travel, or nothing at the bottom edge.
pub fn coord_down(coord: (usize, usize), width: usize, height: usize) -> (r: Option<
    (usize, usize),
>)
    ensures
        r == next_in_dir(DirectionPointer::Down, coord, width, height),
{
    if height == 0 || coord.1 >= height - 1 {
        None
    } else {
        Some((coord.0, coord.1 + 1))
    }
}

/// Whether a coordinate list contains a coordinate.
fn coords_contain(v: &Vec<(usize, usize)>, c: (usize, usize)) -> (r: bool)
    ensures
        r == v@.contains(c),
{
    let mut i: usize = 0;
    while i < v.len()
        invariant
            0 <= i <= v@.len(),
            forall|j: int| 0 <= j < i ==> #[trigger] v@[j] != c,
        decreases v@.len() - i,
    {
        let m = v[i];
        if m.0 == c.0 && m.1 == c.1 {
            assert(v@[i as int] == c);
            return true;
        }
        i = i + 1;
    }
    false
}

/// The number of cells a sweep has not visited yet.
pub open spec fn count_unvisited(v: Seq<bool>) -> nat
    decreases v.len(),
{
    if v.len() == 0 {
        0
    } else {
        count_unvisited(v.drop_last()) + (if v.last() {
            0nat
        } else {
            1nat
        })
    }
}

/// Marking an unvisited cell visited lowers the unvisited count by one.
proof fn lemma_count_unvisited_update(v: Seq<bool>, x: int)
    requires
        0 <= x < v.len(),
        !v[x],
    ensures
        count_unvisited(v.update(x, true)) + 1 == count_unvisited(v),
    decreases v.len(),
{
    if x == v.len() - 1 {
        assert(v.update(x, true).drop_last() =~= v.drop_last());
        assert(v.update(x, true).last());
    } else {
        assert(v.update(x, true).drop_last() =~= v.drop_last().update(x, true));
        lemma_count_unvisited_update(v.drop_last(), x);
        assert(v.update(x, true).last() == v.last());
    }
}

/// The flat index of a coordinate in a row-major visited map.
pub open spec fn flat_index(width: usize, c: (usize, usize)) -> int {
    c.1 * width + c.0
}

/// The visited mark of a coordinate.
pub open spec fn vis(visited: Seq<bool>, width: usize, c: (usize, usize)) -> bool {
    visited[flat_index(width, c)]
}

/// Distinct in-bounds coordinates have distinct flat indices.
proof fn lemma_flat_index_injective(width: usize, height: usize, a: (usize, usize), b: (usize, usize))
    requires
        a.0 < width,
        a.1 < height,
        b.0 < width,
        b.1 < height,
        flat_index(width, a) == flat_index(width, b),
    ensures
        a == b,
{
    let wi = width as int;
    if a.1 != b.1 {
        if a.1 < b.1 {
            assert((a.1 + 1) * wi <= b.1 * wi) by {
                vstd::arithmetic::mul::lemma_mul_inequality(a.1 + 1, b.1 as int, wi);
            }
            assert((a.1 + 1) * wi == a.1 * wi + wi) by {
                vstd::arithmetic::mul::lemma_mul_is_distributive_add_other_way(
                    wi,
                    a.1 as int,
                    1,
                );
            }
        } else {
            assert((b.1 + 1) * wi <= a.1 * wi) by {
                vstd::arithmetic::mul::lemma_mul_inequality(b.1 + 1, a.1 as int, wi);
            }
            assert((b.1 + 1) * wi == b.1 * wi + wi) by {
                vstd::arithmetic::mul::lemma_mul_is_distributive_add_other_way(
                    wi,
                    b.1 as int,
                    1,
                );
            }
        }
    }
}

/// A flat index lies within a `width * height` map.
proof fn lemma_flat_index_bound(width: usize, height: usize, c: (usize, usize))
    requires
        c.0 < width,
        c.1 < height,
    ensures
        0 <= flat_index(width, c) < width * height,
        flat_index(width, c) <= width * height - 1,
{
    let wi = width as int;
    assert((c.1 + 1) * wi <= height * wi) by {
        vstd::arithmetic::mul::lemma_mul_inequality(c.1 + 1, height as int, wi);
    }
    assert((c.1 + 1) * wi == c.1 * wi + wi) by {
        vstd::arithmetic::mul::lemma_mul_is_distributive_add_other_way(wi, c.1 as int, 1);
    }
    assert(c.1 * wi >= 0) by {
        vstd::arithmetic::mul::lemma_mul_nonnegative(c.1 as int, wi);
    }
    assert(height * wi == width * height) by {
        vstd::arithmetic::mul::lemma_mul_is_commutative(height as int, wi);
    }
}

/// The deep view of a codel grid.
pub open spec fn canvas_view(canvas: Vec<Vec<Codel>>) -> Seq<Seq<Codel>> {
    canvas@.map_values(|row: Vec<Codel>| row@)
}

/// No coordinate appears twice, within one region or across two.
pub open spec fn blocks_disjoint(blocks: Seq<Block>) -> bool {
    forall|i1: int, j1: int, i2: int, j2: int|
        0 <= i1 < blocks.len() && 0 <= j1 < blocks[i1].codel_coordinates@.len() && 0 <= i2
            < blocks.len() && 0 <= j2 < blocks[i2].codel_coordinates@.len()
            && #[trigger] blocks[i1].codel_coordinates@[j1]
            == #[trigger] blocks[i2].codel_coordinates@[j2] ==> i1 == i2 && j1 == j2
}

/// A detected region: non-empty, single-colored with bounded color values,
/// entirely on the board, and closed under same-colored adjacency (so it is
/// maximal).
pub open spec fn detected_block_inv(
    canvas: Seq<Seq<Codel>>,
    width: usize,
    height: usize,
    b: Block,
) -> bool {
    let coords = b.codel_coordinates@;
    &&& coords.len() > 0
    &&& b.hue < 6
    &&& b.light < 3
    &&& forall|j: int|
        0 <= j < coords.len() ==> (#[trigger] coords[j]).0 < width && coords[j].1 < height
            && color_class_at(canvas, coords[j]) == Some((b.hue, b.light))
    &&& forall|j: int, c: (usize, usize)|
        0 <= j < coords.len() && c.0 < width && c.1 < height && #[trigger] adjacent4(
            coords[j],
            c,
        ) && color_class_at(canvas, c) == Some((b.hue, b.light)) ==> coords.contains(c)
}

/// What region detection guarantees: consistent disjoint maximal regions that
/// cover every colored cell.
pub open spec fn detected_blocks_ok(
    canvas: Seq<Seq<Codel>>,
    width: usize,
    height: usize,
    blocks: Seq<Block>,
) -> bool {
    &&& forall|i: int|
        0 <= i < blocks.len() ==> detected_block_inv(canvas, width, height, #[trigger] blocks[i])
    &&& blocks_disjoint(blocks)
    &&& forall|c: (usize, usize)|
        c.0 < width && c.1 < height && (#[trigger] color_class_at(canvas, c)) is Some ==> exists|
            i: int,
        |
            0 <= i < blocks.len() && #[trigger] blocks[i].codel_coordinates@.contains(c)
}

/// A color cell keeps its color and gains the index of the region holding its
/// coordinate; other cells are untouched.
pub open spec fn assigned_cell_ok(
    old_canvas: Seq<Seq<Codel>>,
    new_canvas: Seq<Seq<Codel>>,
    blocks: Seq<Block>,
    x: int,
    y: int,
) -> bool {
    match old_canvas[y][x] {
        Codel::Color { hue, light, .. } => exists|i: int|
            0 <= i < blocks.len() && #[trigger] blocks[i].codel_coordinates@.contains(
                (x as usize, y as usize),
            ) && new_canvas[y][x] == (Codel::Color { hue, light, block_index: Some(i as usize) }),
        _ => new_canvas[y][x] == old_canvas[y][x],
    }
}

/// The first region whose member list holds the coordinate.
fn block_containing(blocks: &Vec<Block>, c: (usize, usize)) -> (r: Option<usize>)
    ensures
        match r {
            Some(i) => (i as int) < blocks@.len() && blocks@[i as int].codel_coordinates@.contains(
                c,
            ),
            None => forall|i: int|
                0 <= i < blocks@.len() ==> !(#[trigger] blocks@[i].codel_coordinates@.contains(c)),
        },
{
    let mut i: usize = 0;
    while i < blocks.len()
        invariant
            0 <= i <= blocks@.len(),
            forall|k: int|
                0 <= k < i ==> !(#[trigger] blocks@[k].codel_coordinates@.contains(c)),
        decreases blocks@.len() - i,
    {
        if coords_contain(&blocks[i].codel_coordinates, c) {
            return Some(i);
        }
        i = i + 1;
    }
    None
}

impl Interpreter {
    /// Whether the machine can still take steps.
    pub fn is_alive(&self) -> (r: bool)
        ensures
            r == self@.alive,
    {
        self.alive
    }

    /// Flood-fill the grid into its maximal 4-connected same-colored regions.
    fn detect_blocks(canvas: &Vec<Vec<Codel>>, width: usize, height: usize) -> (blocks: Vec<
        Block,
    >)
        requires
            grid_shape(canvas_view(*canvas), width, height),
            width * height <= usize::MAX,
            forall|c: (usize, usize)|
                c.0 < width && c.1 < height ==> (match #[trigger] color_class_at(
                    canvas_view(*canvas),
                    c,
                ) {
                    Some(hl) => hl.0 < 6 && hl.1 < 3,
                    None => true,
                }),
        ensures
            detected_blocks_ok(canvas_view(*canvas), width, height, blocks@),
            forall|i: int| 0 <= i < blocks@.len() ==> (#[trigger] blocks@[i]).block_exit is None,
            forall|i: int, j: int|
                0 <= i < blocks@.len() && 0 <= j < blocks@[i].codel_coordinates@.len()
                    ==> connected(
                    canvas_view(*canvas),
                    width,
                    height,
                    blocks@[i].codel_coordinates@[0],
                    #[trigger] blocks@[i].codel_coordinates@[j],
                ),
    {
        let ghost cv = canvas_view(*canvas);
        let total = width * height;
        let mut visited: Vec<bool> = vec![false; total];
        let mut blocks: Vec<Block> = Vec::new();
        proof {
            assert forall|c: (usize, usize)| c.0 < width && c.1 < height implies !vis(
                visited@,
                width,
                c,
            ) by {
                lemma_flat_index_bound(width, height, c);
            }
        }
        let mut y: usize = 0;
        while y < height
            invariant
                grid_shape(cv, width, height),
                cv == canvas_view(*canvas),
                forall|c: (usize, usize)|
                    c.0 < width && c.1 < height ==> (match #[trigger] color_class_at(cv, c) {
                        Some(hl) => hl.0 < 6 && hl.1 < 3,
                        None => true,
                    }),
                width * height <= usize::MAX,
                total == width * height,
                visited@.len() == total,
                y <= height,
                forall|i: int|
                    0 <= i < blocks@.len() ==> detected_block_inv(
                        cv,
                        width,
                        height,
                        #[trigger] blocks@[i],
                    ),
                forall|i: int|
                    0 <= i < blocks@.len() ==> (#[trigger] blocks@[i]).block_exit is None,
                blocks_disjoint(blocks@),
                forall|i: int, j: int|
                    0 <= i < blocks@.len() && 0 <= j < blocks@[i].codel_coordinates@.len()
                        ==> connected(
                        cv,
                        width,
                        height,
                        blocks@[i].codel_coordinates@[0],
                        #[trigger] blocks@[i].codel_coordinates@[j],
                    ),
                forall|i: int, j: int|
                    0 <= i < blocks@.len() && 0 <= j < blocks@[i].codel_coordinates@.len()
                        ==> vis(visited@, width, #[trigger] blocks@[i].codel_coordinates@[j]),
                forall|c: (usize, usize)|
                    c.0 < width && c.1 < height && #[trigger] vis(visited@, width, c) ==> exists|
                        i: int,
                    |
                        0 <= i < blocks@.len()
                            && #[trigger] blocks@[i].codel_coordinates@.contains(c),
                forall|c: (usize, usize)|
                    c.0 < width && c.1 < y && (#[trigger] color_class_at(cv, c)) is Some ==> vis(
                        visited@,
                        width,
                        c,
                    ),
            decreases height - y,
        {
            let mut x: usize = 0;
            while x < width
                invariant
                    grid_shape(cv, width, height),
                    cv == canvas_view(*canvas),
                    forall|c: (usize, usize)|
                        c.0 < width && c.1 < height ==> (match #[trigger] color_class_at(cv, c) {
                            Some(hl) => hl.0 < 6 && hl.1 < 3,
                            None => true,
                        }),
                    width * height <= usize::MAX,
                    total == width * height,
                    visited@.len() == total,
                    y < height,
                    x <= width,
                    forall|i: int|
                        0 <= i < blocks@.len() ==> detected_block_inv(
                            cv,
                            width,
                            height,
                            #[trigger] blocks@[i],
                        ),
                    forall|i: int|
                        0 <= i < blocks@.len() ==> (#[trigger] blocks@[i]).block_exit is None,
                    blocks_disjoint(blocks@),
                    forall|i: int, j: int|
                        0 <= i < blocks@.len() && 0 <= j < blocks@[i].codel_coordinates@.len()
                            ==> connected(
                            cv,
                            width,
                            height,
                            blocks@[i].codel_coordinates@[0],
                            #[trigger] blocks@[i].codel_coordinates@[j],
                        ),
                    forall|i: int, j: int|
                        0 <= i < blocks@.len() && 0 <= j < blocks@[i].codel_coordinates@.len()
                            ==> vis(visited@, width, #[trigger] blocks@[i].codel_coordinates@[j]),
                    forall|c: (usize, usize)|
                        c.0 < width && c.1 < height && #[trigger] vis(visited@, width, c)
                            ==> exists|i: int|
                            0 <= i < blocks@.len()
                                && #[trigger] blocks@[i].codel_coordinates@.contains(c),
                    forall|c: (usize, usize)|
                        c.0 < width && c.1 < y && (#[trigger] color_class_at(cv, c)) is Some
                            ==> vis(visited@, width, c),
                    forall|c: (usize, usize)|
                        c.0 < x && c.1 == y && (#[trigger] color_class_at(cv, c)) is Some ==> vis(
                            visited@,
                            width,
                            c,
                        ),
                decreases width - x,
            {
                proof {
                    assert(canvas@.len() == cv.len());
                    assert(cv[y as int] == canvas@[y as int]@);
                    lemma_flat_index_bound(width, height, (x, y));
                }
                let cell = canvas[y][x];
                match cell {
                    Codel::Color { hue, light, .. } => {
                        if !visited[y * width + x] {
                            Self::flood_fill(
                                canvas,
                                width,
                                height,
                                &mut visited,
                                &mut blocks,
                                x,
                                y,
                                hue,
                                light,
                            );
                        }
                    },
                    _ => {},
                }
                x = x + 1;
            }
            y = y + 1;
        }
        blocks
    }

    /// Collect the maximal same-colored region seeded at an unvisited colored
    /// cell into a new block, marking every member visited.
    fn flood_fill(
        canvas: &Vec<Vec<Codel>>,
        width: usize,
        height: usize,
        visited: &mut Vec<bool>,
        blocks: &mut Vec<Block>,
        x: usize,
        y: usize,
        hue: u8,
        light: u8,
    )
        requires
            grid_shape(canvas_view(*canvas), width, height),
            width * height <= usize::MAX,
            old(visited)@.len() == width * height,
            x < width,
            y < height,
            hue < 6,
            light < 3,
            color_class_at(canvas_view(*canvas), (x, y)) == Some((hue, light)),
            !vis(old(visited)@, width, (x, y)),
            forall|i: int|
                0 <= i < old(blocks)@.len() ==> detected_block_inv(
                    canvas_view(*canvas),
                    width,
                    height,
                    #[trigger] old(blocks)@[i],
                ),
            forall|i: int|
                0 <= i < old(blocks)@.len() ==> (#[trigger] old(blocks)@[i]).block_exit is None,
            blocks_disjoint(old(blocks)@),
            forall|i: int, j: int|
                0 <= i < old(blocks)@.len() && 0 <= j < old(blocks)@[i].codel_coordinates@.len()
                    ==> vis(
                    old(visited)@,
                    width,
                    #[trigger] old(blocks)@[i].codel_coordinates@[j],
                ),
            forall|c: (usize, usize)|
                c.0 < width && c.1 < height && #[trigger] vis(old(visited)@, width, c) ==> exists|
                    i: int,
                |
                    0 <= i < old(blocks)@.len()
                        && #[trigger] old(blocks)@[i].codel_coordinates@.contains(c),
            forall|i: int, j: int|
                0 <= i < old(blocks)@.len() && 0 <= j
                    < old(blocks)@[i].codel_coordinates@.len() ==> connected(
                    canvas_view(*canvas),
                    width,
                    height,
                    old(blocks)@[i].codel_coordinates@[0],
                    #[trigger] old(blocks)@[i].codel_coordinates@[j],
                ),
        ensures
            final(visited)@.len() == width * height,
            final(blocks)@.len() == old(blocks)@.len() + 1,
            forall|i: int|
                0 <= i < old(blocks)@.len() ==> #[trigger] final(blocks)@[i] == old(blocks)@[i],
            forall|i: int|
                0 <= i < final(blocks)@.len() ==> detected_block_inv(
                    canvas_view(*canvas),
                    width,
                    height,
                    #[trigger] final(blocks)@[i],
                ),
            forall|i: int|
                0 <= i < final(blocks)@.len() ==> (#[trigger] final(blocks)@[i]).block_exit
                    is None,
            blocks_disjoint(final(blocks)@),
            forall|i: int, j: int|
                0 <= i < final(blocks)@.len() && 0 <= j
                    < final(blocks)@[i].codel_coordinates@.len() ==> vis(
                    final(visited)@,
                    width,
                    #[trigger] final(blocks)@[i].codel_coordinates@[j],
                ),
            forall|c: (usize, usize)|
                c.0 < width && c.1 < height && #[trigger] vis(final(visited)@, width, c)
                    ==> exists|i: int|
                    0 <= i < final(blocks)@.len()
                        && #[trigger] final(blocks)@[i].codel_coordinates@.contains(c),
            forall|c: (usize, usize)|
                c.0 < width && c.1 < height && vis(old(visited)@, width, c) ==> #[trigger] vis(
                    final(visited)@,
                    width,
                    c,
                ),
            vis(final(visited)@, width, (x, y)),
            forall|i: int, j: int|
                0 <= i < final(blocks)@.len() && 0 <= j
                    < final(blocks)@[i].codel_coordinates@.len() ==> connected(
                    canvas_view(*canvas),
                    width,
                    height,
                    final(blocks)@[i].codel_coordinates@[0],
                    #[trigger] final(blocks)@[i].codel_coordinates@[j],
                ),
    {
        let ghost cv = canvas_view(*canvas);
        let ghost blocks0 = old(blocks)@;
        let mut members: Vec<(usize, usize)> = Vec::new();
        let mut visit_list: Vec<(usize, usize)> = Vec::new();
        visit_list.push((x, y));
        proof {
            assert(visit_list@ =~= seq![(x, y)]);
            lemma_connected_refl(cv, width, height, (x, y));
            assert forall|v: (usize, usize)|
                #[trigger] visit_list@.contains(v) implies connected(
                cv,
                width,
                height,
                (x, y),
                v,
            ) by {
                assert(v == (x, y));
            }
        }
        while visit_list.len() > 0
            invariant
                grid_shape(cv, width, height),
                cv == canvas_view(*canvas),
                width * height <= usize::MAX,
                visited@.len() == width * height,
                x < width,
                y < height,
                hue < 6,
                light < 3,
                color_class_at(cv, (x, y)) == Some((hue, light)),
                blocks@ == blocks0,
                forall|i: int|
                    0 <= i < blocks@.len() ==> detected_block_inv(
                        cv,
                        width,
                        height,
                        #[trigger] blocks@[i],
                    ),
                blocks_disjoint(blocks@),
                forall|i: int, j: int|
                    0 <= i < blocks@.len() && 0 <= j < blocks@[i].codel_coordinates@.len() ==> vis(
                        visited@,
                        width,
                        #[trigger] blocks@[i].codel_coordinates@[j],
                    ),
                forall|c: (usize, usize)|
                    c.0 < width && c.1 < height && #[trigger] vis(visited@, width, c) ==> (exists|
                        i: int,
                    |
                        0 <= i < blocks@.len()
                            && #[trigger] blocks@[i].codel_coordinates@.contains(c))
                        || members@.contains(c),
                forall|c: (usize, usize)|
                    c.0 < width && c.1 < height && vis(old(visited)@, width, c) ==> #[trigger] vis(
                        visited@,
                        width,
                        c,
                    ),
                forall|j: int|
                    0 <= j < members@.len() ==> (#[trigger] members@[j]).0 < width
                        && members@[j].1 < height && color_class_at(cv, members@[j]) == Some(
                        (hue, light),
                    ) && vis(visited@, width, members@[j]),
                forall|j1: int, j2: int|
                    0 <= j1 < members@.len() && 0 <= j2 < members@.len() && members@[j1]
                        == members@[j2] ==> j1 == j2,
                forall|i: int, jj: int, j: int|
                    0 <= i < blocks@.len() && 0 <= jj < blocks@[i].codel_coordinates@.len() && 0
                        <= j < members@.len() ==> #[trigger] blocks@[i].codel_coordinates@[jj]
                        != #[trigger] members@[j],
                forall|v: (usize, usize)|
                    #[trigger] visit_list@.contains(v) ==> v.0 < width && v.1 < height
                        && color_class_at(cv, v) == Some((hue, light)),
                forall|j: int, c: (usize, usize)|
                    0 <= j < members@.len() && c.0 < width && c.1 < height && #[trigger] adjacent4(
                        members@[j],
                        c,
                    ) && color_class_at(cv, c) == Some((hue, light)) ==> vis(visited@, width, c)
                        || visit_list@.contains(c),
                members@.len() == 0 ==> visit_list@ == seq![(x, y)] && !vis(
                    visited@,
                    width,
                    (x, y),
                ),
                members@.len() > 0 ==> members@[0] == (x, y),
                forall|j: int|
                    0 <= j < members@.len() ==> connected(
                        cv,
                        width,
                        height,
                        (x, y),
                        #[trigger] members@[j],
                    ),
                forall|v: (usize, usize)|
                    #[trigger] visit_list@.contains(v) ==> connected(cv, width, height, (x, y), v),
            decreases count_unvisited(visited@), visit_list@.len(),
        {
            let ghost list0 = visit_list@;
            let ghost vis0 = visited@;
            let ghost members0 = members@;
            let coord = visit_list.pop().unwrap();
            proof {
                assert(list0[list0.len() - 1] == coord);
                assert(list0.contains(coord));
                assert(visit_list@ == list0.drop_last());
                lemma_flat_index_bound(width, height, coord);
                assert forall|v: (usize, usize)|
                    list0.contains(v) && v != coord implies #[trigger] visit_list@.contains(
                    v,
                ) by {
                    let k = choose|k: int| 0 <= k < list0.len() && list0[k] == v;
                    assert(k < list0.len() - 1);
                    assert(visit_list@[k] == v);
                }
                assert forall|v: (usize, usize)|
                    #[trigger] visit_list@.contains(v) implies list0.contains(v) by {
                    let k = choose|k: int| 0 <= k < visit_list@.len() && visit_list@[k] == v;
                    assert(list0[k] == v);
                }
            }
            if !visited[coord.1 * width + coord.0] {
                proof {
                    lemma_count_unvisited_update(visited@, flat_index(width, coord));
                    if members0.len() == 0 {
                        assert(coord == (x, y));
                    }
                }
                visited[coord.1 * width + coord.0] = true;
                members.push(coord);
                proof {
                    assert(visited@ == vis0.update(flat_index(width, coord), true));
                    assert(vis(visited@, width, coord));
                    assert forall|c: (usize, usize)|
                        c.0 < width && c.1 < height && c != coord implies #[trigger] vis(
                        visited@,
                        width,
                        c,
                    ) == vis(vis0, width, c) by {
                        lemma_flat_index_bound(width, height, c);
                        if flat_index(width, c) == flat_index(width, coord) {
                            lemma_flat_index_injective(width, height, c, coord);
                        }
                    }
                    assert(members@ == members0.push(coord));
                    assert(members@[members@.len() - 1] == coord);
                    assert(members@.contains(coord));
                    assert forall|v: (usize, usize)|
                        members0.contains(v) implies #[trigger] members@.contains(v) by {
                        let k = choose|k: int| 0 <= k < members0.len() && members0[k] == v;
                        assert(members@[k] == v);
                    }
                    assert(!vis(vis0, width, coord));
                }
                let n1 = coord_right(coord, width, height);
                let n2 = coord_left(coord, width, height);
                let n3 = coord_up(coord, width, height);
                let n4 = coord_down(coord, width, height);
                let ghost l0 = visit_list@;
                Self::consider_neighbor(canvas, width, height, visited, &mut visit_list, n1, hue, light);
                let ghost l1 = visit_list@;
                Self::consider_neighbor(canvas, width, height, visited, &mut visit_list, n2, hue, light);
                let ghost l2 = visit_list@;
                Self::consider_neighbor(canvas, width, height, visited, &mut visit_list, n3, hue, light);
                let ghost l3 = visit_list@;
                Self::consider_neighbor(canvas, width, height, visited, &mut visit_list, n4, hue, light);
                proof {
                    assert forall|v: (usize, usize)|
                        l0.contains(v) implies #[trigger] visit_list@.contains(v) by {}
                    assert forall|j: int, c: (usize, usize)|
                        0 <= j < members@.len() && c.0 < width && c.1 < height
                            && #[trigger] adjacent4(members@[j], c) && color_class_at(cv, c)
                            == Some((hue, light)) implies vis(visited@, width, c)
                            || visit_list@.contains(c) by {
                        if j < members0.len() {
                            assert(members0[j] == members@[j]);
                            assert(adjacent4(members0[j], c));
                            if vis(vis0, width, c) {
                            } else {
                                assert(list0.contains(c));
                                if c != coord {
                                    assert(l0.contains(c));
                                }
                            }
                        } else {
                            assert(members@[j] == coord);
                            if !vis(visited@, width, c) {
                                if c.1 == coord.1 && coord.0 + 1 == c.0 {
                                    assert(n1 == Some(c));
                                    assert(l1.contains(c));
                                } else if c.1 == coord.1 && c.0 + 1 == coord.0 {
                                    assert(n2 == Some(c));
                                    assert(l2.contains(c));
                                } else if c.0 == coord.0 && c.1 + 1 == coord.1 {
                                    assert(n3 == Some(c));
                                    assert(l3.contains(c));
                                } else {
                                    assert(c.0 == coord.0 && coord.1 + 1 == c.1);
                                    assert(n4 == Some(c));
                                    assert(visit_list@.contains(c));
                                }
                            }
                        }
                    }
                    assert forall|c: (usize, usize)|
                        c.0 < width && c.1 < height && #[trigger] vis(visited@, width, c) implies (
                    exists|i: int|
                        0 <= i < blocks@.len()
                            && #[trigger] blocks@[i].codel_coordinates@.contains(c))
                        || members@.contains(c) by {
                        if c == coord {
                            assert(members@.contains(coord));
                        } else {
                            assert(vis(vis0, width, c));
                        }
                    }
                    assert forall|v: (usize, usize)|
                        #[trigger] visit_list@.contains(v) implies v.0 < width && v.1 < height
                            && color_class_at(cv, v) == Some((hue, light)) by {
                        if l3.contains(v) {
                            if l2.contains(v) {
                                if l1.contains(v) {
                                    if l0.contains(v) {
                                        assert(list0.contains(v));
                                    }
                                }
                            }
                        }
                    }
                    assert forall|v: (usize, usize)|
                        #[trigger] visit_list@.contains(v) implies connected(
                        cv,
                        width,
                        height,
                        (x, y),
                        v,
                    ) by {
                        lemma_next_in_dir_bounds(
                            DirectionPointer::Right,
                            coord,
                            width,
                            height,
                        );
                        lemma_next_in_dir_bounds(DirectionPointer::Left, coord, width, height);
                        lemma_next_in_dir_bounds(DirectionPointer::Up, coord, width, height);
                        lemma_next_in_dir_bounds(DirectionPointer::Down, coord, width, height);
                        if l3.contains(v) {
                            if l2.contains(v) {
                                if l1.contains(v) {
                                    if l0.contains(v) {
                                        assert(list0.contains(v));
                                    } else {
                                        lemma_connected_extend(
                                            cv,
                                            width,
                                            height,
                                            (x, y),
                                            coord,
                                            v,
                                        );
                                    }
                                } else {
                                    lemma_connected_extend(cv, width, height, (x, y), coord, v);
                                }
                            } else {
                                lemma_connected_extend(cv, width, height, (x, y), coord, v);
                            }
                        } else {
                            lemma_connected_extend(cv, width, height, (x, y), coord, v);
                        }
                    }
                }
            } else {
                proof {
                    if members0.len() == 0 {
                        assert(coord == (x, y));
                        assert(false);
                    }
                    assert forall|j: int, c: (usize, usize)|
                        0 <= j < members@.len() && c.0 < width && c.1 < height
                            && #[trigger] adjacent4(members@[j], c) && color_class_at(cv, c)
                            == Some((hue, light)) implies vis(visited@, width, c)
                            || visit_list@.contains(c) by {
                        if !vis(visited@, width, c) {
                            assert(list0.contains(c));
                            assert(c != coord);
                        }
                    }
                }
            }
        }
        proof {
            assert(members@.len() > 0);
        }
        let ghost new_block_coords = members@;
        blocks.push(Block { codel_coordinates: members, hue, light, block_exit: None });
        proof {
            let nb = blocks@[blocks@.len() - 1];
            assert(nb.codel_coordinates@ == new_block_coords);
            assert forall|j: int, c: (usize, usize)|
                0 <= j < new_block_coords.len() && c.0 < width && c.1 < height
                    && #[trigger] adjacent4(new_block_coords[j], c) && color_class_at(cv, c)
                    == Some((hue, light)) implies new_block_coords.contains(c) by {
                assert(vis(visited@, width, c));
                if !new_block_coords.contains(c) {
                    let i = choose|i: int|
                        0 <= i < blocks0.len() && #[trigger] blocks0[i].codel_coordinates@.contains(
                            c,
                        );
                    let jj = choose|jj: int|
                        0 <= jj < blocks0[i].codel_coordinates@.len()
                            && blocks0[i].codel_coordinates@[jj] == c;
                    assert(color_class_at(cv, c) == Some((blocks0[i].hue, blocks0[i].light)));
                    assert(adjacent4(blocks0[i].codel_coordinates@[jj], new_block_coords[j]));
                    assert(blocks0[i].codel_coordinates@.contains(new_block_coords[j]));
                    let jm = choose|jm: int|
                        0 <= jm < blocks0[i].codel_coordinates@.len()
                            && blocks0[i].codel_coordinates@[jm] == new_block_coords[j];
                    assert(false);
                }
            }
            assert(detected_block_inv(cv, width, height, nb));
            assert forall|c: (usize, usize)|
                c.0 < width && c.1 < height && #[trigger] vis(visited@, width, c) implies exists|
                i: int,
            |
                0 <= i < blocks@.len() && #[trigger] blocks@[i].codel_coordinates@.contains(
                    c,
                ) by {
                if members_contains_helper(new_block_coords, c) {
                    assert(blocks@[blocks@.len() - 1].codel_coordinates@.contains(c));
                } else {
                    let i = choose|i: int|
                        0 <= i < blocks0.len() && #[trigger] blocks0[i].codel_coordinates@.contains(
                            c,
                        );
                    assert(blocks@[i].codel_coordinates@.contains(c));
                }
            }
            assert(vis(visited@, width, (x, y))) by {
                assert(new_block_coords[0] == (x, y));
            }
        }
    }

    /// Queue an unvisited neighbor of the region's color for the fill.
    #[verifier::loop_isolation(false)]
    fn consider_neighbor(
        canvas: &Vec<Vec<Codel>>,
        width: usize,
        height: usize,
        visited: &Vec<bool>,
        visit_list: &mut Vec<(usize, usize)>,
        n: Option<(usize, usize)>,
        hue: u8,
        light: u8,
    )
        requires
            grid_shape(canvas_view(*canvas), width, height),
            width * height <= usize::MAX,
            visited@.len() == width * height,
            match n {
                Some(c) => c.0 < width && c.1 < height,
                None => true,
            },
        ensures
            final(visit_list)@.len() >= old(visit_list)@.len(),
            forall|k: int|
                0 <= k < old(visit_list)@.len() ==> #[trigger] final(visit_list)@[k] == old(
                    visit_list,
                )@[k],
            forall|v: (usize, usize)|
                old(visit_list)@.contains(v) ==> #[trigger] final(visit_list)@.contains(v),
            forall|v: (usize, usize)|
                #[trigger] final(visit_list)@.contains(v) ==> old(visit_list)@.contains(v) || (
                match n {
                    Some(c) => v == c && color_class_at(canvas_view(*canvas), c) == Some(
                        (hue, light),
                    ) && !vis(visited@, width, c),
                    None => false,
                }),
            match n {
                Some(c) => (color_class_at(canvas_view(*canvas), c) == Some((hue, light)) && !vis(
                    visited@,
                    width,
                    c,
                )) ==> final(visit_list)@.contains(c),
                None => true,
            },
    {
        match n {
            Some(oc) => {
                proof {
                    assert(canvas_view(*canvas)[oc.1 as int] == canvas@[oc.1 as int]@);
                    lemma_flat_index_bound(width, height, oc);
                }
                let other = canvas[oc.1][oc.0];
                match other {
                    Codel::Color { hue: h2, light: l2, .. } => {
                        if !visited[oc.1 * width + oc.0] && h2 == hue && l2 == light {
                            let ghost before = visit_list@;
                            visit_list.push(oc);
                            proof {
                                assert forall|v: (usize, usize)|
                                    #[trigger] visit_list@.contains(v) implies before.contains(v)
                                    || v == oc by {
                                    let k = choose|k: int|
                                        0 <= k < visit_list@.len() && visit_list@[k] == v;
                                    if k < before.len() {
                                        assert(before[k] == v);
                                    }
                                }
                                assert(visit_list@[visit_list@.len() - 1] == oc);
                                assert forall|v: (usize, usize)|
                                    before.contains(v) implies #[trigger] visit_list@.contains(
                                    v,
                                ) by {
                                    let k = choose|k: int|
                                        0 <= k < before.len() && before[k] == v;
                                    assert(visit_list@[k] == v);
                                }
                            }
                        }
                    },
                    _ => {},
                }
            },
            None => {},
        }
    }
}

/// Whether a coordinate sequence contains a coordinate (a decidable helper
/// for proofs by cases).
pub open spec fn members_contains_helper(s: Seq<(usize, usize)>, c: (usize, usize)) -> bool {
    s.contains(c)
}

impl Interpreter {
    /// Write each colored cell's region index back into the grid.
    fn assign_codels_to_blocks(
        canvas: Vec<Vec<Codel>>,
        blocks: &Vec<Block>,
        width: usize,
        height: usize,
    ) -> (r: Vec<Vec<Codel>>)
        requires
            grid_shape(canvas_view(canvas), width, height),
            forall|c: (usize, usize)|
                c.0 < width && c.1 < height && (#[trigger] color_class_at(
                    canvas_view(canvas),
                    c,
                )) is Some ==> exists|i: int|
                    0 <= i < blocks@.len() && #[trigger] blocks@[i].codel_coordinates@.contains(c),
        ensures
            grid_shape(canvas_view(r), width, height),
            forall|x: int, y: int|
                0 <= x < width && 0 <= y < height ==> #[trigger] assigned_cell_ok(
                    canvas_view(canvas),
                    canvas_view(r),
                    blocks@,
                    x,
                    y,
                ),
    {
        let ghost cv = canvas_view(canvas);
        let mut result: Vec<Vec<Codel>> = Vec::new();
        let mut y: usize = 0;
        while y < height
            invariant
                grid_shape(cv, width, height),
                cv == canvas_view(canvas),
                forall|c: (usize, usize)|
                    c.0 < width && c.1 < height && (#[trigger] color_class_at(cv, c)) is Some
                        ==> exists|i: int|
                        0 <= i < blocks@.len()
                            && #[trigger] blocks@[i].codel_coordinates@.contains(c),
                y <= height,
                result@.len() == y,
                forall|yy: int|
                    0 <= yy < y ==> (#[trigger] canvas_view(result)[yy]).len() == width,
                forall|x: int, yy: int|
                    0 <= x < width && 0 <= yy < y ==> #[trigger] assigned_cell_ok(
                        cv,
                        canvas_view(result),
                        blocks@,
                        x,
                        yy,
                    ),
            decreases height - y,
        {
            let mut row: Vec<Codel> = Vec::new();
            let mut x: usize = 0;
            while x < width
                invariant
                    grid_shape(cv, width, height),
                    cv == canvas_view(canvas),
                    forall|c: (usize, usize)|
                        c.0 < width && c.1 < height && (#[trigger] color_class_at(cv, c)) is Some
                            ==> exists|i: int|
                            0 <= i < blocks@.len()
                                && #[trigger] blocks@[i].codel_coordinates@.contains(c),
                    y < height,
                    x <= width,
                    row@.len() == x,
                    forall|xx: int|
                        0 <= xx < x ==> #[trigger] assigned_cell_row_ok(
                            cv,
                            row@,
                            blocks@,
                            xx,
                            y as int,
                        ),
                decreases width - x,
            {
                proof {
                    assert(canvas@.len() == cv.len());
                    assert(cv[y as int] == canvas@[y as int]@);
                }
                let cell = canvas[y][x];
                let ghost row0 = row@;
                let new_cell = match cell {
                    Codel::Color { hue, light, .. } => {
                        proof {
                            assert(color_class_at(cv, (x, y)) == Some((hue, light)));
                        }
                        match block_containing(blocks, (x, y)) {
                            Some(i) => {
                                let c2 = Codel::Color { hue, light, block_index: Some(i) };
                                proof {
                                    assert(blocks@[i as int].codel_coordinates@.contains((x, y)));
                                    assert(assigned_cell_row_ok(
                                        cv,
                                        row0.push(c2),
                                        blocks@,
                                        x as int,
                                        y as int,
                                    )) by {
                                        assert(((x as int) as usize, (y as int) as usize) == (
                                            x,
                                            y,
                                        ));
                                        assert(row0.push(c2)[x as int] == c2);
                                        assert(0 <= (i as int) && (i as int) < blocks@.len()
                                            && blocks@[i as int].codel_coordinates@.contains(
                                            (x, y),
                                        ) && row0.push(c2)[x as int] == (Codel::Color {
                                            hue,
                                            light,
                                            block_index: Some((i as int) as usize),
                                        }));
                                    }
                                }
                                c2
                            },
                            None => {
                                proof {
                                    assert(false);
                                }
                                cell
                            },
                        }
                    },
                    _ => {
                        proof {
                            assert(row0.push(cell)[x as int] == cell);
                            assert(assigned_cell_row_ok(cv, row0.push(cell), blocks@, x as int, y as int));
                        }
                        cell
                    },
                };
                row.push(new_cell);
                proof {
                    assert(row@ == row0.push(new_cell));
                    assert(assigned_cell_row_ok(cv, row@, blocks@, x as int, y as int));
                }
                proof {
                    assert forall|xx: int|
                        0 <= xx < x + 1 implies #[trigger] assigned_cell_row_ok(
                        cv,
                        row@,
                        blocks@,
                        xx,
                        y as int,
                    ) by {
                        if xx < x {
                            assert(row@[xx] == row0[xx]);
                            assert(assigned_cell_row_ok(cv, row0, blocks@, xx, y as int));
                        } else {
                            assert(row@[x as int] == new_cell);
                        }
                    }
                }
                x = x + 1;
            }
            let ghost prev = canvas_view(result);
            let ghost rowg = row@;
            result.push(row);
            proof {
                assert(canvas_view(result)[y as int] == rowg);
                assert forall|x: int, yy: int|
                    0 <= x < width && 0 <= yy < y + 1 implies #[trigger] assigned_cell_ok(
                    cv,
                    canvas_view(result),
                    blocks@,
                    x,
                    yy,
                ) by {
                    if yy < y {
                        assert(canvas_view(result)[yy] == prev[yy]);
                        assert(assigned_cell_ok(cv, prev, blocks@, x, yy));
                    } else {
                        assert(assigned_cell_row_ok(cv, rowg, blocks@, x, y as int));
                    }
                }
                assert forall|yy: int|
                    0 <= yy < y + 1 implies (#[trigger] canvas_view(result)[yy]).len()
                    == width by {
                    if yy < y {
                        assert(canvas_view(result)[yy] == prev[yy]);
                    } else {
                        assert(canvas_view(result)[yy] == rowg);
                    }
                }
            }
            y = y + 1;
        }
        result
    }
}

impl Interpreter {
    /// Compute and cache the exit table of every region.
    fn find_exits_for_blocks(blocks: Vec<Block>) -> (r: Vec<Block>)
        requires
            forall|i: int|
                0 <= i < blocks@.len() ==> (#[trigger] blocks@[i]).codel_coordinates@.len() > 0,
        ensures
            r@.len() == blocks@.len(),
            forall|i: int|
                0 <= i < blocks@.len() ==> (#[trigger] r@[i]).codel_coordinates@
                    == blocks@[i].codel_coordinates@ && r@[i].hue == blocks@[i].hue && r@[i].light
                    == blocks@[i].light && r@[i].exits_wf(),
    {
        let ghost orig = blocks@;
        let mut rest = blocks;
        let mut r: Vec<Block> = Vec::new();
        while rest.len() > 0
            invariant
                r@.len() + rest@.len() == orig.len(),
                rest@ == orig.subrange(r@.len() as int, orig.len() as int),
                forall|k: int|
                    0 <= k < orig.len() ==> (#[trigger] orig[k]).codel_coordinates@.len() > 0,
                forall|k: int|
                    0 <= k < r@.len() ==> (#[trigger] r@[k]).codel_coordinates@
                        == orig[k].codel_coordinates@ && r@[k].hue == orig[k].hue && r@[k].light
                        == orig[k].light && r@[k].exits_wf(),
            decreases rest@.len(),
        {
            let ghost done = r@.len() as int;
            let b = rest.remove(0);
            proof {
                assert(orig.subrange(done, orig.len() as int)[0] == orig[done]);
                assert(b == orig[done]);
                assert(rest@ =~= orig.subrange(done + 1, orig.len() as int));
            }
            let exits = BlockExit::from_coords(&b.codel_coordinates);
            let nb = Block {
                codel_coordinates: b.codel_coordinates,
                hue: b.hue,
                light: b.light,
                block_exit: Some(exits),
            };
            proof {
                assert(nb.exits_wf());
            }
            r.push(nb);
        }
        r
    }

    /// Build an engine from rows of RGB triples: classify the cells, detect
    /// the regions, annotate the cells with their region, compute the exit
    /// tables, and start at the top-left corner facing right.
    pub fn from_rgb_rows(rgb_rows: Vec<Vec<(u8, u8, u8)>>, options: &CmdOptions) -> (r:
        Interpreter)
        requires
            rgb_rows@.len() >= 1,
            rgb_rows@[0]@.len() >= 1,
            forall|y: int|
                0 <= y < rgb_rows@.len() ==> (#[trigger] rgb_rows@[y])@.len()
                    == rgb_rows@[0]@.len(),
            rgb_rows@.len() * rgb_rows@[0]@.len() <= usize::MAX,
        ensures
            engine_wf(r@),
            r@.board.width == rgb_rows@[0]@.len(),
            r@.board.height == rgb_rows@.len(),
            forall|x: int, y: int|
                0 <= x < rgb_rows@[0]@.len() && 0 <= y < rgb_rows@.len()
                    ==> #[trigger] same_color_class(
                    r@.board.canvas[y][x],
                    spec_rgb_to_codel(rgb_rows@[y]@[x], options.unknown_white),
                ),
            r@.dp == DirectionPointer::Right,
            r@.cc == CodelChooser::Left,
            r@.alive,
            r@.stack == Seq::<i64>::empty(),
            r@.step_counter == 0,
            r@.max_steps == options.max_steps,
            r@.unlimited_steps == options.unlimited_steps,
            r@.position == (0usize, 0usize),
            r@.toggles == 0,
            r@.last_toggled == Counters::DirectionPointer,
            r@.pending is None,
            r@.output == Seq::<u8>::empty(),
            regions_maximal(r@.board),
            regions_connected(r@.board),
    {
        let raw = create_canvas(&rgb_rows, options);
        let width = raw[0].len();
        let height = raw.len();
        proof {
            assert(width * height <= usize::MAX) by {
                vstd::arithmetic::mul::lemma_mul_is_commutative(width as int, height as int);
            }
            assert(grid_shape(canvas_view(raw), width, height)) by {
                assert forall|y: int| 0 <= y < height implies (#[trigger] canvas_view(raw)[y]).len()
                    == width by {
                    assert(canvas_view(raw)[y] == raw@[y]@);
                }
            }
            assert forall|c: (usize, usize)| c.0 < width && c.1 < height implies (
            match #[trigger] color_class_at(canvas_view(raw), c) {
                Some(hl) => hl.0 < 6 && hl.1 < 3,
                None => true,
            }) by {
                assert(canvas_view(raw)[c.1 as int] == raw@[c.1 as int]@);
                assert(raw@[c.1 as int]@[c.0 as int] == spec_rgb_to_codel(
                    rgb_rows@[c.1 as int]@[c.0 as int],
                    options.unknown_white,
                ));
            }
        }
        let detected = Self::detect_blocks(&raw, width, height);
        let num_blocks = detected.len();
        proof {
            assert(detected@.len() == num_blocks);
        }
        let annotated = Self::assign_codels_to_blocks(raw, &detected, width, height);
        let blocks = Self::find_exits_for_blocks(detected);
        let ghost cv_raw = canvas_view(raw);
        let ghost cv = canvas_view(annotated);
        let ghost board = BoardV { canvas: cv, blocks: blocks@, width: width, height: height };
        proof {
            lemma_board_assembled(cv_raw, cv, detected@, blocks@, width, height);
        }
        let interpreter = Interpreter {
            dp: DirectionPointer::Right,
            cc: CodelChooser::Left,
            alive: true,
            stack: Vec::new(),
            step_counter: 0,
            max_steps: options.max_steps,
            unlimited_steps: options.unlimited_steps,
            canvas: annotated,
            blocks,
            width,
            height,
            current_position: (0, 0),
            toggled_pointers_without_move: 0,
            last_toggled_pointer: Counters::DirectionPointer,
            pending_request: None,
            output: Vec::new(),
        };
        proof {
            assert(interpreter@.board == board);
            assert forall|x: int, y: int|
                0 <= x < width && 0 <= y < height implies #[trigger] same_color_class(
                cv[y][x],
                spec_rgb_to_codel(rgb_rows@[y]@[x], options.unknown_white),
            ) by {
                assert(cv_raw[y] == raw@[y]@);
                assert(raw@[y]@[x] == spec_rgb_to_codel(rgb_rows@[y]@[x], options.unknown_white));
                assert(assigned_cell_ok(cv_raw, cv, detected@, x, y));
            }
            lemma_classes_preserved(cv_raw, cv, detected@, width, height);
            assert forall|i: int, j: int, c: (usize, usize)|
                0 <= i < board.blocks.len() && 0 <= j < board.blocks[i].codel_coordinates@.len()
                    && c.0 < board.width && c.1 < board.height && #[trigger] adjacent4(
                    board.blocks[i].codel_coordinates@[j],
                    c,
                ) && color_class_at(board.canvas, c) == Some(
                    (board.blocks[i].hue, board.blocks[i].light),
                ) implies board.blocks[i].codel_coordinates@.contains(c) by {
                assert(detected_block_inv(cv_raw, width, height, detected@[i]));
                assert(board.blocks[i].codel_coordinates@ == detected@[i].codel_coordinates@);
                assert(color_class_at(cv_raw, c) == Some(
                    (detected@[i].hue, detected@[i].light),
                ));
                assert(adjacent4(detected@[i].codel_coordinates@[j], c));
            }
            assert(regions_maximal(board));
            assert forall|i: int, j: int|
                0 <= i < board.blocks.len() && 0 <= j
                    < board.blocks[i].codel_coordinates@.len() implies connected(
                board.canvas,
                board.width,
                board.height,
                board.blocks[i].codel_coordinates@[0],
                #[trigger] board.blocks[i].codel_coordinates@[j],
            ) by {
                assert(board.blocks[i].codel_coordinates@ == detected@[i].codel_coordinates@);
                let c0 = detected@[i].codel_coordinates@[0];
                let cj = detected@[i].codel_coordinates@[j];
                assert(connected(cv_raw, width, height, c0, cj));
                let p = choose|p: Seq<(usize, usize)>|
                    path_connects(cv_raw, p, c0, cj, width, height);
                assert(path_connects(cv, p, c0, cj, width, height)) by {
                    assert forall|k: int|
                        0 <= k < p.len() implies (#[trigger] p[k]).0 < width && p[k].1 < height
                        && color_class_at(cv, p[k]) == color_class_at(cv, c0) && color_class_at(
                        cv,
                        p[k],
                    ) is Some by {
                        assert(color_class_at(cv, p[k]) == color_class_at(cv_raw, p[k]));
                        assert(color_class_at(cv, c0) == color_class_at(cv_raw, c0));
                    }
                }
            }
            assert(regions_connected(board));
        }
        interpreter
    }
}

/// Writing region indices back does not change any cell's color class.
proof fn lemma_classes_preserved(
    cv_raw: Seq<Seq<Codel>>,
    cv: Seq<Seq<Codel>>,
    detected: Seq<Block>,
    width: usize,
    height: usize,
)
    requires
        forall|x: int, y: int|
            0 <= x < width && 0 <= y < height ==> #[trigger] assigned_cell_ok(
                cv_raw,
                cv,
                detected,
                x,
                y,
            ),
    ensures
        forall|c: (usize, usize)|
            c.0 < width && c.1 < height ==> #[trigger] color_class_at(cv, c) == color_class_at(
                cv_raw,
                c,
            ),
{
    assert forall|c: (usize, usize)| c.0 < width && c.1 < height implies #[trigger] color_class_at(
        cv,
        c,
    ) == color_class_at(cv_raw, c) by {
        assert(assigned_cell_ok(cv_raw, cv, detected, c.0 as int, c.1 as int));
    }
}

/// Assembling detected regions, the annotated grid, and the computed exit
/// tables yields a well-formed board.
proof fn lemma_board_assembled(
    cv_raw: Seq<Seq<Codel>>,
    cv: Seq<Seq<Codel>>,
    detected: Seq<Block>,
    blocks: Seq<Block>,
    width: usize,
    height: usize,
)
    requires
        1 <= width,
        1 <= height,
        grid_shape(cv_raw, width, height),
        grid_shape(cv, width, height),
        detected_blocks_ok(cv_raw, width, height, detected),
        forall|x: int, y: int|
            0 <= x < width && 0 <= y < height ==> #[trigger] assigned_cell_ok(
                cv_raw,
                cv,
                detected,
                x,
                y,
            ),
        blocks.len() == detected.len(),
        detected.len() <= usize::MAX,
        forall|i: int|
            0 <= i < detected.len() ==> (#[trigger] blocks[i]).codel_coordinates@
                == detected[i].codel_coordinates@ && blocks[i].hue == detected[i].hue
                && blocks[i].light == detected[i].light && blocks[i].exits_wf(),
    ensures
        board_wf(BoardV { canvas: cv, blocks: blocks, width: width, height: height }),
{
    let board = BoardV { canvas: cv, blocks: blocks, width: width, height: height };
    assert forall|x: int, y: int|
        0 <= x < width && 0 <= y < height implies #[trigger] cell_wf(board, x, y) by {
        assert(assigned_cell_ok(cv_raw, cv, detected, x, y));
        match cv_raw[y][x] {
            Codel::Color { hue, light, .. } => {
                let i = choose|i: int|
                    0 <= i < detected.len() && #[trigger] detected[i].codel_coordinates@.contains(
                        (x as usize, y as usize),
                    ) && cv[y][x] == (Codel::Color { hue, light, block_index: Some(i as usize) });
                assert(detected_block_inv(cv_raw, width, height, detected[i]));
                let j = choose|j: int|
                    0 <= j < detected[i].codel_coordinates@.len()
                        && detected[i].codel_coordinates@[j] == (x as usize, y as usize);
                assert(color_class_at(cv_raw, (x as usize, y as usize)) == Some(
                    (detected[i].hue, detected[i].light),
                ));
                assert(board.blocks[i].codel_coordinates@.contains((x as usize, y as usize)));
                assert(board.blocks[i].hue == hue && board.blocks[i].light == light);
                assert(((i as usize) as int) == i);
            },
            _ => {},
        }
    }
    assert(blocks_disjoint(board.blocks)) by {
        assert forall|i1: int, j1: int, i2: int, j2: int|
            0 <= i1 < board.blocks.len() && 0 <= j1 < board.blocks[i1].codel_coordinates@.len()
                && 0 <= i2 < board.blocks.len() && 0 <= j2
                < board.blocks[i2].codel_coordinates@.len()
                && #[trigger] board.blocks[i1].codel_coordinates@[j1]
                == #[trigger] board.blocks[i2].codel_coordinates@[j2] implies i1 == i2 && j1
            == j2 by {
            assert(board.blocks[i1].codel_coordinates@ == detected[i1].codel_coordinates@);
            assert(board.blocks[i2].codel_coordinates@ == detected[i2].codel_coordinates@);
            assert(detected[i1].codel_coordinates@[j1] == detected[i2].codel_coordinates@[j2]);
        }
    }
    assert forall|i: int| 0 <= i < board.blocks.len() implies #[trigger] block_wf(board, i) by {
        assert(detected_block_inv(cv_raw, width, height, detected[i]));
        assert(board.blocks[i].codel_coordinates@ == detected[i].codel_coordinates@);
        assert forall|j: int|
            0 <= j < board.blocks[i].codel_coordinates@.len() implies member_wf(
            board,
            i,
            #[trigger] board.blocks[i].codel_coordinates@[j],
        ) by {
            let m = board.blocks[i].codel_coordinates@[j];
            assert(color_class_at(cv_raw, m) == Some((detected[i].hue, detected[i].light)));
            assert(assigned_cell_ok(cv_raw, cv, detected, m.0 as int, m.1 as int));
            match cv_raw[m.1 as int][m.0 as int] {
                Codel::Color { hue, light, .. } => {
                    let i2 = choose|i2: int|
                        0 <= i2 < detected.len()
                            && #[trigger] detected[i2].codel_coordinates@.contains(
                            ((m.0 as int) as usize, (m.1 as int) as usize),
                        ) && cv[m.1 as int][m.0 as int] == (Codel::Color {
                            hue,
                            light,
                            block_index: Some(i2 as usize),
                        });
                    assert(((m.0 as int) as usize, (m.1 as int) as usize) == m);
                    let j2 = choose|j2: int|
                        0 <= j2 < detected[i2].codel_coordinates@.len()
                            && detected[i2].codel_coordinates@[j2] == m;
                    assert(detected[i].codel_coordinates@[j] == m);
                    assert(i2 == i && j2 == j);
                    assert(cv[m.1 as int][m.0 as int] == (Codel::Color {
                        hue: board.blocks[i].hue,
                        light: board.blocks[i].light,
                        block_index: Some(i as usize),
                    }));
                },
                _ => {
                    assert(false);
                },
            }
        }
    }
}

/// Two codels carry the same color classification, whatever their region
/// annotations.
pub open spec fn same_color_class(a: Codel, b: Codel) -> bool {
    match (a, b) {
        (
            Codel::Color { hue: h1, light: l1, .. },
            Codel::Color { hue: h2, light: l2, .. },
        ) => h1 == h2 && l1 == l2,
        (Codel::White, Codel::White) => true,
        (Codel::Black, Codel::Black) => true,
        _ => false,
    }
}

impl Interpreter {
    /// The codel at an on-board coordinate.
    fn codel_for(&self, coord: (usize, usize)) -> (r: Codel)
        requires
            engine_wf(self@),
            in_bounds(self@.board, coord),
        ensures
            r == codel_at(self@.board, coord),
    {
        proof {
            assert(self.canvas@.len() == self@.board.canvas.len());
            assert(self@.board.canvas[coord.1 as int] == self.canvas@[coord.1 as int]@);
        }
        self.canvas[coord.1][coord.0]
    }

    /// The region index recorded at a coordinate, if any.
    fn block_for_coord(&self, coord: (usize, usize)) -> (r: Option<usize>)
        requires
            engine_wf(self@),
            in_bounds(self@.board, coord),
        ensures
            r == block_index_at(self@.board, coord),
    {
        match self.codel_for(coord) {
            Codel::Color { block_index, .. } => block_index,
            _ => None,
        }
    }

    /// The region under the machine's position, if it stands on one.
    fn current_block(&self) -> (r: Option<usize>)
        requires
            engine_wf(self@),
        ensures
            r == block_index_at(self@.board, self@.position),
    {
        self.block_for_coord(self.current_position)
    }

    /// The coordinate one codel onward in the travel direction.
    fn find_next_codel_from(&self, start: (usize, usize)) -> (r: Option<(usize, usize)>)
        ensures
            r == next_in_dir(self@.dp, start, self@.board.width, self@.board.height),
    {
        match self.dp {
            DirectionPointer::Up => coord_up(start, self.width, self.height),
            DirectionPointer::Right => coord_right(start, self.width, self.height),
            DirectionPointer::Down => coord_down(start, self.width, self.height),
            DirectionPointer::Left => coord_left(start, self.width, self.height),
        }
    }

    /// Attempt one move: from the origin region's exit (or the bare position)
    /// walk in the travel direction.  Returns the new position, whether white
    /// was crossed, and whether a new region was entered; or nothing when the
    /// machine cannot move.
    fn find_next_codel(&self) -> (r: Option<((usize, usize), bool, bool)>)
        requires
            engine_wf(self@),
        ensures
            r == spec_find_next(self@.board, self@.dp, self@.cc, self@.position),
            match r {
                Some(t) => in_bounds(self@.board, t.0),
                None => true,
            },
    {
        let ghost board = self@.board;
        let origin = self.current_block();
        let mut coord: (usize, usize);
        match origin {
            Some(ob) => {
                proof {
                    assert(cell_wf(board, self@.position.0 as int, self@.position.1 as int));
                    assert(block_wf(board, ob as int));
                }
                match self.blocks[ob].exit_coordinates(&self.dp, &self.cc) {
                    Some(c) => {
                        proof {
                            let be = self.blocks@[ob as int].block_exit.unwrap();
                            assert(is_exit_codel(
                                self.blocks@[ob as int].codel_coordinates@,
                                self@.dp,
                                self@.cc,
                                spec_exit(be, self@.dp, self@.cc),
                            ));
                            let coords = self.blocks@[ob as int].codel_coordinates@;
                            assert(coords.contains(c));
                            let j = choose|j: int| 0 <= j < coords.len() && coords[j] == c;
                            assert(member_wf(board, ob as int, coords[j]));
                        }
                        coord = c;
                    },
                    None => {
                        proof {
                            assert(false);
                        }
                        return None;
                    },
                }
            },
            None => {
                coord = self.current_position;
            },
        }
        let ghost start0 = coord;
        let ghost target = walk_outcome(board, self@.dp, origin, start0, self@.position);
        proof {
            assert(spec_find_next(board, self@.dp, self@.cc, self@.position) == target);
        }
        let mut traveled_through_white = false;
        loop
            invariant
                engine_wf(self@),
                board == self@.board,
                in_bounds(board, coord),
                origin == block_index_at(board, self@.position),
                target == walk_outcome(board, self@.dp, origin, start0, self@.position),
                spec_find_next(board, self@.dp, self@.cc, self@.position) == target,
                spec_walk(board, self@.dp, origin, coord, traveled_through_white) == spec_walk(
                    board,
                    self@.dp,
                    origin,
                    start0,
                    false,
                ),
            ensures
                engine_wf(self@),
                board == self@.board,
                in_bounds(board, coord),
                origin == block_index_at(board, self@.position),
                spec_find_next(board, self@.dp, self@.cc, self@.position) == target,
                target == walk_outcome(board, self@.dp, origin, start0, self@.position),
                spec_walk(board, self@.dp, origin, start0, false) == (Walked::Stopped { coord }),
            decreases walk_measure(self@.dp, coord, board.width, board.height),
        {
            let next = self.find_next_codel_from(coord);
            proof {
                lemma_next_in_dir_bounds(self@.dp, coord, board.width, board.height);
            }
            match next {
                None => {
                    proof {
                        lemma_walk_unfold(board, self@.dp, origin, coord, traveled_through_white);
                        assert(spec_walk(board, self@.dp, origin, coord, traveled_through_white)
                            == (Walked::Stopped { coord }));
                    }
                    break;
                },
                Some(nc) => {
                    proof {
                        assert(in_bounds(board, nc));
                        assert(cell_wf(board, nc.0 as int, nc.1 as int));
                    }
                    match self.codel_for(nc) {
                        Codel::Black => {
                            proof {
                                lemma_walk_unfold(
                                    board,
                                    self@.dp,
                                    origin,
                                    coord,
                                    traveled_through_white,
                                );
                                assert(spec_walk(
                                    board,
                                    self@.dp,
                                    origin,
                                    coord,
                                    traveled_through_white,
                                ) == (Walked::Stopped { coord }));
                            }
                            break;
                        },
                        Codel::White => {
                            proof {
                                lemma_walk_unfold(
                                    board,
                                    self@.dp,
                                    origin,
                                    coord,
                                    traveled_through_white,
                                );
                            }
                            traveled_through_white = true;
                            coord = nc;
                        },
                        Codel::Color { block_index, .. } => {
                            proof {
                                lemma_walk_unfold(
                                    board,
                                    self@.dp,
                                    origin,
                                    coord,
                                    traveled_through_white,
                                );
                            }
                            match block_index {
                                None => {
                                    proof {
                                        assert(false);
                                    }
                                    return None;
                                },
                                Some(bi) => {
                                    match origin {
                                        Some(ob) => {
                                            if bi != ob {
                                                proof {
                                                    assert(spec_walk(
                                                        board,
                                                        self@.dp,
                                                        origin,
                                                        start0,
                                                        false,
                                                    ) == (Walked::Entered {
                                                        pos: nc,
                                                        white: traveled_through_white,
                                                    }));
                                                }
                                                return Some((nc, traveled_through_white, true));
                                            } else {
                                                coord = nc;
                                            }
                                        },
                                        None => {
                                            proof {
                                                assert(spec_walk(
                                                    board,
                                                    self@.dp,
                                                    origin,
                                                    start0,
                                                    false,
                                                ) == (Walked::Entered { pos: nc, white: true }));
                                            }
                                            return Some((nc, true, true));
                                        },
                                    }
                                },
                            }
                        },
                    }
                },
            }
        }
        match origin {
            Some(_) => {
                match self.block_for_coord(coord) {
                    Some(_) => None,
                    None => Some((coord, true, false)),
                }
            },
            None => {
                let pos = self.current_position;
                if coord.0 != pos.0 || coord.1 != pos.1 {
                    Some((coord, true, false))
                } else {
                    None
                }
            },
        }
    }

    /// Look up the origin region under a coordinate and run one instruction
    /// against the machine, with that region's size as the Push operand.
    fn execute(&mut self, command: Command, old_position: (usize, usize))
        requires
            engine_wf(old(self)@),
            in_bounds(old(self)@.board, old_position),
        ensures
            final(self)@ == spec_apply_command(old(self)@, command, old_position),
    {
        proof {
            assert(self.canvas@.len() == self@.board.canvas.len());
            assert(self@.board.canvas[old_position.1 as int]
                == self.canvas@[old_position.1 as int]@);
            assert(cell_wf(self@.board, old_position.0 as int, old_position.1 as int));
        }
        if let Codel::Color { block_index, .. } = self.canvas[old_position.1][old_position.0] {
            if let Some(block_index) = block_index {
                let block_size = self.blocks[block_index].size();
                let eff = command.execute(
                    &mut self.stack,
                    &mut self.dp,
                    &mut self.cc,
                    block_size,
                );
                let mut out = eff.output;
                self.output.append(&mut out);
                self.pending_request = eff.request;
            }
        }
    }

    /// Decode the instruction for a move between two region coordinates.
    fn command_to_execute(&self, old_position: (usize, usize), new_position: (usize, usize)) -> (r:
        Option<Command>)
        requires
            engine_wf(self@),
            in_bounds(self@.board, old_position),
            in_bounds(self@.board, new_position),
        ensures
            r == spec_command_from(spec_light_hue_diff(self@, old_position, new_position)),
    {
        Command::from(self.light_and_hue_difference(old_position, new_position))
    }

    /// The light and hue deltas between the regions under two coordinates.
    fn light_and_hue_difference(&self, coord1: (usize, usize), coord2: (usize, usize)) -> (r: (
        u8,
        u8,
    ))
        requires
            engine_wf(self@),
            in_bounds(self@.board, coord1),
            in_bounds(self@.board, coord2),
        ensures
            r == spec_light_hue_diff(self@, coord1, coord2),
    {
        let b1 = self.block_for_coord(coord1);
        let b2 = self.block_for_coord(coord2);
        match (b1, b2) {
            (Some(i1), Some(i2)) => {
                proof {
                    assert(cell_wf(self@.board, coord1.0 as int, coord1.1 as int));
                    assert(cell_wf(self@.board, coord2.0 as int, coord2.1 as int));
                    assert(block_wf(self@.board, i1 as int));
                    assert(block_wf(self@.board, i2 as int));
                }
                let blk1 = &self.blocks[i1];
                let blk2 = &self.blocks[i2];
                let light_diff = (blk2.light + 3 - blk1.light) % 3;
                let hue_diff = (blk2.hue + 6 - blk1.hue) % 6;
                (light_diff, hue_diff)
            },
            _ => (0, 0),
        }
    }

    /// Whether the configured step limit has been reached.
    fn max_steps_reached(&self) -> (r: bool)
        ensures
            r == (!self@.unlimited_steps && self@.step_counter >= self@.max_steps),
    {
        !self.unlimited_steps && self.step_counter >= self.max_steps
    }

    /// Whether eight pointer toggles have happened without a move.
    fn program_should_end(&self) -> (r: bool)
        ensures
            r == (self@.toggles >= 8),
    {
        self.toggled_pointers_without_move >= 8
    }

    /// Stop the machine.
    fn exit(&mut self)
        requires
            engine_wf(old(self)@),
        ensures
            final(self)@ == (StateV { alive: false, ..old(self)@ }),
    {
        self.alive = false;
    }

    /// Toggle one pointer, alternating between the two.
    fn toogle_counters(&mut self)
        requires
            engine_wf(old(self)@),
        ensures
            final(self)@ == toggled(old(self)@),
    {
        match self.last_toggled_pointer {
            Counters::DirectionPointer => {
                self.last_toggled_pointer = Counters::CodelChooser;
                self.cc = match self.cc {
                    CodelChooser::Right => CodelChooser::Left,
                    CodelChooser::Left => CodelChooser::Right,
                };
            },
            Counters::CodelChooser => {
                self.last_toggled_pointer = Counters::DirectionPointer;
                self.dp = match self.dp {
                    DirectionPointer::Up => DirectionPointer::Right,
                    DirectionPointer::Right => DirectionPointer::Down,
                    DirectionPointer::Down => DirectionPointer::Left,
                    DirectionPointer::Left => DirectionPointer::Up,
                };
            },
        }
    }

    /// Perform one step of the machine, as `spec_step` describes: count the
    /// step, stop at the step limit or after eight fruitless toggles,
    /// otherwise attempt a move, execute the decoded instruction on entering
    /// a new region without a white transit, and toggle a pointer when
    /// blocked.  Only entering a new region clears the toggle counter; a walk
    /// that moved but ended blocked keeps it.  A dead machine, or one still
    /// waiting for input, is left unchanged.
    pub fn advance(&mut self)
        requires
            engine_wf(old(self)@),
        ensures
            final(self)@ == spec_step(old(self)@),
            engine_wf(final(self)@),
    {
        if !self.alive {
            return;
        }
        if self.pending_request.is_some() {
            return;
        }
        if self.step_counter < u128::MAX {
            self.step_counter = self.step_counter + 1;
        }
        if self.max_steps_reached() || self.program_should_end() {
            self.exit();
            return;
        }
        match self.find_next_codel() {
            Some((new_position, traveled_through_white, reached_new_block)) => {
                let old_position = self.current_position;
                self.current_position = new_position;
                if reached_new_block {
                    self.toggled_pointers_without_move = 0;
                    if !traveled_through_white {
                        let cmd = self.command_to_execute(old_position, new_position);
                        match cmd {
                            Some(c) => {
                                self.execute(c, old_position);
                            },
                            None => {},
                        }
                    }
                } else {
                    self.toogle_counters();
                }
            },
            None => {
                self.toggled_pointers_without_move = self.toggled_pointers_without_move + 1;
                self.toogle_counters();
            },
        }
    }

    /// Answer a pending byte request from InChar: push the byte, or run
    /// nothing when input is exhausted.  Ignored without a pending byte
    /// request.
    pub fn provide_input_byte(&mut self, b: Option<u8>)
        ensures
            final(self)@ == spec_provide_byte(old(self)@, b),
    {
        match self.pending_request {
            Some(InputRequest::Byte) => {
                self.pending_request = None;
                match b {
                    Some(v) => {
                        self.stack.push(v as i64);
                    },
                    None => {},
                }
            },
            _ => {},
        }
    }

    /// Answer a pending number request from InNumber with one line of input:
    /// parse it as a decimal signed 64-bit number and push it, or run nothing
    /// when the line is missing or does not parse.  Ignored without a pending
    /// number request.
    pub fn provide_input_line(&mut self, line: Option<Vec<u8>>)
        ensures
            final(self)@ == spec_provide_line(
                old(self)@,
                match line {
                    Some(v) => Some(v@),
                    None => None,
                },
            ),
    {
        match self.pending_request {
            Some(InputRequest::NumberLine) => {
                self.pending_request = None;
                match line {
                    Some(bs) => {
                        match parse_i64(&bs) {
                            Some(n) => {
                                self.stack.push(n);
                            },
                            None => {},
                        }
                    },
                    None => {},
                }
            },
            _ => {},
        }
    }

    /// The input request the machine is waiting on, if any.
    pub fn pending_input(&self) -> (r: Option<InputRequest>)
        ensures
            r == self@.pending,
    {
        self.pending_request
    }

    /// Drain the bytes written to standard output so far.
    pub fn take_output(&mut self) -> (r: Vec<u8>)
        ensures
            r@ == old(self)@.output,
            final(self)@ == (StateV { output: Seq::<u8>::empty(), ..old(self)@ }),
    {
        let r = self.output.split_off(0);
        proof {
            assert(r@ =~= old(self)@.output);
            assert(self.output@ =~= Seq::<u8>::empty());
        }
        r
    }

    /// A copy of the stack, bottom first.
    pub fn stack_values(&self) -> (r: Vec<i64>)
        ensures
            r@ == self@.stack,
    {
        let mut r: Vec<i64> = Vec::new();
        let mut i: usize = 0;
        while i < self.stack.len()
            invariant
                0 <= i <= self.stack@.len(),
                r@ == self.stack@.subrange(0, i as int),
            decreases self.stack@.len() - i,
        {
            r.push(self.stack[i]);
            proof {
                assert(r@ =~= self.stack@.subrange(0, i + 1));
            }
            i = i + 1;
        }
        proof {
            assert(r@ =~= self.stack@);
        }
        r
    }

    /// The machine's current position on the grid.
    pub fn position(&self) -> (r: (usize, usize))
        ensures
            r == self@.position,
    {
        self.current_position
    }

    /// How many steps the machine has counted.
    pub fn steps_taken(&self) -> (r: u128)
        ensures
            r == self@.step_counter,
    {
        self.step_counter
    }
}

/// The machine after `n` calls of `advance`, each preceded by a host that
/// answers any pending input request with no data (end of input).
pub open spec fn run_steps_at_eof(s: StateV, n: nat) -> StateV
    decreases n,
{
    if n == 0 {
        s
    } else {
        spec_step(clear_pending_at_eof(run_steps_at_eof(s, (n - 1) as nat)))
    }
}

/// Answer whatever input request is pending with no data.
pub open spec fn clear_pending_at_eof(s: StateV) -> StateV {
    spec_provide_byte(spec_provide_line(s, None), None)
}

/// Facts every step preserves: the board and the configuration never change,
/// a dead machine stays exactly as it is, and an answered step counts.
pub proof fn lemma_step_basic(s: StateV)
    ensures
        spec_step(s).board == s.board,
        spec_step(s).max_steps == s.max_steps,
        spec_step(s).unlimited_steps == s.unlimited_steps,
        !s.alive ==> spec_step(s) == s,
        spec_step(s).alive ==> s.alive,
        (s.alive && s.pending is None) ==> spec_step(s).step_counter == (if s.step_counter
            < u128::MAX {
            (s.step_counter + 1) as u128
        } else {
            u128::MAX
        }),
        (s.alive && s.pending is None && !s.unlimited_steps && spec_step(s).step_counter
            >= s.max_steps) ==> !spec_step(s).alive,
{
}

/// Answering a request with no data only clears the request.
pub proof fn lemma_clear_pending_at_eof(s: StateV)
    ensures
        clear_pending_at_eof(s) == (StateV { pending: None::<InputRequest>, ..s }),
{
    match s.pending {
        Some(InputRequest::Byte) => {
            assert(spec_provide_line(s, None) == s);
        },
        Some(InputRequest::NumberLine) => {
            assert(spec_provide_line(s, None) == (StateV {
                pending: None::<InputRequest>,
                ..s
            }));
        },
        None => {
            assert(s == (StateV { pending: None::<InputRequest>, ..s }));
        },
    }
}

/// With a step limit in force, the engine is dead after at most the limit's
/// worth of answered calls: each call counts one step, and the call that
/// reaches the limit stops the machine.
pub proof fn lemma_step_limit_halts(s: StateV, n: nat)
    requires
        !s.unlimited_steps,
        n >= 1,
        s.step_counter + n >= s.max_steps,
    ensures
        !run_steps_at_eof(s, n).alive,
    decreases n,
{
    if n == 1 {
        let c = clear_pending_at_eof(s);
        lemma_clear_pending_at_eof(s);
        lemma_step_basic(c);
    } else {
        let prev = run_steps_at_eof(s, (n - 1) as nat);
        lemma_run_counter_grows(s, (n - 1) as nat);
        if prev.alive {
            let c = clear_pending_at_eof(prev);
            lemma_clear_pending_at_eof(prev);
            lemma_step_basic(c);
        } else {
            let c = clear_pending_at_eof(prev);
            lemma_clear_pending_at_eof(prev);
            lemma_step_basic(c);
        }
    }
}

/// Along an answered run the configuration is stable and, while the machine
/// lives, the step counter has grown with every call (up to saturation).
pub proof fn lemma_run_counter_grows(s: StateV, n: nat)
    ensures
        run_steps_at_eof(s, n).board == s.board,
        run_steps_at_eof(s, n).max_steps == s.max_steps,
        run_steps_at_eof(s, n).unlimited_steps == s.unlimited_steps,
        run_steps_at_eof(s, n).alive ==> s.alive,
        run_steps_at_eof(s, n).alive ==> run_steps_at_eof(s, n).step_counter >= s.step_counter
            + n || run_steps_at_eof(s, n).step_counter == u128::MAX,
    decreases n,
{
    if n > 0 {
        let prev = run_steps_at_eof(s, (n - 1) as nat);
        lemma_run_counter_grows(s, (n - 1) as nat);
        let c = clear_pending_at_eof(prev);
        lemma_clear_pending_at_eof(prev);
        lemma_step_basic(c);
    }
}

/// Every codel of the board is black.
pub open spec fn board_all_black(board: BoardV) -> bool {
    forall|c: (usize, usize)|
        c.0 < board.width && c.1 < board.height ==> (#[trigger] codel_at(board, c))
            is Black
}

/// On an all-black board no move attempt succeeds.
proof fn lemma_all_black_no_move(board: BoardV, dp: DirectionPointer, cc: CodelChooser, position: (usize, usize))
    requires
        board_wf(board),
        board_all_black(board),
        position.0 < board.width,
        position.1 < board.height,
    ensures
        spec_find_next(board, dp, cc, position) is None,
{
    assert(codel_at(board, position) is Black);
    lemma_walk_unfold(board, dp, None, position, false);
    match next_in_dir(dp, position, board.width, board.height) {
        None => {},
        Some(nc) => {
            lemma_next_in_dir_bounds(dp, position, board.width, board.height);
            assert(codel_at(board, nc) is Black);
        },
    }
    assert(spec_walk(board, dp, None, position, false) == (Walked::Stopped { coord: position }));
}

/// One step on an all-black board: the machine either dies or records one
/// more fruitless toggle, with everything else in place.
proof fn lemma_all_black_step(s: StateV)
    requires
        engine_wf(s),
        board_all_black(s.board),
        s.pending is None,
        s.alive,
    ensures
        engine_wf(spec_step(s)),
        spec_step(s).board == s.board,
        spec_step(s).pending is None,
        spec_step(s).position == s.position,
        spec_step(s).alive ==> spec_step(s).toggles == s.toggles + 1,
{
    lemma_all_black_no_move(s.board, s.dp, s.cc, s.position);
    lemma_step_basic(s);
}

/// A machine on an all-black grid halts within eight fruitless toggles:
/// after nine answered calls it is no longer alive.
pub proof fn lemma_all_black_halts(s: StateV)
    requires
        engine_wf(s),
        board_all_black(s.board),
        s.pending is None,
    ensures
        !run_steps_at_eof(s, 9).alive,
{
    lemma_all_black_run(s, 9);
    if run_steps_at_eof(s, 9).alive {
        assert(run_steps_at_eof(s, 9).toggles >= 9);
        assert(engine_wf(run_steps_at_eof(s, 9)));
    }
}

/// Along an answered run on an all-black board, a live machine has gained
/// one toggle per call.
proof fn lemma_all_black_run(s: StateV, n: nat)
    requires
        engine_wf(s),
        board_all_black(s.board),
        s.pending is None,
    ensures
        engine_wf(run_steps_at_eof(s, n)),
        run_steps_at_eof(s, n).board == s.board,
        run_steps_at_eof(s, n).pending is None,
        run_steps_at_eof(s, n).alive ==> run_steps_at_eof(s, n).toggles >= s.toggles + n,
    decreases n,
{
    if n > 0 {
        let prev = run_steps_at_eof(s, (n - 1) as nat);
        lemma_all_black_run(s, (n - 1) as nat);
        let c = clear_pending_at_eof(prev);
        lemma_clear_pending_at_eof(prev);
        if prev.alive {
            lemma_all_black_step(c);
        } else {
            lemma_step_basic(c);
        }
    }
}

/// No codel of the board is colored.
pub open spec fn board_has_no_color(board: BoardV) -> bool {
    forall|c: (usize, usize)|
        c.0 < board.width && c.1 < board.height ==> !((#[trigger] codel_at(board, c)) is Color)
}

/// The cell ahead of `c` in the direction of `dp` is the edge or black: a
/// walk starting there cannot move.
pub open spec fn wall_ahead(board: BoardV, dp: DirectionPointer, c: (usize, usize)) -> bool {
    match next_in_dir(dp, c, board.width, board.height) {
        None => true,
        Some(nc) => codel_at(board, nc) is Black,
    }
}

/// On a board without colored codels, every walk stops against a wall.
proof fn lemma_no_color_walk(
    board: BoardV,
    dp: DirectionPointer,
    origin: Option<usize>,
    coord: (usize, usize),
    white: bool,
)
    requires
        board_has_no_color(board),
        coord.0 < board.width,
        coord.1 < board.height,
    ensures
        match spec_walk(board, dp, origin, coord, white) {
            Walked::Stopped { coord: e } => e.0 < board.width && e.1 < board.height && wall_ahead(
                board,
                dp,
                e,
            ),
            Walked::Entered { .. } => false,
        },
    decreases walk_measure(dp, coord, board.width, board.height),
{
    lemma_walk_unfold(board, dp, origin, coord, white);
    match next_in_dir(dp, coord, board.width, board.height) {
        None => {},
        Some(nc) => {
            lemma_next_in_dir_bounds(dp, coord, board.width, board.height);
            match codel_at(board, nc) {
                Codel::Black => {},
                Codel::White => {
                    lemma_no_color_walk(board, dp, origin, nc, true);
                },
                Codel::Color { .. } => {
                    assert(false);
                },
            }
        },
    }
}

/// On a board without colored codels, a move attempt either fails against
/// the wall ahead of the position, or slides to a new wall-blocked spot
/// without entering any region.
proof fn lemma_no_color_find(
    board: BoardV,
    dp: DirectionPointer,
    cc: CodelChooser,
    position: (usize, usize),
)
    requires
        board_has_no_color(board),
        position.0 < board.width,
        position.1 < board.height,
    ensures
        match spec_find_next(board, dp, cc, position) {
            None => wall_ahead(board, dp, position),
            Some(t) => t.2 == false && t.0 != position && t.0.0 < board.width && t.0.1
                < board.height && wall_ahead(board, dp, t.0),
        },
{
    assert(!(codel_at(board, position) is Color));
    lemma_no_color_walk(board, dp, None, position, false);
}

/// A halting measure for boards without colored codels: the toggles still
/// available, weighted, plus how many wall-free slides can still happen
/// before the next fruitless toggle.
pub open spec fn no_color_measure(s: StateV) -> int {
    (8 - s.toggles) * 3 + (if wall_ahead(s.board, s.dp, s.position) {
        0int
    } else if s.last_toggled == Counters::DirectionPointer {
        1int
    } else {
        2int
    })
}

/// One step on a board without colored codels: the machine dies or its
/// halting measure strictly drops, and nothing else observable happens.
proof fn lemma_no_color_step(s: StateV)
    requires
        engine_wf(s),
        board_has_no_color(s.board),
        s.pending is None,
        s.alive,
    ensures
        engine_wf(spec_step(s)),
        spec_step(s).board == s.board,
        spec_step(s).pending is None,
        spec_step(s).alive ==> no_color_measure(spec_step(s)) < no_color_measure(s),
{
    lemma_step_basic(s);
    let counter: u128 = if s.step_counter < u128::MAX {
        (s.step_counter + 1) as u128
    } else {
        u128::MAX
    };
    let s1 = StateV { step_counter: counter, ..s };
    if (!s1.unlimited_steps && counter >= s1.max_steps) || s1.toggles >= 8 {
    } else {
        lemma_no_color_find(s.board, s.dp, s.cc, s.position);
        match spec_find_next(s1.board, s1.dp, s1.cc, s1.position) {
            None => {},
            Some((pos, white, reached)) => {
                assert(!reached);
                assert(!wall_ahead(s.board, s.dp, s.position)) by {
                    lemma_walk_unfold(s.board, s.dp, None, s.position, false);
                }
                let s2 = toggled(StateV { position: pos, ..s1 });
                match s.last_toggled {
                    Counters::DirectionPointer => {
                        assert(s2.dp == s.dp);
                        assert(wall_ahead(s2.board, s2.dp, s2.position));
                    },
                    Counters::CodelChooser => {
                        assert(s2.last_toggled == Counters::DirectionPointer);
                    },
                }
            },
        }
    }
}

/// Along an answered run on a board without colored codels, the halting
/// measure has dropped with every call that left the machine alive.
proof fn lemma_no_color_run(s: StateV, n: nat)
    requires
        engine_wf(s),
        board_has_no_color(s.board),
        s.pending is None,
    ensures
        engine_wf(run_steps_at_eof(s, n)),
        run_steps_at_eof(s, n).board == s.board,
        run_steps_at_eof(s, n).pending is None,
        run_steps_at_eof(s, n).alive ==> no_color_measure(run_steps_at_eof(s, n))
            <= no_color_measure(s) - n,
    decreases n,
{
    if n > 0 {
        let prev = run_steps_at_eof(s, (n - 1) as nat);
        lemma_no_color_run(s, (n - 1) as nat);
        let c = clear_pending_at_eof(prev);
        lemma_clear_pending_at_eof(prev);
        if prev.alive {
            lemma_no_color_step(c);
        } else {
            lemma_step_basic(c);
        }
    }
}

/// A machine on a board without any colored codel halts: with no region to
/// enter, no move ever clears the toggle counter, so within twenty-seven
/// answered calls the machine is dead.  (On such a board every call either
/// toggles fruitlessly or slides through white to a wall, and at most two
/// slides can separate consecutive fruitless toggles.)
pub proof fn lemma_no_color_halts(s: StateV)
    requires
        engine_wf(s),
        board_has_no_color(s.board),
        s.pending is None,
    ensures
        !run_steps_at_eof(s, 27).alive,
{
    lemma_no_color_run(s, 27);
    if run_steps_at_eof(s, 27).alive {
        assert(no_color_measure(s) <= 26);
        assert(no_color_measure(run_steps_at_eof(s, 27)) >= 0) by {
            assert(engine_wf(run_steps_at_eof(s, 27)));
        }
    }
}

/// Writing back a just-read byte below 128 reproduces it exactly: the byte
/// pushed by InChar is its own UTF-8 encoding, so OutChar emits that byte
/// and leaves the stack as it was before the read.
pub proof fn lemma_in_char_out_char_identity(s: StateV, b: u8)
    requires
        s.pending == Some(InputRequest::Byte),
        b < 128,
    ensures
        ({
            let s1 = spec_provide_byte(s, Some(b));
            let o = spec_execute(Command::OutChar, s1.stack, s1.dp, s1.cc, 0);
            o.stack == s.stack && o.output == seq![b] && o.request is None
        }),
{
    let s1 = spec_provide_byte(s, Some(b));
    assert(s1.stack == s.stack.push(b as i64));
    assert(is_unicode_scalar(b as int));
    assert(utf8_bytes(b as int) =~= seq![b]);
    let o = spec_execute(Command::OutChar, s1.stack, s1.dp, s1.cc, 0);
    assert(o.stack =~= s.stack);
}

/// Every colored cell belongs to exactly one region: any region that holds
/// its coordinate is the one its annotation names.
pub proof fn lemma_color_cell_unique_region(board: BoardV, c: (usize, usize), i: int)
    requires
        board_wf(board),
        c.0 < board.width,
        c.1 < board.height,
        0 <= i < board.blocks.len(),
        board.blocks[i].codel_coordinates@.contains(c),
    ensures
        block_index_at(board, c) == Some(i as usize),
{
    assert(block_wf(board, i));
    let coords = board.blocks[i].codel_coordinates@;
    let j = choose|j: int| 0 <= j < coords.len() && coords[j] == c;
    assert(member_wf(board, i, coords[j]));
}

/// All members of a region carry the same hue and light: the region's own.
pub proof fn lemma_region_members_share_color(board: BoardV, i: int, j1: int, j2: int)
    requires
        board_wf(board),
        0 <= i < board.blocks.len(),
        0 <= j1 < board.blocks[i].codel_coordinates@.len(),
        0 <= j2 < board.blocks[i].codel_coordinates@.len(),
    ensures
        color_class_at(board.canvas, board.blocks[i].codel_coordinates@[j1]) == Some(
            (board.blocks[i].hue, board.blocks[i].light),
        ),
        color_class_at(board.canvas, board.blocks[i].codel_coordinates@[j1]) == color_class_at(
            board.canvas,
            board.blocks[i].codel_coordinates@[j2],
        ),
{
    assert(block_wf(board, i));
    assert(member_wf(board, i, board.blocks[i].codel_coordinates@[j1]));
    assert(member_wf(board, i, board.blocks[i].codel_coordinates@[j2]));
}

/// Every entry of a region's exit table is a member of that region.
pub proof fn lemma_exit_is_member(
    board: BoardV,
    i: int,
    dp: DirectionPointer,
    cc: CodelChooser,
)
    requires
        board_wf(board),
        0 <= i < board.blocks.len(),
    ensures
        board.blocks[i].block_exit is Some,
        board.blocks[i].codel_coordinates@.contains(
            spec_exit(board.blocks[i].block_exit.unwrap(), dp, cc),
        ),
{
    assert(block_wf(board, i));
    let be = board.blocks[i].block_exit.unwrap();
    assert(is_exit_codel(board.blocks[i].codel_coordinates@, dp, cc, spec_exit(be, dp, cc)));
}

/// `p` is a path of 4-adjacent, on-board, colored cells from `a` to `b`, all
/// sharing `a`'s hue and light.
pub open spec fn path_connects(
    canvas: Seq<Seq<Codel>>,
    p: Seq<(usize, usize)>,
    a: (usize, usize),
    b: (usize, usize),
    width: usize,
    height: usize,
) -> bool {
    &&& p.len() >= 1
    &&& p[0] == a
    &&& p[p.len() - 1] == b
    &&& forall|k: int|
        0 <= k < p.len() ==> (#[trigger] p[k]).0 < width && p[k].1 < height && color_class_at(
            canvas,
            p[k],
        ) == color_class_at(canvas, a) && color_class_at(canvas, p[k]) is Some
    &&& forall|k: int| 0 <= k < p.len() - 1 ==> adjacent4(#[trigger] p[k], p[k + 1])
}

/// Some path of 4-adjacent same-colored cells joins `a` and `b`.
pub open spec fn connected(
    canvas: Seq<Seq<Codel>>,
    width: usize,
    height: usize,
    a: (usize, usize),
    b: (usize, usize),
) -> bool {
    exists|p: Seq<(usize, usize)>| path_connects(canvas, p, a, b, width, height)
}

/// A colored cell is connected to itself.
pub proof fn lemma_connected_refl(
    canvas: Seq<Seq<Codel>>,
    width: usize,
    height: usize,
    a: (usize, usize),
)
    requires
        a.0 < width,
        a.1 < height,
        color_class_at(canvas, a) is Some,
    ensures
        connected(canvas, width, height, a, a),
{
    let p = seq![a];
    assert(path_connects(canvas, p, a, a, width, height));
}

/// Connectivity extends across one same-colored adjacency.
pub proof fn lemma_connected_extend(
    canvas: Seq<Seq<Codel>>,
    width: usize,
    height: usize,
    a: (usize, usize),
    m: (usize, usize),
    n: (usize, usize),
)
    requires
        connected(canvas, width, height, a, m),
        adjacent4(m, n),
        n.0 < width,
        n.1 < height,
        color_class_at(canvas, n) == color_class_at(canvas, a),
    ensures
        connected(canvas, width, height, a, n),
{
    let p = choose|p: Seq<(usize, usize)>| path_connects(canvas, p, a, m, width, height);
    let q = p.push(n);
    assert(q[q.len() - 1] == n);
    assert forall|k: int| 0 <= k < q.len() - 1 implies adjacent4(#[trigger] q[k], q[k + 1]) by {
        if k < p.len() - 1 {
            assert(q[k] == p[k] && q[k + 1] == p[k + 1]);
        } else {
            assert(q[k] == p[p.len() - 1] && q[k + 1] == n);
        }
    }
    assert(path_connects(canvas, q, a, n, width, height));
}

/// Connectivity is symmetric: the reversed path connects the other way.
pub proof fn lemma_connected_sym(
    canvas: Seq<Seq<Codel>>,
    width: usize,
    height: usize,
    a: (usize, usize),
    b: (usize, usize),
)
    requires
        connected(canvas, width, height, a, b),
    ensures
        connected(canvas, width, height, b, a),
{
    let p = choose|p: Seq<(usize, usize)>| path_connects(canvas, p, a, b, width, height);
    let n = p.len() as int;
    let q = Seq::new(p.len(), |k: int| p[n - 1 - k]);
    assert(q[0] == b);
    assert(q[q.len() - 1] == a);
    assert(color_class_at(canvas, b) == color_class_at(canvas, a));
    assert forall|k: int| 0 <= k < q.len() - 1 implies adjacent4(#[trigger] q[k], q[k + 1]) by {
        assert(q[k] == p[n - 1 - k] && q[k + 1] == p[n - 2 - k]);
        assert(adjacent4(p[n - 2 - k], p[n - 1 - k]));
    }
    assert(path_connects(canvas, q, b, a, width, height));
}

/// Connectivity is transitive: two paths compose.
pub proof fn lemma_connected_trans(
    canvas: Seq<Seq<Codel>>,
    width: usize,
    height: usize,
    a: (usize, usize),
    b: (usize, usize),
    c: (usize, usize),
)
    requires
        connected(canvas, width, height, a, b),
        connected(canvas, width, height, b, c),
    ensures
        connected(canvas, width, height, a, c),
{
    let p1 = choose|p: Seq<(usize, usize)>| path_connects(canvas, p, a, b, width, height);
    let p2 = choose|p: Seq<(usize, usize)>| path_connects(canvas, p, b, c, width, height);
    let q = p1 + p2.subrange(1, p2.len() as int);
    let n1 = p1.len() as int;
    let n2 = p2.len() as int;
    assert(q[0] == p1[0]);
    assert(color_class_at(canvas, b) == color_class_at(canvas, a));
    if n2 == 1 {
        assert(q =~= p1);
        assert(p2[0] == b && p2[n2 - 1] == c);
    } else {
        assert(q[q.len() - 1] == p2[n2 - 1]);
        assert forall|k: int|
            0 <= k < q.len() implies (#[trigger] q[k]).0 < width && q[k].1 < height
            && color_class_at(canvas, q[k]) == color_class_at(canvas, a) && color_class_at(
            canvas,
            q[k],
        ) is Some by {
            if k < n1 {
                assert(q[k] == p1[k]);
            } else {
                assert(q[k] == p2[k - n1 + 1]);
            }
        }
        assert forall|k: int|
            0 <= k < q.len() - 1 implies adjacent4(#[trigger] q[k], q[k + 1]) by {
            if k < n1 - 1 {
                assert(q[k] == p1[k] && q[k + 1] == p1[k + 1]);
            } else if k == n1 - 1 {
                assert(q[k] == p1[n1 - 1] && q[k + 1] == p2[1]);
                assert(p1[n1 - 1] == b && p2[0] == b);
                assert(adjacent4(p2[0], p2[1]));
            } else {
                assert(q[k] == p2[k - n1 + 1] && q[k + 1] == p2[k - n1 + 2]);
                assert(adjacent4(p2[k - n1 + 1], p2[k - n1 + 2]));
            }
        }
        assert(path_connects(canvas, q, a, c, width, height));
    }
}

/// Every region is closed under same-colored adjacency: a neighbor of a
/// member with the region's color is a member.
pub open spec fn regions_maximal(board: BoardV) -> bool {
    forall|i: int, j: int, c: (usize, usize)|
        0 <= i < board.blocks.len() && 0 <= j < board.blocks[i].codel_coordinates@.len() && c.0
            < board.width && c.1 < board.height && #[trigger] adjacent4(
            board.blocks[i].codel_coordinates@[j],
            c,
        ) && color_class_at(board.canvas, c) == Some(
            (board.blocks[i].hue, board.blocks[i].light),
        ) ==> board.blocks[i].codel_coordinates@.contains(c)
}

/// Every member of every region is connected to the region's first member.
pub open spec fn regions_connected(board: BoardV) -> bool {
    forall|i: int, j: int|
        0 <= i < board.blocks.len() && 0 <= j < board.blocks[i].codel_coordinates@.len()
            ==> connected(
            board.canvas,
            board.width,
            board.height,
            board.blocks[i].codel_coordinates@[0],
            #[trigger] board.blocks[i].codel_coordinates@[j],
        )
}

/// A same-colored path never leaves its region.
proof fn lemma_path_stays_in_region(board: BoardV, p: Seq<(usize, usize)>)
    requires
        board_wf(board),
        regions_maximal(board),
        p.len() >= 1,
        path_connects(board.canvas, p, p[0], p[p.len() - 1], board.width, board.height),
    ensures
        block_index_at(board, p[0]) == block_index_at(board, p[p.len() - 1]),
    decreases p.len(),
{
    let n = p.len() as int;
    if n >= 2 {
        let q = p.drop_last();
        assert(path_connects(board.canvas, q, p[0], p[n - 2], board.width, board.height)) by {
            assert(forall|k: int| 0 <= k < q.len() ==> #[trigger] q[k] == p[k]);
        }
        lemma_path_stays_in_region(board, q);
        let m = p[n - 2];
        let e = p[n - 1];
        assert(cell_wf(board, m.0 as int, m.1 as int));
        match board.canvas[m.1 as int][m.0 as int] {
            Codel::Color { hue, light, block_index } => {
                match block_index {
                    Some(i) => {
                        assert(block_wf(board, i as int));
                        let coords = board.blocks[i as int].codel_coordinates@;
                        assert(coords.contains(((m.0 as int) as usize, (m.1 as int) as usize)));
                        assert(((m.0 as int) as usize, (m.1 as int) as usize) == m);
                        let j = choose|j: int| 0 <= j < coords.len() && coords[j] == m;
                        assert(color_class_at(board.canvas, e) == color_class_at(
                            board.canvas,
                            m,
                        ));
                        assert(color_class_at(board.canvas, m) == Some((hue, light)));
                        assert(board.blocks[i as int].hue == hue);
                        assert(adjacent4(coords[j], e));
                        assert(coords.contains(e));
                        let je = choose|je: int| 0 <= je < coords.len() && coords[je] == e;
                        assert(member_wf(board, i as int, coords[je]));
                        assert(block_index_at(board, e) == Some(i));
                        assert(block_index_at(board, m) == Some(i));
                    },
                    None => {
                        assert(false);
                    },
                }
            },
            _ => {
                assert(false);
            },
        }
    }
}

/// Two colored cells lie in the same region exactly when a path of
/// 4-adjacent cells of the same hue and light joins them.
pub proof fn lemma_same_region_iff_connected(board: BoardV, a: (usize, usize), b: (usize, usize))
    requires
        board_wf(board),
        regions_maximal(board),
        regions_connected(board),
        a.0 < board.width,
        a.1 < board.height,
        b.0 < board.width,
        b.1 < board.height,
        color_class_at(board.canvas, a) is Some,
        color_class_at(board.canvas, b) is Some,
    ensures
        (block_index_at(board, a) == block_index_at(board, b)) <==> connected(
            board.canvas,
            board.width,
            board.height,
            a,
            b,
        ),
{
    assert(cell_wf(board, a.0 as int, a.1 as int));
    assert(cell_wf(board, b.0 as int, b.1 as int));
    if block_index_at(board, a) == block_index_at(board, b) {
        match block_index_at(board, a) {
            Some(i) => {
                assert(block_wf(board, i as int));
                let coords = board.blocks[i as int].codel_coordinates@;
                assert(coords.contains(a));
                assert(coords.contains(b));
                let ja = choose|j: int| 0 <= j < coords.len() && coords[j] == a;
                let jb = choose|j: int| 0 <= j < coords.len() && coords[j] == b;
                assert(connected(board.canvas, board.width, board.height, coords[0], a));
                assert(connected(board.canvas, board.width, board.height, coords[0], b));
                lemma_connected_sym(board.canvas, board.width, board.height, coords[0], a);
                lemma_connected_trans(board.canvas, board.width, board.height, a, coords[0], b);
            },
            None => {
                assert(false);
            },
        }
    }
    if connected(board.canvas, board.width, board.height, a, b) {
        let p = choose|p: Seq<(usize, usize)>| path_connects(
            board.canvas,
            p,
            a,
            b,
            board.width,
            board.height,
        );
        lemma_path_stays_in_region(board, p);
    }
}

/// A helper row-level statement of `assigned_cell_ok`.
pub open spec fn assigned_cell_row_ok(
    old_canvas: Seq<Seq<Codel>>,
    new_row: Seq<Codel>,
    blocks: Seq<Block>,
    x: int,
    y: int,
) -> bool {
    match old_canvas[y][x] {
        Codel::Color { hue, light, .. } => exists|i: int|
            0 <= i < blocks.len() && #[trigger] blocks[i].codel_coordinates@.contains(
                (x as usize, y as usize),
            ) && new_row[x] == (Codel::Color { hue, light, block_index: Some(i as usize) }),
        _ => new_row[x] == old_canvas[y][x],
    }
}

} // verus!
