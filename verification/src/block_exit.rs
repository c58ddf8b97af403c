//! Exit selection for a region: for each direction-pointer value the member
//! codels farthest that way form an edge, and the codel chooser picks one end
//! of that edge.  The eight choices are precomputed and cached per region.

use vstd::prelude::*;

use crate::counters::{CodelChooser, DirectionPointer};

verus! {

/// `c` lies at least as far in the direction of `dp` as `m`.
pub open spec fn farthest_in_dir(
    dp: DirectionPointer,
    c: (usize, usize),
    m: (usize, usize),
) -> bool {
    match dp {
        DirectionPointer::Up => c.1 <= m.1,
        DirectionPointer::Right => c.0 >= m.0,
        DirectionPointer::Down => c.1 >= m.1,
        DirectionPointer::Left => c.0 <= m.0,
    }
}

/// `c` and `m` are equally far in the direction of `dp`.
pub open spec fn same_rank(dp: DirectionPointer, c: (usize, usize), m: (usize, usize)) -> bool {
    match dp {
        DirectionPointer::Up => c.1 == m.1,
        DirectionPointer::Down => c.1 == m.1,
        DirectionPointer::Right => c.0 == m.0,
        DirectionPointer::Left => c.0 == m.0,
    }
}

/// Among equally far codels, `c` sits at least as far to the chooser's side
/// of the travel direction as `m`: to its left hand when `cc` is Left, to its
/// right hand when `cc` is Right.
pub open spec fn cc_prefers(
    dp: DirectionPointer,
    cc: CodelChooser,
    c: (usize, usize),
    m: (usize, usize),
) -> bool {
    match (dp, cc) {
        (DirectionPointer::Up, CodelChooser::Left) => c.0 <= m.0,
        (DirectionPointer::Up, CodelChooser::Right) => c.0 >= m.0,
        (DirectionPointer::Right, CodelChooser::Left) => c.1 <= m.1,
        (DirectionPointer::Right, CodelChooser::Right) => c.1 >= m.1,
        (DirectionPointer::Down, CodelChooser::Left) => c.0 >= m.0,
        (DirectionPointer::Down, CodelChooser::Right) => c.0 <= m.0,
        (DirectionPointer::Left, CodelChooser::Left) => c.1 >= m.1,
        (DirectionPointer::Left, CodelChooser::Right) => c.1 <= m.1,
    }
}

/// `e` is the exit of the codel list `s` for `(dp, cc)`: a member, farthest
/// in the direction of `dp`, and the `cc`-preferred codel of that edge.
pub open spec fn is_exit_codel(
    s: Seq<(usize, usize)>,
    dp: DirectionPointer,
    cc: CodelChooser,
    e: (usize, usize),
) -> bool {
    &&& s.contains(e)
    &&& forall|i: int| 0 <= i < s.len() ==> farthest_in_dir(dp, e, #[trigger] s[i])
    &&& forall|i: int|
        0 <= i < s.len() && same_rank(dp, e, #[trigger] s[i]) ==> cc_prefers(dp, cc, e, s[i])
}

/// The cached exit codels of one region, named by `(dp, cc)`.
#[derive(Clone, Copy, Debug)]
pub struct BlockExit {
    pub up_left: (usize, usize),
    pub up_right: (usize, usize),
    pub right_left: (usize, usize),
    pub right_right: (usize, usize),
    pub down_left: (usize, usize),
    pub down_right: (usize, usize),
    pub left_left: (usize, usize),
    pub left_right: (usize, usize),
}

/// The table entry for `(dp, cc)`.
pub open spec fn spec_exit(be: BlockExit, dp: DirectionPointer, cc: CodelChooser) -> (
    usize,
    usize,
) {
    match (dp, cc) {
        (DirectionPointer::Up, CodelChooser::Left) => be.up_left,
        (DirectionPointer::Up, CodelChooser::Right) => be.up_right,
        (DirectionPointer::Right, CodelChooser::Left) => be.right_left,
        (DirectionPointer::Right, CodelChooser::Right) => be.right_right,
        (DirectionPointer::Down, CodelChooser::Left) => be.down_left,
        (DirectionPointer::Down, CodelChooser::Right) => be.down_right,
        (DirectionPointer::Left, CodelChooser::Left) => be.left_left,
        (DirectionPointer::Left, CodelChooser::Right) => be.left_right,
    }
}

impl BlockExit {
    /// Scan a non-empty member list once per direction and cache the eight
    /// tie-broken extremes.
    pub fn from_coords(coords: &Vec<(usize, usize)>) -> (be: BlockExit)
        requires
            coords@.len() > 0,
        ensures
            forall|dp: DirectionPointer, cc: CodelChooser|
                is_exit_codel(coords@, dp, cc, #[trigger] spec_exit(be, dp, cc)),
    {
        let top = topmost_coords(coords);
        let right = rightmost_coords(coords);
        let bottom = bottommost_coords(coords);
        let left = leftmost_coords(coords);
        BlockExit {
            up_left: top.0,
            up_right: top.1,
            right_left: right.0,
            right_right: right.1,
            down_left: bottom.1,
            down_right: bottom.0,
            left_left: left.1,
            left_right: left.0,
        }
    }
}

/// Of the codels with the least `y`, the one with the least `x` and the one
/// with the greatest `x`.
pub fn topmost_coords(coords: &Vec<(usize, usize)>) -> (r: ((usize, usize), (usize, usize)))
    requires
        coords@.len() > 0,
    ensures
        is_exit_codel(coords@, DirectionPointer::Up, CodelChooser::Left, r.0),
        is_exit_codel(coords@, DirectionPointer::Up, CodelChooser::Right, r.1),
{
    let first = coords[0];
    let mut a = first;
    let mut b = first;
    let mut i: usize = 1;
    while i < coords.len()
        invariant
            1 <= i <= coords@.len(),
            a.1 == b.1,
            a.0 <= b.0,
            exists|j: int| 0 <= j < i && coords@[j] == a,
            exists|j: int| 0 <= j < i && coords@[j] == b,
            forall|j: int| 0 <= j < i ==> a.1 <= (#[trigger] coords@[j]).1,
            forall|j: int|
                0 <= j < i && (#[trigger] coords@[j]).1 == a.1 ==> a.0 <= coords@[j].0
                    && coords@[j].0 <= b.0,
        decreases coords@.len() - i,
    {
        let c = coords[i];
        if c.1 < a.1 {
            a = c;
            b = c;
        } else if c.1 == a.1 {
            if c.0 < a.0 {
                a = c;
            } else if c.0 > b.0 {
                b = c;
            }
        }
        i = i + 1;
    }
    (a, b)
}

/// Of the codels with the greatest `y`, the one with the least `x` and the
/// one with the greatest `x`.
pub fn bottommost_coords(coords: &Vec<(usize, usize)>) -> (r: ((usize, usize), (usize, usize)))
    requires
        coords@.len() > 0,
    ensures
        is_exit_codel(coords@, DirectionPointer::Down, CodelChooser::Right, r.0),
        is_exit_codel(coords@, DirectionPointer::Down, CodelChooser::Left, r.1),
{
    let first = coords[0];
    let mut a = first;
    let mut b = first;
    let mut i: usize = 1;
    while i < coords.len()
        invariant
            1 <= i <= coords@.len(),
            a.1 == b.1,
            a.0 <= b.0,
            exists|j: int| 0 <= j < i && coords@[j] == a,
            exists|j: int| 0 <= j < i && coords@[j] == b,
            forall|j: int| 0 <= j < i ==> a.1 >= (#[trigger] coords@[j]).1,
            forall|j: int|
                0 <= j < i && (#[trigger] coords@[j]).1 == a.1 ==> a.0 <= coords@[j].0
                    && coords@[j].0 <= b.0,
        decreases coords@.len() - i,
    {
        let c = coords[i];
        if c.1 > a.1 {
            a = c;
            b = c;
        } else if c.1 == a.1 {
            if c.0 < a.0 {
                a = c;
            } else if c.0 > b.0 {
                b = c;
            }
        }
        i = i + 1;
    }
    (a, b)
}

/// Of the codels with the greatest `x`, the one with the least `y` and the
/// one with the greatest `y`.
pub fn rightmost_coords(coords: &Vec<(usize, usize)>) -> (r: ((usize, usize), (usize, usize)))
    requires
        coords@.len() > 0,
    ensures
        is_exit_codel(coords@, DirectionPointer::Right, CodelChooser::Left, r.0),
        is_exit_codel(coords@, DirectionPointer::Right, CodelChooser::Right, r.1),
{
    let first = coords[0];
    let mut a = first;
    let mut b = first;
    let mut i: usize = 1;
    while i < coords.len()
        invariant
            1 <= i <= coords@.len(),
            a.0 == b.0,
            a.1 <= b.1,
            exists|j: int| 0 <= j < i && coords@[j] == a,
            exists|j: int| 0 <= j < i && coords@[j] == b,
            forall|j: int| 0 <= j < i ==> a.0 >= (#[trigger] coords@[j]).0,
            forall|j: int|
                0 <= j < i && (#[trigger] coords@[j]).0 == a.0 ==> a.1 <= coords@[j].1
                    && coords@[j].1 <= b.1,
        decreases coords@.len() - i,
    {
        let c = coords[i];
        if c.0 > a.0 {
            a = c;
            b = c;
        } else if c.0 == a.0 {
            if c.1 < a.1 {
                a = c;
            } else if c.1 > b.1 {
                b = c;
            }
        }
        i = i + 1;
    }
    (a, b)
}

/// Of the codels with the least `x`, the one with the least `y` and the one
/// with the greatest `y`.
pub fn leftmost_coords(coords: &Vec<(usize, usize)>) -> (r: ((usize, usize), (usize, usize)))
    requires
        coords@.len() > 0,
    ensures
        is_exit_codel(coords@, DirectionPointer::Left, CodelChooser::Right, r.0),
        is_exit_codel(coords@, DirectionPointer::Left, CodelChooser::Left, r.1),
{
    let first = coords[0];
    let mut a = first;
    let mut b = first;
    let mut i: usize = 1;
    while i < coords.len()
        invariant
            1 <= i <= coords@.len(),
            a.0 == b.0,
            a.1 <= b.1,
            exists|j: int| 0 <= j < i && coords@[j] == a,
            exists|j: int| 0 <= j < i && coords@[j] == b,
            forall|j: int| 0 <= j < i ==> a.0 <= (#[trigger] coords@[j]).0,
            forall|j: int|
                0 <= j < i && (#[trigger] coords@[j]).0 == a.0 ==> a.1 <= coords@[j].1
                    && coords@[j].1 <= b.1,
        decreases coords@.len() - i,
    {
        let c = coords[i];
        if c.0 < a.0 {
            a = c;
            b = c;
        } else if c.0 == a.0 {
            if c.1 < a.1 {
                a = c;
            } else if c.1 > b.1 {
                b = c;
            }
        }
        i = i + 1;
    }
    (a, b)
}

/// For each direction the two chosen exits lie on the region's extreme edge,
/// the chooser's left pick does not pass its right pick, and the two coincide
/// exactly when that edge holds a single codel.
pub proof fn lemma_exit_pair(
    s: Seq<(usize, usize)>,
    dp: DirectionPointer,
    el: (usize, usize),
    er: (usize, usize),
)
    requires
        is_exit_codel(s, dp, CodelChooser::Left, el),
        is_exit_codel(s, dp, CodelChooser::Right, er),
    ensures
        same_rank(dp, el, er),
        cc_prefers(dp, CodelChooser::Left, el, er),
        (el == er) <==> (forall|i: int|
            0 <= i < s.len() && same_rank(dp, #[trigger] s[i], el) ==> s[i] == el),
{
    let jl = choose|j: int| 0 <= j < s.len() && s[j] == el;
    let jr = choose|j: int| 0 <= j < s.len() && s[j] == er;
    assert(farthest_in_dir(dp, el, s[jr]));
    assert(farthest_in_dir(dp, er, s[jl]));
    assert(same_rank(dp, el, s[jr]));
    assert(cc_prefers(dp, CodelChooser::Left, el, s[jr]));
    if el == er {
        assert forall|i: int|
            0 <= i < s.len() && same_rank(dp, #[trigger] s[i], el) implies s[i] == el by {
            assert(cc_prefers(dp, CodelChooser::Left, el, s[i]));
            assert(same_rank(dp, er, s[i]));
            assert(cc_prefers(dp, CodelChooser::Right, er, s[i]));
        }
    }
    if forall|i: int| 0 <= i < s.len() && same_rank(dp, #[trigger] s[i], el) ==> s[i] == el {
        assert(s[jr] == el);
    }
}

} // verus!
