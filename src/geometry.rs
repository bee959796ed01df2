//! Grid positions and the eight unit directions.
use vstd::prelude::*;

verus! {

/// A point of the integer grid.
#[derive(Clone, Copy, Debug, PartialEq, Eq, Structural)]
pub struct Pos {
    pub x: isize,
    pub y: isize,
}

/// One of the eight compass directions a word may run in.
#[derive(Clone, Copy, Debug, PartialEq, Eq, Structural)]
pub enum Dir {
    North,
    South,
    East,
    West,
    NE,
    NW,
    SE,
    SW,
}

/// Every direction, each once.
pub open spec fn all_dirs() -> Seq<Dir> {
    seq![Dir::North, Dir::South, Dir::East, Dir::West, Dir::NE, Dir::NW, Dir::SE, Dir::SW]
}

impl Dir {
    /// Horizontal component of the unit step.
    pub open spec fn dx(self) -> int {
        match self {
            Dir::North | Dir::South => 0,
            Dir::East | Dir::NE | Dir::SE => 1,
            Dir::West | Dir::NW | Dir::SW => -1,
        }
    }

    /// Vertical component of the unit step.
    pub open spec fn dy(self) -> int {
        match self {
            Dir::East | Dir::West => 0,
            Dir::North | Dir::NE | Dir::NW => 1,
            Dir::South | Dir::SE | Dir::SW => -1,
        }
    }

    /// The unit displacement of this direction.
    pub fn pos_from_dir(&self) -> (r: Pos)
        ensures
            r.x == self.dx(),
            r.y == self.dy(),
    {
        match self {
            Dir::North => Pos { x: 0, y: 1 },
            Dir::South => Pos { x: 0, y: -1 },
            Dir::East => Pos { x: 1, y: 0 },
            Dir::West => Pos { x: -1, y: 0 },
            Dir::NE => Pos { x: 1, y: 1 },
            Dir::NW => Pos { x: -1, y: 1 },
            Dir::SE => Pos { x: 1, y: -1 },
            Dir::SW => Pos { x: -1, y: -1 },
        }
    }
}

/// The cell reached from `start` after `i` steps in direction `d`.
pub open spec fn step(start: Pos, d: Dir, i: int) -> (int, int) {
    (start.x + d.dx() * i, start.y + d.dy() * i)
}

/// Whether `(x, y)` lies in the `w` by `h` grid.
pub open spec fn in_grid(x: int, y: int, w: int, h: int) -> bool {
    0 <= x < w && 0 <= y < h
}

/// Whether every one of the `len` cells of the run from `start` along `d`
/// lies in the `w` by `h` grid.
pub open spec fn fits(start: Pos, d: Dir, len: int, w: int, h: int) -> bool {
    forall|i: int| 0 <= i < len ==> #[trigger] cell_in_grid(step(start, d, i), w, h)
}

/// Whether a cell given as a pair lies in the `w` by `h` grid.
pub open spec fn cell_in_grid(c: (int, int), w: int, h: int) -> bool {
    in_grid(c.0, c.1, w, h)
}

impl Pos {
    /// Translation by a displacement.
    pub fn add(self, rhs: Pos) -> (r: Pos)
        requires
            isize::MIN <= self.x + rhs.x <= isize::MAX,
            isize::MIN <= self.y + rhs.y <= isize::MAX,
        ensures
            r.x == self.x + rhs.x,
            r.y == self.y + rhs.y,
    {
        Pos { x: self.x + rhs.x, y: self.y + rhs.y }
    }

    /// Scaling of a displacement by `n`.
    pub fn mul(self, n: isize) -> (r: Pos)
        requires
            isize::MIN <= self.x * n <= isize::MAX,
            isize::MIN <= self.y * n <= isize::MAX,
        ensures
            r.x == self.x * n,
            r.y == self.y * n,
    {
        Pos { x: self.x * n, y: self.y * n }
    }
}

/// Two different step counts along one direction reach two different cells.
pub proof fn lemma_step_injective(start: Pos, d: Dir, i: int, j: int)
    requires
        step(start, d, i) == step(start, d, j),
    ensures
        i == j,
{
}

/// A run whose first and `i`-th cells lie in a grid has fewer than `max(w, h)`
/// steps, and each coordinate moves by at most `i`.
pub proof fn lemma_step_bounded(start: Pos, d: Dir, i: int, w: int, h: int)
    requires
        cell_in_grid(step(start, d, 0), w, h),
        cell_in_grid(step(start, d, i), w, h),
        0 <= i,
    ensures
        i < w || i < h,
        d.dx() * i == i || d.dx() * i == -i || d.dx() * i == 0,
        d.dy() * i == i || d.dy() * i == -i || d.dy() * i == 0,
{
}

/// A straight run whose two ends lie in the grid lies in the grid throughout.
pub proof fn lemma_span_from_ends(start: Pos, d: Dir, n: int, w: int, h: int, i: int)
    requires
        in_grid(step(start, d, 0).0, step(start, d, 0).1, w, h),
        in_grid(step(start, d, n).0, step(start, d, n).1, w, h),
        0 <= i <= n,
    ensures
        in_grid(step(start, d, i).0, step(start, d, i).1, w, h),
{
}

} // verus!
