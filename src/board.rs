//! A fixed-size grid of cells, each empty or holding one letter.
use vstd::prelude::*;

use crate::error::SolveError;
use crate::geometry::{cell_in_grid, fits, in_grid, lemma_span_from_ends, step, Dir, Pos};

verus! {

/// A `width` by `height` grid; cell `(x, y)` is stored at `y * width + x`.
#[derive(Debug)]
pub struct Board {
    width: isize,
    height: isize,
    cells: Vec<Option<char>>,
}

/// Cell `(x, y)` of a `w` by `h` grid has a slot of its own in `0 .. w * h`.
proof fn lemma_slot(x: int, y: int, w: int, h: int)
    requires
        in_grid(x, y, w, h),
    ensures
        0 <= y * w,
        0 <= y * w + x < w * h,
{
    assert(y * w + x < w * h) by (nonlinear_arith)
        requires
            0 <= x < w,
            0 <= y < h,
    ;
    assert(0 <= y * w) by (nonlinear_arith)
        requires
            0 <= x < w,
            0 <= y,
    ;
}

/// Distinct cells have distinct slots.
proof fn lemma_slot_injective(x1: int, y1: int, x2: int, y2: int, w: int, h: int)
    requires
        in_grid(x1, y1, w, h),
        in_grid(x2, y2, w, h),
        y1 * w + x1 == y2 * w + x2,
    ensures
        x1 == x2 && y1 == y2,
{
    if y1 < y2 {
        assert((y1 + 1) * w <= y2 * w) by (nonlinear_arith)
            requires
                y1 + 1 <= y2,
                0 < w,
        ;
        assert((y1 + 1) * w == y1 * w + w) by (nonlinear_arith);
    } else if y2 < y1 {
        assert((y2 + 1) * w <= y1 * w) by (nonlinear_arith)
            requires
                y2 + 1 <= y1,
                0 < w,
        ;
        assert((y2 + 1) * w == y2 * w + w) by (nonlinear_arith);
    }
}

impl Board {
    /// The number of columns.
    pub closed spec fn w(self) -> int {
        self.width as int
    }

    /// The number of rows.
    pub closed spec fn h(self) -> int {
        self.height as int
    }

    /// Both dimensions are positive and there is one slot per cell.
    pub closed spec fn wf(self) -> bool {
        &&& self.width > 0
        &&& self.height > 0
        &&& self.width * self.height <= usize::MAX
        &&& self.cells@.len() == self.width * self.height
    }

    /// The content of cell `(x, y)`: `None` when it is empty.
    pub closed spec fn at(self, x: int, y: int) -> Option<char> {
        self.cells@[y * self.width + x]
    }

    /// A well-formed board's dimensions are positive `isize` values.
    pub proof fn lemma_dims(self)
        requires
            self.wf(),
        ensures
            0 < self.w() <= isize::MAX,
            0 < self.h() <= isize::MAX,
    {
    }

    /// A `width` by `height` board with every cell empty.
    pub fn new(width: isize, height: isize) -> (r: Result<Board, SolveError>)
        requires
            width > 0 && height > 0 ==> width * height <= usize::MAX,
        ensures
            r is Err <==> (width <= 0 || height <= 0),
            r is Err ==> r == Err::<Board, SolveError>(SolveError::InvalidDimensions),
            r matches Ok(b) ==> {
                &&& b.wf()
                &&& b.w() == width
                &&& b.h() == height
                &&& forall|x: int, y: int| in_grid(x, y, width as int, height as int) ==> #[trigger] b.at(x, y) is None
            },
    {
        if width <= 0 || height <= 0 {
            return Err(SolveError::InvalidDimensions);
        }
        let n: usize = (width as usize) * (height as usize);
        let mut cells: Vec<Option<char>> = Vec::new();
        let mut i: usize = 0;
        while i < n
            invariant
                i <= n,
                cells@.len() == i,
                forall|k: int| 0 <= k < i ==> #[trigger] cells@[k] is None,
            decreases n - i,
        {
            cells.push(None);
            i = i + 1;
        }
        let b = Board { width, height, cells };
        assert forall|x: int, y: int| in_grid(x, y, width as int, height as int) implies #[trigger] b.at(x, y) is None by {
            lemma_slot(x, y, width as int, height as int);
        }
        Ok(b)
    }

    /// The number of columns.
    pub fn width(&self) -> (r: isize)
        ensures
            r == self.w(),
    {
        self.width
    }

    /// The number of rows.
    pub fn height(&self) -> (r: isize)
        ensures
            r == self.h(),
    {
        self.height
    }

    /// Whether `p` lies on the board.
    pub fn in_bounds(&self, p: Pos) -> (r: bool)
        ensures
            r == in_grid(p.x as int, p.y as int, self.w(), self.h()),
    {
        0 <= p.x && p.x < self.width && 0 <= p.y && p.y < self.height
    }

    /// Whether the `len` cells of the run from `start` along `d` all lie on the
    /// board; only the two ends are tested.
    pub fn span_in_bounds(&self, start: Pos, d: Dir, len: usize) -> (r: bool)
        requires
            len >= 1,
        ensures
            r == (cell_in_grid(step(start, d, 0), self.w(), self.h()) && cell_in_grid(
                step(start, d, len - 1),
                self.w(),
                self.h(),
            )),
            r == fits(start, d, len as int, self.w(), self.h()),
    {
        let ghost w = self.w();
        let ghost h = self.h();
        let n: usize = len - 1;
        if !self.in_bounds(start) {
            assert(!cell_in_grid(step(start, d, 0), w, h));
            return false;
        }
        let delta = d.pos_from_dir();
        let x_ok = if delta.x == 0 {
            true
        } else if delta.x == 1 {
            n < ((self.width - start.x) as usize)
        } else {
            n <= (start.x as usize)
        };
        let y_ok = if delta.y == 0 {
            true
        } else if delta.y == 1 {
            n < ((self.height - start.y) as usize)
        } else {
            n <= (start.y as usize)
        };
        proof {
            if x_ok && y_ok {
                assert forall|i: int| 0 <= i < len implies #[trigger] cell_in_grid(step(start, d, i), w, h) by {
                    lemma_span_from_ends(start, d, n as int, w, h, i);
                }
            } else {
                assert(!cell_in_grid(step(start, d, n as int), w, h));
            }
        }
        x_ok && y_ok
    }

    /// The content of cell `(x, y)`.
    pub fn get(&self, x: isize, y: isize) -> (r: Option<char>)
        requires
            self.wf(),
            in_grid(x as int, y as int, self.w(), self.h()),
        ensures
            r == self.at(x as int, y as int),
    {
        proof {
            lemma_slot(x as int, y as int, self.w(), self.h());
            assert(0 <= (y as int) * (self.width as int) + x < self.cells@.len());
        }
        let yu = y as usize;
        let wu = self.width as usize;
        assert(yu * wu == (y as int) * (self.width as int));
        let row = yu * wu;
        self.cells[row + (x as usize)]
    }

    /// Writes `c` into cell `(x, y)`, leaving every other cell as it was.
    pub fn set(&mut self, x: isize, y: isize, c: char)
        requires
            old(self).wf(),
            in_grid(x as int, y as int, old(self).w(), old(self).h()),
        ensures
            final(self).wf(),
            final(self).w() == old(self).w(),
            final(self).h() == old(self).h(),
            final(self).at(x as int, y as int) == Some(c),
            forall|x2: int, y2: int|
                in_grid(x2, y2, old(self).w(), old(self).h()) && (x2, y2) != (x as int, y as int)
                    ==> #[trigger] final(self).at(x2, y2) == old(self).at(x2, y2),
    {
        let ghost w = self.w();
        let ghost h = self.h();
        proof {
            lemma_slot(x as int, y as int, w, h);
            assert(0 <= (y as int) * (self.width as int) + x < self.cells@.len());
        }
        let yu = y as usize;
        let wu = self.width as usize;
        assert(yu * wu == (y as int) * (self.width as int));
        let row = yu * wu;
        let k: usize = row + (x as usize);
        self.cells.set(k, Some(c));
        assert forall|x2: int, y2: int|
            in_grid(x2, y2, w, h) && (x2, y2) != (x as int, y as int)
                implies #[trigger] self.at(x2, y2) == old(self).at(x2, y2) by {
            lemma_slot(x2, y2, w, h);
            if y2 * w + x2 == k {
                lemma_slot_injective(x2, y2, x as int, y as int, w, h);
            }
        }
    }

    /// An independent copy of this board.
    pub fn snapshot(&self) -> (r: Board)
        requires
            self.wf(),
        ensures
            r.wf(),
            r.w() == self.w(),
            r.h() == self.h(),
            forall|x: int, y: int| #[trigger] r.at(x, y) == self.at(x, y),
    {
        let mut cells: Vec<Option<char>> = Vec::new();
        let mut i: usize = 0;
        while i < self.cells.len()
            invariant
                i <= self.cells@.len(),
                cells@ == self.cells@.subrange(0, i as int),
            decreases self.cells@.len() - i,
        {
            cells.push(self.cells[i]);
            i = i + 1;
        }
        assert(cells@ == self.cells@);
        Board { width: self.width, height: self.height, cells }
    }
}

} // verus!
