//! Plain data carriers: a two-component vector and a dense 2D grid stored
//! row-major in a flat vector.

use vstd::prelude::*;

verus! {

/// A pair of like-typed components: a grid coordinate, a room coordinate,
/// or a fixed-point velocity.
#[derive(Clone, Copy, PartialEq, Eq, Debug)]
pub struct Vector2<T> {
    pub x: T,
    pub y: T,
}

impl<T: Copy> Vector2<T> {
    /// Componentwise conversion into another scalar type.
    pub fn convert<T2: From<T>>(&self) -> (r: Vector2<T2>)
        ensures
            call_ensures(T2::from, (self.x,), r.x),
            call_ensures(T2::from, (self.y,), r.y),
    {
        Vector2 { x: T2::from(self.x), y: T2::from(self.y) }
    }
}

/// A display color carried by a cell: red, green, blue, alpha.
#[derive(Clone, Copy, PartialEq, Eq, Debug)]
pub struct Rgba {
    pub r: u8,
    pub g: u8,
    pub b: u8,
    pub a: u8,
}

/// Flat row-major index of the cell at `(x, y)` in a grid `w` cells wide.
pub open spec fn row_major(w: int, x: int, y: int) -> int {
    x + y * w
}

/// The row-major index of an in-bounds cell lies inside the backing store.
pub proof fn lemma_row_major_bounds(w: int, h: int, x: int, y: int)
    by (nonlinear_arith)
    requires
        0 <= x < w,
        0 <= y < h,
    ensures
        0 <= row_major(w, x, y) < w * h,
{
}

/// Distinct in-bounds coordinates have distinct row-major indices.
pub proof fn lemma_row_major_injective(w: int, x1: int, y1: int, x2: int, y2: int)
    by (nonlinear_arith)
    requires
        0 <= x1 < w,
        0 <= x2 < w,
        0 <= y1,
        0 <= y2,
        row_major(w, x1, y1) == row_major(w, x2, y2),
    ensures
        x1 == x2 && y1 == y2,
{
}

/// Overwriting one cell of the backing store leaves every other coordinate's
/// cell unchanged, whatever value is written.
proof fn lemma_store_update_keeps_others<T>(cells: Seq<T>, w: int, h: int, x: int, y: int)
    requires
        cells.len() == w * h,
        0 <= x < w,
        0 <= y < h,
    ensures
        forall|v: T, i: int, j: int|
            #![trigger cells.update(row_major(w, x, y), v)[row_major(w, i, j)]]
            0 <= i < w && 0 <= j < h && !(i == x && j == y) ==> cells.update(
                row_major(w, x, y),
                v,
            )[row_major(w, i, j)] == cells[row_major(w, i, j)],
{
    lemma_row_major_bounds(w, h, x, y);
    assert forall|v: T, i: int, j: int|
        0 <= i < w && 0 <= j < h && !(i == x && j == y) implies cells.update(
        row_major(w, x, y),
        v,
    )[row_major(w, i, j)] == cells[row_major(w, i, j)] by {
        lemma_row_major_bounds(w, h, i, j);
        if row_major(w, i, j) == row_major(w, x, y) {
            lemma_row_major_injective(w, i, j, x, y);
        }
    }
}

/// A dense `width` x `height` grid of cells, addressed by `(x, y)` with
/// `0 <= x < width` and `0 <= y < height`; never resized after construction.
#[derive(Clone)]
pub struct GridMap<T> {
    width: usize,
    height: usize,
    grid: Vec<T>,
}

impl<T: Copy> GridMap<T> {
    /// The backing store, one row after another.
    pub closed spec fn cells(&self) -> Seq<T> {
        self.grid@
    }

    pub closed spec fn spec_width(&self) -> usize {
        self.width
    }

    pub closed spec fn spec_height(&self) -> usize {
        self.height
    }

    /// The backing store holds exactly one cell for each coordinate pair.
    pub open spec fn wf(&self) -> bool {
        self.cells().len() == self.spec_width() * self.spec_height()
    }

    pub open spec fn in_bounds(&self, x: int, y: int) -> bool {
        0 <= x < self.spec_width() && 0 <= y < self.spec_height()
    }

    /// The cell at `(x, y)`.
    pub open spec fn at(&self, x: int, y: int) -> T {
        self.cells()[row_major(self.spec_width() as int, x, y)]
    }

    pub fn new(w: usize, h: usize, default: T) -> (r: Self)
        requires
            w * h <= usize::MAX,
        ensures
            r.wf(),
            r.spec_width() == w,
            r.spec_height() == h,
            forall|x: int, y: int| r.in_bounds(x, y) ==> r.at(x, y) == default,
    {
        let n: usize = w * h;
        let mut grid: Vec<T> = Vec::new();
        let mut i: usize = 0;
        while i < n
            invariant
                i <= n,
                grid@.len() == i,
                forall|k: int| 0 <= k < i ==> grid@[k] == default,
            decreases n - i,
        {
            grid.push(default);
            i += 1;
        }
        let r = GridMap { width: w, height: h, grid };
        proof {
            assert forall|x: int, y: int| r.in_bounds(x, y) implies r.at(x, y) == default by {
                lemma_row_major_bounds(w as int, h as int, x, y);
            }
        }
        r
    }

    pub fn get(&self, x: usize, y: usize) -> (r: &T)
        requires
            self.wf(),
            x < self.spec_width(),
            y < self.spec_height(),
        ensures
            *r == self.at(x as int, y as int),
    {
        proof {
            lemma_row_major_bounds(
                self.spec_width() as int,
                self.spec_height() as int,
                x as int,
                y as int,
            );
        }
        let n: usize = self.grid.len();
        &self.grid[x + y * self.width]
    }

    pub fn set(&mut self, x: usize, y: usize, new_val: T)
        requires
            old(self).wf(),
            x < old(self).spec_width(),
            y < old(self).spec_height(),
        ensures
            final(self).wf(),
            final(self).spec_width() == old(self).spec_width(),
            final(self).spec_height() == old(self).spec_height(),
            final(self).at(x as int, y as int) == new_val,
            forall|i: int, j: int|
                old(self).in_bounds(i, j) && !(i == x && j == y) ==> final(self).at(i, j) == old(
                    self,
                ).at(i, j),
    {
        proof {
            lemma_row_major_bounds(
                self.spec_width() as int,
                self.spec_height() as int,
                x as int,
                y as int,
            );
        }
        let ghost pre = *self;
        let n: usize = self.grid.len();
        let i: usize = x + y * self.width;
        self.grid[i] = new_val;
        proof {
            assert forall|i2: int, j2: int|
                pre.in_bounds(i2, j2) && !(i2 == x && j2 == y) implies self.at(i2, j2) == pre.at(
                i2,
                j2,
            ) by {
                lemma_row_major_bounds(
                    pre.spec_width() as int,
                    pre.spec_height() as int,
                    i2,
                    j2,
                );
                if row_major(pre.spec_width() as int, i2, j2) == row_major(
                    pre.spec_width() as int,
                    x as int,
                    y as int,
                ) {
                    lemma_row_major_injective(
                        pre.spec_width() as int,
                        i2,
                        j2,
                        x as int,
                        y as int,
                    );
                }
            }
        }
    }

    pub fn get_mut(&mut self, x: usize, y: usize) -> (r: &mut T)
        requires
            old(self).wf(),
            x < old(self).spec_width(),
            y < old(self).spec_height(),
        ensures
            *r == old(self).at(x as int, y as int),
            final(self).wf(),
            final(self).spec_width() == old(self).spec_width(),
            final(self).spec_height() == old(self).spec_height(),
            final(self).at(x as int, y as int) == *final(r),
            forall|i: int, j: int|
                old(self).in_bounds(i, j) && !(i == x && j == y) ==> final(self).at(i, j) == old(
                    self,
                ).at(i, j),
    {
        proof {
            lemma_row_major_bounds(
                self.spec_width() as int,
                self.spec_height() as int,
                x as int,
                y as int,
            );
            lemma_store_update_keeps_others(
                self.cells(),
                self.spec_width() as int,
                self.spec_height() as int,
                x as int,
                y as int,
            );
        }
        let n: usize = self.grid.len();
        let i: usize = x + y * self.width;
        &mut self.grid[i]
    }

    pub fn width(&self) -> (r: usize)
        ensures
            r == self.spec_width(),
    {
        self.width
    }

    pub fn height(&self) -> (r: usize)
        ensures
            r == self.spec_height(),
    {
        self.height
    }
}

/// One decay step of a hotness counter: down one, floored at zero.
pub open spec fn decay1(c: usize) -> usize {
    if c > 0 {
        (c - 1) as usize
    } else {
        0
    }
}

impl GridMap<usize> {
    /// Subtract 1, floored at 0, from every counter; used once per simulated
    /// frame on the room-hotness overlay.
    pub fn decay_all(&mut self)
        requires
            old(self).wf(),
        ensures
            final(self).wf(),
            final(self).spec_width() == old(self).spec_width(),
            final(self).spec_height() == old(self).spec_height(),
            forall|i: int, j: int|
                old(self).in_bounds(i, j) ==> final(self).at(i, j) == decay1(old(self).at(i, j)),
    {
        let ghost pre = *self;
        let n: usize = self.grid.len();
        let mut i: usize = 0;
        while i < n
            invariant
                i <= n,
                n == self.grid@.len(),
                self.width == pre.spec_width(),
                self.height == pre.spec_height(),
                pre.cells().len() == n,
                forall|k: int| 0 <= k < i ==> self.grid@[k] == decay1(pre.cells()[k]),
                forall|k: int| i <= k < n ==> self.grid@[k] == pre.cells()[k],
            decreases n - i,
        {
            let v: usize = self.grid[i];
            if v > 0 {
                self.grid[i] = v - 1;
            }
            i += 1;
        }
        proof {
            assert forall|i2: int, j2: int| pre.in_bounds(i2, j2) implies self.at(i2, j2)
                == decay1(pre.at(i2, j2)) by {
                lemma_row_major_bounds(
                    pre.spec_width() as int,
                    pre.spec_height() as int,
                    i2,
                    j2,
                );
            }
        }
    }
}

} // verus!
