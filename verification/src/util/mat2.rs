//! Positions and a rectangular grid of cells.

use vstd::prelude::*;

verus! {

/// A position on a grid: column `x`, row `y`.
#[derive(Debug, Copy, Clone, PartialEq, Eq, Structural, PartialOrd, Ord)]
pub struct Pos {
    pub x: usize,
    pub y: usize,
}

impl Default for Pos {
    fn default() -> (p: Pos)
        ensures
            p == (Pos { x: 0, y: 0 }),
    {
        Pos { x: 0, y: 0 }
    }
}

/// The distance between two coordinates.
pub open spec fn spec_diff(a: usize, b: usize) -> int {
    if a > b {
        a - b
    } else {
        b - a
    }
}

/// The distance between two coordinates.
pub fn diff(a: usize, b: usize) -> (d: usize)
    ensures
        d == spec_diff(a, b),
{
    if a > b {
        a - b
    } else {
        b - a
    }
}

impl Pos {
    /// The position in column `x` and row `y`.
    pub fn new(x: usize, y: usize) -> (p: Pos)
        ensures
            p == (Pos { x, y }),
    {
        Pos { x, y }
    }

    /// The position that lies `other` further right and down.
    pub fn add(&self, other: Pos) -> (p: Pos)
        requires
            self.x + other.x <= usize::MAX,
            self.y + other.y <= usize::MAX,
        ensures
            p.x == self.x + other.x,
            p.y == self.y + other.y,
    {
        Pos { x: self.x + other.x, y: self.y + other.y }
    }

    /// The position that lies `other` further left and up, where there is
    /// one.
    pub fn sub(&self, other: Pos) -> (p: Option<Pos>)
        ensures
            p == (if self.x >= other.x && self.y >= other.y {
                Some(Pos { x: (self.x - other.x) as usize, y: (self.y - other.y) as usize })
            } else {
                None
            }),
    {
        if self.x >= other.x && self.y >= other.y {
            Some(Pos { x: self.x - other.x, y: self.y - other.y })
        } else {
            None
        }
    }

    /// The position moved by `off`; nothing where it would leave the grid
    /// to the left or to the top.
    pub fn offset(&self, off: (isize, isize)) -> (p: Option<Pos>)
        requires
            self.x + off.0 <= usize::MAX,
            self.y + off.1 <= usize::MAX,
        ensures
            p == (if self.x + off.0 < 0 || self.y + off.1 < 0 {
                None
            } else {
                Some(Pos { x: (self.x + off.0) as usize, y: (self.y + off.1) as usize })
            }),
    {
        let x = shift(self.x, off.0);
        let y = shift(self.y, off.1);
        match (x, y) {
            (Some(x), Some(y)) => Some(Pos { x, y }),
            _ => None,
        }
    }
}

/// The coordinate moved by `by`, unless that is negative.
fn shift(at: usize, by: isize) -> (r: Option<usize>)
    requires
        at + by <= usize::MAX,
    ensures
        r == (if at + by < 0 {
            None
        } else {
            Some((at + by) as usize)
        }),
{
    if by >= 0 {
        Some(at + by as usize)
    } else {
        let back: usize = if by == isize::MIN {
            (isize::MAX as usize) + 1
        } else {
            (-by) as usize
        };
        if back > at {
            None
        } else {
            Some(at - back)
        }
    }
}

/// A grid of `h` rows and `w` columns, stored row by row.
#[derive(Debug)]
pub struct Mat2<T> {
    h: usize,
    w: usize,
    data: Vec<T>,
}

impl<T> Mat2<T> {
    /// The number of rows.
    pub closed spec fn rows(self) -> nat {
        self.h as nat
    }

    /// The number of columns.
    pub closed spec fn cols(self) -> nat {
        self.w as nat
    }

    /// The cells, row by row.
    pub closed spec fn cells(self) -> Seq<T> {
        self.data@
    }

    /// There is one cell for each position.
    pub open spec fn wf(self) -> bool {
        self.cells().len() == self.rows() * self.cols()
    }

    /// Whether `p` lies on the grid.
    pub open spec fn contains(self, p: Pos) -> bool {
        p.x < self.cols() && p.y < self.rows()
    }

    /// The place of position `p` among the cells.
    pub open spec fn index_of(self, p: Pos) -> int {
        self.cols() * p.y + p.x
    }

    /// The cell at position `p`.
    pub open spec fn at(self, p: Pos) -> T {
        self.cells()[self.index_of(p)]
    }

    /// A position on the grid has its place among the cells.
    pub proof fn lemma_index_in_range(self, p: Pos)
        requires
            self.wf(),
            self.contains(p),
        ensures
            0 <= self.index_of(p) < self.cells().len(),
    {
        let w = self.cols() as int;
        let h = self.rows() as int;
        let x = p.x as int;
        let y = p.y as int;
        assert(w * y + x < h * w) by (nonlinear_arith)
            requires
                0 <= x < w,
                0 <= y < h,
        ;
        assert(0 <= w * y + x) by (nonlinear_arith)
            requires
                0 <= x,
                0 <= y,
                0 <= w,
        ;
    }

    /// A grid of `h` rows and `w` columns over the cells `data`.
    pub fn from_vec(data: Vec<T>, h: usize, w: usize) -> (m: Self)
        requires
            h * w == data@.len(),
        ensures
            m.wf(),
            m.rows() == h,
            m.cols() == w,
            m.cells() == data@,
    {
        Mat2 { data, h, w }
    }

    /// The number of rows.
    pub fn height(&self) -> (h: usize)
        ensures
            h == self.rows(),
    {
        self.h
    }

    /// The number of columns.
    pub fn width(&self) -> (w: usize)
        ensures
            w == self.cols(),
    {
        self.w
    }

    fn coords_to_ix(&self, p: Pos) -> (ix: Option<usize>)
        requires
            self.wf(),
        ensures
            ix == (if self.contains(p) {
                Some(self.index_of(p) as usize)
            } else {
                None
            }),
            self.contains(p) ==> 0 <= self.index_of(p) < self.cells().len(),
            ix matches Some(i) ==> i == self.index_of(p),
    {
        let n = self.data.len();
        if p.x < self.w && p.y < self.h {
            proof {
                self.lemma_index_in_range(p);
                assert(self.w * p.y <= self.w * p.y + p.x) by (nonlinear_arith);
            }
            Some(self.w * p.y + p.x)
        } else {
            None
        }
    }

    /// Whether `p` lies on the grid.
    pub fn has_pos(&self, p: Pos) -> (b: bool)
        requires
            self.wf(),
        ensures
            b == self.contains(p),
    {
        self.coords_to_ix(p).is_some()
    }

    /// The cell at `p`, where `p` lies on the grid.
    pub fn get(&self, p: Pos) -> (cell: Option<&T>)
        requires
            self.wf(),
        ensures
            cell == (if self.contains(p) {
                Some(&self.at(p))
            } else {
                None
            }),
    {
        match self.coords_to_ix(p) {
            Some(ix) => Some(&self.data[ix]),
            None => None,
        }
    }

    /// The cell at `p` for writing, where `p` lies on the grid. What is
    /// written through it is the only change to the grid.
    pub fn get_mut(&mut self, p: Pos) -> (cell: Option<&mut T>)
        requires
            old(self).wf(),
        ensures
            final(self).wf(),
            final(self).rows() == old(self).rows(),
            final(self).cols() == old(self).cols(),
            match cell {
                Some(c) => old(self).contains(p) && *c == old(self).at(p) && final(self).cells()
                    == old(self).cells().update(old(self).index_of(p), *final(c)),
                None => !old(self).contains(p) && final(self).cells() == old(self).cells(),
            },
    {
        match self.coords_to_ix(p) {
            Some(ix) => Some(&mut self.data[ix]),
            None => None,
        }
    }

    /// Puts `val` into the cell at `p`.
    pub fn set(&mut self, p: Pos, val: T)
        requires
            old(self).wf(),
            old(self).contains(p),
        ensures
            final(self).wf(),
            final(self).rows() == old(self).rows(),
            final(self).cols() == old(self).cols(),
            final(self).cells() == old(self).cells().update(old(self).index_of(p), val),
    {
        let ix = self.coords_to_ix(p).unwrap();
        self.data[ix] = val;
    }

    /// The positions of the grid, row by row.
    pub fn coords(&self) -> (all: Vec<Pos>)
        requires
            self.wf(),
        ensures
            all@.len() == self.cells().len(),
            forall|i: int|
                0 <= i < all@.len() ==> self.contains(#[trigger] all@[i]) && self.index_of(all@[i])
                    == i,
    {
        let w = self.w;
        let n = self.data.len();
        let mut all: Vec<Pos> = Vec::new();
        let mut ix: usize = 0;
        while ix < n
            invariant
                ix <= n,
                n == self.cells().len(),
                w == self.cols(),
                self.wf(),
                all@.len() == ix,
                forall|i: int|
                    0 <= i < ix ==> self.contains(#[trigger] all@[i]) && self.index_of(all@[i])
                        == i,
            decreases n - ix,
        {
            proof {
                if w == 0 {
                    assert(self.rows() * self.cols() == 0) by (nonlinear_arith)
                        requires
                            self.cols() == 0,
                    ;
                }
            }
            let p = Pos::new(ix % w, ix / w);
            proof {
                let h = self.rows() as int;
                let wi = w as int;
                let i = ix as int;
                assert(i == wi * (i / wi) + i % wi) by (nonlinear_arith)
                    requires
                        wi > 0,
                ;
                assert(i / wi < h) by (nonlinear_arith)
                    requires
                        wi > 0,
                        0 <= i < h * wi,
                ;
            }
            all.push(p);
            ix += 1;
        }
        all
    }

    /// The cells of the grid, row by row.
    pub fn grids(&self) -> (all: Vec<&T>)
        requires
            self.wf(),
        ensures
            all@.len() == self.cells().len(),
            forall|i: int| 0 <= i < all@.len() ==> *(#[trigger] all@[i]) == self.cells()[i],
    {
        let mut all: Vec<&T> = Vec::new();
        let mut ix: usize = 0;
        while ix < self.data.len()
            invariant
                ix <= self.data@.len(),
                all@.len() == ix,
                forall|i: int| 0 <= i < ix ==> *(#[trigger] all@[i]) == self.data@[i],
            decreases self.data@.len() - ix,
        {
            all.push(&self.data[ix]);
            ix += 1;
        }
        all
    }
}

impl<T: Default + Clone> Mat2<T> {
    /// A grid of `h` rows and `w` columns with a default value in every
    /// cell.
    pub fn new(h: usize, w: usize) -> (m: Self)
        requires
            h * w <= usize::MAX,
        ensures
            m.wf(),
            m.rows() == h,
            m.cols() == w,
            exists|d: T|
                call_ensures(T::default, (), d) && forall|i: int|
                    0 <= i < m.cells().len() ==> cloned(d, #[trigger] m.cells()[i]),
    {
        let d = T::default();
        let ghost first = d;
        let m = Mat2 { h, w, data: vec![d; h * w] };
        assert(call_ensures(T::default, (), first) && forall|i: int|
            0 <= i < m.cells().len() ==> cloned(first, #[trigger] m.cells()[i]));
        m
    }
}

impl<T: Clone> Mat2<T> {
    /// A grid of `h` rows and `w` columns with a clone of `with` in every
    /// cell.
    pub fn new_with(h: usize, w: usize, with: T) -> (m: Self)
        requires
            h * w <= usize::MAX,
        ensures
            m.wf(),
            m.rows() == h,
            m.cols() == w,
            forall|i: int| 0 <= i < m.cells().len() ==> cloned(with, #[trigger] m.cells()[i]),
    {
        Mat2 { h, w, data: vec![with; h * w] }
    }

    /// Puts a clone of `with` into every cell.
    pub fn clear(&mut self, with: T)
        requires
            old(self).wf(),
        ensures
            final(self).wf(),
            final(self).rows() == old(self).rows(),
            final(self).cols() == old(self).cols(),
            forall|i: int|
                0 <= i < final(self).cells().len() ==> cloned(with, #[trigger] final(self).cells()[i]),
    {
        let n = self.data.len();
        let mut ix: usize = 0;
        while ix < n
            invariant
                ix <= n,
                n == self.data@.len(),
                self.h == old(self).h,
                self.w == old(self).w,
                self.data@.len() == old(self).data@.len(),
                forall|i: int| 0 <= i < ix ==> cloned(with, #[trigger] self.data@[i]),
            decreases n - ix,
        {
            self.data[ix] = with.clone();
            ix += 1;
        }
    }
}

/// Two positions on a grid have the same place only if they are the same.
pub proof fn lemma_distinct_places<T>(m: Mat2<T>, p: Pos, q: Pos)
    requires
        m.wf(),
        m.contains(p),
        m.contains(q),
        p != q,
    ensures
        m.index_of(p) != m.index_of(q),
{
    let w = m.cols() as int;
    let (px, py, qx, qy) = (p.x as int, p.y as int, q.x as int, q.y as int);
    if py != qy {
        assert(w * py + px != w * qy + qx) by (nonlinear_arith)
            requires
                0 <= px < w,
                0 <= qx < w,
                py != qy,
        ;
    }
}

} // verus!
