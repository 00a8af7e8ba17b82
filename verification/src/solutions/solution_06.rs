//! Coordinates on a grid: which one has the largest area of places that
//! are closest to it, and how many places are near all of them?

use crate::error::Error;
use crate::util::text::{decimal_u64, parse_u64};
use vstd::prelude::*;
use vstd::string::*;

verus! {

/// A place on the grid.
#[derive(Clone, Copy, Debug, PartialEq, Eq, Structural)]
pub struct Vec2 {
    pub x: u64,
    pub y: u64,
}

/// The distance between two coordinates.
pub open spec fn gap(p: u64, q: u64) -> nat {
    if p >= q {
        (p - q) as nat
    } else {
        (q - p) as nat
    }
}

impl Vec2 {
    /// The Manhattan distance to `other`.
    pub open spec fn distance(self, other: Vec2) -> nat {
        gap(self.x, other.x) + gap(self.y, other.y)
    }

    /// The distances to the first `upto` of the places together.
    pub open spec fn distance_sum(self, others: Seq<Vec2>, upto: nat) -> nat
        decreases upto,
    {
        if upto == 0 {
            0
        } else {
            self.distance_sum(others, (upto - 1) as nat) + self.distance(others[upto - 1])
        }
    }

    fn wide_dist(&self, other: &Vec2) -> (d: u128)
        ensures
            d == self.distance(*other),
            d <= 2 * 0xffff_ffff_ffff_ffff,
    {
        let dx = if self.x >= other.x {
            self.x - other.x
        } else {
            other.x - self.x
        };
        let dy = if self.y >= other.y {
            self.y - other.y
        } else {
            other.y - self.y
        };
        dx as u128 + dy as u128
    }

    /// The Manhattan distance to `other`.
    pub fn dist(&self, other: &Vec2) -> (d: usize)
        requires
            self.distance(*other) <= usize::MAX,
        ensures
            d == self.distance(*other),
    {
        self.wide_dist(other) as usize
    }

    /// The distances to all the places together.
    pub fn sum_dist(&self, other: &[Vec2]) -> (d: usize)
        requires
            self.distance_sum(other@, other@.len()) <= usize::MAX,
        ensures
            d == self.distance_sum(other@, other@.len()),
    {
        let mut sum: usize = 0;
        let mut i: usize = 0;
        while i < other.len()
            invariant
                i <= other@.len(),
                sum == self.distance_sum(other@, i as nat),
                self.distance_sum(other@, other@.len()) <= usize::MAX,
            decreases other@.len() - i,
        {
            proof {
                lemma_distance_sum_grows(*self, other@, (i + 1) as nat, other@.len());
            }
            let d = self.wide_dist(&other[i]);
            sum = sum + d as usize;
            i += 1;
        }
        sum
    }
}

/// The sum of distances grows with the number of places.
pub proof fn lemma_distance_sum_grows(v: Vec2, others: Seq<Vec2>, a: nat, b: nat)
    requires
        a <= b,
    ensures
        v.distance_sum(others, a) <= v.distance_sum(others, b),
    decreases b,
{
    if a < b {
        lemma_distance_sum_grows(v, others, a, (b - 1) as nat);
    }
}

/// Whether coordinate `i` is closer to the place than every other
/// coordinate.
pub open spec fn closest(coords: Seq<Vec2>, v: Vec2, i: int) -> bool {
    &&& 0 <= i < coords.len()
    &&& forall|j: int|
        0 <= j < coords.len() && j != i ==> coords[i].distance(v) < (#[trigger] coords[j]).distance(
            v,
        )
}

/// The mark of a place: the number of the coordinate that is closest to
/// it, counted from one, or zero where two coordinates are as close.
pub open spec fn mark_of(coords: Seq<Vec2>, v: Vec2, mark: usize) -> bool {
    if mark == 0 {
        forall|i: int| !closest(coords, v, i)
    } else {
        closest(coords, v, mark - 1)
    }
}

/// A grid of marks.
#[derive(Debug)]
pub struct Grid {
    field: Vec<usize>,
    h: usize,
    w: usize,
}

/// How many of the marks are `i`.
pub open spec fn marked(field: Seq<usize>, i: usize) -> nat
    decreases field.len(),
{
    if field.len() == 0 {
        0
    } else {
        marked(field.drop_last(), i) + (if field.last() == i {
            1nat
        } else {
            0nat
        })
    }
}

/// How many of the marks are less than `max`.
pub open spec fn below(field: Seq<usize>, max: usize) -> nat
    decreases field.len(),
{
    if field.len() == 0 {
        0
    } else {
        below(field.drop_last(), max) + (if field.last() < max {
            1nat
        } else {
            0nat
        })
    }
}

/// The greatest column of the coordinates.
pub open spec fn max_x(coords: Seq<Vec2>) -> u64
    decreases coords.len(),
{
    if coords.len() == 0 {
        0
    } else if coords.last().x > max_x(coords.drop_last()) {
        coords.last().x
    } else {
        max_x(coords.drop_last())
    }
}

/// The greatest row of the coordinates.
pub open spec fn max_y(coords: Seq<Vec2>) -> u64
    decreases coords.len(),
{
    if coords.len() == 0 {
        0
    } else if coords.last().y > max_y(coords.drop_last()) {
        coords.last().y
    } else {
        max_y(coords.drop_last())
    }
}

/// Whether there are coordinates, and the grid that reaches two places
/// beyond their greatest column and row can be addressed.
pub open spec fn frame_fits(coords: Seq<Vec2>) -> bool {
    coords.len() > 0 && (max_x(coords) + 2) * (max_y(coords) + 2) <= usize::MAX
}

/// The greatest column and the greatest row of the coordinates.
fn extent(coords: &[Vec2]) -> (r: Option<(u64, u64)>)
    ensures
        match r {
            Some((mx, my)) => coords@.len() > 0 && mx == max_x(coords@) && my == max_y(coords@),
            None => coords@.len() == 0,
        },
{
    if coords.len() == 0 {
        return None;
    }
    let (mut mx, mut my) = (coords[0].x, coords[0].y);
    let mut i: usize = 1;
    proof {
        let one = coords@.take(1);
        assert(one.drop_last() =~= Seq::<Vec2>::empty());
        assert(one.last() == coords@[0]);
        assert(max_x(one.drop_last()) == 0 && max_y(one.drop_last()) == 0);
        assert(max_x(one) == coords@[0].x);
        assert(max_y(one) == coords@[0].y);
    }
    while i < coords.len()
        invariant
            1 <= i <= coords@.len(),
            mx == max_x(coords@.take(i as int)),
            my == max_y(coords@.take(i as int)),
        decreases coords@.len() - i,
    {
        proof {
            assert(coords@.take(i + 1).drop_last() =~= coords@.take(i as int));
        }
        if coords[i].x > mx {
            mx = coords[i].x;
        }
        if coords[i].y > my {
            my = coords[i].y;
        }
        i += 1;
    }
    assert(coords@.take(i as int) =~= coords@);
    Some((mx, my))
}

impl Grid {
    /// The number of rows.
    pub closed spec fn rows(self) -> nat {
        self.h as nat
    }

    /// The number of columns.
    pub closed spec fn cols(self) -> nat {
        self.w as nat
    }

    /// The marks, row by row.
    pub closed spec fn field(self) -> Seq<usize> {
        self.field@
    }

    /// There is one mark for each place.
    pub open spec fn wf(self) -> bool {
        self.field().len() == self.rows() * self.cols()
    }

    /// The mark of place `v`.
    pub open spec fn mark_at(self, v: Vec2) -> usize {
        self.field()[v.y * self.cols() + v.x]
    }

    /// Whether the grid reaches two places beyond the greatest column and
    /// row of the coordinates.
    pub open spec fn frames(self, coords: Seq<Vec2>) -> bool {
        self.wf() && self.cols() == max_x(coords) + 2 && self.rows() == max_y(coords) + 2
    }

    /// Whether the grid frames the coordinates and every place bears the
    /// mark of the coordinate that is closest to it.
    pub open spec fn marks(self, coords: Seq<Vec2>) -> bool {
        self.frames(coords) && forall|x: u64, y: u64|
            x < self.cols() && y < self.rows() ==> mark_of(
                coords,
                Vec2 { x, y },
                #[trigger] self.mark_at(Vec2 { x, y }),
            )
    }

    /// Whether the grid frames the coordinates and every place bears the
    /// sum of its distances to all coordinates, as far as the machine can
    /// count.
    pub open spec fn sums(self, coords: Seq<Vec2>) -> bool {
        self.frames(coords) && forall|x: u64, y: u64|
            x < self.cols() && y < self.rows() ==> #[trigger] self.mark_at(Vec2 { x, y }) == capped(
                (Vec2 { x, y }).distance_sum(coords, coords.len()),
            )
    }

    /// A place of the grid has its place among the marks.
    pub proof fn lemma_place(self, x: int, y: int)
        requires
            0 <= x < self.cols(),
            0 <= y < self.rows(),
        ensures
            0 <= y * self.cols() + x < self.rows() * self.cols(),
    {
        let w = self.cols() as int;
        let h = self.rows() as int;
        assert(0 <= y * w + x < h * w) by (nonlinear_arith)
            requires
                0 <= x < w,
                0 <= y < h,
        ;
    }

    /// A grid of `h` rows and `w` columns of marks zero.
    pub fn new(h: usize, w: usize) -> (g: Grid)
        requires
            h * w <= usize::MAX,
        ensures
            g.wf(),
            g.rows() == h,
            g.cols() == w,
            forall|i: int| 0 <= i < g.field().len() ==> #[trigger] g.field()[i] == 0,
    {
        let n = h * w;
        let mut field: Vec<usize> = Vec::new();
        let mut i: usize = 0;
        while i < n
            invariant
                i <= n,
                field@.len() == i,
                forall|j: int| 0 <= j < i ==> #[trigger] field@[j] == 0,
            decreases n - i,
        {
            field.push(0);
            i += 1;
        }
        Grid { field, h, w }
    }

    /// Puts the mark `i` on place `v`.
    pub fn set(&mut self, v: Vec2, i: usize)
        requires
            old(self).wf(),
            v.x < old(self).cols(),
            v.y < old(self).rows(),
        ensures
            final(self).wf(),
            final(self).rows() == old(self).rows(),
            final(self).cols() == old(self).cols(),
            final(self).field() == old(self).field().update(v.y * old(self).cols() + v.x, i),
    {
        proof {
            self.lemma_place(v.x as int, v.y as int);
        }
        let n = self.field.len();
        let ix = (v.y as usize * self.w) + v.x as usize;
        self.field[ix] = i;
    }

    /// The mark of place `v`.
    pub fn get(&self, v: Vec2) -> (i: usize)
        requires
            self.wf(),
            v.x < self.cols(),
            v.y < self.rows(),
        ensures
            i == self.mark_at(v),
    {
        proof {
            self.lemma_place(v.x as int, v.y as int);
        }
        let n = self.field.len();
        self.field[(v.y as usize * self.w) + v.x as usize]
    }

    /// How many places bear the mark `i`.
    pub fn count_coords(&self, i: usize) -> (n: usize)
        ensures
            n == marked(self.field(), i),
    {
        let mut n: usize = 0;
        let mut k: usize = 0;
        assert(self.field@.subrange(0, 0) =~= Seq::<usize>::empty());
        while k < self.field.len()
            invariant
                k <= self.field@.len(),
                n == marked(self.field@.subrange(0, k as int), i),
                n <= k,
            decreases self.field@.len() - k,
        {
            proof {
                let next = self.field@.subrange(0, k + 1);
                assert(next.drop_last() =~= self.field@.subrange(0, k as int));
                assert(next.last() == self.field@[k as int]);
            }
            if self.field[k] == i {
                n += 1;
            }
            k += 1;
        }
        assert(self.field@.subrange(0, k as int) =~= self.field@);
        n
    }

    /// How many places bear a mark below `max`.
    pub fn count_below(&self, max: usize) -> (n: usize)
        ensures
            n == below(self.field(), max),
    {
        let mut n: usize = 0;
        let mut k: usize = 0;
        assert(self.field@.subrange(0, 0) =~= Seq::<usize>::empty());
        while k < self.field.len()
            invariant
                k <= self.field@.len(),
                n == below(self.field@.subrange(0, k as int), max),
                n <= k,
            decreases self.field@.len() - k,
        {
            proof {
                let next = self.field@.subrange(0, k + 1);
                assert(next.drop_last() =~= self.field@.subrange(0, k as int));
                assert(next.last() == self.field@[k as int]);
            }
            if self.field[k] < max {
                n += 1;
            }
            k += 1;
        }
        assert(self.field@.subrange(0, k as int) =~= self.field@);
        n
    }

    /// The mark of place `v`: the number of the coordinate that is closest
    /// to it, counted from one, or zero where two are as close.
    pub fn nearest(coords: &[Vec2], v: Vec2) -> (mark: usize)
        requires
            coords@.len() < usize::MAX,
        ensures
            mark_of(coords@, v, mark),
    {
        let mut mark: usize = 0;
        let mut min: u128 = u128::MAX;
        let mut i: usize = 0;
        while i < coords.len()
            invariant
                i <= coords@.len(),
                coords@.len() < usize::MAX,
                mark <= i,
                i == 0 ==> min == u128::MAX && mark == 0,
                i > 0 ==> min <= 2 * 0xffff_ffff_ffff_ffff,
                forall|j: int| 0 <= j < i ==> min <= (#[trigger] coords@[j]).distance(v),
                i > 0 ==> exists|j: int| 0 <= j < i && (#[trigger] coords@[j]).distance(v) == min,
                mark > 0 ==> coords@[mark - 1].distance(v) == min && forall|j: int|
                    0 <= j < i && j != mark - 1 ==> min < (#[trigger] coords@[j]).distance(v),
                mark == 0 && i > 0 ==> exists|j: int, k: int|
                    0 <= j < k < i && (#[trigger] coords@[j]).distance(v) == min
                        && (#[trigger] coords@[k]).distance(v) == min,
            decreases coords@.len() - i,
        {
            let d = coords[i].wide_dist(&v);
            proof {
                assert(coords@[i as int].distance(v) == d);
            }
            if min == d {
                proof {
                    if mark > 0 {
                        assert(coords@[mark - 1].distance(v) == min);
                        assert(coords@[i as int].distance(v) == min);
                    }
                }
                mark = 0;
            } else if min > d {
                min = d;
                mark = i + 1;
            }
            i += 1;
        }
        proof {
            if mark == 0 {
                assert forall|c: int| !closest(coords@, v, c) by {
                    if closest(coords@, v, c) {
                        if coords@.len() > 0 {
                            let (j, k) = choose|j: int, k: int|
                                0 <= j < k < coords@.len() && (#[trigger] coords@[j]).distance(v)
                                    == min && (#[trigger] coords@[k]).distance(v) == min;
                            if c == j {
                                assert(coords@[c].distance(v) < coords@[k].distance(v));
                            } else {
                                assert(coords@[c].distance(v) < coords@[j].distance(v));
                                assert(min <= coords@[c].distance(v));
                            }
                        }
                    }
                }
            }
        }
        mark
    }

    /// The grid that reaches two places beyond the greatest column and
    /// row of the coordinates, with the mark of each place. Nothing where
    /// there are no coordinates or the grid is too large to address.
    pub fn from_coords(coords: &[Vec2]) -> (r: Option<Grid>)
        ensures
            r is Some <==> frame_fits(coords@) && coords@.len() < usize::MAX,
            r matches Some(g) ==> g.marks(coords@),
    {
        let (mx, my) = match extent(coords) {
            Some(e) => e,
            None => {
                return None;
            },
        };
        if mx > usize::MAX as u64 - 2 || my > usize::MAX as u64 - 2 || coords.len() == usize::MAX {
            proof {
                lemma_frame(mx as int + 2, my as int + 2);
            }
            return None;
        }
        let (w, h) = ((mx + 2) as usize, (my + 2) as usize);
        if h.checked_mul(w).is_none() {
            proof {
                lemma_frame(mx as int + 2, my as int + 2);
            }
            return None;
        }
        proof {
            lemma_frame(mx as int + 2, my as int + 2);
        }
        let mut grid = Grid::new(h, w);
        let mut x: usize = 0;
        while x < w
            invariant
                x <= w,
                grid.wf(),
                grid.rows() == h,
                grid.cols() == w,
                coords@.len() < usize::MAX,
                forall|u: u64, v: u64|
                    u < x && v < h ==> mark_of(
                        coords@,
                        Vec2 { x: u, y: v },
                        #[trigger] grid.mark_at(Vec2 { x: u, y: v }),
                    ),
            decreases w - x,
        {
            let mut y: usize = 0;
            while y < h
                invariant
                    y <= h,
                    x < w,
                    grid.wf(),
                    grid.rows() == h,
                    grid.cols() == w,
                    coords@.len() < usize::MAX,
                    forall|u: u64, v: u64|
                        u < w && v < h && (u < x || (u == x && v < y)) ==> mark_of(
                            coords@,
                            Vec2 { x: u, y: v },
                            #[trigger] grid.mark_at(Vec2 { x: u, y: v }),
                        ),
                decreases h - y,
            {
                let v = Vec2 { x: x as u64, y: y as u64 };
                let mark = Grid::nearest(coords, v);
                let ghost before = grid;
                grid.set(v, mark);
                proof {
                    assert forall|a: u64, b: u64|
                        a < w && b < h && (a < x || (a == x && b < y + 1)) implies mark_of(
                        coords@,
                        Vec2 { x: a, y: b },
                        #[trigger] grid.mark_at(Vec2 { x: a, y: b }),
                    ) by {
                        before.lemma_place(a as int, b as int);
                        before.lemma_place(x as int, y as int);
                        if a == x && b == y {
                        } else {
                            let wi = w as int;
                            assert(b * wi + a != y * wi + x) by (nonlinear_arith)
                                requires
                                    0 <= a < wi,
                                    0 <= x < wi,
                                    a != x || b != y,
                            ;
                            assert(grid.mark_at(Vec2 { x: a, y: b }) == before.mark_at(
                                Vec2 { x: a, y: b },
                            ));
                        }
                    }
                }
                y += 1;
            }
            x += 1;
        }
        Some(grid)
    }
}

/// The coordinate that a line such as `1, 6` writes: a number, a comma
/// and a blank, and a number.
pub open spec fn coord_of(s: Seq<char>) -> Option<Vec2> {
    if exists|k: int| is_split(s, k) {
        let k = choose|k: int| is_split(s, k);
        match (decimal_u64(s.subrange(0, k)), decimal_u64(s.subrange(k + 2, s.len() as int))) {
            (Some(x), Some(y)) => Some(Vec2 { x, y }),
            _ => None,
        }
    } else {
        None
    }
}

/// Whether the first comma with a blank behind it stands at place `k`.
pub open spec fn is_split(s: Seq<char>, k: int) -> bool {
    &&& 0 <= k && k + 1 < s.len()
    &&& s[k] == ',' && s[k + 1] == ' '
    &&& forall|j: int| 0 <= j < k ==> !(s[j] == ',' && #[trigger] s[j + 1] == ' ')
}

/// Reads a coordinate such as `1, 6`.
pub fn parse_coord(s: &str) -> (r: Result<Vec2, Error>)
    ensures
        r == (match coord_of(s@) {
            Some(v) => Ok(v),
            None => Err(Error::MalformedInput),
        }),
{
    let n = s.unicode_len();
    let mut k: usize = 0;
    while n >= 2 && k < n - 1
        invariant
            k <= n,
            n == s@.len(),
            forall|j: int| 0 <= j < k ==> !(s@[j] == ',' && #[trigger] s@[j + 1] == ' '),
        decreases n - k,
    {
        if s.get_char(k) == ',' && s.get_char(k + 1) == ' ' {
            assert(is_split(s@, k as int));
            proof {
                let chosen = choose|c: int| is_split(s@, c);
                if chosen < k {
                    assert(!(s@[chosen] == ',' && s@[chosen + 1] == ' '));
                } else if chosen > k {
                    assert(!(s@[k as int] == ',' && s@[k + 1] == ' '));
                }
            }
            let x = parse_u64(s.substring_char(0, k));
            let y = parse_u64(s.substring_char(k + 2, n));
            return match (x, y) {
                (Some(x), Some(y)) => Ok(Vec2 { x, y }),
                _ => Err(Error::MalformedInput),
            };
        }
        k += 1;
    }
    proof {
        assert forall|c: int| !is_split(s@, c) by {
            if is_split(s@, c) {
                assert(!(s@[c] == ',' && s@[c + 1] == ' '));
            }
        }
    }
    Err(Error::MalformedInput)
}

/// The smaller of a number and the greatest that the machine holds.
pub open spec fn capped(n: nat) -> usize {
    if n > usize::MAX {
        usize::MAX
    } else {
        n as usize
    }
}

/// Whether a place with the mark `i` lies on the border of the grid.
pub open spec fn on_border(g: Grid, i: usize) -> bool {
    exists|x: u64, y: u64|
        x < g.cols() && y < g.rows() && (x == 0 || y == 0 || x == g.cols() - 1 || y == g.rows()
            - 1) && #[trigger] g.mark_at(Vec2 { x, y }) == i
}

impl Grid {
    fn capped_sum(v: &Vec2, coords: &[Vec2]) -> (d: usize)
        ensures
            d == capped(v.distance_sum(coords@, coords@.len())),
    {
        let mut sum: usize = 0;
        let mut over = false;
        let mut i: usize = 0;
        while i < coords.len()
            invariant
                i <= coords@.len(),
                !over ==> sum == v.distance_sum(coords@, i as nat),
                over ==> v.distance_sum(coords@, i as nat) > usize::MAX,
            decreases coords@.len() - i,
        {
            let d = v.wide_dist(&coords[i]);
            if over || d > (usize::MAX - sum) as u128 {
                over = true;
            } else {
                sum = sum + d as usize;
            }
            i += 1;
        }
        if over {
            usize::MAX
        } else {
            sum
        }
    }

    /// The grid that reaches two places beyond the greatest column and
    /// row of the coordinates, with the distances to all coordinates
    /// together as the mark of each place, as far as the machine can
    /// count.
    pub fn from_coords_sum(coords: &[Vec2]) -> (r: Option<Grid>)
        ensures
            r is Some <==> frame_fits(coords@),
            r matches Some(g) ==> g.sums(coords@),
    {
        let (mx, my) = match extent(coords) {
            Some(e) => e,
            None => {
                return None;
            },
        };
        if mx > usize::MAX as u64 - 2 || my > usize::MAX as u64 - 2 {
            proof {
                lemma_frame(mx as int + 2, my as int + 2);
            }
            return None;
        }
        let (w, h) = ((mx + 2) as usize, (my + 2) as usize);
        if h.checked_mul(w).is_none() {
            proof {
                lemma_frame(mx as int + 2, my as int + 2);
            }
            return None;
        }
        proof {
            lemma_frame(mx as int + 2, my as int + 2);
        }
        let mut grid = Grid::new(h, w);
        let mut x: usize = 0;
        while x < w
            invariant
                x <= w,
                grid.wf(),
                grid.rows() == h,
                grid.cols() == w,
                forall|u: u64, v: u64|
                    u < x && v < h ==> #[trigger] grid.mark_at(Vec2 { x: u, y: v }) == capped(
                        (Vec2 { x: u, y: v }).distance_sum(coords@, coords@.len()),
                    ),
            decreases w - x,
        {
            let mut y: usize = 0;
            while y < h
                invariant
                    y <= h,
                    x < w,
                    grid.wf(),
                    grid.rows() == h,
                    grid.cols() == w,
                    forall|u: u64, v: u64|
                        u < w && v < h && (u < x || (u == x && v < y)) ==> #[trigger] grid.mark_at(
                            Vec2 { x: u, y: v },
                        ) == capped((Vec2 { x: u, y: v }).distance_sum(coords@, coords@.len())),
                decreases h - y,
            {
                let v = Vec2 { x: x as u64, y: y as u64 };
                let mark = Grid::capped_sum(&v, coords);
                let ghost before = grid;
                grid.set(v, mark);
                proof {
                    assert forall|a: u64, b: u64|
                        a < w && b < h && (a < x || (a == x && b < y + 1))
                            implies #[trigger] grid.mark_at(Vec2 { x: a, y: b }) == capped(
                        (Vec2 { x: a, y: b }).distance_sum(coords@, coords@.len()),
                    ) by {
                        before.lemma_place(a as int, b as int);
                        before.lemma_place(x as int, y as int);
                        if a == x && b == y {
                        } else {
                            let wi = w as int;
                            assert(b * wi + a != y * wi + x) by (nonlinear_arith)
                                requires
                                    0 <= a < wi,
                                    0 <= x < wi,
                                    a != x || b != y,
                            ;
                            assert(grid.mark_at(Vec2 { x: a, y: b }) == before.mark_at(
                                Vec2 { x: a, y: b },
                            ));
                        }
                    }
                }
                y += 1;
            }
            x += 1;
        }
        Some(grid)
    }

    /// For each mark up to `n`, whether its area is finite: the mark is
    /// not zero, and no place on the border of the grid bears it.
    pub fn finite_coords(&self, n: usize) -> (finite: Vec<bool>)
        requires
            self.wf(),
            n < usize::MAX,
            self.rows() >= 1,
            self.cols() >= 1,
        ensures
            finite@.len() == n + 1,
            forall|i: int|
                0 <= i <= n ==> #[trigger] finite@[i] == (i != 0 && !on_border(*self, i as usize)),
    {
        let mut finite: Vec<bool> = Vec::new();
        let mut i: usize = 0;
        while i <= n
            invariant
                i <= n + 1,
                n < usize::MAX,
                finite@.len() == i,
                forall|k: int| 0 <= k < i ==> #[trigger] finite@[k] == (k != 0),
            decreases n + 1 - i,
        {
            finite.push(i != 0);
            i += 1;
        }
        let (h, w) = (self.h, self.w);
        let mut y: usize = 0;
        while y < h
            invariant
                y <= h,
                self.wf(),
                h == self.rows(),
                w == self.cols(),
                h >= 1,
                w >= 1,
                finite@.len() == n + 1,
                forall|i: int|
                    0 <= i <= n ==> #[trigger] finite@[i] == (i != 0 && !seen_on_border(
                        *self,
                        i as usize,
                        y as int,
                        0,
                    )),
            decreases h - y,
        {
            let mut x: usize = 0;
            while x < w
                invariant
                    x <= w,
                    y < h,
                    self.wf(),
                    h == self.rows(),
                    w == self.cols(),
                    h >= 1,
                    w >= 1,
                    finite@.len() == n + 1,
                    forall|i: int|
                        0 <= i <= n ==> #[trigger] finite@[i] == (i != 0 && !seen_on_border(
                            *self,
                            i as usize,
                            y as int,
                            x as int,
                        )),
                decreases w - x,
            {
                if x == 0 || y == 0 || x == w - 1 || y == h - 1 {
                    let mark = self.get(Vec2 { x: x as u64, y: y as u64 });
                    if mark != 0 && mark <= n {
                        finite[mark] = false;
                    }
                    proof {
                        assert forall|i: int| 0 <= i <= n implies #[trigger] finite@[i] == (i != 0
                            && !seen_on_border(*self, i as usize, y as int, x + 1)) by {
                            assert(self.mark_at(Vec2 { x: x as u64, y: y as u64 }) == mark);
                            if i != 0 {
                                if i == mark {
                                    assert(is_border_place(*self, x as u64, y as u64));
                                } else if seen_on_border(*self, i as usize, y as int, x + 1) {
                                    let (a, b) = choose|a: u64, b: u64|
                                        is_border_place(*self, a, b) && (b < y || (b == y && a < x
                                            + 1)) && #[trigger] self.mark_at(Vec2 { x: a, y: b })
                                            == i;
                                    assert(b < y || (b == y && a < x));
                                    assert(seen_on_border(*self, i as usize, y as int, x as int));
                                }
                            }
                        }
                    }
                } else {
                    proof {
                        assert forall|i: int| 0 <= i <= n implies #[trigger] finite@[i] == (i != 0
                            && !seen_on_border(*self, i as usize, y as int, x + 1)) by {
                            if seen_on_border(*self, i as usize, y as int, x + 1) {
                                let (a, b) = choose|a: u64, b: u64|
                                    is_border_place(*self, a, b) && (b < y || (b == y && a < x + 1))
                                        && #[trigger] self.mark_at(Vec2 { x: a, y: b }) == i;
                                assert(b < y || (b == y && a < x));
                                assert(seen_on_border(*self, i as usize, y as int, x as int));
                            }
                        }
                    }
                }
                x += 1;
            }
            proof {
                assert forall|i: int| 0 <= i <= n implies #[trigger] finite@[i] == (i != 0
                    && !seen_on_border(*self, i as usize, y + 1, 0)) by {
                    if seen_on_border(*self, i as usize, y + 1, 0) {
                        let (a, b) = choose|a: u64, b: u64|
                            is_border_place(*self, a, b) && (b < y + 1 || (b == y + 1 && a < 0))
                                && #[trigger] self.mark_at(Vec2 { x: a, y: b }) == i;
                        assert(b < y || (b == y && a < w));
                        assert(seen_on_border(*self, i as usize, y as int, w as int));
                    }
                    if seen_on_border(*self, i as usize, y as int, w as int) {
                        let (a, b) = choose|a: u64, b: u64|
                            is_border_place(*self, a, b) && (b < y || (b == y && a < w))
                                && #[trigger] self.mark_at(Vec2 { x: a, y: b }) == i;
                        assert(b < y + 1 || (b == y + 1 && a < 0));
                    }
                }
            }
            y += 1;
        }
        proof {
            assert forall|i: int| 0 <= i <= n implies #[trigger] finite@[i] == (i != 0
                && !on_border(*self, i as usize)) by {
                if on_border(*self, i as usize) {
                    let (a, b) = choose|a: u64, b: u64|
                        a < self.cols() && b < self.rows() && (a == 0 || b == 0 || a == self.cols()
                            - 1 || b == self.rows() - 1) && #[trigger] self.mark_at(
                            Vec2 { x: a, y: b },
                        ) == i as usize;
                    assert(is_border_place(*self, a, b));
                    assert(seen_on_border(*self, i as usize, h as int, 0));
                }
                if seen_on_border(*self, i as usize, h as int, 0) {
                    let (a, b) = choose|a: u64, b: u64|
                        is_border_place(*self, a, b) && (b < h || (b == h && a < 0))
                            && #[trigger] self.mark_at(Vec2 { x: a, y: b }) == i;
                    assert(on_border(*self, i as usize));
                }
            }
        }
        finite
    }
}

/// Whether the place lies on the border of the grid.
pub open spec fn is_border_place(g: Grid, x: u64, y: u64) -> bool {
    x < g.cols() && y < g.rows() && (x == 0 || y == 0 || x == g.cols() - 1 || y == g.rows() - 1)
}

/// Whether a place on the border in the rows before `y`, or in row `y`
/// before column `x`, bears the mark `i`.
pub open spec fn seen_on_border(g: Grid, i: usize, y: int, x: int) -> bool {
    exists|a: u64, b: u64|
        is_border_place(g, a, b) && (b < y || (b == y && a < x)) && #[trigger] g.mark_at(
            Vec2 { x: a, y: b },
        ) == i
}

/// A product of two numbers from two on is not less than either.
proof fn lemma_frame(w: int, h: int)
    requires
        w >= 2,
        h >= 2,
    ensures
        w <= w * h,
        h <= w * h,
        w * h == h * w,
{
    assert(w <= w * h && h <= w * h && w * h == h * w) by (nonlinear_arith)
        requires
            w >= 2,
            h >= 2,
    ;
}

/// Whether the area of mark `i` is finite: the mark stands for a
/// coordinate, and no place on the border of the grid bears it.
pub open spec fn finite(g: Grid, i: int) -> bool {
    1 <= i <= usize::MAX && !on_border(g, i as usize)
}

/// Whether `r` is the size of the largest finite area among the marks one
/// to `n`, or nothing where none of them has a finite area.
pub open spec fn largest_finite(g: Grid, n: int, r: Option<usize>) -> bool {
    match r {
        Some(size) => (exists|i: int|
            1 <= i <= n && #[trigger] finite(g, i) && marked(g.field(), i as usize) == size)
            && forall|i: int|
            1 <= i <= n && #[trigger] finite(g, i) ==> marked(g.field(), i as usize) <= size,
        None => forall|i: int| 1 <= i <= n ==> !#[trigger] finite(g, i),
    }
}

/// Whether `r` is what the first part finds on a grid with the marks of
/// the coordinates.
pub open spec fn part1_on(g: Grid, coords: Seq<Vec2>, r: Option<usize>) -> bool {
    g.marks(coords) && largest_finite(g, coords.len() as int, r)
}

/// Whether `r` counts the marks below `max` on a grid with the sums of
/// distances to the coordinates.
pub open spec fn part2_on(g: Grid, coords: Seq<Vec2>, max: usize, r: Option<usize>) -> bool {
    g.sums(coords) && r == Some(below(g.field(), max) as usize)
}

/// The size of the largest finite area of places that are closest to one
/// coordinate, on the grid that reaches two places beyond the greatest
/// column and row of the coordinates. Nothing where there are no
/// coordinates, the grid cannot be addressed, or no area is finite.
pub fn part1(s: &[Vec2]) -> (r: Option<usize>)
    ensures
        !(frame_fits(s@) && s@.len() < usize::MAX) ==> r is None,
        frame_fits(s@) && s@.len() < usize::MAX ==> exists|g: Grid| #[trigger] part1_on(g, s@, r),
{
    let grid = match Grid::from_coords(s) {
        Some(g) => g,
        None => {
            return None;
        },
    };
    let n = s.len();
    let bounded = grid.finite_coords(n);
    let mut best: Option<usize> = None;
    let mut i: usize = 1;
    while i <= n
        invariant
            1 <= i <= n + 1,
            n < usize::MAX,
            bounded@.len() == n + 1,
            forall|k: int|
                0 <= k <= n ==> #[trigger] bounded@[k] == (k != 0 && !on_border(grid, k as usize)),
            largest_finite(grid, i - 1, best),
        decreases n + 1 - i,
    {
        let ghost before = best;
        if bounded[i] {
            let count = grid.count_coords(i);
            best = match best {
                Some(b) => if count >= b {
                    Some(count)
                } else {
                    Some(b)
                },
                None => Some(count),
            };
            proof {
                assert(finite(grid, i as int));
                match before {
                    Some(b) => {
                        if count < b {
                            let w = choose|w: int|
                                1 <= w <= i - 1 && #[trigger] finite(grid, w) && marked(grid.field(), w as usize) == b;
                            assert(1 <= w <= i);
                        }
                    },
                    None => {},
                }
            }
        } else {
            proof {
                assert(!finite(grid, i as int));
                match before {
                    Some(b) => {
                        let w = choose|w: int|
                            1 <= w <= i - 1 && #[trigger] finite(grid, w)
                                && marked(grid.field(), w as usize) == b;
                        assert(1 <= w <= i);
                    },
                    None => {},
                }
            }
        }
        i += 1;
    }
    proof {
        assert(part1_on(grid, s@, best));
    }
    best
}

/// How many places have less than `max` as the sum of their distances to
/// all coordinates, on the grid that reaches two places beyond the
/// greatest column and row of the coordinates. Nothing where there are no
/// coordinates or the grid cannot be addressed.
pub fn part2(s: &[Vec2], max: usize) -> (r: Option<usize>)
    ensures
        !frame_fits(s@) ==> r is None,
        frame_fits(s@) ==> exists|g: Grid| #[trigger] part2_on(g, s@, max, r),
{
    match Grid::from_coords_sum(s) {
        Some(grid) => {
            let r = Some(grid.count_below(max));
            proof {
                assert(part2_on(grid, s@, max, r));
            }
            r
        },
        None => None,
    }
}

} // verus!
