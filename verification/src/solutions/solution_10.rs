//! Points of light that move across the sky and, for a moment, write a
//! message.

use crate::error::Error;
use crate::util::pattern::{captures, captures_of, signed, signed_of};
use vstd::prelude::*;

verus! {

/// A pair of coordinates: a position, or a velocity.
#[derive(Debug, Clone, Copy, PartialEq, Eq, Structural)]
pub struct Vec2 {
    pub x: isize,
    pub y: isize,
}

/// A point of light: where it is, and how far it moves in a second.
#[derive(Debug, Clone, Copy, PartialEq, Eq, Structural)]
pub struct Point {
    pub pos: Vec2,
    pub velocity: Vec2,
}

impl Point {
    /// Where the point is after `t` seconds.
    pub open spec fn at(self, t: nat) -> (int, int) {
        (self.pos.x + self.velocity.x * t, self.pos.y + self.velocity.y * t)
    }

    /// Whether the two points touch: side by side, corner to corner, or
    /// at the same place.
    pub open spec fn touches(self, other: Point) -> bool {
        -1 <= self.pos.x - other.pos.x <= 1 && -1 <= self.pos.y - other.pos.y <= 1
    }

    /// Lets `delta` seconds pass.
    pub fn update(&mut self, delta: usize)
        requires
            isize::MIN <= old(self).at(delta as nat).0 <= isize::MAX,
            isize::MIN <= old(self).at(delta as nat).1 <= isize::MAX,
        ensures
            final(self).velocity == old(self).velocity,
            (final(self).pos.x as int, final(self).pos.y as int) == old(self).at(delta as nat),
    {
        let x = self.pos.x as i128 + wide_product(self.velocity.x, delta);
        let y = self.pos.y as i128 + wide_product(self.velocity.y, delta);
        self.pos = Vec2 { x: x as isize, y: y as isize };
    }

    /// Whether the two points touch.
    pub fn is_neighbor(&self, other: &Point) -> (b: bool)
        ensures
            b == self.touches(*other),
    {
        let x = self.pos.x as i128 - other.pos.x as i128;
        let y = self.pos.y as i128 - other.pos.y as i128;
        -1 <= x && x <= 1 && -1 <= y && y <= 1
    }
}

fn wide_product(v: isize, t: usize) -> (p: i128)
    ensures
        p == v * t,
        -0x8000_0000_0000_0000 * 0xffff_ffff_ffff_ffff <= p <= 0x8000_0000_0000_0000
            * 0xffff_ffff_ffff_ffff,
{
    let a = v as i128;
    let b = t as i128;
    assert(-0x8000_0000_0000_0000 * 0xffff_ffff_ffff_ffff <= a * b <= 0x8000_0000_0000_0000
        * 0xffff_ffff_ffff_ffff) by (nonlinear_arith)
        requires
            -0x8000_0000_0000_0000 <= a <= 0x7fff_ffff_ffff_ffff,
            0 <= b <= 0xffff_ffff_ffff_ffff,
    ;
    a * b
}

/// The regular expression of a line such as
/// `position=< 9,  1> velocity=< 0,  2>`.
pub open spec fn point_pattern() -> Seq<char> {
    r"(position=<\s*)(-?\d+)(,\s*)(-?\d+)(>\s*velocity=<\s*)(-?\d+)(,\s*)(-?\d+)"@
}

/// The four numbers of a point in the capture groups of its line: the
/// groups two, four, six and eight.
pub open spec fn point_of_groups(groups: Option<Seq<Option<Seq<char>>>>) -> Option<
    (i64, i64, i64, i64),
> {
    match groups {
        Some(g) => match (signed_of(g, 2), signed_of(g, 4), signed_of(g, 6), signed_of(g, 8)) {
            (Some(px), Some(py), Some(vx), Some(vy)) => Some((px, py, vx, vy)),
            _ => None,
        },
        None => None,
    }
}

/// Whether the number fits the coordinates of the machine.
pub open spec fn fits(v: i64) -> bool {
    isize::MIN <= v <= isize::MAX
}

/// Reads a point out of the capture groups of its line.
pub fn point_from_groups(groups: &Option<Vec<Option<String>>>) -> (r: Result<Point, Error>)
    ensures
        match r {
            Ok(p) => point_of_groups(groups.deep_view()) == Some(
                (p.pos.x as i64, p.pos.y as i64, p.velocity.x as i64, p.velocity.y as i64),
            ),
            Err(e) => e == Error::MalformedInput && (match point_of_groups(groups.deep_view()) {
                Some((px, py, vx, vy)) => !(fits(px) && fits(py) && fits(vx) && fits(vy)),
                None => true,
            }),
        },
{
    match groups {
        None => Err(Error::MalformedInput),
        Some(g) => match (signed(g, 2), signed(g, 4), signed(g, 6), signed(g, 8)) {
            (Some(px), Some(py), Some(vx), Some(vy)) => {
                let lo = isize::MIN as i64;
                let hi = isize::MAX as i64;
                if px < lo || px > hi || py < lo || py > hi || vx < lo || vx > hi || vy < lo || vy
                    > hi {
                    return Err(Error::MalformedInput);
                }
                Ok(
                    Point {
                        pos: Vec2 { x: px as isize, y: py as isize },
                        velocity: Vec2 { x: vx as isize, y: vy as isize },
                    },
                )
            },
            _ => Err(Error::MalformedInput),
        },
    }
}

/// Reads a line such as `position=< 9,  1> velocity=< 0,  2>`.
pub fn parse_point(s: &str) -> (r: Result<Point, Error>)
    ensures
        match r {
            Ok(p) => point_of_groups(captures_of(point_pattern(), s@)) == Some(
                (p.pos.x as i64, p.pos.y as i64, p.velocity.x as i64, p.velocity.y as i64),
            ),
            Err(e) => e == Error::MalformedInput && (match point_of_groups(
                captures_of(point_pattern(), s@),
            ) {
                Some((px, py, vx, vy)) => !(fits(px) && fits(py) && fits(vx) && fits(vy)),
                None => true,
            }),
        },
{
    let groups = captures(
        r"(position=<\s*)(-?\d+)(,\s*)(-?\d+)(>\s*velocity=<\s*)(-?\d+)(,\s*)(-?\d+)",
        s,
    );
    point_from_groups(&groups)
}

/// Whether all points lie, after `t` seconds, in a box that is less than
/// `size` places wide and high.
pub open spec fn gathered(points: Seq<Point>, t: nat, size: nat) -> bool {
    points.len() > 0 && forall|i: int, j: int|
        0 <= i < points.len() && 0 <= j < points.len() ==> (#[trigger] points[i]).at(t).0
            - (#[trigger] points[j]).at(t).0 + 1 < size && points[i].at(t).1 - points[j].at(t).1
            + 1 < size
}

/// The smallest and the greatest column and row of the points after `t`
/// seconds.
fn bounds(points: &[Point], t: u32) -> (r: (i128, i128, i128, i128))
    requires
        points@.len() > 0,
    ensures
        forall|i: int|
            0 <= i < points@.len() ==> r.0 <= (#[trigger] points@[i]).at(t as nat).0 <= r.1 && r.2
                <= points@[i].at(t as nat).1 <= r.3,
        exists|i: int| 0 <= i < points@.len() && (#[trigger] points@[i]).at(t as nat).0 == r.0,
        exists|i: int| 0 <= i < points@.len() && (#[trigger] points@[i]).at(t as nat).0 == r.1,
        exists|i: int| 0 <= i < points@.len() && (#[trigger] points@[i]).at(t as nat).1 == r.2,
        exists|i: int| 0 <= i < points@.len() && (#[trigger] points@[i]).at(t as nat).1 == r.3,
        r.1 - r.0 <= 0x2_0000_0000_0000_0000_0000_0000,
        r.3 - r.2 <= 0x2_0000_0000_0000_0000_0000_0000,
        r.0 <= r.1,
        r.2 <= r.3,
{
    let first = place(&points[0], t);
    let (mut min_x, mut max_x, mut min_y, mut max_y) = (first.0, first.0, first.1, first.1);
    let mut i: usize = 1;
    while i < points.len()
        invariant
            1 <= i <= points@.len(),
            forall|k: int|
                0 <= k < i ==> min_x <= (#[trigger] points@[k]).at(t as nat).0 <= max_x && min_y
                    <= points@[k].at(t as nat).1 <= max_y,
            exists|k: int| 0 <= k < i && (#[trigger] points@[k]).at(t as nat).0 == min_x,
            exists|k: int| 0 <= k < i && (#[trigger] points@[k]).at(t as nat).0 == max_x,
            exists|k: int| 0 <= k < i && (#[trigger] points@[k]).at(t as nat).1 == min_y,
            exists|k: int| 0 <= k < i && (#[trigger] points@[k]).at(t as nat).1 == max_y,
            -0x1_0000_0000_0000_0000_0000_0000 <= min_x <= max_x <= 0x1_0000_0000_0000_0000_0000_0000,
            -0x1_0000_0000_0000_0000_0000_0000 <= min_y <= max_y <= 0x1_0000_0000_0000_0000_0000_0000,
        decreases points@.len() - i,
    {
        let p = place(&points[i], t);
        if p.0 < min_x {
            min_x = p.0;
        }
        if p.0 > max_x {
            max_x = p.0;
        }
        if p.1 < min_y {
            min_y = p.1;
        }
        if p.1 > max_y {
            max_y = p.1;
        }
        i += 1;
    }
    (min_x, max_x, min_y, max_y)
}

fn place(p: &Point, t: u32) -> (r: (i128, i128))
    ensures
        (r.0 as int, r.1 as int) == p.at(t as nat),
        -0x1_0000_0000_0000_0000_0000_0000 <= r.0 <= 0x1_0000_0000_0000_0000_0000_0000,
        -0x1_0000_0000_0000_0000_0000_0000 <= r.1 <= 0x1_0000_0000_0000_0000_0000_0000,
{
    let (vx, vy, s) = (p.velocity.x as i128, p.velocity.y as i128, t as i128);
    assert(-0x8000_0000_0000_0000 * 0x1_0000_0000 <= vx * s <= 0x8000_0000_0000_0000
        * 0x1_0000_0000) by (nonlinear_arith)
        requires
            -0x8000_0000_0000_0000 <= vx <= 0x7fff_ffff_ffff_ffff,
            0 <= s <= 0xffff_ffff,
    ;
    assert(-0x8000_0000_0000_0000 * 0x1_0000_0000 <= vy * s <= 0x8000_0000_0000_0000
        * 0x1_0000_0000) by (nonlinear_arith)
        requires
            -0x8000_0000_0000_0000 <= vy <= 0x7fff_ffff_ffff_ffff,
            0 <= s <= 0xffff_ffff,
    ;
    (p.pos.x as i128 + vx * s, p.pos.y as i128 + vy * s)
}

/// The first second, of the seconds one to `limit`, in which all points
/// lie in a box of less than sixty-five by sixty-five places.
pub fn part1(s: &[Point], limit: u32) -> (r: Option<u32>)
    ensures
        match r {
            Some(t) => 1 <= t <= limit && gathered(s@, t as nat, 65) && forall|u: nat|
                1 <= u < t ==> !gathered(s@, u, 65),
            None => forall|u: nat| 1 <= u <= limit ==> !gathered(s@, u, 65),
        },
{
    if s.len() == 0 {
        return None;
    }
    let mut t: u32 = 0;
    while t < limit
        invariant
            t <= limit,
            s@.len() > 0,
            forall|u: nat| 1 <= u <= t ==> !gathered(s@, u, 65),
        decreases limit - t,
    {
        t += 1;
        let (min_x, max_x, min_y, max_y) = bounds(s, t);
        let w = max_x - min_x + 1;
        let h = max_y - min_y + 1;
        if h < 65 && w < 65 {
            assert(gathered(s@, t as nat, 65)) by {
                assert forall|i: int, j: int|
                    0 <= i < s@.len() && 0 <= j < s@.len() implies (#[trigger] s@[i]).at(
                    t as nat,
                ).0 - (#[trigger] s@[j]).at(t as nat).0 + 1 < 65 && s@[i].at(t as nat).1 - s@[j].at(
                    t as nat,
                ).1 + 1 < 65 by {
                    assert(min_x <= s@[i].at(t as nat).0 <= max_x);
                    assert(min_x <= s@[j].at(t as nat).0 <= max_x);
                    assert(min_y <= s@[i].at(t as nat).1 <= max_y);
                    assert(min_y <= s@[j].at(t as nat).1 <= max_y);
                }
            }
            return Some(t);
        }
        proof {
            if gathered(s@, t as nat, 65) {
                let a = choose|i: int| 0 <= i < s@.len() && (#[trigger] s@[i]).at(t as nat).0 == min_x;
                let b = choose|i: int| 0 <= i < s@.len() && (#[trigger] s@[i]).at(t as nat).0 == max_x;
                let c = choose|i: int| 0 <= i < s@.len() && (#[trigger] s@[i]).at(t as nat).1 == min_y;
                let d = choose|i: int| 0 <= i < s@.len() && (#[trigger] s@[i]).at(t as nat).1 == max_y;
                assert(s@[b].at(t as nat).0 - s@[a].at(t as nat).0 + 1 < 65);
                assert(s@[d].at(t as nat).1 - s@[c].at(t as nat).1 + 1 < 65);
            }
        }
    }
    None
}

/// The points as they lie in the box around them: `w` places wide, `h`
/// places high, row by row, a place lit where a point lies.
#[derive(Debug, PartialEq, Eq)]
pub struct Picture {
    pub cells: Vec<bool>,
    pub w: usize,
    pub h: usize,
}

/// Whether one of the first `upto` points lies, after `t` seconds, at the
/// place in column `x` and row `y`.
pub open spec fn lit(points: Seq<Point>, upto: int, t: nat, x: int, y: int) -> bool {
    exists|i: int| 0 <= i < upto && (#[trigger] points[i]).at(t) == (x, y)
}

/// Whether the picture shows the points after `t` seconds in the box
/// whose first column is `left` and whose first row is `top`: no point
/// lies outside, a point lies in the first and in the last column and
/// row, and a place is lit where a point lies.
pub open spec fn shows(p: Picture, points: Seq<Point>, t: nat, left: int, top: int) -> bool {
    &&& p.cells@.len() == p.w * p.h
    &&& forall|i: int|
        0 <= i < points.len() ==> left <= (#[trigger] points[i]).at(t).0 < left + p.w && top
            <= points[i].at(t).1 < top + p.h
    &&& exists|i: int| 0 <= i < points.len() && (#[trigger] points[i]).at(t).0 == left
    &&& exists|i: int| 0 <= i < points.len() && (#[trigger] points[i]).at(t).0 == left + p.w - 1
    &&& exists|i: int| 0 <= i < points.len() && (#[trigger] points[i]).at(t).1 == top
    &&& exists|i: int| 0 <= i < points.len() && (#[trigger] points[i]).at(t).1 == top + p.h - 1
    &&& forall|x: int, y: int|
        0 <= x < p.w && 0 <= y < p.h ==> #[trigger] p.cells@[y * p.w + x] == lit(
            points,
            points.len() as int,
            t,
            left + x,
            top + y,
        )
}

/// Whether the picture shows the points after `t` seconds in the box
/// around them.
pub open spec fn framed(p: Picture, points: Seq<Point>, t: nat) -> bool {
    exists|left: int, top: int| #[trigger] shows(p, points, t, left, top)
}

/// The picture of the points after `t` seconds, where they lie in a box
/// of less than sixty-five by sixty-five places.
pub fn picture(s: &[Point], t: u32) -> (r: Option<Picture>)
    ensures
        match r {
            Some(p) => framed(p, s@, t as nat),
            None => !gathered(s@, t as nat, 65),
        },
        r is Some ==> gathered(s@, t as nat, 65),
{
    if s.len() == 0 {
        return None;
    }
    let (min_x, max_x, min_y, max_y) = bounds(s, t);
    let wide = max_x - min_x + 1;
    let high = max_y - min_y + 1;
    if !(high < 65 && wide < 65) {
        proof {
            if gathered(s@, t as nat, 65) {
                let a = choose|i: int| 0 <= i < s@.len() && (#[trigger] s@[i]).at(t as nat).0 == min_x;
                let b = choose|i: int| 0 <= i < s@.len() && (#[trigger] s@[i]).at(t as nat).0 == max_x;
                let c = choose|i: int| 0 <= i < s@.len() && (#[trigger] s@[i]).at(t as nat).1 == min_y;
                let d = choose|i: int| 0 <= i < s@.len() && (#[trigger] s@[i]).at(t as nat).1 == max_y;
                assert(s@[b].at(t as nat).0 - s@[a].at(t as nat).0 + 1 < 65);
                assert(s@[d].at(t as nat).1 - s@[c].at(t as nat).1 + 1 < 65);
            }
        }
        return None;
    }
    assert(gathered(s@, t as nat, 65)) by {
        assert forall|i: int, j: int| 0 <= i < s@.len() && 0 <= j < s@.len() implies (#[trigger] s@[i]).at(
            t as nat,
        ).0 - (#[trigger] s@[j]).at(t as nat).0 + 1 < 65 && s@[i].at(t as nat).1 - s@[j].at(
            t as nat,
        ).1 + 1 < 65 by {
            assert(min_x <= s@[i].at(t as nat).0 <= max_x);
            assert(min_x <= s@[j].at(t as nat).0 <= max_x);
            assert(min_y <= s@[i].at(t as nat).1 <= max_y);
            assert(min_y <= s@[j].at(t as nat).1 <= max_y);
        }
    }
    let w: usize = wide as usize;
    let h: usize = high as usize;
    assert(w * h <= 64 * 64) by (nonlinear_arith)
        requires
            w <= 64,
            h <= 64,
    ;
    let mut cells = dark(w * h);
    let mut i: usize = 0;
    proof {
        assert forall|x: int, y: int| 0 <= x < w && 0 <= y < h implies #[trigger] cells@[y * w + x]
            == lit(s@, 0, t as nat, min_x + x, min_y + y) by {
            lemma_cell(x, y, x, y, w as int, h as int);
        }
    }
    while i < s.len()
        invariant
            i <= s@.len(),
            1 <= w <= 64,
            1 <= h <= 64,
            w == max_x - min_x + 1,
            h == max_y - min_y + 1,
            cells@.len() == w * h,
            forall|k: int|
                0 <= k < s@.len() ==> min_x <= (#[trigger] s@[k]).at(t as nat).0 <= max_x && min_y
                    <= s@[k].at(t as nat).1 <= max_y,
            exists|k: int| 0 <= k < s@.len() && (#[trigger] s@[k]).at(t as nat).0 == min_x,
            exists|k: int| 0 <= k < s@.len() && (#[trigger] s@[k]).at(t as nat).0 == max_x,
            exists|k: int| 0 <= k < s@.len() && (#[trigger] s@[k]).at(t as nat).1 == min_y,
            exists|k: int| 0 <= k < s@.len() && (#[trigger] s@[k]).at(t as nat).1 == max_y,
            forall|x: int, y: int|
                0 <= x < w && 0 <= y < h ==> #[trigger] cells@[y * w + x] == lit(
                    s@,
                    i as int,
                    t as nat,
                    min_x + x,
                    min_y + y,
                ),
        decreases s@.len() - i,
    {
        let at = place(&s[i], t);
        proof {
            assert(min_x <= s@[i as int].at(t as nat).0 <= max_x);
            assert(min_y <= s@[i as int].at(t as nat).1 <= max_y);
        }
        let x: usize = (at.0 - min_x) as usize;
        let y: usize = (at.1 - min_y) as usize;
        let ghost before = cells@;
        proof {
            lemma_cell(x as int, y as int, x as int, y as int, w as int, h as int);
            assert(w * h <= 64 * 64) by (nonlinear_arith)
                requires
                    w <= 64,
                    h <= 64,
            ;
        }
        cells[y * w + x] = true;
        proof {
            assert forall|u: int, v: int| 0 <= u < w && 0 <= v < h implies #[trigger] cells@[v * w + u]
                == lit(s@, i + 1, t as nat, min_x + u, min_y + v) by {
                lemma_cell(u, v, x as int, y as int, w as int, h as int);
                assert(before[v * w + u] == lit(s@, i as int, t as nat, min_x + u, min_y + v));
                if u == x && v == y {
                    assert(s@[i as int].at(t as nat) == (min_x + u, min_y + v));
                } else if lit(s@, i + 1, t as nat, min_x + u, min_y + v) {
                    let k = choose|k: int|
                        0 <= k < i + 1 && (#[trigger] s@[k]).at(t as nat) == (min_x + u, min_y + v);
                    assert(k < i);
                }
            }
        }
        i += 1;
    }
    let p = Picture { cells, w, h };
    proof {
        let (left, top) = (min_x as int, min_y as int);
        assert(shows(p, s@, t as nat, left, top));
        assert(framed(p, s@, t as nat));
    }
    Some(p)
}

/// As many places without light.
fn dark(n: usize) -> (cells: Vec<bool>)
    ensures
        cells@.len() == n,
        forall|k: int| 0 <= k < n ==> !(#[trigger] cells@[k]),
{
    let mut cells: Vec<bool> = Vec::new();
    let mut i: usize = 0;
    while i < n
        invariant
            i <= n,
            cells@.len() == i,
            forall|k: int| 0 <= k < i ==> !(#[trigger] cells@[k]),
        decreases n - i,
    {
        cells.push(false);
        i += 1;
    }
    cells
}

/// A place of the box has its place among the cells, and two of them
/// have different places.
proof fn lemma_cell(x: int, y: int, u: int, v: int, w: int, h: int)
    requires
        0 <= x < w,
        0 <= y < h,
        0 <= u < w,
        0 <= v < h,
    ensures
        0 <= y * w + x < w * h,
        (x != u || y != v) ==> y * w + x != v * w + u,
{
    assert(0 <= y * w + x < w * h) by (nonlinear_arith)
        requires
            0 <= x < w,
            0 <= y < h,
    ;
    if y != v {
        assert(y * w + x != v * w + u) by (nonlinear_arith)
            requires
                0 <= x < w,
                0 <= u < w,
                y != v,
        ;
    }
}

} // verus!
