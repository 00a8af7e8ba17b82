//! Claims on a piece of fabric: how much of it is claimed twice, and
//! which claim is alone?

use crate::error::Error;
use crate::util::text::{chars_of, number_at, scan_number, scan_tag, tag_at};
use vstd::prelude::*;

verus! {

/// A claim: its number and the rectangle that it covers.
#[derive(Debug, Clone, Copy, PartialEq, Eq, Structural)]
pub struct Claim {
    pub id: usize,
    pub left_offset: usize,
    pub top_offset: usize,
    pub width: usize,
    pub height: usize,
}

impl Claim {
    /// Whether the claim covers the square inch in column `x` and row `y`.
    pub open spec fn covers(self, x: int, y: int) -> bool {
        self.left_offset <= x < self.left_offset + self.width && self.top_offset <= y
            < self.top_offset + self.height
    }

    /// Whether the claim lies on a fabric of the given size.
    pub open spec fn fits(self, width: nat, height: nat) -> bool {
        self.left_offset + self.width <= width && self.top_offset + self.height <= height
    }
}

/// The claim that a line such as `#1 @ 1,3: 4x4` writes; what follows
/// the claim is not looked at.
pub open spec fn claim_of(s: Seq<char>) -> Option<(u64, u64, u64, u64, u64)> {
    match tag_at(s, 0, "#"@) {
        Some(a) => match number_at(s, a) {
            Some((id, b)) => match tag_at(s, b, " @ "@) {
                Some(c) => match number_at(s, c) {
                    Some((left, d)) => match tag_at(s, d, ","@) {
                        Some(e) => match number_at(s, e) {
                            Some((top, f)) => match tag_at(s, f, ": "@) {
                                Some(g) => match number_at(s, g) {
                                    Some((width, h)) => match tag_at(s, h, "x"@) {
                                        Some(i) => match number_at(s, i) {
                                            Some((height, _)) => Some(
                                                (id, left, top, width, height),
                                            ),
                                            None => None,
                                        },
                                        None => None,
                                    },
                                    None => None,
                                },
                                None => None,
                            },
                            None => None,
                        },
                        None => None,
                    },
                    None => None,
                },
                None => None,
            },
            None => None,
        },
        None => None,
    }
}

/// Whether the numbers of a claim fit the machine.
pub open spec fn claim_fits(c: (u64, u64, u64, u64, u64)) -> bool {
    c.0 <= usize::MAX && c.1 <= usize::MAX && c.2 <= usize::MAX && c.3 <= usize::MAX && c.4
        <= usize::MAX
}

impl Claim {
    /// Reads a claim such as `#1 @ 1,3: 4x4`; `MalformedInput` where the
    /// line writes none or one whose numbers do not fit the machine.
    pub fn parse(s: &str) -> (r: Result<Claim, Error>)
        ensures
            match r {
                Ok(c) => claim_of(s@) == Some(
                    (
                        c.id as u64,
                        c.left_offset as u64,
                        c.top_offset as u64,
                        c.width as u64,
                        c.height as u64,
                    ),
                ),
                Err(e) => e == Error::MalformedInput,
            },
            r is Err <==> claim_of(s@) is None || !claim_fits(claim_of(s@).unwrap()),
    {
        let chars = chars_of(s);
        let a = match scan_tag(&chars, 0, "#") {
            Some(a) => a,
            None => {
                return Err(Error::MalformedInput);
            },
        };
        let (id, b) = match scan_number(&chars, a) {
            Some(r) => r,
            None => {
                return Err(Error::MalformedInput);
            },
        };
        let c = match scan_tag(&chars, b, " @ ") {
            Some(c) => c,
            None => {
                return Err(Error::MalformedInput);
            },
        };
        let (left, d) = match scan_number(&chars, c) {
            Some(r) => r,
            None => {
                return Err(Error::MalformedInput);
            },
        };
        let e = match scan_tag(&chars, d, ",") {
            Some(e) => e,
            None => {
                return Err(Error::MalformedInput);
            },
        };
        let (top, f) = match scan_number(&chars, e) {
            Some(r) => r,
            None => {
                return Err(Error::MalformedInput);
            },
        };
        let g = match scan_tag(&chars, f, ": ") {
            Some(g) => g,
            None => {
                return Err(Error::MalformedInput);
            },
        };
        let (width, h) = match scan_number(&chars, g) {
            Some(r) => r,
            None => {
                return Err(Error::MalformedInput);
            },
        };
        let i = match scan_tag(&chars, h, "x") {
            Some(i) => i,
            None => {
                return Err(Error::MalformedInput);
            },
        };
        let (height, _) = match scan_number(&chars, i) {
            Some(r) => r,
            None => {
                return Err(Error::MalformedInput);
            },
        };
        if id > usize::MAX as u64 || left > usize::MAX as u64 || top > usize::MAX as u64 || width
            > usize::MAX as u64 || height > usize::MAX as u64 {
            return Err(Error::MalformedInput);
        }
        Ok(
            Claim {
                id: id as usize,
                left_offset: left as usize,
                top_offset: top as usize,
                width: width as usize,
                height: height as usize,
            },
        )
    }
}

/// The fabric: for each square inch, how many claims cover it.
#[derive(Debug)]
pub struct Grid {
    field: Vec<usize>,
    width: usize,
    height: usize,
}

/// How many of the square inches are covered more than once.
pub open spec fn crossed(field: Seq<usize>) -> nat
    decreases field.len(),
{
    if field.len() == 0 {
        0
    } else {
        crossed(field.drop_last()) + (if field.last() > 1 {
            1nat
        } else {
            0nat
        })
    }
}

impl Grid {
    /// The width of the fabric.
    pub closed spec fn cols(self) -> nat {
        self.width as nat
    }

    /// The height of the fabric.
    pub closed spec fn rows(self) -> nat {
        self.height as nat
    }

    /// The counts, row by row.
    pub closed spec fn field(self) -> Seq<usize> {
        self.field@
    }

    /// There is one count for each square inch.
    pub open spec fn wf(self) -> bool {
        self.field().len() == self.cols() * self.rows()
    }

    /// How many claims cover the square inch in column `x` and row `y`.
    pub open spec fn count_at(self, x: int, y: int) -> usize {
        self.field()[y * self.cols() + x]
    }

    /// A square inch of the fabric has its place among the counts, and
    /// two of them have different places.
    pub proof fn lemma_places(self, x: int, y: int, u: int, v: int)
        requires
            0 <= x < self.cols(),
            0 <= y < self.rows(),
            0 <= u < self.cols(),
            0 <= v < self.rows(),
        ensures
            0 <= y * self.cols() + x < self.cols() * self.rows(),
            (x != u || y != v) ==> y * self.cols() + x != v * self.cols() + u,
    {
        let w = self.cols() as int;
        let h = self.rows() as int;
        assert(0 <= y * w + x < w * h) by (nonlinear_arith)
            requires
                0 <= x < w,
                0 <= y < h,
        ;
        if y != v {
            assert(y * w + x != v * w + u) by (nonlinear_arith)
                requires
                    0 <= x < w,
                    0 <= u < w,
                    y != v,
            ;
        }
    }

    /// A fabric without claims.
    pub fn new(width: usize, height: usize) -> (g: Grid)
        requires
            width * height <= usize::MAX,
        ensures
            g.wf(),
            g.cols() == width,
            g.rows() == height,
            forall|i: int| 0 <= i < g.field().len() ==> #[trigger] g.field()[i] == 0,
    {
        let n = width * height;
        let mut field: Vec<usize> = Vec::new();
        let mut i: usize = 0;
        while i < n
            invariant
                i <= n,
                field@.len() == i,
                forall|j: int| 0 <= j < i ==> #[trigger] field@[j] == 0,
            decreases n - i,
        {
            field.push(0);
            i += 1;
        }
        Grid { field, width, height }
    }

    /// Counts one more claim on the square inch in column `x` and row
    /// `y`.
    pub fn set(&mut self, x: usize, y: usize)
        requires
            old(self).wf(),
            x < old(self).cols(),
            y < old(self).rows(),
            old(self).count_at(x as int, y as int) < usize::MAX,
        ensures
            final(self).wf(),
            final(self).cols() == old(self).cols(),
            final(self).rows() == old(self).rows(),
            final(self).field() == old(self).field().update(
                y * old(self).cols() + x,
                (old(self).count_at(x as int, y as int) + 1) as usize,
            ),
    {
        proof {
            self.lemma_places(x as int, y as int, x as int, y as int);
        }
        let n = self.field.len();
        let ix = y * self.width + x;
        self.field[ix] = self.field[ix] + 1;
    }

    /// How many claims cover the square inch in column `x` and row `y`.
    pub fn get(&self, x: usize, y: usize) -> (n: usize)
        requires
            self.wf(),
            x < self.cols(),
            y < self.rows(),
        ensures
            n == self.count_at(x as int, y as int),
    {
        proof {
            self.lemma_places(x as int, y as int, x as int, y as int);
        }
        let n = self.field.len();
        self.field[y * self.width + x]
    }

    /// Whether the counts of `after` are those of this fabric with one
    /// more for every square inch that `claim` covers in the columns
    /// before `x`, and in column `x` in the rows before `y`.
    pub open spec fn claimed_upto(self, after: Grid, claim: Claim, x: int, y: int) -> bool {
        &&& after.wf()
        &&& after.cols() == self.cols()
        &&& after.rows() == self.rows()
        &&& forall|u: int, v: int|
            0 <= u < self.cols() && 0 <= v < self.rows() ==> #[trigger] after.count_at(u, v)
                == self.count_at(u, v) + (if claim.covers(u, v) && (u < x || (u == x && v < y)) {
                1int
            } else {
                0int
            })
    }

    /// Counts the claim on every square inch that it covers.
    pub fn set_claim(&mut self, claim: &Claim)
        requires
            old(self).wf(),
            claim.fits(old(self).cols(), old(self).rows()),
            forall|u: int, v: int|
                0 <= u < old(self).cols() && 0 <= v < old(self).rows() ==> #[trigger] old(
                    self,
                ).count_at(u, v) < usize::MAX,
        ensures
            old(self).claimed_upto(
                *final(self),
                *claim,
                claim.left_offset + claim.width,
                claim.top_offset as int,
            ),
    {
        let ghost before = *self;
        let mut x: usize = 0;
        while x < claim.width
            invariant
                x <= claim.width,
                before.wf(),
                claim.fits(before.cols(), before.rows()),
                forall|u: int, v: int|
                    0 <= u < before.cols() && 0 <= v < before.rows() ==> #[trigger] before.count_at(
                        u,
                        v,
                    ) < usize::MAX,
                before.claimed_upto(*self, *claim, claim.left_offset + x, claim.top_offset as int),
            decreases claim.width - x,
        {
            let mut y: usize = 0;
            while y < claim.height
                invariant
                    y <= claim.height,
                    x < claim.width,
                    before.wf(),
                    claim.fits(before.cols(), before.rows()),
                    forall|u: int, v: int|
                        0 <= u < before.cols() && 0 <= v < before.rows()
                            ==> #[trigger] before.count_at(u, v) < usize::MAX,
                    before.claimed_upto(
                        *self,
                        *claim,
                        claim.left_offset + x,
                        claim.top_offset + y,
                    ),
                decreases claim.height - y,
            {
                let ghost middle = *self;
                let (cx, cy) = (claim.left_offset + x, claim.top_offset + y);
                assert(middle.count_at(cx as int, cy as int) == before.count_at(cx as int, cy as int));
                self.set(cx, cy);
                proof {
                    assert forall|u: int, v: int|
                        0 <= u < before.cols() && 0 <= v < before.rows() implies #[trigger] self.count_at(
                        u,
                        v,
                    ) == before.count_at(u, v) + (if claim.covers(u, v) && (u < cx || (u == cx && v
                        < cy + 1)) {
                        1int
                    } else {
                        0int
                    }) by {
                        middle.lemma_places(u, v, cx as int, cy as int);
                        middle.lemma_places(cx as int, cy as int, u, v);
                        if u == cx && v == cy {
                            assert(claim.covers(u, v));
                            assert(self.count_at(u, v) == middle.count_at(u, v) + 1);
                        } else {
                            assert(v * middle.cols() + u != cy * middle.cols() + cx);
                            assert(self.count_at(u, v) == middle.count_at(u, v));
                        }
                        assert(middle.count_at(u, v) == before.count_at(u, v) + (if claim.covers(
                            u,
                            v,
                        ) && (u < cx || (u == cx && v < cy)) {
                            1int
                        } else {
                            0int
                        }));
                    }
                }
                y += 1;
            }
            proof {
                assert forall|u: int, v: int|
                    0 <= u < before.cols() && 0 <= v < before.rows() implies #[trigger] self.count_at(
                    u,
                    v,
                ) == before.count_at(u, v) + (if claim.covers(u, v) && (u < claim.left_offset + x
                    + 1 || (u == claim.left_offset + x + 1 && v < claim.top_offset)) {
                    1int
                } else {
                    0int
                }) by {
                    assert(self.count_at(u, v) == before.count_at(u, v) + (if claim.covers(u, v)
                        && (u < claim.left_offset + x || (u == claim.left_offset + x && v
                        < claim.top_offset + claim.height)) {
                        1int
                    } else {
                        0int
                    }));
                }
            }
            x += 1;
        }
    }

    /// How many square inches are covered by more than one claim.
    pub fn crossovers(&self) -> (n: usize)
        ensures
            n == crossed(self.field()),
    {
        let mut n: usize = 0;
        let mut i: usize = 0;
        assert(self.field@.subrange(0, 0) =~= Seq::<usize>::empty());
        while i < self.field.len()
            invariant
                i <= self.field@.len(),
                n == crossed(self.field@.subrange(0, i as int)),
                n <= i,
            decreases self.field@.len() - i,
        {
            proof {
                let next = self.field@.subrange(0, i + 1);
                assert(next.drop_last() =~= self.field@.subrange(0, i as int));
                assert(next.last() == self.field@[i as int]);
            }
            if self.field[i] > 1 {
                n += 1;
            }
            i += 1;
        }
        assert(self.field@.subrange(0, i as int) =~= self.field@);
        n
    }

    /// Whether no square inch of the claim is covered by another claim
    /// too.
    pub fn is_single_crossover_claim(&self, claim: &Claim) -> (b: bool)
        requires
            self.wf(),
            claim.fits(self.cols(), self.rows()),
        ensures
            b == forall|u: int, v: int|
                0 <= u < self.cols() && 0 <= v < self.rows() && claim.covers(u, v)
                    ==> #[trigger] self.count_at(u, v) <= 1,
    {
        let mut x: usize = 0;
        while x < claim.width
            invariant
                x <= claim.width,
                self.wf(),
                claim.fits(self.cols(), self.rows()),
                forall|u: int, v: int|
                    0 <= u < self.cols() && 0 <= v < self.rows() && claim.covers(u, v) && u
                        < claim.left_offset + x ==> #[trigger] self.count_at(u, v) <= 1,
            decreases claim.width - x,
        {
            let mut y: usize = 0;
            while y < claim.height
                invariant
                    y <= claim.height,
                    x < claim.width,
                    self.wf(),
                    claim.fits(self.cols(), self.rows()),
                    forall|u: int, v: int|
                        0 <= u < self.cols() && 0 <= v < self.rows() && claim.covers(u, v) && (u
                            < claim.left_offset + x || (u == claim.left_offset + x && v
                            < claim.top_offset + y)) ==> #[trigger] self.count_at(u, v) <= 1,
                decreases claim.height - y,
            {
                if self.get(claim.left_offset + x, claim.top_offset + y) > 1 {
                    assert(claim.covers(claim.left_offset + x, claim.top_offset + y));
                    return false;
                }
                y += 1;
            }
            x += 1;
        }
        true
    }
}

/// How many square inches are covered by more than one claim.
pub fn part1(grid: &Grid) -> (n: usize)
    ensures
        n == crossed(grid.field()),
{
    grid.crossovers()
}

/// The number of the first claim that no other claim overlaps.
pub fn part2(claims: &[Claim], grid: &Grid) -> (r: Option<usize>)
    requires
        grid.wf(),
        forall|i: int| 0 <= i < claims@.len() ==> (#[trigger] claims@[i]).fits(
            grid.cols(),
            grid.rows(),
        ),
    ensures
        match r {
            Some(id) => exists|i: int|
                0 <= i < claims@.len() && id == (#[trigger] claims@[i]).id && alone(
                    *grid,
                    claims@[i],
                ) && forall|j: int| 0 <= j < i ==> !alone(*grid, #[trigger] claims@[j]),
            None => forall|i: int| 0 <= i < claims@.len() ==> !alone(*grid, #[trigger] claims@[i]),
        },
{
    let mut i: usize = 0;
    while i < claims.len()
        invariant
            i <= claims@.len(),
            grid.wf(),
            forall|k: int| 0 <= k < claims@.len() ==> (#[trigger] claims@[k]).fits(
                grid.cols(),
                grid.rows(),
            ),
            forall|j: int| 0 <= j < i ==> !alone(*grid, #[trigger] claims@[j]),
        decreases claims@.len() - i,
    {
        if grid.is_single_crossover_claim(&claims[i]) {
            return Some(claims[i].id);
        }
        i += 1;
    }
    None
}

/// Whether no square inch of the claim is covered by another claim too.
pub open spec fn alone(grid: Grid, claim: Claim) -> bool {
    forall|u: int, v: int|
        0 <= u < grid.cols() && 0 <= v < grid.rows() && claim.covers(u, v)
            ==> #[trigger] grid.count_at(u, v) <= 1
}

/// How many of the claims cover the square inch in column `x` and row
/// `y`.
pub open spec fn cover(claims: Seq<Claim>, x: int, y: int) -> nat
    decreases claims.len(),
{
    if claims.len() == 0 {
        0
    } else {
        cover(claims.drop_last(), x, y) + if claims.last().covers(x, y) {
            1nat
        } else {
            0nat
        }
    }
}

/// How far the claims reach to the right.
pub open spec fn reach_x(claims: Seq<Claim>) -> nat
    decreases claims.len(),
{
    if claims.len() == 0 {
        0
    } else if claims.last().left_offset + claims.last().width > reach_x(claims.drop_last()) {
        (claims.last().left_offset + claims.last().width) as nat
    } else {
        reach_x(claims.drop_last())
    }
}

/// How far the claims reach down.
pub open spec fn reach_y(claims: Seq<Claim>) -> nat
    decreases claims.len(),
{
    if claims.len() == 0 {
        0
    } else if claims.last().top_offset + claims.last().height > reach_y(claims.drop_last()) {
        (claims.last().top_offset + claims.last().height) as nat
    } else {
        reach_y(claims.drop_last())
    }
}

/// Every claim lies within the reach of all.
pub proof fn lemma_reach(claims: Seq<Claim>, i: int)
    requires
        0 <= i < claims.len(),
    ensures
        claims[i].fits(reach_x(claims), reach_y(claims)),
    decreases claims.len(),
{
    if i < claims.len() - 1 {
        lemma_reach(claims.drop_last(), i);
    }
}

impl Grid {
    /// Whether the fabric is just large enough for the claims and counts
    /// for each square inch the claims that cover it.
    pub open spec fn holds(self, claims: Seq<Claim>) -> bool {
        &&& self.wf()
        &&& self.cols() == reach_x(claims)
        &&& self.rows() == reach_y(claims)
        &&& forall|u: int, v: int|
            0 <= u < self.cols() && 0 <= v < self.rows() ==> #[trigger] self.count_at(u, v) == cover(
                claims,
                u,
                v,
            )
    }

    /// The fabric that is just large enough for the claims, with every
    /// claim counted. Nothing where there is no claim or the fabric does
    /// not fit the machine.
    pub fn from_claims(claims: &[Claim]) -> (r: Option<Grid>)
        ensures
            match r {
                Some(g) => g.holds(claims@) && claims@.len() > 0,
                None => claims@.len() == 0 || reach_x(claims@) > usize::MAX || reach_y(claims@)
                    > usize::MAX || reach_x(claims@) * reach_y(claims@) > usize::MAX,
            },
    {
        if claims.len() == 0 {
            return None;
        }
        let mut width: usize = 0;
        let mut height: usize = 0;
        let mut i: usize = 0;
        assert(claims@.take(0) =~= Seq::<Claim>::empty());
        while i < claims.len()
            invariant
                i <= claims@.len(),
                width == reach_x(claims@.take(i as int)),
                height == reach_y(claims@.take(i as int)),
            decreases claims@.len() - i,
        {
            proof {
                assert(claims@.take(i + 1).drop_last() =~= claims@.take(i as int));
                lemma_reach_grows(claims@, i + 1);
            }
            let c = &claims[i];
            let right = match c.left_offset.checked_add(c.width) {
                Some(right) => right,
                None => {
                    proof {
                        lemma_reach(claims@, i as int);
                    }
                    return None;
                },
            };
            let bottom = match c.top_offset.checked_add(c.height) {
                Some(bottom) => bottom,
                None => {
                    proof {
                        lemma_reach(claims@, i as int);
                    }
                    return None;
                },
            };
            if right > width {
                width = right;
            }
            if bottom > height {
                height = bottom;
            }
            i += 1;
        }
        assert(claims@.take(i as int) =~= claims@);
        if width.checked_mul(height).is_none() {
            return None;
        }
        let mut grid = Grid::new(width, height);
        let mut k: usize = 0;
        proof {
            assert(claims@.take(0) =~= Seq::<Claim>::empty());
            assert forall|u: int, v: int|
                0 <= u < grid.cols() && 0 <= v < grid.rows() implies #[trigger] grid.count_at(u, v)
                == 0 by {
                grid.lemma_places(u, v, u, v);
            }
        }
        while k < claims.len()
            invariant
                k <= claims@.len(),
                grid.wf(),
                grid.cols() == reach_x(claims@),
                grid.rows() == reach_y(claims@),
                forall|u: int, v: int|
                    0 <= u < grid.cols() && 0 <= v < grid.rows() ==> #[trigger] grid.count_at(u, v)
                        == cover(claims@.take(k as int), u, v),
                forall|u: int, v: int| cover(claims@.take(k as int), u, v) <= k,
            decreases claims@.len() - k,
        {
            let ghost before = grid;
            proof {
                lemma_reach(claims@, k as int);
                assert(claims@.take(k + 1).drop_last() =~= claims@.take(k as int));
            }
            grid.set_claim(&claims[k]);
            proof {
                assert forall|u: int, v: int|
                    0 <= u < grid.cols() && 0 <= v < grid.rows() implies #[trigger] grid.count_at(u, v)
                    == cover(claims@.take(k + 1), u, v) by {
                    assert(before.count_at(u, v) == cover(claims@.take(k as int), u, v));
                    if claims@[k as int].covers(u, v) {
                        assert(u < claims@[k as int].left_offset + claims@[k as int].width);
                    }
                }
                let next = claims@.take(k + 1);
                assert forall|u: int, v: int| #[trigger] cover(next, u, v) <= k + 1 by {
                    assert(cover(claims@.take(k as int), u, v) <= k);
                }
            }
            k += 1;
        }
        assert(claims@.take(k as int) =~= claims@);
        Some(grid)
    }
}

/// The reach of the first claims is within the reach of all.
pub proof fn lemma_reach_grows(claims: Seq<Claim>, upto: int)
    requires
        0 <= upto <= claims.len(),
    ensures
        reach_x(claims.take(upto)) <= reach_x(claims),
        reach_y(claims.take(upto)) <= reach_y(claims),
    decreases claims.len(),
{
    if upto == claims.len() {
        assert(claims.take(upto) =~= claims);
    } else {
        assert(claims.drop_last().take(upto) =~= claims.take(upto));
        lemma_reach_grows(claims.drop_last(), upto);
    }
}

} // verus!
