//! Points in four dimensions that form constellations: points that are
//! close to each other belong together.

use crate::error::Error;
use crate::util::text::{decimal_i64, lines, parse_i64, split_char, split_on, text_lines};
use vstd::prelude::*;
use vstd::string::*;

verus! {

/// A point in four dimensions.
#[derive(Debug, Copy, Clone, PartialEq, Eq, Structural)]
pub struct Vec4 {
    pub w: i64,
    pub x: i64,
    pub y: i64,
    pub z: i64,
}

/// The distance between two coordinates.
pub open spec fn gap(p: i64, q: i64) -> nat {
    if p >= q {
        (p - q) as nat
    } else {
        (q - p) as nat
    }
}

fn gap_of(p: i64, q: i64) -> (d: u128)
    ensures
        d == gap(p, q),
        d <= 0xffff_ffff_ffff_ffff,
{
    if p >= q {
        (p as i128 - q as i128) as u128
    } else {
        (q as i128 - p as i128) as u128
    }
}

impl Vec4 {
    /// The Manhattan distance to `other`.
    pub open spec fn distance(self, other: Vec4) -> nat {
        gap(self.w, other.w) + gap(self.x, other.x) + gap(self.y, other.y) + gap(self.z, other.z)
    }

    /// Whether the two points are close enough to belong to one
    /// constellation: at most three apart.
    pub open spec fn close(self, other: Vec4) -> bool {
        self.distance(other) <= 3
    }

    /// Distance is symmetric, and zero between a point and itself only.
    pub proof fn lemma_distance(self, other: Vec4)
        ensures
            self.distance(other) == other.distance(self),
            self.distance(other) == 0 <==> self == other,
    {
    }

    fn wide_dist(&self, other: &Vec4) -> (d: u128)
        ensures
            d == self.distance(*other),
    {
        gap_of(self.w, other.w) + gap_of(self.x, other.x) + gap_of(self.y, other.y) + gap_of(
            self.z,
            other.z,
        )
    }

    /// The Manhattan distance to `other`.
    pub fn dist(&self, other: &Vec4) -> (d: usize)
        requires
            self.distance(*other) <= usize::MAX,
        ensures
            d == self.distance(*other),
    {
        self.wide_dist(other) as usize
    }

    /// Whether the two points are at most three apart.
    pub fn is_close(&self, other: &Vec4) -> (b: bool)
        ensures
            b == self.close(*other),
    {
        self.wide_dist(other) <= 3
    }
}

/// How many of the numbers are roots.
pub open spec fn root_count(parents: Seq<Option<usize>>) -> nat
    decreases parents.len(),
{
    if parents.len() == 0 {
        0
    } else {
        root_count(parents.drop_last()) + (if parents.last() is None {
            1nat
        } else {
            0nat
        })
    }
}

/// Giving a root a parent leaves one root fewer.
pub proof fn lemma_root_count_update(parents: Seq<Option<usize>>, x: int, p: usize)
    requires
        0 <= x < parents.len(),
        parents[x] is None,
    ensures
        root_count(parents.update(x, Some(p))) + 1 == root_count(parents),
    decreases parents.len(),
{
    let after = parents.update(x, Some(p));
    if x == parents.len() - 1 {
        assert(after.drop_last() =~= parents.drop_last());
    } else {
        lemma_root_count_update(parents.drop_last(), x, p);
        assert(after.drop_last() =~= parents.drop_last().update(x, Some(p)));
    }
}

/// Changing the parent of a number that has one leaves the roots as many.
pub proof fn lemma_root_count_same(parents: Seq<Option<usize>>, x: int, p: usize)
    requires
        0 <= x < parents.len(),
        parents[x] is Some,
    ensures
        root_count(parents.update(x, Some(p))) == root_count(parents),
    decreases parents.len(),
{
    let after = parents.update(x, Some(p));
    if x == parents.len() - 1 {
        assert(after.drop_last() =~= parents.drop_last());
    } else {
        lemma_root_count_same(parents.drop_last(), x, p);
        assert(after.drop_last() =~= parents.drop_last().update(x, Some(p)));
    }
}

/// There are no more roots than numbers, and as many where every number
/// is a root.
pub proof fn lemma_root_count_bound(parents: Seq<Option<usize>>)
    ensures
        root_count(parents) <= parents.len(),
        (forall|i: int| 0 <= i < parents.len() ==> parents[i] is None) ==> root_count(parents)
            == parents.len(),
    decreases parents.len(),
{
    if parents.len() > 0 {
        lemma_root_count_bound(parents.drop_last());
        if forall|i: int| 0 <= i < parents.len() ==> parents[i] is None {
            assert forall|i: int| 0 <= i < parents.drop_last().len() implies parents.drop_last()[i] is None by {
                assert(parents.drop_last()[i] == parents[i]);
            }
        }
    }
}

/// A root among the numbers means at least one root.
pub proof fn lemma_root_count_positive(parents: Seq<Option<usize>>, x: int)
    requires
        0 <= x < parents.len(),
        parents[x] is None,
    ensures
        root_count(parents) >= 1,
    decreases parents.len(),
{
    if x < parents.len() - 1 {
        lemma_root_count_positive(parents.drop_last(), x);
    }
}

/// Two roots among the numbers mean at least two roots.
pub proof fn lemma_root_count_two(parents: Seq<Option<usize>>, x: int, y: int)
    requires
        0 <= x < y < parents.len(),
        parents[x] is None,
        parents[y] is None,
    ensures
        root_count(parents) >= 2,
    decreases parents.len(),
{
    if y < parents.len() - 1 {
        lemma_root_count_two(parents.drop_last(), x, y);
    } else {
        lemma_root_count_positive(parents.drop_last(), x);
    }
}

/// Disjoint sets of the numbers below `n`, as a forest: each number points
/// to its parent, and the roots stand for the sets.
pub struct UnionFind {
    rank: Vec<usize>,
    parent: Vec<Option<usize>>,
}

impl UnionFind {
    /// The parent of each number; nothing for a root.
    pub closed spec fn parents(self) -> Seq<Option<usize>> {
        self.parent@
    }

    /// The rank of each number: an upper bound on the height below it.
    pub closed spec fn ranks(self) -> Seq<usize> {
        self.rank@
    }

    /// How many numbers there are.
    pub open spec fn size(self) -> nat {
        self.parents().len()
    }

    /// How many sets there are.
    pub open spec fn count(self) -> nat {
        root_count(self.parents())
    }

    /// Every parent is one of the numbers and has a higher rank than its
    /// child; a rank and the number of sets together exceed the number
    /// of numbers by one at most.
    pub open spec fn wf(self) -> bool {
        &&& self.ranks().len() == self.parents().len()
        &&& self.size() <= usize::MAX
        &&& forall|x: int|
            0 <= x < self.size() ==> (#[trigger] self.parents()[x] matches Some(p) ==> p
                < self.size() && self.ranks()[x] < self.ranks()[p as int])
        &&& forall|x: int|
            0 <= x < self.size() ==> #[trigger] self.ranks()[x] + self.count() <= self.size() + 1
    }

    /// The root that stands for the set of `x`, reached by following
    /// parents.
    pub open spec fn root(self, x: int) -> int
        recommends
            self.wf(),
            0 <= x < self.size(),
        decreases self.size() + 1 - self.ranks()[x],
        when self.wf() && 0 <= x < self.size()
    {
        match self.parents()[x] {
            None => x,
            Some(p) => self.root(p as int),
        }
    }

    /// Whether `x` and `y` are in one set.
    pub open spec fn same(self, x: int, y: int) -> bool {
        self.root(x) == self.root(y)
    }

    /// Whether `after` has the sets of this forest, but for those of `x`
    /// and `y`, which are one set in it.
    pub open spec fn joined(self, after: UnionFind, x: int, y: int) -> bool {
        forall|a: int, b: int|
            0 <= a < self.size() && 0 <= b < self.size() ==> (#[trigger] after.same(a, b) <==> (
            self.same(a, b) || (self.same(a, x) && self.same(b, y)) || (self.same(a, y)
                && self.same(b, x))))
    }

    /// The root of a number is one of the numbers and has no parent; a
    /// number that is no root has a lower rank than its root.
    pub proof fn lemma_root(self, x: int)
        requires
            self.wf(),
            0 <= x < self.size(),
        ensures
            0 <= self.root(x) < self.size(),
            self.parents()[self.root(x)] is None,
            self.root(self.root(x)) == self.root(x),
            self.ranks()[x] <= self.ranks()[self.root(x)],
            self.parents()[x] is Some ==> self.ranks()[x] < self.ranks()[self.root(x)],
        decreases self.size() + 1 - self.ranks()[x],
    {
        match self.parents()[x] {
            None => {},
            Some(p) => {
                self.lemma_root(p as int);
            },
        }
    }

    /// Where only a number that was no root has a new parent, and that
    /// parent is its old root, every number keeps its root.
    pub proof fn lemma_compress(self, after: UnionFind, x: int, y: int)
        requires
            self.wf(),
            after.wf(),
            0 <= x < self.size(),
            0 <= y < self.size(),
            self.parents()[x] is Some,
            after.ranks() == self.ranks(),
            after.parents() == self.parents().update(x, Some(self.root(x) as usize)),
        ensures
            after.root(y) == self.root(y),
        decreases self.size() + 1 - self.ranks()[y],
    {
        self.lemma_root(x);
        self.lemma_root(y);
        let r = self.root(x);
        assert(after.size() == self.size());
        if y == x {
            assert(after.parents()[r] is None);
            assert(after.root(r) == r);
            assert(after.parents()[x] == Some(r as usize));
            assert(after.root(x) == after.root(r));
        } else {
            assert(after.parents()[y] == self.parents()[y]);
            match self.parents()[y] {
                None => {
                    assert(after.root(y) == y);
                },
                Some(p) => {
                    self.lemma_compress(after, x, p as int);
                    assert(after.root(y) == after.root(p as int));
                    assert(self.root(y) == self.root(p as int));
                },
            }
        }
    }

    /// Where only the root `r` has a new parent `q`, another root, every
    /// number that had the root `r` has the root `q`, and every other
    /// number keeps its root.
    pub proof fn lemma_link(self, after: UnionFind, r: int, q: int, y: int)
        requires
            self.wf(),
            after.wf(),
            0 <= r < self.size(),
            0 <= q < self.size(),
            0 <= y < self.size(),
            r != q,
            self.parents()[r] is None,
            self.parents()[q] is None,
            after.parents() == self.parents().update(r, Some(q as usize)),
            forall|i: int| 0 <= i < self.size() && i != q ==> after.ranks()[i] == self.ranks()[i],
            after.ranks().len() == self.ranks().len(),
        ensures
            after.root(y) == (if self.root(y) == r {
                q
            } else {
                self.root(y)
            }),
        decreases self.size() + 1 - self.ranks()[y],
    {
        self.lemma_root(y);
        assert(after.size() == self.size());
        if y == r {
            assert(after.parents()[q] is None);
            assert(after.root(q) == q);
            assert(after.parents()[r] == Some(q as usize));
            assert(after.root(r) == after.root(q));
        } else {
            assert(after.parents()[y] == self.parents()[y]);
            match self.parents()[y] {
                None => {
                    assert(after.root(y) == y);
                },
                Some(p) => {
                    self.lemma_link(after, r, q, p as int);
                    assert(after.root(y) == after.root(p as int));
                    assert(self.root(y) == self.root(p as int));
                },
            }
        }
    }

    /// `n` sets of one number each.
    pub fn new(n: usize) -> (uf: UnionFind)
        ensures
            uf.wf(),
            uf.size() == n,
            uf.count() == n,
            forall|x: int| 0 <= x < n ==> #[trigger] uf.root(x) == x,
    {
        let mut rank: Vec<usize> = Vec::new();
        let mut parent: Vec<Option<usize>> = Vec::new();
        let mut i: usize = 0;
        while i < n
            invariant
                i <= n,
                rank@.len() == i,
                parent@.len() == i,
                forall|j: int| 0 <= j < i ==> #[trigger] rank@[j] == 1,
                forall|j: int| 0 <= j < i ==> #[trigger] parent@[j] == None::<usize>,
            decreases n - i,
        {
            rank.push(1);
            parent.push(None);
            i += 1;
        }
        proof {
            lemma_root_count_bound(parent@);
        }
        UnionFind { rank, parent }
    }

    /// The root of the set of `x`.
    pub fn find_root(&self, x: usize) -> (r: usize)
        requires
            self.wf(),
            x < self.size(),
        ensures
            r == self.root(x as int),
            r < self.size(),
    {
        let mut cur = x;
        proof {
            self.lemma_root(x as int);
        }
        loop
            invariant
                self.wf(),
                cur < self.size(),
                self.root(cur as int) == self.root(x as int),
                0 <= self.root(x as int) < self.size(),
            decreases self.size() + 1 - self.ranks()[cur as int],
        {
            match self.parent[cur] {
                None => {
                    return cur;
                },
                Some(p) => {
                    cur = p;
                },
            }
        }
    }

    /// The root of the set of `x`. On the way every number between `x`
    /// and the root gets the root as its parent; no number changes its
    /// set.
    pub fn find(&mut self, x: usize) -> (r: usize)
        requires
            old(self).wf(),
            x < old(self).size(),
        ensures
            final(self).wf(),
            final(self).size() == old(self).size(),
            final(self).count() == old(self).count(),
            r == old(self).root(x as int),
            r < old(self).size(),
            forall|y: int| 0 <= y < old(self).size() ==> #[trigger] final(self).root(y) == old(self).root(y),
    {
        let root = self.find_root(x);
        let mut cur = x;
        proof {
            self.lemma_root(x as int);
        }
        loop
            invariant
                self.wf(),
                self.size() == old(self).size(),
                self.count() == old(self).count(),
                cur < self.size(),
                root < self.size(),
                root == old(self).root(x as int),
                self.root(cur as int) == root as int,
                forall|y: int| 0 <= y < old(self).size() ==> #[trigger] self.root(y) == old(self).root(y),
            decreases self.size() + 1 - self.ranks()[cur as int],
        {
            match self.parent[cur] {
                None => {
                    return root;
                },
                Some(p) => {
                    let ghost before = *self;
                    proof {
                        before.lemma_root(cur as int);
                        lemma_root_count_same(before.parents(), cur as int, root);
                    }
                    self.parent[cur] = Some(root);
                    proof {
                        assert(self.wf());
                        assert forall|y: int| 0 <= y < old(self).size() implies #[trigger] self.root(
                            y,
                        ) == old(self).root(y) by {
                            before.lemma_compress(*self, cur as int, y);
                        }
                        before.lemma_compress(*self, cur as int, p as int);
                    }
                    cur = p;
                },
            }
        }
    }

    /// Joins the sets of `x` and `y`.
    pub fn union(&mut self, x: usize, y: usize)
        requires
            old(self).wf(),
            x < old(self).size(),
            y < old(self).size(),
        ensures
            final(self).wf(),
            final(self).size() == old(self).size(),
            final(self).count() == old(self).count() - (if old(self).same(x as int, y as int) {
                0int
            } else {
                1int
            }),
            old(self).joined(*final(self), x as int, y as int),
    {
        let ghost start = *self;
        let rx = self.find(x);
        let ghost middle = *self;
        let ry = self.find(y);
        let ghost before = *self;
        proof {
            start.lemma_root(x as int);
            start.lemma_root(y as int);
            assert(before.root(rx as int) == rx) by {
                assert(middle.root(rx as int) == start.root(rx as int));
                assert(before.root(rx as int) == middle.root(rx as int));
            }
            assert(before.root(ry as int) == ry) by {
                assert(middle.root(ry as int) == start.root(ry as int));
                assert(before.root(ry as int) == middle.root(ry as int));
            }
            before.lemma_root(rx as int);
            before.lemma_root(ry as int);
            assert forall|a: int| 0 <= a < start.size() implies #[trigger] before.root(a)
                == start.root(a) by {
                assert(middle.root(a) == start.root(a));
                assert(before.root(a) == middle.root(a));
            }
        }
        if rx == ry {
            assert(start.joined(*self, x as int, y as int));
            return ;
        }
        let x_rank = self.rank[rx];
        let y_rank = self.rank[ry];
        if x_rank == y_rank {
            proof {
                lemma_root_count_update(before.parents(), ry as int, rx);
                if rx < ry {
                    lemma_root_count_two(before.parents(), rx as int, ry as int);
                } else {
                    lemma_root_count_two(before.parents(), ry as int, rx as int);
                }
            }
            let n = self.parent.len();
            self.parent[ry] = Some(rx);
            self.rank[rx] = x_rank + 1;
            proof {
                assert(self.wf());
                assert forall|a: int| 0 <= a < before.size() implies #[trigger] self.root(a) == (
                if before.root(a) == ry {
                    rx as int
                } else {
                    before.root(a)
                }) by {
                    before.lemma_link(*self, ry as int, rx as int, a);
                }
                assert(start.joined(*self, x as int, y as int));
            }
        } else if x_rank > y_rank {
            proof {
                lemma_root_count_update(before.parents(), ry as int, rx);
            }
            self.parent[ry] = Some(rx);
            proof {
                assert(self.wf());
                assert forall|a: int| 0 <= a < before.size() implies #[trigger] self.root(a) == (
                if before.root(a) == ry {
                    rx as int
                } else {
                    before.root(a)
                }) by {
                    before.lemma_link(*self, ry as int, rx as int, a);
                }
                assert(start.joined(*self, x as int, y as int));
            }
        } else {
            proof {
                lemma_root_count_update(before.parents(), rx as int, ry);
            }
            self.parent[rx] = Some(ry);
            proof {
                assert(self.wf());
                assert forall|a: int| 0 <= a < before.size() implies #[trigger] self.root(a) == (
                if before.root(a) == rx {
                    ry as int
                } else {
                    before.root(a)
                }) by {
                    before.lemma_link(*self, rx as int, ry as int, a);
                }
                assert(start.joined(*self, x as int, y as int));
            }
        }
    }

    /// How many sets there are.
    pub fn sets(&mut self) -> (n: usize)
        requires
            old(self).wf(),
        ensures
            *final(self) == *old(self),
            n == old(self).count(),
    {
        let mut n: usize = 0;
        let mut i: usize = 0;
        assert(self.parent@.subrange(0, 0) =~= Seq::<Option<usize>>::empty());
        while i < self.parent.len()
            invariant
                i <= self.parent@.len(),
                n == root_count(self.parent@.subrange(0, i as int)),
                n <= i,
                *self == *old(self),
            decreases self.parent@.len() - i,
        {
            proof {
                let next = self.parent@.subrange(0, i + 1);
                assert(next.drop_last() =~= self.parent@.subrange(0, i as int));
                assert(next.last() == self.parent@[i as int]);
            }
            if self.parent[i].is_none() {
                n += 1;
            }
            i += 1;
        }
        assert(self.parent@.subrange(0, i as int) =~= self.parent@);
        n
    }
}

/// The points of the puzzle.
#[derive(Debug)]
pub struct Data {
    points: Vec<Vec4>,
}

/// Whether the points `a` and `b` belong together once the pairs of
/// points before the pair `(i, j)` have been looked at: the pairs `(k, l)`
/// with `l < k`, row by row. Two points belong together when they are
/// the same, when they are a pair of close points, or through others.
pub open spec fn together(points: Seq<Vec4>, i: nat, j: nat, a: int, b: int) -> bool
    decreases i, j,
{
    if j == 0 {
        if i == 0 {
            a == b
        } else {
            together(points, (i - 1) as nat, (i - 1) as nat, a, b)
        }
    } else {
        let l = (j - 1) as nat;
        together(points, i, l, a, b) || (points[i as int].close(points[l as int]) && ((together(
            points,
            i,
            l,
            a,
            i as int,
        ) && together(points, i, l, b, l as int)) || (together(points, i, l, a, l as int)
            && together(points, i, l, b, i as int))))
    }
}

/// Whether the points `a` and `b` belong to one constellation.
pub open spec fn one_constellation(points: Seq<Vec4>, a: int, b: int) -> bool {
    if points.len() == 0 {
        a == b
    } else {
        together(points, (points.len() - 1) as nat, (points.len() - 1) as nat, a, b)
    }
}

/// Whether the sets of `uf` are the constellations of the points.
pub open spec fn sorts(uf: UnionFind, points: Seq<Vec4>) -> bool {
    &&& uf.wf()
    &&& uf.size() == points.len()
    &&& forall|a: int, b: int|
        0 <= a < points.len() && 0 <= b < points.len() ==> (#[trigger] uf.same(a, b)
            <==> one_constellation(points, a, b))
}

/// Whether the sets of `uf` put those points together that belong
/// together once the pairs before `(i, j)` have been looked at.
pub open spec fn sorts_upto(uf: UnionFind, points: Seq<Vec4>, i: nat, j: nat) -> bool {
    &&& uf.wf()
    &&& uf.size() == points.len()
    &&& forall|a: int, b: int|
        0 <= a < points.len() && 0 <= b < points.len() ==> (#[trigger] uf.same(a, b) <==> together(
            points,
            i,
            j,
            a,
            b,
        ))
}

impl Data {
    /// The points.
    pub closed spec fn points(self) -> Seq<Vec4> {
        self.points@
    }

    /// The sky with the given points.
    pub fn new(points: Vec<Vec4>) -> (d: Data)
        ensures
            d.points() == points@,
    {
        Data { points }
    }
}

/// How many constellations the points form: the sets of a forest that
/// puts together exactly the points of one constellation.
pub fn part1(d: &Data) -> (n: usize)
    ensures
        exists|uf: UnionFind| sorts(uf, d.points()) && n == uf.count(),
{
    let count = d.points.len();
    let mut uf = UnionFind::new(count);
    let ghost points = d.points@;
    let mut i: usize = 0;
    while i < count
        invariant
            i <= count,
            count == points.len(),
            points == d.points@,
            i < count ==> sorts_upto(uf, points, i as nat, 0),
            i == count && count > 0 ==> sorts_upto(uf, points, (i - 1) as nat, (i - 1) as nat),
            count == 0 ==> uf.wf() && uf.size() == 0,
        decreases count - i,
    {
        let mut j: usize = 0;
        while j < i
            invariant
                j <= i < count,
                count == points.len(),
                points == d.points@,
                sorts_upto(uf, points, i as nat, j as nat),
            decreases i - j,
        {
            let ghost before = uf;
            if d.points[i].is_close(&d.points[j]) {
                uf.union(i, j);
                proof {
                    assert(before.joined(uf, i as int, j as int));
                    assert forall|a: int, b: int|
                        0 <= a < points.len() && 0 <= b < points.len() implies (#[trigger] uf.same(
                        a,
                        b,
                    ) <==> together(points, i as nat, (j + 1) as nat, a, b)) by {
                        assert(before.same(a, b) <==> together(points, i as nat, j as nat, a, b));
                        assert(before.same(a, i as int) <==> together(
                            points,
                            i as nat,
                            j as nat,
                            a,
                            i as int,
                        ));
                        assert(before.same(b, j as int) <==> together(
                            points,
                            i as nat,
                            j as nat,
                            b,
                            j as int,
                        ));
                        assert(before.same(a, j as int) <==> together(
                            points,
                            i as nat,
                            j as nat,
                            a,
                            j as int,
                        ));
                        assert(before.same(b, i as int) <==> together(
                            points,
                            i as nat,
                            j as nat,
                            b,
                            i as int,
                        ));
                    }
                }
            } else {
                proof {
                    assert forall|a: int, b: int|
                        0 <= a < points.len() && 0 <= b < points.len() implies (#[trigger] uf.same(
                        a,
                        b,
                    ) <==> together(points, i as nat, (j + 1) as nat, a, b)) by {
                        assert(uf.same(a, b) <==> together(points, i as nat, j as nat, a, b));
                    }
                }
            }
            j += 1;
        }
        proof {
            if i + 1 < count {
                assert forall|a: int, b: int|
                    0 <= a < points.len() && 0 <= b < points.len() implies (#[trigger] uf.same(a, b)
                    <==> together(points, (i + 1) as nat, 0, a, b)) by {
                    assert(uf.same(a, b) <==> together(points, i as nat, i as nat, a, b));
                }
            }
        }
        i += 1;
    }
    proof {
        if count > 0 {
            assert(sorts(uf, points));
        } else {
            assert(sorts(uf, points));
        }
    }
    uf.sets()
}

/// The four coordinates that the first four pieces of a line write.
pub open spec fn point_of_pieces(pieces: Seq<Seq<char>>) -> Result<Vec4, Error> {
    if pieces.len() >= 4 {
        match (
            decimal_i64(pieces[0]),
            decimal_i64(pieces[1]),
            decimal_i64(pieces[2]),
            decimal_i64(pieces[3]),
        ) {
            (Some(w), Some(x), Some(y), Some(z)) => Ok(Vec4 { w, x, y, z }),
            _ => Err(Error::MalformedInput),
        }
    } else {
        Err(Error::MalformedInput)
    }
}

/// The point that a line writes: four numbers with commas between them.
pub open spec fn point_of_line(line: Seq<char>) -> Result<Vec4, Error> {
    point_of_pieces(split_on(line, ','))
}

/// The points that the lines write, one each.
pub open spec fn points_of_lines(lines: Seq<Seq<char>>) -> Result<Seq<Vec4>, Error> {
    if forall|i: int| 0 <= i < lines.len() ==> point_of_line(#[trigger] lines[i]) is Ok {
        Ok(Seq::new(lines.len(), |i: int| point_of_line(lines[i]).unwrap()))
    } else {
        Err(Error::MalformedInput)
    }
}

impl Vec4 {
    /// Reads a line such as `1,-2,3,4`.
    pub fn parse(s: &str) -> (r: Result<Vec4, Error>)
        ensures
            r == point_of_line(s@),
    {
        let pieces = split_char(s, ',');
        if pieces.len() < 4 {
            return Err(Error::MalformedInput);
        }
        assert(pieces.deep_view()[0] == pieces@[0]@);
        assert(pieces.deep_view()[1] == pieces@[1]@);
        assert(pieces.deep_view()[2] == pieces@[2]@);
        assert(pieces.deep_view()[3] == pieces@[3]@);
        match (parse_i64(pieces[0]), parse_i64(pieces[1]), parse_i64(pieces[2]), parse_i64(pieces[3])) {
            (Some(w), Some(x), Some(y), Some(z)) => Ok(Vec4 { w, x, y, z }),
            _ => Err(Error::MalformedInput),
        }
    }
}

impl Data {
    /// Reads one point from each line.
    pub fn from_lines(lines: &Vec<String>) -> (r: Result<Data, Error>)
        ensures
            match r {
                Ok(d) => points_of_lines(lines.deep_view()) == Ok::<Seq<Vec4>, Error>(d.points()),
                Err(e) => points_of_lines(lines.deep_view()) == Err::<Seq<Vec4>, Error>(e),
            },
    {
        let mut points: Vec<Vec4> = Vec::new();
        let mut i: usize = 0;
        while i < lines.len()
            invariant
                i <= lines@.len(),
                points@.len() == i,
                forall|j: int| 0 <= j < i ==> point_of_line(#[trigger] lines.deep_view()[j]) is Ok,
                forall|j: int|
                    0 <= j < i ==> #[trigger] points@[j] == point_of_line(
                        lines.deep_view()[j],
                    ).unwrap(),
            decreases lines@.len() - i,
        {
            assert(lines.deep_view()[i as int] == lines@[i as int]@);
            match Vec4::parse(lines[i].as_str()) {
                Ok(p) => {
                    points.push(p);
                },
                Err(_) => {
                    return Err(Error::MalformedInput);
                },
            }
            i += 1;
        }
        assert(points@ =~= Seq::new(
            lines.deep_view().len(),
            |i: int| point_of_line(lines.deep_view()[i]).unwrap(),
        ));
        Ok(Data { points })
    }

    /// Reads the points of the puzzle, one on each line.
    pub fn parse(s: &str) -> (r: Result<Data, Error>)
        ensures
            match r {
                Ok(d) => points_of_lines(text_lines(s@)) == Ok::<Seq<Vec4>, Error>(d.points()),
                Err(e) => points_of_lines(text_lines(s@)) == Err::<Seq<Vec4>, Error>(e),
            },
    {
        let all = lines(s);
        Data::from_lines(&all)
    }
}

/// The input of the puzzle and its example.
#[derive(Debug)]
pub struct Solution25 {
    data: Data,
    sample: Data,
}

impl Solution25 {
    /// The points of the input.
    pub closed spec fn data(self) -> Seq<Vec4> {
        self.data.points()
    }

    /// The points of the example.
    pub closed spec fn sample(self) -> Seq<Vec4> {
        self.sample.points()
    }

    /// A solution without points.
    pub fn new() -> (s: Self)
        ensures
            s.data() == Seq::<Vec4>::empty(),
            s.sample() == Seq::<Vec4>::empty(),
    {
        Solution25 { data: Data::new(Vec::new()), sample: Data::new(Vec::new()) }
    }

    /// Reads the input and the example. On an error the solution keeps
    /// what it had.
    pub fn init(&mut self, data: &str, sample: &str) -> (r: Result<(), Error>)
        ensures
            match r {
                Ok(()) => points_of_lines(text_lines(data@)) == Ok::<Seq<Vec4>, Error>(
                    final(self).data(),
                ) && points_of_lines(text_lines(sample@)) == Ok::<Seq<Vec4>, Error>(
                    final(self).sample(),
                ),
                Err(e) => e == Error::MalformedInput && *final(self) == *old(self) && (
                points_of_lines(text_lines(data@)) is Err || points_of_lines(text_lines(sample@))
                    is Err),
            },
    {
        let data = match Data::parse(data) {
            Ok(d) => d,
            Err(e) => {
                return Err(e);
            },
        };
        let sample = match Data::parse(sample) {
            Ok(d) => d,
            Err(e) => {
                return Err(e);
            },
        };
        self.data = data;
        self.sample = sample;
        Ok(())
    }

    /// How many constellations the example and the input form.
    pub fn part1(&self) -> (r: (usize, usize))
        ensures
            exists|uf: UnionFind| sorts(uf, self.sample()) && r.0 == uf.count(),
            exists|uf: UnionFind| sorts(uf, self.data()) && r.1 == uf.count(),
    {
        (part1(&self.sample), part1(&self.data))
    }

    /// What the second part finds for the example and the input: the
    /// last day of the puzzle has no second part.
    pub fn part2(&self) -> (r: (usize, usize))
        ensures
            r == (0usize, 0usize),
    {
        (part2(&self.sample), part2(&self.data))
    }
}

/// The last day of the puzzle has no second part: there is nothing to
/// find in the points.
pub fn part2(d: &Data) -> (n: usize)
    ensures
        n == 0,
{
    0
}

} // verus!
