//! A cave of rocky, wet and narrow regions, whose kinds follow from a
//! geologic index that each region has from its neighbours.

use crate::error::Error;
use crate::util::mat2::{lemma_distinct_places, Mat2, Pos};
use vstd::prelude::*;

verus! {

/// The kind of a region.
#[derive(Debug, Clone, Copy, PartialEq, Eq, Structural)]
pub enum RegionKind {
    Rocky,
    Wet,
    Narrow,
}

impl Default for RegionKind {
    fn default() -> (k: RegionKind)
        ensures
            k == RegionKind::Rocky,
    {
        RegionKind::Rocky
    }
}

/// What the climber holds.
#[derive(Copy, Clone, Debug, PartialEq, Eq, Structural)]
pub enum Equipment {
    Neither,
    Torch,
    ClimbingGear,
}

/// A region: its geologic index and the depth of the cave.
#[derive(Debug, Clone, Copy, PartialEq, Eq, Structural)]
pub struct Region {
    pub geo_index: usize,
    pub depth: usize,
}

impl Default for Region {
    fn default() -> (r: Region)
        ensures
            r == (Region { geo_index: 0, depth: 0 }),
    {
        Region { geo_index: 0, depth: 0 }
    }
}

/// The erosion level that belongs to a geologic index at a depth.
pub open spec fn erosion_of(geo_index: nat, depth: nat) -> nat {
    (geo_index + depth) % 20183
}

/// The kind that belongs to an erosion level.
pub open spec fn kind_of(erosion: nat) -> RegionKind {
    if erosion % 3 == 0 {
        RegionKind::Rocky
    } else if erosion % 3 == 1 {
        RegionKind::Wet
    } else {
        RegionKind::Narrow
    }
}

/// Whether a region of the given kind can be entered with the given
/// equipment.
pub open spec fn admits(kind: RegionKind, e: Equipment) -> bool {
    !((kind == RegionKind::Rocky && e == Equipment::Neither) || (kind == RegionKind::Narrow && e
        == Equipment::ClimbingGear) || (kind == RegionKind::Wet && e == Equipment::Torch))
}

/// The other equipment that a region of the given kind admits.
pub open spec fn other_equipment(kind: RegionKind, e: Equipment) -> Option<Equipment> {
    match (kind, e) {
        (RegionKind::Rocky, Equipment::Torch) => Some(Equipment::ClimbingGear),
        (RegionKind::Rocky, Equipment::ClimbingGear) => Some(Equipment::Torch),
        (RegionKind::Narrow, Equipment::Torch) => Some(Equipment::Neither),
        (RegionKind::Narrow, Equipment::Neither) => Some(Equipment::Torch),
        (RegionKind::Wet, Equipment::Neither) => Some(Equipment::ClimbingGear),
        (RegionKind::Wet, Equipment::ClimbingGear) => Some(Equipment::Neither),
        _ => None,
    }
}

/// Swapping is possible exactly with equipment that the region admits,
/// and gives the other equipment that it admits.
pub proof fn lemma_swap(kind: RegionKind, e: Equipment)
    ensures
        other_equipment(kind, e) is Some <==> admits(kind, e),
        other_equipment(kind, e) matches Some(o) ==> o != e && admits(kind, o) && other_equipment(
            kind,
            o,
        ) == Some(e),
{
}

impl Region {
    /// The erosion level of the region.
    pub open spec fn erosion(self) -> nat {
        erosion_of(self.geo_index as nat, self.depth as nat)
    }

    /// The kind of the region.
    pub fn kind(&self) -> (k: RegionKind)
        ensures
            k == kind_of(self.erosion()),
    {
        match self.erosion_level() % 3 {
            0 => RegionKind::Rocky,
            1 => RegionKind::Wet,
            _ => RegionKind::Narrow,
        }
    }

    /// The erosion level of the region.
    pub fn erosion_level(&self) -> (level: usize)
        ensures
            level == self.erosion(),
            level < 20183,
    {
        ((self.geo_index as u128 + self.depth as u128) % 20183) as usize
    }

    /// The risk level: zero for rocky, one for wet, two for narrow.
    pub fn risk_level(&self) -> (risk: usize)
        ensures
            risk == self.erosion() % 3,
    {
        match self.kind() {
            RegionKind::Rocky => 0,
            RegionKind::Wet => 1,
            RegionKind::Narrow => 2,
        }
    }

    /// The character of the region on a drawing: `.` for rocky, `=` for
    /// wet, `|` for narrow.
    pub fn to_char(&self) -> (c: char)
        ensures
            c == (match kind_of(self.erosion()) {
                RegionKind::Rocky => '.',
                RegionKind::Wet => '=',
                RegionKind::Narrow => '|',
            }),
    {
        match self.kind() {
            RegionKind::Rocky => '.',
            RegionKind::Wet => '=',
            RegionKind::Narrow => '|',
        }
    }

    /// Whether the region can be entered with the equipment `e`.
    pub fn can_enter(&self, e: Equipment) -> (b: bool)
        ensures
            b == admits(kind_of(self.erosion()), e),
    {
        match (self.kind(), e) {
            (RegionKind::Rocky, Equipment::Neither) => false,
            (RegionKind::Narrow, Equipment::ClimbingGear) => false,
            (RegionKind::Wet, Equipment::Torch) => false,
            _ => true,
        }
    }

    /// The equipment to change to in this region.
    pub fn swap_equipment(&self, e: Equipment) -> (r: Option<Equipment>)
        ensures
            r == other_equipment(kind_of(self.erosion()), e),
    {
        match (self.kind(), e) {
            (RegionKind::Rocky, Equipment::Torch) => Some(Equipment::ClimbingGear),
            (RegionKind::Rocky, Equipment::ClimbingGear) => Some(Equipment::Torch),
            (RegionKind::Narrow, Equipment::Torch) => Some(Equipment::Neither),
            (RegionKind::Narrow, Equipment::Neither) => Some(Equipment::Torch),
            (RegionKind::Wet, Equipment::Neither) => Some(Equipment::ClimbingGear),
            (RegionKind::Wet, Equipment::ClimbingGear) => Some(Equipment::Neither),
            _ => None,
        }
    }
}

/// The cave: its depth and the position of the target.
#[derive(Debug, Clone, Copy, PartialEq, Eq, Structural)]
pub struct Data {
    pub depth: usize,
    pub target: Pos,
}

/// The geologic index of the region at column `x` and row `y`.
pub open spec fn geo_index(depth: nat, target: Pos, x: nat, y: nat) -> nat
    decreases x + y, 0nat,
{
    if x == 0 && y == 0 {
        0
    } else if x == target.x && y == target.y {
        0
    } else if y == 0 {
        x * 16807
    } else if x == 0 {
        y * 48271
    } else {
        erosion_at(depth, target, (x - 1) as nat, y) * erosion_at(depth, target, x, (y - 1) as nat)
    }
}

/// The erosion level of the region at column `x` and row `y`.
pub open spec fn erosion_at(depth: nat, target: Pos, x: nat, y: nat) -> nat
    decreases x + y, 1nat,
{
    erosion_of(geo_index(depth, target, x, y), depth)
}

/// The sum of the risk levels of the first `count` regions of a grid of
/// `w` columns, row by row.
pub open spec fn risk_sum(depth: nat, target: Pos, w: nat, count: nat) -> nat
    decreases count,
{
    if count == 0 {
        0
    } else {
        let i = (count - 1) as nat;
        risk_sum(depth, target, w, i) + erosion_at(depth, target, i % w, i / w) % 3
    }
}

/// Whether the regions of the grid before row `y`, and those of row `y`
/// before column `x`, have their geologic index and the depth of the
/// cave.
pub open spec fn filled(m: Mat2<Region>, depth: usize, target: Pos, y: int, x: int) -> bool {
    forall|p: Pos|
        (m.contains(p) && (p.y < y || (p.y == y && p.x < x))) ==> placed(
            #[trigger] m.at(p),
            depth,
            target,
            p,
        )
}

/// Whether `r` is the region at position `p`: it has the geologic index
/// of the position and the depth of the cave.
pub open spec fn placed(r: Region, depth: usize, target: Pos, p: Pos) -> bool {
    &&& r.geo_index == geo_index(depth as nat, target, p.x as nat, p.y as nat)
    &&& r.depth == depth
}

impl Data {
    /// Whether a grid of `extra` times the size of the rectangle from the
    /// mouth to the target can be addressed, geologic indices included.
    pub open spec fn fits(self, extra: usize) -> bool {
        &&& self.target.y < usize::MAX
        &&& self.target.x < usize::MAX
        &&& (self.target.y + 1) * extra * 48271 <= usize::MAX
        &&& (self.target.x + 1) * extra * 16807 <= usize::MAX
        &&& ((self.target.y + 1) * extra) * ((self.target.x + 1) * extra) <= usize::MAX
        &&& 20183 * 20183 <= usize::MAX
    }

    /// The regions of the cave from the mouth to `extra` times as far as
    /// the target, in both directions.
    pub fn build_grid(&self, extra: usize) -> (m: Mat2<Region>)
        requires
            self.fits(extra),
        ensures
            m.wf(),
            m.rows() == (self.target.y + 1) * extra,
            m.cols() == (self.target.x + 1) * extra,
            filled(m, self.depth, self.target, m.rows() as int, 0),
    {
        proof {
            let a = (self.target.y + 1) as int;
            let b = (self.target.x + 1) as int;
            let e = extra as int;
            assert(a * e <= a * e * 48271) by (nonlinear_arith)
                requires
                    a >= 0,
                    e >= 0,
            ;
            assert(b * e <= b * e * 16807) by (nonlinear_arith)
                requires
                    b >= 0,
                    e >= 0,
            ;
        }
        let h = (self.target.y + 1) * extra;
        let w = (self.target.x + 1) * extra;
        let depth = self.depth;
        let target = self.target;
        let mut m = Mat2::<Region>::new_with(h, w, Region { geo_index: 0, depth });
        let mut y: usize = 0;
        while y < h
            invariant
                y <= h,
                m.wf(),
                m.rows() == h,
                m.cols() == w,
                h * 48271 <= usize::MAX,
                w * 16807 <= usize::MAX,
                20183 * 20183 <= usize::MAX,
                depth == self.depth,
                target == self.target,
                filled(m, depth, target, y as int, 0),
            decreases h - y,
        {
            let mut x: usize = 0;
            while x < w
                invariant
                    x <= w,
                    y < h,
                    m.wf(),
                    m.rows() == h,
                    m.cols() == w,
                    h * 48271 <= usize::MAX,
                    w * 16807 <= usize::MAX,
                    20183 * 20183 <= usize::MAX,
                    depth == self.depth,
                    target == self.target,
                    filled(m, depth, target, y as int, x as int),
                decreases w - x,
            {
                let p = Pos::new(x, y);
                let geo: usize = if x == 0 && y == 0 {
                    0
                } else if target.x == x && target.y == y {
                    0
                } else if y == 0 {
                    assert(x * 16807 <= w * 16807) by (nonlinear_arith)
                        requires
                            x < w,
                    ;
                    x * 16807
                } else if x == 0 {
                    assert(y * 48271 <= h * 48271) by (nonlinear_arith)
                        requires
                            y < h,
                    ;
                    y * 48271
                } else {
                    let left = Pos::new(x - 1, y);
                    let up = Pos::new(x, y - 1);
                    assert(m.contains(left) && m.contains(up));
                    let a = m.get(left).unwrap().erosion_level();
                    let b = m.get(up).unwrap().erosion_level();
                    assert(a * b <= 20183 * 20183) by (nonlinear_arith)
                        requires
                            a < 20183,
                            b < 20183,
                    ;
                    assert(placed(m.at(left), depth, target, left));
                    assert(placed(m.at(up), depth, target, up));
                    assert(m.at(left).erosion() == erosion_at(
                        depth as nat,
                        target,
                        (x - 1) as nat,
                        y as nat,
                    ));
                    assert(m.at(up).erosion() == erosion_at(
                        depth as nat,
                        target,
                        x as nat,
                        (y - 1) as nat,
                    ));
                    a * b
                };
                assert(geo == geo_index(depth as nat, target, x as nat, y as nat));
                let ghost before = m;
                proof {
                    before.lemma_index_in_range(p);
                }
                m.set(p, Region { geo_index: geo, depth });
                proof {
                    lemma_filled_step(before, m, depth, target, p);
                }
                x += 1;
            }
            proof {
                assert forall|p: Pos|
                    (m.contains(p) && (p.y < y + 1 || (p.y == y + 1 && p.x < 0))) implies placed(
                    #[trigger] m.at(p),
                    depth,
                    target,
                    p,
                ) by {
                    assert(filled(m, depth, target, y as int, x as int));
                    assert(p.y < y || (p.y == y && p.x < x));
                }
            }
            y += 1;
        }
        m
    }
}

/// Filling the next region in reading order keeps the filled regions
/// filled.
pub proof fn lemma_filled_step(
    before: Mat2<Region>,
    after: Mat2<Region>,
    depth: usize,
    target: Pos,
    p: Pos,
)
    requires
        before.wf(),
        after.wf(),
        before.contains(p),
        after.rows() == before.rows(),
        after.cols() == before.cols(),
        filled(before, depth, target, p.y as int, p.x as int),
        after.cells().len() == before.cells().len(),
        forall|i: int|
            0 <= i < before.cells().len() && i != before.index_of(p) ==> after.cells()[i]
                == before.cells()[i],
        placed(after.at(p), depth, target, p),
    ensures
        filled(after, depth, target, p.y as int, p.x + 1),
{
    before.lemma_index_in_range(p);
    assert forall|q: Pos|
        (after.contains(q) && (q.y < p.y || (q.y == p.y && q.x < p.x + 1))) implies placed(
        #[trigger] after.at(q),
        depth,
        target,
        q,
    ) by {
        before.lemma_index_in_range(q);
        if q != p {
            lemma_distinct_places(before, p, q);
            assert(after.at(q) == before.at(q));
        }
    }
}

/// The sum of the risk levels of the regions from the mouth to the
/// target.
pub fn part1(d: &Data) -> (risk: usize)
    requires
        d.fits(1),
        2 * ((d.target.y + 1) * (d.target.x + 1)) <= usize::MAX,
    ensures
        risk == risk_sum(
            d.depth as nat,
            d.target,
            (d.target.x + 1) as nat,
            ((d.target.y + 1) * (d.target.x + 1)) as nat,
        ),
{
    let grid = d.build_grid(1);
    let cells = grid.grids();
    let coords = grid.coords();
    let w = grid.width();
    let h = grid.height();
    let ghost depth = d.depth as nat;
    let ghost target = d.target;
    let mut risk: usize = 0;
    let mut i: usize = 0;
    while i < cells.len()
        invariant
            i <= cells@.len(),
            grid.wf(),
            w == grid.cols(),
            h == grid.rows(),
            w == d.target.x + 1,
            h == d.target.y + 1,
            depth == d.depth,
            target == d.target,
            cells@.len() == grid.cells().len(),
            coords@.len() == grid.cells().len(),
            2 * (h * w) <= usize::MAX,
            forall|j: int| 0 <= j < cells@.len() ==> *(#[trigger] cells@[j]) == grid.cells()[j],
            forall|j: int|
                0 <= j < coords@.len() ==> grid.contains(#[trigger] coords@[j]) && grid.index_of(
                    coords@[j],
                ) == j,
            filled(grid, d.depth, target, h as int, 0),
            risk == risk_sum(depth, target, w as nat, i as nat),
            risk <= 2 * i,
        decreases cells@.len() - i,
    {
        let r = cells[i];
        proof {
            let p = coords@[i as int];
            let wi = w as int;
            let x = p.x as int;
            let y = p.y as int;
            assert(grid.at(p) == *r);
            assert(placed(grid.at(p), d.depth, target, p));
            assert((wi * y + x) % wi == x && (wi * y + x) / wi == y) by (nonlinear_arith)
                requires
                    0 <= x < wi,
                    0 <= y,
            ;
            assert(r.erosion() == erosion_at(depth, target, p.x as nat, p.y as nat));
        }
        risk += r.risk_level();
        i += 1;
    }
    risk
}

/// The caves of the puzzle: the input and the example.
#[derive(Debug, Clone, Copy, PartialEq, Eq, Structural)]
pub struct Solution22 {
    pub data: Data,
    pub sample: Data,
}

impl Solution22 {
    /// The caves as the puzzle gives them.
    pub fn new() -> (s: Self)
        ensures
            s.data == (Data { depth: 4002, target: Pos { x: 5, y: 746 } }),
            s.sample == (Data { depth: 510, target: Pos { x: 10, y: 10 } }),
    {
        Solution22 {
            data: Data { depth: 4002, target: Pos::new(5, 746) },
            sample: Data { depth: 510, target: Pos::new(10, 10) },
        }
    }
}

/// A state of the climber on the way: the minutes so far, the place and
/// the equipment in hand.
#[derive(Copy, Clone, Debug, PartialEq, Eq, Structural)]
pub struct QEntry {
    pub d: usize,
    pub p: Pos,
    pub e: Equipment,
}

/// Whether every state of `after` is `entry` or one of the states of
/// `before`.
pub open spec fn grown_by(before: Seq<QEntry>, after: Seq<QEntry>, entry: QEntry) -> bool {
    forall|i: int|
        0 <= i < after.len() ==> #[trigger] after[i] == entry || exists|j: int|
            0 <= j < before.len() && before[j] == after[i]
}

/// Whether every state of `after` is one of the states of `before`.
pub open spec fn taken_from(before: Seq<QEntry>, after: Seq<QEntry>) -> bool {
    forall|i: int|
        0 <= i < after.len() ==> exists|j: int| 0 <= j < before.len() && before[j] == #[trigger] after[i]
}

/// Whether no state of `items` has fewer minutes than `entry`.
pub open spec fn is_least(entry: QEntry, items: Seq<QEntry>) -> bool {
    forall|i: int| 0 <= i < items.len() ==> entry.d <= (#[trigger] items[i]).d
}

/// The states after the state `entry` at place `i` has risen as far as
/// the state above it has no more minutes.
pub open spec fn risen(items: Seq<QEntry>, i: int, entry: QEntry) -> Seq<QEntry>
    decreases i,
{
    if 0 < i < items.len() && items[(i - 1) / 2].d > entry.d {
        risen(items.update(i, items[(i - 1) / 2]).update((i - 1) / 2, entry), (i - 1) / 2, entry)
    } else {
        items
    }
}

/// The states of a queue after `entry` has come to wait: it comes in at
/// the end and rises.
pub open spec fn pushed(items: Seq<QEntry>, entry: QEntry) -> Seq<QEntry> {
    risen(items.push(entry), items.len() as int, entry)
}

/// The states after the state at place `i` has sunk as far as no state
/// below it has fewer minutes: it changes places with the state below it
/// that has the fewest, the left one of two with as few.
pub open spec fn sunk(items: Seq<QEntry>, i: int) -> Seq<QEntry>
    decreases items.len() - i,
{
    let m = items.len() as int;
    if i < 0 || i >= m / 2 || 2 * i + 1 >= m {
        items
    } else {
        let l = 2 * i + 1;
        let r = l + 1;
        let child = if r < m && items[r].d < items[l].d {
            r
        } else {
            l
        };
        if items[i].d <= items[child].d {
            items
        } else {
            sunk(items.update(i, items[child]).update(child, items[i]), child)
        }
    }
}

/// The states of a queue after the first has left: the last takes its
/// place and sinks.
pub open spec fn popped(items: Seq<QEntry>) -> Seq<QEntry> {
    if items.len() <= 1 {
        Seq::empty()
    } else {
        sunk(items.drop_last().update(0, items.last()), 0)
    }
}

/// States by their minutes: the state with the fewest minutes comes out
/// first.
#[derive(Debug)]
pub struct Queue {
    items: Vec<QEntry>,
}

/// Whether the state at place `i` has no fewer minutes than the state
/// that it hangs below: the state at place `(i - 1) / 2`.
pub open spec fn hangs(items: Seq<QEntry>, i: int) -> bool {
    items[(i - 1) / 2].d <= items[i].d
}

impl Queue {
    /// The states that wait, as the queue stores them.
    pub closed spec fn items(self) -> Seq<QEntry> {
        self.items@
    }

    /// No state has fewer minutes than the state that it hangs below.
    pub open spec fn wf(self) -> bool {
        forall|i: int| 1 <= i < self.items().len() ==> #[trigger] hangs(self.items(), i)
    }

    /// In a well-formed queue the first state has the fewest minutes.
    pub proof fn lemma_first_is_least(self, i: int)
        requires
            self.wf(),
            0 <= i < self.items().len(),
        ensures
            self.items()[0].d <= self.items()[i].d,
        decreases i,
    {
        if i > 0 {
            assert(hangs(self.items(), i));
            self.lemma_first_is_least((i - 1) / 2);
        }
    }

    /// A queue without states.
    pub fn new() -> (q: Queue)
        ensures
            q.wf(),
            q.items().len() == 0,
    {
        Queue { items: Vec::new() }
    }

    /// How many states wait.
    pub fn len(&self) -> (n: usize)
        ensures
            n == self.items().len(),
    {
        self.items.len()
    }

    /// Lets a state wait.
    pub fn push(&mut self, entry: QEntry)
        requires
            old(self).wf(),
        ensures
            final(self).wf(),
            final(self).items().len() == old(self).items().len() + 1,
            grown_by(old(self).items(), final(self).items(), entry),
            final(self).items() == pushed(old(self).items(), entry),
    {
        let ghost before = self.items@;
        self.items.push(entry);
        let mut i: usize = self.items.len() - 1;
        proof {
            assert(before == old(self).items());
            assert forall|k: int| 1 <= k < self.items@.len() && k != i implies #[trigger] hangs(
                self.items@,
                k,
            ) by {
                assert(hangs(old(self).items(), k));
                assert(self.items@[k] == before[k]);
                assert(self.items@[(k - 1) / 2] == before[(k - 1) / 2]);
            }
            assert(grown_by(before, self.items@, entry)) by {
                assert forall|k: int| 0 <= k < self.items@.len() implies #[trigger] self.items@[k]
                    == entry || exists|j: int| 0 <= j < before.len() && before[j] == self.items@[k] by {
                    if k < before.len() {
                        assert(before[k] == self.items@[k]);
                    }
                }
            }
        }
        while i > 0
            invariant
                i < self.items@.len(),
                self.items@.len() == before.len() + 1,
                self.items@[i as int] == entry,
                forall|k: int|
                    1 <= k < self.items@.len() && k != i ==> #[trigger] hangs(self.items@, k),
                forall|k: int|
                    1 <= k < self.items@.len() && (k - 1) / 2 == i && i > 0 ==> self.items@[(i - 1)
                        / 2].d <= (#[trigger] self.items@[k]).d,
                grown_by(before, self.items@, entry),
                pushed(before, entry) == risen(self.items@, i as int, entry),
            ensures
                forall|k: int| 1 <= k < self.items@.len() ==> #[trigger] hangs(self.items@, k),
                self.items@.len() == before.len() + 1,
                grown_by(before, self.items@, entry),
                self.items@ == pushed(before, entry),
            decreases i,
        {
            let parent = (i - 1) / 2;
            let up = self.items[parent];
            if up.d <= entry.d {
                assert(hangs(self.items@, i as int));
                break ;
            }
            let ghost middle = self.items@;
            self.items[i] = up;
            self.items[parent] = entry;
            proof {
                assert forall|k: int|
                    0 <= k < self.items@.len() implies #[trigger] self.items@[k] == entry || exists|
                    j: int,
                | 0 <= j < before.len() && before[j] == self.items@[k] by {
                    if k == i {
                        assert(middle[parent as int] == up);
                    } else if k != parent {
                        assert(self.items@[k] == middle[k]);
                    }
                }
                assert forall|k: int|
                    1 <= k < self.items@.len() && k != parent implies #[trigger] hangs(
                    self.items@,
                    k,
                ) by {
                    if k == i {
                    } else if (k - 1) / 2 == i {
                        assert(middle[(i - 1) / 2].d <= middle[k].d);
                    } else if (k - 1) / 2 == parent {
                        assert(hangs(middle, k));
                    } else {
                        assert(hangs(middle, k));
                    }
                }
                assert forall|k: int|
                    1 <= k < self.items@.len() && (k - 1) / 2 == parent && parent
                        > 0 implies self.items@[(parent - 1) / 2].d <= (#[trigger] self.items@[k]).d by {
                    assert(hangs(middle, parent as int));
                    if k == i {
                    } else {
                        assert(hangs(middle, k));
                    }
                }
            }
            i = parent;
        }
    }

    /// Takes the state with the fewest minutes out of the queue.
    pub fn pop(&mut self) -> (r: Option<QEntry>)
        requires
            old(self).wf(),
        ensures
            final(self).wf(),
            match r {
                Some(entry) => {
                    &&& old(self).items().len() > 0
                    &&& entry == old(self).items()[0]
                    &&& final(self).items().len() == old(self).items().len() - 1
                    &&& is_least(entry, old(self).items())
                    &&& taken_from(old(self).items(), final(self).items())
                },
                None => old(self).items().len() == 0 && final(self).items().len() == 0,
            },
            final(self).items() == popped(old(self).items()),
    {
        let n = self.items.len();
        if n == 0 {
            return None;
        }
        let first = self.items[0];
        proof {
            assert forall|i: int| 0 <= i < n implies first.d <= (#[trigger] self.items@[i]).d by {
                self.lemma_first_is_least(i);
            }
        }
        let last = self.items[n - 1];
        let ghost before = self.items@;
        self.items.pop();
        if n == 1 {
            assert(self.items@ =~= Seq::<QEntry>::empty());
            return Some(first);
        }
        self.items[0] = last;
        proof {
            assert(self.items@ =~= before.drop_last().update(0, before.last()));
        }
        let m = n - 1;
        let mut i: usize = 0;
        proof {
            assert(before == old(self).items());
            assert forall|k: int| 1 <= k < m && (k - 1) / 2 != i implies #[trigger] hangs(
                self.items@,
                k,
            ) by {
                assert(hangs(old(self).items(), k));
                assert(self.items@[k] == before[k]);
                assert(self.items@[(k - 1) / 2] == before[(k - 1) / 2]);
            }
            assert(taken_from(before, self.items@)) by {
                assert forall|k: int| 0 <= k < self.items@.len() implies exists|j: int|
                    0 <= j < before.len() && before[j] == #[trigger] self.items@[k] by {
                    if k == 0 {
                        assert(before[n - 1] == self.items@[0]);
                    } else {
                        assert(before[k] == self.items@[k]);
                    }
                }
            }
        }
        loop
            invariant
                i < m,
                m == self.items@.len(),
                m < usize::MAX,
                forall|k: int|
                    1 <= k < m && (k - 1) / 2 != i ==> #[trigger] hangs(self.items@, k),
                forall|k: int|
                    1 <= k < m && (k - 1) / 2 == i && i > 0 ==> self.items@[(i - 1) / 2].d
                        <= (#[trigger] self.items@[k]).d,
                taken_from(before, self.items@),
                popped(before) == sunk(self.items@, i as int),
                before.len() == m + 1,
            ensures
                m == self.items@.len(),
                forall|k: int| 1 <= k < m ==> #[trigger] hangs(self.items@, k),
                taken_from(before, self.items@),
                self.items@ == popped(before),
            decreases m - i,
        {
            if i >= m / 2 {
                break ;
            }
            let l = 2 * i + 1;
            if l >= m {
                break ;
            }
            let r = l + 1;
            let child = if r < m && self.items[r].d < self.items[l].d {
                r
            } else {
                l
            };
            let here = self.items[i];
            let below = self.items[child];
            if here.d <= below.d {
                assert forall|k: int| 1 <= k < m implies #[trigger] hangs(self.items@, k) by {
                    if (k - 1) / 2 == i {
                        assert(k == l || k == r);
                    }
                }
                break ;
            }
            let ghost middle = self.items@;
            self.items[i] = below;
            self.items[child] = here;
            proof {
                assert forall|k: int| 0 <= k < self.items@.len() implies exists|j: int|
                    0 <= j < before.len() && before[j] == #[trigger] self.items@[k] by {
                    if k == i {
                        assert(middle[child as int] == self.items@[k]);
                    } else if k == child {
                        assert(middle[i as int] == self.items@[k]);
                    } else {
                        assert(middle[k] == self.items@[k]);
                    }
                }
                assert forall|k: int| 1 <= k < m && (k - 1) / 2 != child implies #[trigger] hangs(
                    self.items@,
                    k,
                ) by {
                    if (k - 1) / 2 == i {
                        assert(k == l || k == r);
                    } else if k == i {
                        assert(middle[(i - 1) / 2].d <= middle[child as int].d);
                    } else {
                        assert(hangs(middle, k));
                    }
                }
                assert forall|k: int|
                    1 <= k < m && (k - 1) / 2 == child && child > 0 implies self.items@[(child - 1)
                    / 2].d <= (#[trigger] self.items@[k]).d by {
                    assert(hangs(middle, k));
                }
            }
            i = child;
        }
        Some(first)
    }
}

/// How many of the minutes are still unknown.
pub open spec fn unknown(dist: Seq<usize>) -> nat
    decreases dist.len(),
{
    if dist.len() == 0 {
        0
    } else {
        unknown(dist.drop_last()) + (if dist.last() == usize::MAX {
            1nat
        } else {
            0nat
        })
    }
}

/// Minutes that become known leave one unknown fewer.
pub proof fn lemma_unknown_update(dist: Seq<usize>, i: int, d: usize)
    requires
        0 <= i < dist.len(),
        dist[i] == usize::MAX,
        d != usize::MAX,
    ensures
        unknown(dist.update(i, d)) + 1 == unknown(dist),
    decreases dist.len(),
{
    let after = dist.update(i, d);
    if i == dist.len() - 1 {
        assert(after.drop_last() =~= dist.drop_last());
    } else {
        lemma_unknown_update(dist.drop_last(), i, d);
        assert(after.drop_last() =~= dist.drop_last().update(i, d));
    }
}

/// The kind of the region at position `p` of the cave.
pub open spec fn kind_at(d: Data, p: Pos) -> RegionKind {
    kind_of(erosion_at(d.depth as nat, d.target, p.x as nat, p.y as nat))
}

/// Whether the two positions lie side by side, in a row or in a column.
pub open spec fn beside(p: Pos, q: Pos) -> bool {
    (p.x == q.x && (p.y + 1 == q.y || q.y + 1 == p.y)) || (p.y == q.y && (p.x + 1 == q.x || q.x
        + 1 == p.x))
}

/// The minutes that the climber needs to get from one state to another
/// in one move, on the part of the cave of `cols` columns and `rows`
/// rows: seven to change, where it stands, to the other equipment that
/// the region admits; one to step to a region beside it that admits the
/// equipment in hand. Nothing where no move leads there.
pub open spec fn move_cost(
    d: Data,
    cols: nat,
    rows: nat,
    from: (Pos, Equipment),
    to: (Pos, Equipment),
) -> Option<nat> {
    if from.0 == to.0 && other_equipment(kind_at(d, from.0), from.1) == Some(to.1) {
        Some(7)
    } else if from.1 == to.1 && beside(from.0, to.0) && to.0.x < cols && to.0.y < rows && admits(
        kind_at(d, to.0),
        to.1,
    ) {
        Some(1)
    } else {
        None
    }
}

/// Whether `way` is a way of the climber that begins at the mouth of the
/// cave with the torch in hand and takes `minutes` minutes.
pub open spec fn is_way(
    d: Data,
    cols: nat,
    rows: nat,
    way: Seq<(Pos, Equipment)>,
    minutes: nat,
) -> bool
    decreases way.len(),
{
    if way.len() == 0 {
        false
    } else if way.len() == 1 {
        way[0] == (Pos { x: 0, y: 0 }, Equipment::Torch) && minutes == 0
    } else {
        match move_cost(d, cols, rows, way[way.len() - 2], way.last()) {
            Some(c) => minutes >= c && is_way(d, cols, rows, way.drop_last(), (minutes - c) as nat),
            None => false,
        }
    }
}

/// Whether the climber can be in the state `at` after `minutes` minutes.
pub open spec fn reached(d: Data, cols: nat, rows: nat, at: (Pos, Equipment), minutes: nat) -> bool {
    exists|way: Seq<(Pos, Equipment)>| #[trigger]
        is_way(d, cols, rows, way, minutes) && way.last() == at
}

/// The climber is at the mouth with the torch before any minute has
/// passed.
pub proof fn lemma_reached_start(d: Data, cols: nat, rows: nat)
    ensures
        reached(d, cols, rows, (Pos { x: 0, y: 0 }, Equipment::Torch), 0),
{
    let way = seq![(Pos { x: 0, y: 0 }, Equipment::Torch)];
    assert(is_way(d, cols, rows, way, 0));
    assert(way.last() == (Pos { x: 0, y: 0 }, Equipment::Torch));
}

/// A move leads from a state that the climber can be in to another such
/// state, as many minutes later as the move takes.
pub proof fn lemma_reached_move(
    d: Data,
    cols: nat,
    rows: nat,
    from: (Pos, Equipment),
    to: (Pos, Equipment),
    minutes: nat,
)
    requires
        reached(d, cols, rows, from, minutes),
        move_cost(d, cols, rows, from, to) is Some,
    ensures
        reached(d, cols, rows, to, minutes + move_cost(d, cols, rows, from, to).unwrap()),
{
    let way = choose|way: Seq<(Pos, Equipment)>| #[trigger]
        is_way(d, cols, rows, way, minutes) && way.last() == from;
    let longer = way.push(to);
    let c = move_cost(d, cols, rows, from, to).unwrap();
    assert(longer.drop_last() =~= way);
    assert(longer[longer.len() - 2] == from);
    assert(longer.last() == to);
    assert(is_way(d, cols, rows, longer, minutes + c));
}

/// The number that stands for the equipment in the table of minutes.
pub open spec fn slot_of(e: Equipment) -> int {
    match e {
        Equipment::Neither => 0,
        Equipment::Torch => 1,
        Equipment::ClimbingGear => 2,
    }
}

/// The steps to the regions beside a region: left, right, up, down.
pub open spec fn steps4() -> Seq<(int, int)> {
    seq![(-1, 0), (1, 0), (0, -1), (0, 1)]
}

/// The queue after the climber in the state `entry` has looked at the
/// regions beside it from the `k`th on: a region of the cave that admits
/// the equipment in hand comes to wait, a minute later.
pub open spec fn stepped(
    d: Data,
    cols: nat,
    rows: nat,
    heap: Seq<QEntry>,
    entry: QEntry,
    k: int,
) -> Seq<QEntry>
    decreases 4 - k,
{
    if k < 0 || k >= 4 {
        heap
    } else {
        let x = entry.p.x + steps4()[k].0;
        let y = entry.p.y + steps4()[k].1;
        let next = if 0 <= x < cols && 0 <= y < rows && x <= usize::MAX && y <= usize::MAX && admits(
            kind_at(d, Pos { x: x as usize, y: y as usize }),
            entry.e,
        ) {
            pushed(
                heap,
                QEntry {
                    d: (entry.d + 1) as usize,
                    p: Pos { x: x as usize, y: y as usize },
                    e: entry.e,
                },
            )
        } else {
            heap
        };
        stepped(d, cols, rows, next, entry, k + 1)
    }
}

/// What the search finds from the minutes known so far and the states
/// that wait, for at most `fuel` states more: the state with the fewest
/// minutes leaves the queue; where its minutes are known already, it is
/// passed over; at the target with the torch, its minutes are the
/// answer; else its minutes are known from now, and the states that one
/// move leads to come to wait. `NotFound` where no state waits,
/// `Overflow` where the minutes do not fit the machine.
pub open spec fn explore(
    d: Data,
    cols: nat,
    rows: nat,
    dists: Seq<usize>,
    heap: Seq<QEntry>,
    fuel: nat,
) -> Result<usize, Error>
    decreases fuel,
{
    if fuel == 0 || heap.len() == 0 {
        Err(Error::NotFound)
    } else {
        let entry = heap[0];
        let rest = popped(heap);
        let ix = slot_of(entry.e) * (cols * rows) + (cols * entry.p.y + entry.p.x);
        if !(0 <= ix < dists.len()) {
            Err(Error::NotFound)
        } else if dists[ix] != usize::MAX {
            explore(d, cols, rows, dists, rest, (fuel - 1) as nat)
        } else if entry.p == d.target && entry.e == Equipment::Torch {
            Ok(entry.d)
        } else if entry.d >= usize::MAX - 7 {
            Err(Error::Overflow)
        } else {
            let changed = match other_equipment(kind_at(d, entry.p), entry.e) {
                Some(other) => pushed(
                    rest,
                    QEntry { d: (entry.d + 7) as usize, p: entry.p, e: other },
                ),
                None => rest,
            };
            explore(
                d,
                cols,
                rows,
                dists.update(ix, entry.d),
                stepped(d, cols, rows, changed, entry, 0),
                (fuel - 1) as nat,
            )
        }
    }
}

/// What the search for the way to the target finds, on the part of the
/// cave that reaches ten times as far as the target: it begins at the
/// mouth with the torch, with no minutes known.
pub open spec fn rescue(d: Data) -> Result<usize, Error> {
    let cols = ((d.target.x + 1) * 10) as nat;
    let rows = ((d.target.y + 1) * 10) as nat;
    explore(
        d,
        cols,
        rows,
        Seq::new(3 * (rows * cols), |i: int| usize::MAX),
        pushed(Seq::empty(), QEntry { d: 0, p: Pos { x: 0, y: 0 }, e: Equipment::Torch }),
        18 * (rows * cols) + 2,
    )
}

/// No more minutes of a table are unknown than it has minutes.
pub proof fn lemma_unknown_bound(dist: Seq<usize>)
    ensures
        unknown(dist) <= dist.len(),
    decreases dist.len(),
{
    if dist.len() > 0 {
        lemma_unknown_bound(dist.drop_last());
    }
}

/// The fewest minutes in which the climber reaches the target with the
/// torch in hand, on the part of the cave that reaches ten times as far
/// as the target: each step to a region beside takes a minute, a change
/// of equipment seven. `NotFound` where the search finds no way,
/// `Overflow` where the minutes do not fit the machine.
#[verifier::rlimit(60)]
pub fn part2(data: &Data) -> (r: Result<usize, Error>)
    requires
        data.fits(10),
        3 * (((data.target.y + 1) * 10) * ((data.target.x + 1) * 10)) <= usize::MAX,
    ensures
        r matches Err(e) ==> e == Error::NotFound || e == Error::Overflow,
        r matches Ok(minutes) ==> reached(
            *data,
            ((data.target.x + 1) * 10) as nat,
            ((data.target.y + 1) * 10) as nat,
            (data.target, Equipment::Torch),
            minutes as nat,
        ),
        r == rescue(*data),
{
    let grid = data.build_grid(10);
    let h = grid.height();
    let w = grid.width();
    let n = grid.coords().len();
    let mut dists: Vec<usize> = Vec::new();
    let mut i: usize = 0;
    while i < 3 * n
        invariant
            i <= 3 * n,
            3 * n <= usize::MAX,
            dists@.len() == i,
            forall|k: int| 0 <= k < i ==> #[trigger] dists@[k] == usize::MAX,
        decreases 3 * n - i,
    {
        dists.push(usize::MAX);
        i += 1;
    }
    let mut q = Queue::new();
    q.push(QEntry { d: 0, p: Pos::new(0, 0), e: Equipment::Torch });
    proof {
        lemma_reached_start(*data, w as nat, h as nat);
        assert forall|k: int| 0 <= k < q.items().len() implies arrived(
            *data,
            w as nat,
            h as nat,
            #[trigger] q.items()[k],
        ) by {
            assert(q.items()[k] == (QEntry { d: 0, p: Pos { x: 0, y: 0 }, e: Equipment::Torch }));
        }
    }
    let ghost mut fuel: nat = (18 * n + 2) as nat;
    proof {
        lemma_unknown_bound(dists@);
        assert(dists@ =~= Seq::new((3 * (h * w)) as nat, |i: int| usize::MAX));
        assert(n == h * w);
        assert((h as nat) * (w as nat) == h * w) by (nonlinear_arith);
    }
    loop
        invariant
            rescue(*data) == explore(*data, w as nat, h as nat, dists@, q.items(), fuel),
            fuel >= 6 * unknown(dists@) + q.items().len(),
            grid.wf(),
            grid.rows() == h,
            grid.cols() == w,
            w == (data.target.x + 1) * 10,
            h == (data.target.y + 1) * 10,
            filled(grid, data.depth, data.target, h as int, 0),
            q.items_reached(*data, w as nat, h as nat),
            n == grid.cells().len(),
            n == h * w,
            3 * n <= usize::MAX,
            dists@.len() == 3 * n,
            q.wf(),
            q.items_on(grid),
        decreases 6 * unknown(dists@) + q.items().len(),
    {
        let ghost waiting = q.items();
        let ghost m0 = 6 * unknown(dists@) + q.items().len();
        let entry = match q.pop() {
            Some(entry) => entry,
            None => {
                return Err(Error::NotFound);
            },
        };
        let (d, p, e) = (entry.d, entry.p, entry.e);
        proof {
            grid.lemma_index_in_range(p);
        }
        let slot = match e {
            Equipment::Neither => 0usize,
            Equipment::Torch => 1usize,
            Equipment::ClimbingGear => 2usize,
        };
        proof {
            assert(q.items_on(grid)) by {
                assert forall|k: int| 0 <= k < q.items().len() implies grid.contains(
                    (#[trigger] q.items()[k]).p,
                ) by {
                    let j = choose|j: int| 0 <= j < waiting.len() && waiting[j] == q.items()[k];
                    assert(grid.contains(waiting[j].p));
                }
            }
            assert(q.items_reached(*data, w as nat, h as nat)) by {
                assert forall|k: int| 0 <= k < q.items().len() implies arrived(
                    *data,
                    w as nat,
                    h as nat,
                    #[trigger] q.items()[k],
                ) by {
                    let j = choose|j: int| 0 <= j < waiting.len() && waiting[j] == q.items()[k];
                    assert(arrived(*data, w as nat, h as nat, waiting[j]));
                }
            }
            assert(arrived(*data, w as nat, h as nat, waiting[0]));
            assert(placed(grid.at(p), data.depth, data.target, p));
            assert(slot * n + n <= 3 * n) by (nonlinear_arith)
                requires
                    slot <= 2,
            ;
        }
        let ix = slot * n + (w * p.y + p.x);
        proof {
            assert(slot == slot_of(e));
            assert(ix == slot_of(e) * ((w as nat) * (h as nat)) + (w * p.y + p.x)) by (nonlinear_arith)
                requires
                    ix == slot * n + (w * p.y + p.x),
                    n == h * w,
                    slot == slot_of(e),
            ;
            fuel = (fuel - 1) as nat;
        }
        if dists[ix] != usize::MAX {
            continue ;
        }
        if p.x == data.target.x && p.y == data.target.y && e == Equipment::Torch {
            return Ok(d);
        }
        if d >= usize::MAX - 7 {
            return Err(Error::Overflow);
        }
        let r = *grid.get(p).unwrap();
        proof {
            lemma_unknown_update(dists@, ix as int, d);
        }
        dists[ix] = d;
        let ghost budget = 6 * unknown(dists@) + q.items().len();
        let ghost rest = q.items();
        if let Some(other) = r.swap_equipment(e) {
            proof {
                lemma_reached_move(*data, w as nat, h as nat, (p, e), (p, other), d as nat);
            }
            push_state(&mut q, &grid, data, QEntry { d: d + 7, p, e: other });
        }
        let around = [(-1isize, 0isize), (1, 0), (0, -1), (0, 1)];
        let mut k: usize = 0;
        let ghost changed = q.items();
        while k < 4
            invariant
                k <= 4,
                budget + 7 == m0,
                entry == (QEntry { d, p, e }),
                h <= usize::MAX,
                w <= usize::MAX,
                stepped(*data, w as nat, h as nat, changed, entry, 0) == stepped(
                    *data,
                    w as nat,
                    h as nat,
                    q.items(),
                    entry,
                    k as int,
                ),
                grid.wf(),
                grid.rows() == h,
                grid.cols() == w,
                grid.contains(p),
                d < usize::MAX - 7,
                q.wf(),
                q.items().len() <= budget - 6 * unknown(dists@) + 1 + k,
                q.items_on(grid),
                q.items_reached(*data, w as nat, h as nat),
                filled(grid, data.depth, data.target, h as int, 0),
                reached(*data, w as nat, h as nat, (p, e), d as nat),
                around@[0] == (-1isize, 0isize),
                around@[1] == (1isize, 0isize),
                around@[2] == (0isize, -1isize),
                around@[3] == (0isize, 1isize),
            decreases 4 - k,
        {
            let o = around[k];
            if let Some(nb) = p.offset(o) {
                if let Some(region) = grid.get(nb) {
                    if region.can_enter(e) {
                        proof {
                            assert(placed(grid.at(nb), data.depth, data.target, nb));
                            assert(beside(p, nb));
                            lemma_reached_move(*data, w as nat, h as nat, (p, e), (nb, e), d as nat);
                        }
                        push_state(&mut q, &grid, data, QEntry { d: d + 1, p: nb, e });
                    }
                }
            }
            k += 1;
        }
    }
}

/// Whether the climber can be in the state of the entry after the
/// minutes of the entry.
pub open spec fn arrived(d: Data, cols: nat, rows: nat, entry: QEntry) -> bool {
    reached(d, cols, rows, (entry.p, entry.e), entry.d as nat)
}

/// Lets a state on the grid wait.
fn push_state(q: &mut Queue, grid: &Mat2<Region>, data: &Data, entry: QEntry)
    requires
        old(q).wf(),
        grid.contains(entry.p),
        old(q).items_on(*grid),
        old(q).items_reached(*data, grid.cols(), grid.rows()),
        arrived(*data, grid.cols(), grid.rows(), entry),
    ensures
        final(q).wf(),
        final(q).items().len() == old(q).items().len() + 1,
        final(q).items_on(*grid),
        final(q).items_reached(*data, grid.cols(), grid.rows()),
        final(q).items() == pushed(old(q).items(), entry),
{
    let ghost before = q.items();
    q.push(entry);
    proof {
        assert forall|j: int| 0 <= j < q.items().len() implies grid.contains(
            (#[trigger] q.items()[j]).p,
        ) && arrived(*data, grid.cols(), grid.rows(), q.items()[j]) by {
            if q.items()[j] != entry {
                let k = choose|k: int| 0 <= k < before.len() && before[k] == q.items()[j];
                assert(grid.contains(before[k].p));
                assert(arrived(*data, grid.cols(), grid.rows(), before[k]));
            }
        }
    }
}

impl Queue {
    /// Whether every state that waits is at a place of the grid.
    pub open spec fn items_on(self, grid: Mat2<Region>) -> bool {
        forall|k: int| 0 <= k < self.items().len() ==> grid.contains((#[trigger] self.items()[k]).p)
    }

    /// Whether the climber can be in every state that waits after the
    /// minutes of that state.
    pub open spec fn items_reached(self, d: Data, cols: nat, rows: nat) -> bool {
        forall|k: int|
            0 <= k < self.items().len() ==> arrived(d, cols, rows, #[trigger] self.items()[k])
    }
}

} // verus!
