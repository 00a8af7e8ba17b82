//! Water from a spring that runs down through sand and comes to rest on
//! clay.

use crate::error::Error;
use crate::util::mat2::{lemma_distinct_places, Mat2, Pos};
use crate::util::pattern::{captures, captures_of, group, group_of, size, size_of};
use crate::util::text::{lines, text_lines};
use std::collections::VecDeque;
use vstd::prelude::*;
use vstd::string::*;

verus! {

/// The ways that water can go.
#[derive(Copy, Clone, PartialEq, Eq, Structural, Debug)]
pub enum Direction {
    Bottom,
    Left,
    Right,
}

/// What a square of ground holds.
#[derive(Copy, Clone, PartialEq, Eq, Structural, Debug)]
pub enum TileKind {
    FlowingWater,
    RestingWater,
    Sand,
    Clay,
    Spring,
}

impl Default for TileKind {
    fn default() -> (t: TileKind)
        ensures
            t == TileKind::Sand,
    {
        TileKind::Sand
    }
}

impl Direction {
    /// The step of a move in this direction: right and down count up.
    pub open spec fn step(self) -> (int, int) {
        match self {
            Direction::Bottom => (0, 1),
            Direction::Left => (-1, 0),
            Direction::Right => (1, 0),
        }
    }

    /// The step of a move in this direction.
    pub fn offset(&self) -> (off: (isize, isize))
        ensures
            (off.0 as int, off.1 as int) == self.step(),
    {
        match self {
            Direction::Bottom => (0, 1),
            Direction::Left => (-1, 0),
            Direction::Right => (1, 0),
        }
    }
}

impl TileKind {
    /// Whether the square holds water, flowing or at rest.
    pub open spec fn water(self) -> bool {
        self == TileKind::RestingWater || self == TileKind::FlowingWater
    }

    /// Whether the square holds water, flowing or at rest.
    pub fn is_water(&self) -> (b: bool)
        ensures
            b == self.water(),
    {
        match self {
            TileKind::RestingWater | TileKind::FlowingWater => true,
            _ => false,
        }
    }

    /// Whether water can flow into the square: it is sand.
    pub fn is_free(&self) -> (b: bool)
        ensures
            b == (*self == TileKind::Sand),
    {
        match self {
            TileKind::Sand => true,
            _ => false,
        }
    }

    /// The character of the square on a drawing of the ground.
    pub fn to_char(&self) -> (c: char)
        ensures
            c == (match *self {
                TileKind::RestingWater => '~',
                TileKind::Sand => '.',
                TileKind::Clay => '#',
                TileKind::Spring => '+',
                TileKind::FlowingWater => '|',
            }),
    {
        match self {
            TileKind::RestingWater => '~',
            TileKind::Sand => '.',
            TileKind::Clay => '#',
            TileKind::Spring => '+',
            TileKind::FlowingWater => '|',
        }
    }
}

/// A vein of clay: the columns and the rows that it covers, both ends
/// included.
#[derive(Copy, Clone, PartialEq, Eq, Structural, Debug)]
pub struct ClaySquare {
    pub x_start: usize,
    pub x_end: usize,
    pub y_start: usize,
    pub y_end: usize,
}

/// The regular expression of a line such as `x=495, y=2..7`.
pub open spec fn vein_pattern() -> Seq<char> {
    r"^(y|x)(=)(\d+)(,\s*)(y|x)(=)(\d+)(\.\.)(\d+)$"@
}

/// The vein that the capture groups of a line write: group one says
/// whether the single coordinate of group three is a column or a row; the
/// groups seven and nine give the range of the other coordinate.
pub open spec fn vein_of_groups(groups: Option<Seq<Option<Seq<char>>>>) -> Result<
    ClaySquare,
    Error,
> {
    match groups {
        Some(g) => match (group_of(g, 1), size_of(g, 3), size_of(g, 7), size_of(g, 9)) {
            (Some(axis), Some(first), Some(start), Some(end)) => if axis == seq!['x'] {
                Ok(ClaySquare { x_start: first, x_end: first, y_start: start, y_end: end })
            } else if axis == seq!['y'] {
                Ok(ClaySquare { x_start: start, x_end: end, y_start: first, y_end: first })
            } else {
                Err(Error::MalformedInput)
            },
            _ => Err(Error::MalformedInput),
        },
        None => Err(Error::MalformedInput),
    }
}

/// The vein that a line writes.
pub open spec fn vein_of_line(line: Seq<char>) -> Result<ClaySquare, Error> {
    vein_of_groups(captures_of(vein_pattern(), line))
}

impl ClaySquare {
    /// Reads a vein out of the capture groups of its line.
    pub fn from_groups(groups: &Option<Vec<Option<String>>>) -> (r: Result<ClaySquare, Error>)
        ensures
            r == vein_of_groups(groups.deep_view()),
    {
        match groups {
            None => Err(Error::MalformedInput),
            Some(g) => match (group(g, 1), size(g, 3), size(g, 7), size(g, 9)) {
                (Some(axis), Some(first), Some(start), Some(end)) => {
                    if axis.unicode_len() != 1 {
                        assert(axis@ != seq!['x'] && axis@ != seq!['y']) by {
                            assert(seq!['x'].len() == 1);
                            assert(seq!['y'].len() == 1);
                        }
                        return Err(Error::MalformedInput);
                    }
                    let c = axis.get_char(0);
                    if c == 'x' {
                        assert(axis@ =~= seq!['x']);
                        Ok(ClaySquare { x_start: first, x_end: first, y_start: start, y_end: end })
                    } else if c == 'y' {
                        assert(axis@ =~= seq!['y']);
                        assert(seq!['x'][0] != seq!['y'][0]);
                        Ok(ClaySquare { x_start: start, x_end: end, y_start: first, y_end: first })
                    } else {
                        assert(axis@ != seq!['x'] && axis@ != seq!['y']) by {
                            assert(seq!['x'][0] == 'x');
                            assert(seq!['y'][0] == 'y');
                        }
                        Err(Error::MalformedInput)
                    }
                },
                _ => Err(Error::MalformedInput),
            },
        }
    }

    /// Reads a line such as `x=495, y=2..7`.
    pub fn parse(s: &str) -> (r: Result<ClaySquare, Error>)
        ensures
            r == vein_of_line(s@),
    {
        let groups = captures(r"^(y|x)(=)(\d+)(,\s*)(y|x)(=)(\d+)(\.\.)(\d+)$", s);
        ClaySquare::from_groups(&groups)
    }
}

/// The ground: its squares, and the column of the spring in the top row.
#[derive(Debug)]
pub struct Data {
    tiles: Mat2<TileKind>,
    source_x: usize,
}

/// How many of the squares satisfy `wanted`.
pub open spec fn count_where(cells: Seq<TileKind>, wanted: spec_fn(TileKind) -> bool) -> nat
    decreases cells.len(),
{
    if cells.len() == 0 {
        0
    } else {
        count_where(cells.drop_last(), wanted) + (if wanted(cells.last()) {
            1nat
        } else {
            0nat
        })
    }
}

impl Data {
    /// The squares of the ground.
    pub closed spec fn tiles(self) -> Mat2<TileKind> {
        self.tiles
    }

    /// The column of the spring.
    pub closed spec fn source_x(self) -> usize {
        self.source_x
    }

    /// The ground as its squares.
    pub open spec fn ground(self) -> Ground {
        Ground {
            cols: self.tiles().cols(),
            rows: self.tiles().rows(),
            cells: self.tiles().cells(),
        }
    }

    /// There is one square for each position, and at least one row.
    pub open spec fn wf(self) -> bool {
        self.tiles().wf() && self.tiles().rows() >= 1
    }

    /// The ground over the given squares, with the spring in column
    /// `source_x`.
    pub fn new(tiles: Mat2<TileKind>, source_x: usize) -> (d: Data)
        ensures
            d.tiles() == tiles,
            d.source_x() == source_x,
    {
        Data { tiles, source_x }
    }

    /// What the square at `p` holds.
    pub fn get(&self, p: Pos) -> (t: Option<TileKind>)
        requires
            self.wf(),
        ensures
            t == (if self.tiles().contains(p) {
                Some(self.tiles().at(p))
            } else {
                None
            }),
    {
        match self.tiles.get(p) {
            Some(t) => Some(*t),
            None => None,
        }
    }

    fn count(&self, resting_only: bool) -> (n: usize)
        requires
            self.wf(),
        ensures
            resting_only ==> n == count_where(
                self.tiles().cells(),
                |t: TileKind| t == TileKind::RestingWater,
            ),
            !resting_only ==> n == count_where(self.tiles().cells(), |t: TileKind| t.water()),
    {
        let all = self.tiles.grids();
        let ghost cells = self.tiles.cells();
        let ghost resting = |t: TileKind| t == TileKind::RestingWater;
        let ghost wet = |t: TileKind| t.water();
        let mut n: usize = 0;
        let mut i: usize = 0;
        assert(cells.subrange(0, 0) =~= Seq::<TileKind>::empty());
        while i < all.len()
            invariant
                i <= all@.len(),
                all@.len() == cells.len(),
                forall|j: int| 0 <= j < all@.len() ==> *(#[trigger] all@[j]) == cells[j],
                resting == (|t: TileKind| t == TileKind::RestingWater),
                wet == (|t: TileKind| t.water()),
                resting_only ==> n == count_where(cells.subrange(0, i as int), resting),
                !resting_only ==> n == count_where(cells.subrange(0, i as int), wet),
                n <= i,
            decreases all@.len() - i,
        {
            proof {
                let next = cells.subrange(0, i + 1);
                assert(next.drop_last() =~= cells.subrange(0, i as int));
                assert(next.last() == cells[i as int]);
            }
            let t = *all[i];
            let hit = if resting_only {
                match t {
                    TileKind::RestingWater => true,
                    _ => false,
                }
            } else {
                t.is_water()
            };
            if hit {
                n += 1;
            }
            i += 1;
        }
        assert(cells.subrange(0, i as int) =~= cells);
        n
    }

    /// How many squares hold water.
    pub fn water_tiles(&self) -> (n: usize)
        requires
            self.wf(),
        ensures
            n == count_where(self.tiles().cells(), |t: TileKind| t.water()),
    {
        self.count(false)
    }

    /// How many squares hold water at rest.
    pub fn resting_water_tiles(&self) -> (n: usize)
        requires
            self.wf(),
        ensures
            n == count_where(self.tiles().cells(), |t: TileKind| t == TileKind::RestingWater),
    {
        self.count(true)
    }

    /// Whether water at `p` can go one step in the direction `dir`: out
    /// of the bottom row downwards always, else into sand only.
    pub open spec fn may_flow(self, p: Pos, dir: Direction) -> bool {
        if dir == Direction::Bottom && p.y == self.tiles().rows() - 1 {
            true
        } else {
            let x = p.x + dir.step().0;
            let y = p.y + dir.step().1;
            0 <= x < self.tiles().cols() && 0 <= y < self.tiles().rows() && self.tiles().cells()[self.tiles().cols()
                * y + x] == TileKind::Sand
        }
    }

    /// Whether water at `p` can go one step in the direction `dir`.
    pub fn can_flow(&self, p: Pos, dir: Direction) -> (b: bool)
        requires
            self.wf(),
            self.tiles().contains(p),
        ensures
            b == self.may_flow(p, dir),
    {
        let h = self.tiles.height();
        let w = self.tiles.width();
        if dir == Direction::Bottom && p.y == h - 1 {
            return true;
        }
        if let Some(q) = p.offset(dir.offset()) {
            if let Some(t) = self.tiles.get(q) {
                return t.is_free();
            }
        }
        false
    }

    /// Lets water go one step from `p` in the direction `dir`: the square
    /// there holds flowing water afterwards. Water that leaves the bottom
    /// row is gone, and nothing changes.
    pub fn flow(&mut self, p: Pos, dir: Direction)
        requires
            old(self).wf(),
            old(self).tiles().contains(p),
            dir == Direction::Bottom && p.y == old(self).tiles().rows() - 1 || old(
                self,
            ).tiles().contains(
                Pos { x: (p.x + dir.step().0) as usize, y: (p.y + dir.step().1) as usize },
            ) && p.x + dir.step().0 >= 0,
        ensures
            final(self).wf(),
            final(self).source_x() == old(self).source_x(),
            final(self).tiles().rows() == old(self).tiles().rows(),
            final(self).tiles().cols() == old(self).tiles().cols(),
            final(self).tiles().cells() == (if dir == Direction::Bottom && p.y == old(
                self,
            ).tiles().rows() - 1 {
                old(self).tiles().cells()
            } else {
                old(self).tiles().cells().update(
                    old(self).tiles().cols() * (p.y + dir.step().1) + (p.x + dir.step().0),
                    TileKind::FlowingWater,
                )
            }),
    {
        let h = self.tiles.height();
        let w = self.tiles.width();
        if dir == Direction::Bottom && p.y == h - 1 {
            return ;
        }
        match p.offset(dir.offset()) {
            Some(n) => {
                self.tiles.set(n, TileKind::FlowingWater);
            },
            None => {},
        }
    }
}

/// The ground as its squares: so many columns and rows, and what each
/// square holds, row by row.
pub ghost struct Ground {
    pub cols: nat,
    pub rows: nat,
    pub cells: Seq<TileKind>,
}

impl Ground {
    /// Whether `p` lies on the ground.
    pub open spec fn contains(self, p: Pos) -> bool {
        p.x < self.cols && p.y < self.rows
    }

    /// What the square in column `x` and row `y` holds.
    pub open spec fn at(self, x: int, y: int) -> TileKind {
        self.cells[self.cols * y + x]
    }

    /// Whether water at `p` can go one step in the direction `dir`: out
    /// of the bottom row downwards always, else into sand only.
    pub open spec fn may_flow(self, p: Pos, dir: Direction) -> bool {
        if dir == Direction::Bottom && p.y == self.rows - 1 {
            true
        } else {
            let x = p.x + dir.step().0;
            let y = p.y + dir.step().1;
            0 <= x < self.cols && 0 <= y < self.rows && self.at(x, y) == TileKind::Sand
        }
    }

    /// The ground after water has gone one step from `p` in the
    /// direction `dir`: the square there holds flowing water. Water that
    /// leaves the bottom row changes nothing.
    pub open spec fn flow(self, p: Pos, dir: Direction) -> Ground {
        if dir == Direction::Bottom && p.y == self.rows - 1 {
            self
        } else {
            Ground {
                cells: self.cells.update(
                    self.cols * (p.y + dir.step().1) + (p.x + dir.step().0),
                    TileKind::FlowingWater,
                ),
                ..self
            }
        }
    }

    /// Where water at `cur` comes to the wall of its basin in the
    /// direction `dir`: the last place before clay, reached over squares
    /// of flowing water that cannot run down. Nothing where the way ends
    /// on sand, at the border, or at water that can run down;
    /// `InvalidTile` where it meets water at rest or the spring.
    pub open spec fn floor_bound(self, cur: Pos, dir: Direction) -> Result<Option<Pos>, Error>
        decreases
                (if dir == Direction::Left {
                    cur.x as int
                } else if dir == Direction::Right {
                    self.cols - cur.x
                } else {
                    self.rows - cur.y
                }),
    {
        let x = if dir == Direction::Left {
            cur.x - 1
        } else if dir == Direction::Right {
            cur.x + 1
        } else {
            cur.x as int
        };
        let y = if dir == Direction::Bottom {
            cur.y + 1
        } else {
            cur.y as int
        };
        if !self.contains(cur) || x < 0 || y < 0 || x >= self.cols || y >= self.rows || x
            > usize::MAX || y > usize::MAX {
            Ok(None)
        } else {
            let next = Pos { x: x as usize, y: y as usize };
            match self.at(x, y) {
                TileKind::Clay => Ok(Some(cur)),
                TileKind::Sand => Ok(None),
                TileKind::FlowingWater => if self.may_flow(next, Direction::Bottom) {
                    Ok(None)
                } else {
                    self.floor_bound(next, dir)
                },
                _ => Err(Error::InvalidTile),
            }
        }
    }

    /// The ground and the queue after the squares of row `y` from column
    /// `x` to column `last` have filled with water at rest: flowing water
    /// right above a square that has filled comes to the end of the
    /// queue.
    pub open spec fn fill(self, q: Seq<Pos>, x: int, last: int, y: int) -> (Ground, Seq<Pos>)
        decreases last + 1 - x,
    {
        if x > last {
            (self, q)
        } else {
            let g = Ground {
                cells: self.cells.update(self.cols * y + x, TileKind::RestingWater),
                ..self
            };
            let waiting = if y > 0 && g.at(x, y - 1) == TileKind::FlowingWater {
                q.push(Pos { x: x as usize, y: (y - 1) as usize })
            } else {
                q
            };
            g.fill(waiting, x + 1, last, y)
        }
    }

    /// The ground and the queue after the water at `p` has gone on: down
    /// if it can, else to the sides as far as it can, and where it can go
    /// nowhere and stands between the walls of a basin, the row between
    /// the walls fills with water at rest. Only flowing water and the
    /// spring go on.
    pub open spec fn flowed(self, p: Pos, q: Seq<Pos>) -> Result<(Ground, Seq<Pos>), Error> {
        if !self.contains(p) || (self.at(p.x as int, p.y as int) != TileKind::FlowingWater && self.at(
            p.x as int,
            p.y as int,
        ) != TileKind::Spring) {
            Ok((self, q))
        } else if self.may_flow(p, Direction::Bottom) {
            Ok((self.flow(p, Direction::Bottom), q.push(Pos { x: p.x, y: (p.y + 1) as usize })))
        } else if self.may_flow(p, Direction::Left) || self.may_flow(p, Direction::Right) {
            let (g, waiting) = if self.may_flow(p, Direction::Left) {
                (self.flow(p, Direction::Left), q.push(Pos { x: (p.x - 1) as usize, y: p.y }))
            } else {
                (self, q)
            };
            if self.may_flow(p, Direction::Right) {
                Ok((g.flow(p, Direction::Right), waiting.push(Pos { x: (p.x + 1) as usize, y: p.y })))
            } else {
                Ok((g, waiting))
            }
        } else {
            match self.floor_bound(p, Direction::Left) {
                Err(e) => Err(e),
                Ok(l) => match self.floor_bound(p, Direction::Right) {
                    Err(e) => Err(e),
                    Ok(r) => match (l, r) {
                        (Some(l), Some(r)) => Ok(self.fill(q, l.x as int, r.x as int, p.y as int)),
                        _ => Ok((self, q)),
                    },
                },
            }
        }
    }

    /// The ground after the water has gone on from the places of the
    /// queue, one after the other, for at most `left` places; and whether
    /// no place is left in the queue. A place right below the ground is
    /// passed over.
    pub open spec fn run(self, q: Seq<Pos>, left: nat) -> Result<(Ground, bool), Error>
        decreases left,
    {
        if left == 0 {
            Ok((self, q.len() == 0))
        } else if q.len() == 0 {
            Ok((self, true))
        } else if q[0].y == self.rows {
            self.run(q.subrange(1, q.len() as int), (left - 1) as nat)
        } else {
            match self.flowed(q[0], q.subrange(1, q.len() as int)) {
                Err(e) => Err(e),
                Ok((g, waiting)) => g.run(waiting, (left - 1) as nat),
            }
        }
    }
}

/// Whether the squares `after` are what water can have made of the
/// squares `before`: clay lies where it lay and nowhere else; where water
/// was, water is; and water at rest stays at rest.
pub open spec fn soaked(before: Seq<TileKind>, after: Seq<TileKind>) -> bool {
    &&& after.len() == before.len()
    &&& forall|i: int|
        #![trigger after[i]]
        0 <= i < before.len() ==> {
            &&& (after[i] == TileKind::Clay) == (before[i] == TileKind::Clay)
            &&& before[i].water() ==> after[i].water()
            &&& before[i] == TileKind::RestingWater ==> after[i] == TileKind::RestingWater
        }
}

/// Water that flows onto sand soaks the ground.
pub proof fn lemma_soaked_sand(cells: Seq<TileKind>, i: int)
    requires
        0 <= i < cells.len(),
        cells[i] == TileKind::Sand,
    ensures
        soaked(cells, cells.update(i, TileKind::FlowingWater)),
{
}

/// Whether every place of the queue lies on the ground or right below
/// it.
pub open spec fn queue_fits(q: Seq<Pos>, m: Mat2<TileKind>) -> bool {
    forall|i: int| 0 <= i < q.len() ==> (#[trigger] q[i]).x < m.cols() && q[i].y <= m.rows()
}

impl Data {
    /// Whether `after` is ground of the same size with the same spring.
    pub open spec fn same_frame(self, after: Data) -> bool {
        &&& after.wf()
        &&& after.source_x() == self.source_x()
        &&& after.tiles().rows() == self.tiles().rows()
        &&& after.tiles().cols() == self.tiles().cols()
    }

    /// Whether water flows on every square of the row of `p` from the one
    /// beside `p` to `q`, to the left or to the right of `p`.
    pub open spec fn runs_between(self, p: Pos, q: Pos, dir: Direction) -> bool {
        &&& dir == Direction::Left ==> forall|x: int|
            q.x <= x < p.x ==> #[trigger] self.tiles().cells()[self.tiles().cols() * p.y + x]
                == TileKind::FlowingWater
        &&& dir == Direction::Right ==> forall|x: int|
            p.x < x <= q.x ==> #[trigger] self.tiles().cells()[self.tiles().cols() * p.y + x]
                == TileKind::FlowingWater
    }

    /// Where water at `p` comes to the wall of its basin in the direction
    /// `dir`: the last place before clay, reached over a floor that holds
    /// the water. Nothing where the floor ends on sand or water runs
    /// down from it.
    pub fn find_floor_bound(&self, p: Pos, dir: Direction) -> (r: Result<Option<Pos>, Error>)
        requires
            self.wf(),
            self.tiles().contains(p),
        ensures
            match r {
                Ok(Some(q)) => {
                    &&& self.tiles().contains(q)
                    &&& dir != Direction::Bottom ==> q.y == p.y
                    &&& dir == Direction::Left ==> q.x <= p.x
                    &&& dir == Direction::Right ==> q.x >= p.x
                    &&& self.runs_between(p, q, dir)
                },
                Ok(None) => true,
                Err(e) => e == Error::InvalidTile,
            },
            r == self.ground().floor_bound(p, dir),
    {
        let w = self.tiles.width();
        let h = self.tiles.height();
        let mut cur = p;
        loop
            invariant
                self.wf(),
                w == self.tiles().cols(),
                h == self.tiles().rows(),
                self.tiles().contains(cur),
                dir != Direction::Bottom ==> cur.y == p.y,
                dir == Direction::Left ==> cur.x <= p.x,
                dir == Direction::Right ==> cur.x >= p.x,
                self.runs_between(p, cur, dir),
                self.ground().floor_bound(p, dir) == self.ground().floor_bound(cur, dir),
            decreases
                    (match dir {
                        Direction::Left => cur.x as int,
                        Direction::Right => w - cur.x,
                        Direction::Bottom => h - cur.y,
                    }),
        {
            let next = match cur.offset(dir.offset()) {
                Some(n) => n,
                None => {
                    return Ok(None);
                },
            };
            let t = match self.tiles.get(next) {
                Some(t) => *t,
                None => {
                    return Ok(None);
                },
            };
            match t {
                TileKind::Clay => {
                    return Ok(Some(cur));
                },
                TileKind::Sand => {
                    return Ok(None);
                },
                TileKind::FlowingWater => {
                    if self.can_flow(next, Direction::Bottom) {
                        return Ok(None);
                    }
                },
                _ => {
                    return Err(Error::InvalidTile);
                },
            }
            cur = next;
        }
    }

    /// Lets the water at `p` go on: down if it can, else to the sides, and
    /// where it can go nowhere and stands in a basin, the row of the basin
    /// fills with water at rest. The places where water goes on from
    /// there come to the end of the queue.
    pub fn update_flow(&mut self, p: Pos, q: &mut VecDeque<Pos>) -> (r: Result<(), Error>)
        requires
            old(self).wf(),
            old(self).tiles().contains(p),
            queue_fits(old(q)@, old(self).tiles()),
        ensures
            old(self).same_frame(*final(self)),
            soaked(old(self).tiles().cells(), final(self).tiles().cells()),
            queue_fits(final(q)@, final(self).tiles()),
            r matches Err(e) ==> e == Error::InvalidTile,
            match r {
                Ok(()) => old(self).ground().flowed(p, old(q)@) == Ok::<(Ground, Seq<Pos>), Error>(
                    (final(self).ground(), final(q)@),
                ),
                Err(e) => old(self).ground().flowed(p, old(q)@) == Err::<(Ground, Seq<Pos>), Error>(
                    e,
                ) && final(self).ground() == old(self).ground() && final(q)@ == old(q)@,
            },
    {
        let w = self.tiles.width();
        let h = self.tiles.height();
        let t = *self.tiles.get(p).unwrap();
        if t != TileKind::FlowingWater && t != TileKind::Spring {
            return Ok(());
        }
        proof {
            self.tiles.lemma_index_in_range(p);
        }
        let bot = self.can_flow(p, Direction::Bottom);
        let left = self.can_flow(p, Direction::Left);
        let right = self.can_flow(p, Direction::Right);
        let ghost start = self.tiles().cells();
        let ghost ground = self.tiles();
        if bot {
            self.flow(p, Direction::Bottom);
            proof {
                if p.y != h - 1 {
                    ground.lemma_index_in_range(Pos { x: p.x, y: (p.y + 1) as usize });
                    lemma_soaked_sand(start, w * (p.y + 1) + p.x);
                }
            }
            q.push_back(Pos::new(p.x, p.y + 1));
        } else if left || right {
            if left {
                self.flow(p, Direction::Left);
                proof {
                    ground.lemma_index_in_range(Pos { x: (p.x - 1) as usize, y: p.y });
                    lemma_soaked_sand(start, w * p.y + (p.x - 1));
                }
                q.push_back(Pos::new(p.x - 1, p.y));
            }
            let ghost middle = self.tiles().cells();
            if right {
                self.flow(p, Direction::Right);
                proof {
                    ground.lemma_index_in_range(Pos { x: (p.x + 1) as usize, y: p.y });
                    assert(middle.len() == start.len());
                    assert(middle[w * p.y + (p.x + 1)] == start[w * p.y + (p.x + 1)]);
                    lemma_soaked_sand(middle, w * p.y + (p.x + 1));
                    lemma_soaked_on(start, middle, self.tiles().cells());
                }
                q.push_back(Pos::new(p.x + 1, p.y));
            }
        } else {
            let l = match self.find_floor_bound(p, Direction::Left) {
                Ok(l) => l,
                Err(e) => {
                    return Err(e);
                },
            };
            let r = match self.find_floor_bound(p, Direction::Right) {
                Ok(r) => r,
                Err(e) => {
                    return Err(e);
                },
            };
            proof {
                if let (Some(l), Some(r)) = (l, r) {
                    assert forall|u: int| l.x <= u <= r.x implies #[trigger] self.tiles().cells()[w
                        * p.y + u] != TileKind::Clay by {
                        if u < p.x {
                            assert(self.tiles().cells()[self.tiles().cols() * p.y + u]
                                == TileKind::FlowingWater);
                        } else if u > p.x {
                            assert(self.tiles().cells()[self.tiles().cols() * p.y + u]
                                == TileKind::FlowingWater);
                        } else {
                            assert(self.tiles().cells()[w * p.y + u] == t);
                        }
                    }
                }
            }
            if let (Some(l), Some(r)) = (l, r) {
                let mut x: usize = l.x;
                let ghost start = self.tiles().cells();
                while x <= r.x
                    invariant
                        l.x <= x <= r.x + 1,
                        l.x <= p.x <= r.x,
                        r.x < w,
                        p.y < h,
                        old(self).same_frame(*self),
                        w == self.tiles().cols(),
                        h == self.tiles().rows(),
                        queue_fits(q@, self.tiles()),
                        start == old(self).tiles().cells(),
                        start.len() == self.tiles().cells().len(),
                        soaked(start, self.tiles().cells()),
                        old(self).ground().fill(old(q)@, l.x as int, r.x as int, p.y as int)
                            == self.ground().fill(q@, x as int, r.x as int, p.y as int),
                        forall|u: int|
                            l.x <= u <= r.x ==> #[trigger] start[w * p.y + u] != TileKind::Clay,
                    decreases r.x + 1 - x,
                {
                    let ghost before = self.tiles().cells();
                    proof {
                        self.tiles.lemma_index_in_range(Pos { x, y: p.y });
                    }
                    self.tiles.set(Pos::new(x, p.y), TileKind::RestingWater);
                    proof {
                        let ix = w * p.y + x;
                        let now = self.tiles().cells();
                        assert(start[ix] != TileKind::Clay);
                        assert forall|i: int|
                            #![trigger now[i]]
                            0 <= i < start.len() implies {
                            &&& (now[i] == TileKind::Clay) == (start[i] == TileKind::Clay)
                            &&& start[i].water() ==> now[i].water()
                            &&& start[i] == TileKind::RestingWater ==> now[i]
                                == TileKind::RestingWater
                        } by {
                            if i != ix {
                                assert(now[i] == before[i]);
                            }
                        }
                    }
                    if p.y > 0 {
                        let above = Pos::new(x, p.y - 1);
                        let t = *self.tiles.get(above).unwrap();
                        if t == TileKind::FlowingWater {
                            q.push_back(above);
                        }
                    }
                    x += 1;
                }
            }
        }
        Ok(())
    }

    /// Lets the water run from the spring until it goes on nowhere, for at
    /// most `limit` places of the queue. Returns whether the water has
    /// come to rest.
    pub fn update(&mut self, limit: usize) -> (r: Result<bool, Error>)
        requires
            old(self).wf(),
            old(self).source_x() < old(self).tiles().cols(),
        ensures
            old(self).same_frame(*final(self)),
            soaked(old(self).tiles().cells(), final(self).tiles().cells()),
            r matches Err(e) ==> e == Error::InvalidTile,
            match r {
                Ok(rests) => old(self).ground().run(
                    seq![Pos { x: old(self).source_x(), y: 0 }],
                    limit as nat,
                ) == Ok::<(Ground, bool), Error>((final(self).ground(), rests)),
                Err(e) => old(self).ground().run(
                    seq![Pos { x: old(self).source_x(), y: 0 }],
                    limit as nat,
                ) == Err::<(Ground, bool), Error>(e),
            },
    {
        let h = self.tiles.height();
        let mut q: VecDeque<Pos> = VecDeque::new();
        q.push_back(Pos::new(self.source_x, 0));
        let mut left = limit;
        proof {
            assert(q@ =~= seq![Pos { x: old(self).source_x(), y: 0 }]);
        }
        while left > 0
            invariant
                old(self).same_frame(*self),
                soaked(old(self).tiles().cells(), self.tiles().cells()),
                h == self.tiles().rows(),
                queue_fits(q@, self.tiles()),
                old(self).ground().run(seq![Pos { x: old(self).source_x(), y: 0 }], limit as nat)
                    == self.ground().run(q@, left as nat),
            decreases left,
        {
            let ghost before = self.tiles().cells();
            left -= 1;
            let p = match q.pop_front() {
                Some(p) => p,
                None => {
                    return Ok(true);
                },
            };
            if p.y == h {
                continue ;
            }
            let flowed = self.update_flow(p, &mut q);
            proof {
                lemma_soaked_on(old(self).tiles().cells(), before, self.tiles().cells());
            }
            match flowed {
                Ok(()) => {},
                Err(e) => {
                    return Err(e);
                },
            }
        }
        Ok(q.len() == 0)
    }
}

/// What water has made of soaked ground is again what water can have
/// made of the ground.
pub proof fn lemma_soaked_on(first: Seq<TileKind>, second: Seq<TileKind>, third: Seq<TileKind>)
    requires
        soaked(first, second),
        soaked(second, third),
    ensures
        soaked(first, third),
{
    assert forall|i: int|
        #![trigger third[i]]
        0 <= i < first.len() implies {
        &&& (third[i] == TileKind::Clay) == (first[i] == TileKind::Clay)
        &&& first[i].water() ==> third[i].water()
        &&& first[i] == TileKind::RestingWater ==> third[i] == TileKind::RestingWater
    } by {
        assert((second[i] == TileKind::Clay) == (first[i] == TileKind::Clay));
    }
}

impl ClaySquare {
    /// Whether the vein runs from lesser to greater coordinates.
    pub open spec fn in_order(self) -> bool {
        self.x_start <= self.x_end && self.y_start <= self.y_end
    }

    /// Whether the vein covers the place in column `x` and row `y`.
    pub open spec fn holds(self, x: int, y: int) -> bool {
        self.x_start <= x <= self.x_end && self.y_start <= y <= self.y_end
    }

    /// Whether the vein covers the place in column `x` and row `y`, in a
    /// row before `row` or in that row in a column before `col`.
    pub open spec fn holds_before(self, x: int, y: int, col: int, row: int) -> bool {
        self.holds(x, y) && (y < row || (y == row && x < col))
    }
}

/// Whether one of the first `upto` veins covers the place.
pub open spec fn clay_at(veins: Seq<ClaySquare>, upto: int, x: int, y: int) -> bool {
    exists|j: int| 0 <= j < upto && (#[trigger] veins[j]).holds(x, y)
}

/// What lies at the place in column `x` and row `y` of the scan: clay
/// where one of the first `upto` veins covers it, the spring in column
/// `spring` of the row `top`, and sand elsewhere.
pub open spec fn tile_of(
    veins: Seq<ClaySquare>,
    upto: int,
    x: int,
    y: int,
    spring: int,
    top: int,
) -> TileKind {
    if clay_at(veins, upto, x, y) {
        TileKind::Clay
    } else if x == spring && y == top {
        TileKind::Spring
    } else {
        TileKind::Sand
    }
}

/// The leftmost column of the veins.
pub open spec fn least_x(veins: Seq<ClaySquare>) -> usize
    decreases veins.len(),
{
    if veins.len() == 0 {
        usize::MAX
    } else if veins.last().x_start < least_x(veins.drop_last()) {
        veins.last().x_start
    } else {
        least_x(veins.drop_last())
    }
}

/// The highest row of the veins.
pub open spec fn least_y(veins: Seq<ClaySquare>) -> usize
    decreases veins.len(),
{
    if veins.len() == 0 {
        usize::MAX
    } else if veins.last().y_start < least_y(veins.drop_last()) {
        veins.last().y_start
    } else {
        least_y(veins.drop_last())
    }
}

/// The rightmost column of the veins.
pub open spec fn greatest_x(veins: Seq<ClaySquare>) -> usize
    decreases veins.len(),
{
    if veins.len() == 0 {
        0
    } else if veins.last().x_end > greatest_x(veins.drop_last()) {
        veins.last().x_end
    } else {
        greatest_x(veins.drop_last())
    }
}

/// The lowest row of the veins.
pub open spec fn greatest_y(veins: Seq<ClaySquare>) -> usize
    decreases veins.len(),
{
    if veins.len() == 0 {
        0
    } else if veins.last().y_end > greatest_y(veins.drop_last()) {
        veins.last().y_end
    } else {
        greatest_y(veins.drop_last())
    }
}

/// Whether the veins make ground that can be addressed: there is a vein,
/// none runs backwards, none lies in the first column or row, and the
/// spring, in the column that the scan calls 500, lies between the
/// columns beside the veins.
pub open spec fn scan_fits(veins: Seq<ClaySquare>) -> bool {
    &&& veins.len() > 0
    &&& forall|j: int| 0 <= j < veins.len() ==> (#[trigger] veins[j]).in_order()
    &&& least_x(veins) >= 1
    &&& least_y(veins) >= 1
    &&& greatest_x(veins) < usize::MAX - 2
    &&& greatest_y(veins) < usize::MAX - 2
    &&& least_x(veins) - 1 <= 500 < greatest_x(veins) + 2
    &&& (greatest_y(veins) - least_y(veins) + 2) * (greatest_x(veins) - least_x(veins) + 3)
        <= usize::MAX
}

impl Data {
    /// Whether the ground is that of the veins: it reaches from one
    /// column left of the leftmost clay to one right of the rightmost,
    /// and from one row above the highest clay to the lowest; clay lies
    /// where a vein covers the place, the spring lies in the top row in
    /// the column that the scan calls 500, and all else is sand.
    pub open spec fn shows(self, veins: Seq<ClaySquare>) -> bool {
        &&& self.wf()
        &&& self.tiles().rows() == greatest_y(veins) - least_y(veins) + 2
        &&& self.tiles().cols() == greatest_x(veins) - least_x(veins) + 3
        &&& self.source_x() == 500 - (least_x(veins) - 1)
        &&& self.source_x() < self.tiles().cols()
        &&& forall|p: Pos|
            self.tiles().contains(p) ==> #[trigger] self.tiles().at(p) == tile_of(
                veins,
                veins.len() as int,
                p.x + least_x(veins) - 1,
                p.y + least_y(veins) - 1,
                500,
                least_y(veins) - 1,
            )
    }
}

/// Whether `r` is what reading a scan from its lines gives: the ground of
/// the veins that the lines write; or `MalformedInput` where a line
/// writes no vein or the veins make no ground that can be addressed.
pub open spec fn scan_read(lines: Seq<Seq<char>>, r: Result<Data, Error>) -> bool {
    match r {
        Ok(d) => veins_of_lines(lines) matches Ok(veins) && scan_fits(veins) && d.shows(veins),
        Err(e) => e == Error::MalformedInput && !(veins_of_lines(lines) matches Ok(veins)
            && scan_fits(veins)),
    }
}

/// The lines of a scan: one vein of clay each.
pub open spec fn veins_of_lines(lines: Seq<Seq<char>>) -> Result<Seq<ClaySquare>, Error> {
    if forall|i: int| 0 <= i < lines.len() ==> vein_of_line(#[trigger] lines[i]) is Ok {
        Ok(Seq::new(lines.len(), |i: int| vein_of_line(lines[i]).unwrap()))
    } else {
        Err(Error::MalformedInput)
    }
}

/// Reads the veins of clay of a scan, one from each line.
pub fn veins_from_lines(lines: &Vec<String>) -> (r: Result<Vec<ClaySquare>, Error>)
    ensures
        r matches Err(e) ==> veins_of_lines(lines.deep_view()) == Err::<Seq<ClaySquare>, Error>(e),
        r matches Ok(v) ==> veins_of_lines(lines.deep_view()) == Ok::<Seq<ClaySquare>, Error>(v@),
{
    let mut veins: Vec<ClaySquare> = Vec::new();
    let mut i: usize = 0;
    while i < lines.len()
        invariant
            i <= lines@.len(),
            veins@.len() == i,
            forall|j: int| 0 <= j < i ==> vein_of_line(#[trigger] lines.deep_view()[j]) == Ok::<
                ClaySquare,
                Error,
            >(veins@[j]),
        decreases lines@.len() - i,
    {
        assert(lines.deep_view()[i as int] == lines@[i as int]@);
        match ClaySquare::parse(lines[i].as_str()) {
            Ok(v) => {
                veins.push(v);
            },
            Err(e) => {
                assert(vein_of_line(lines.deep_view()[i as int]) is Err);
                return Err(Error::MalformedInput);
            },
        }
        i += 1;
    }
    assert(veins@ =~= Seq::new(
        lines.deep_view().len(),
        |i: int| vein_of_line(lines.deep_view()[i]).unwrap(),
    ));
    Ok(veins)
}

impl Data {
    /// The ground that the veins of clay lie in: from one column left of
    /// the leftmost clay to one right of the rightmost, and from one row
    /// above the highest clay to the lowest, with the spring in the top
    /// row, in the column that the scan calls 500. Nothing where there
    /// is no clay, a vein runs backwards, the spring lies outside or the
    /// ground is too large to address.
    pub fn from_veins(veins: &Vec<ClaySquare>) -> (r: Option<Data>)
        ensures
            r is Some <==> scan_fits(veins@),
            r matches Some(d) ==> d.shows(veins@),
    {
        if veins.len() == 0 {
            return None;
        }
        let (mut min_x, mut min_y, mut max_x, mut max_y) = (usize::MAX, usize::MAX, 0usize, 0usize);
        let mut i: usize = 0;
        assert(veins@.take(0) =~= Seq::<ClaySquare>::empty());
        while i < veins.len()
            invariant
                i <= veins@.len(),
                min_x == least_x(veins@.take(i as int)),
                min_y == least_y(veins@.take(i as int)),
                max_x == greatest_x(veins@.take(i as int)),
                max_y == greatest_y(veins@.take(i as int)),
                forall|j: int| 0 <= j < i ==> (#[trigger] veins@[j]).in_order(),
                forall|j: int|
                    0 <= j < i ==> min_x <= (#[trigger] veins@[j]).x_start <= veins@[j].x_end
                        <= max_x && min_y <= veins@[j].y_start <= veins@[j].y_end <= max_y,
                i > 0 ==> min_x <= max_x && min_y <= max_y,
            decreases veins@.len() - i,
        {
            proof {
                assert(veins@.take(i + 1).drop_last() =~= veins@.take(i as int));
            }
            let v = veins[i];
            if v.x_start > v.x_end || v.y_start > v.y_end {
                proof {
                    assert(!veins@[i as int].in_order());
                }
                return None;
            }
            if v.x_start < min_x {
                min_x = v.x_start;
            }
            if v.x_end > max_x {
                max_x = v.x_end;
            }
            if v.y_start < min_y {
                min_y = v.y_start;
            }
            if v.y_end > max_y {
                max_y = v.y_end;
            }
            i += 1;
        }
        assert(veins@.take(i as int) =~= veins@);
        if min_x == 0 || min_y == 0 || max_x >= usize::MAX - 2 || max_y >= usize::MAX - 2 {
            return None;
        }
        let h = max_y - min_y + 2;
        let w = max_x - min_x + 3;
        let (left, top) = (min_x - 1, min_y - 1);
        if 500 < left || 500 - left >= w || h.checked_mul(w).is_none() {
            return None;
        }
        let source_x = 500 - left;
        let mut tiles = Mat2::new_with(h, w, TileKind::Sand);
        proof {
            tiles.lemma_index_in_range(Pos { x: source_x, y: 0 });
        }
        let ghost sand = tiles;
        tiles.set(Pos::new(source_x, 0), TileKind::Spring);
        proof {
            assert forall|p: Pos| tiles.contains(p) implies #[trigger] tiles.at(p) == tile_of(
                veins@,
                0,
                p.x + left,
                p.y + top,
                500,
                top as int,
            ) by {
                sand.lemma_index_in_range(p);
                if p != (Pos { x: source_x, y: 0 }) {
                    lemma_distinct_places(sand, p, Pos { x: source_x, y: 0 });
                }
            }
        }
        let mut k: usize = 0;
        while k < veins.len()
            invariant
                k <= veins@.len(),
                tiles.wf(),
                tiles.rows() == h,
                tiles.cols() == w,
                h == max_y - top + 1,
                w == max_x - left + 2,
                max_x < usize::MAX,
                max_y < usize::MAX,
                forall|j: int|
                    0 <= j < veins@.len() ==> left < (#[trigger] veins@[j]).x_start
                        <= veins@[j].x_end <= max_x && top < veins@[j].y_start <= veins@[j].y_end
                        <= max_y,
                forall|p: Pos|
                    tiles.contains(p) ==> #[trigger] tiles.at(p) == tile_of(
                        veins@,
                        k as int,
                        p.x + left,
                        p.y + top,
                        500,
                        top as int,
                    ),
            decreases veins@.len() - k,
        {
            let v = veins[k];
            let mut y: usize = v.y_start;
            while y <= v.y_end
                invariant
                    v == veins@[k as int],
                    k < veins@.len(),
                    v.y_start <= y <= v.y_end + 1,
                    tiles.wf(),
                    tiles.rows() == h,
                    tiles.cols() == w,
                    h == max_y - top + 1,
                    w == max_x - left + 2,
                    max_x < usize::MAX,
                    max_y < usize::MAX,
                    left < v.x_start <= v.x_end <= max_x,
                    top < v.y_start <= v.y_end <= max_y,
                    forall|p: Pos|
                        tiles.contains(p) ==> #[trigger] tiles.at(p) == (if v.holds_before(
                            p.x + left,
                            p.y + top,
                            v.x_start as int,
                            y as int,
                        ) {
                            TileKind::Clay
                        } else {
                            tile_of(veins@, k as int, p.x + left, p.y + top, 500, top as int)
                        }),
                decreases v.y_end + 1 - y,
            {
                let mut x: usize = v.x_start;
                while x <= v.x_end
                    invariant
                        v == veins@[k as int],
                        k < veins@.len(),
                        v.x_start <= x <= v.x_end + 1,
                        v.y_start <= y <= v.y_end,
                        tiles.wf(),
                        tiles.rows() == h,
                        tiles.cols() == w,
                        h == max_y - top + 1,
                        w == max_x - left + 2,
                        max_x < usize::MAX,
                        max_y < usize::MAX,
                        left < v.x_start <= v.x_end <= max_x,
                        top < v.y_start <= v.y_end <= max_y,
                        forall|p: Pos|
                            tiles.contains(p) ==> #[trigger] tiles.at(p) == (if v.holds_before(
                                p.x + left,
                                p.y + top,
                                x as int,
                                y as int,
                            ) {
                                TileKind::Clay
                            } else {
                                tile_of(veins@, k as int, p.x + left, p.y + top, 500, top as int)
                            }),
                    decreases v.x_end + 1 - x,
                {
                    let ghost before = tiles;
                    let at = Pos::new(x - left, y - top);
                    tiles.set(at, TileKind::Clay);
                    proof {
                        assert forall|p: Pos| tiles.contains(p) implies #[trigger] tiles.at(p) == (
                        if v.holds_before(p.x + left, p.y + top, x + 1, y as int) {
                            TileKind::Clay
                        } else {
                            tile_of(veins@, k as int, p.x + left, p.y + top, 500, top as int)
                        }) by {
                            before.lemma_index_in_range(p);
                            before.lemma_index_in_range(at);
                            if p != at {
                                lemma_distinct_places(before, p, at);
                                assert(tiles.at(p) == before.at(p));
                            }
                        }
                    }
                    x += 1;
                }
                y += 1;
            }
            proof {
                assert forall|p: Pos| tiles.contains(p) implies #[trigger] tiles.at(p) == tile_of(
                    veins@,
                    k + 1,
                    p.x + left,
                    p.y + top,
                    500,
                    top as int,
                ) by {
                    let (cx, cy) = (p.x + left, p.y + top);
                    if v.holds(cx, cy) {
                        assert(veins@[k as int].holds(cx, cy));
                        assert(clay_at(veins@, k + 1, cx, cy));
                    } else if clay_at(veins@, k + 1, cx, cy) {
                        let j = choose|j: int| 0 <= j < k + 1 && (#[trigger] veins@[j]).holds(cx, cy);
                        assert(j < k);
                        assert(clay_at(veins@, k as int, cx, cy));
                    }
                }
            }
            k += 1;
        }
        let d = Data { tiles, source_x };
        proof {
            assert(d.shows(veins@));
        }
        Some(d)
    }

    /// Reads a scan of the ground: one vein of clay on each line.
    pub fn parse(s: &str) -> (r: Result<Data, Error>)
        ensures
            scan_read(text_lines(s@), r),
    {
        let all = lines(s);
        let veins = match veins_from_lines(&all) {
            Ok(v) => v,
            Err(e) => {
                return Err(e);
            },
        };
        match Data::from_veins(&veins) {
            Some(d) => Ok(d),
            None => Err(Error::MalformedInput),
        }
    }
}

/// How many squares the water reaches, once it has come to rest. Nothing
/// where it has not come to rest after `limit` places of the queue.
pub fn part1(d: &mut Data, limit: usize) -> (r: Result<Option<usize>, Error>)
    requires
        old(d).wf(),
        old(d).source_x() < old(d).tiles().cols(),
    ensures
        old(d).same_frame(*final(d)),
        soaked(old(d).tiles().cells(), final(d).tiles().cells()),
        r matches Ok(Some(n)) ==> n == count_where(
            final(d).tiles().cells(),
            |t: TileKind| t.water(),
        ),
        r matches Err(e) ==> e == Error::InvalidTile,
        match r {
            Ok(n) => old(d).ground().run(seq![Pos { x: old(d).source_x(), y: 0 }], limit as nat)
                == Ok::<(Ground, bool), Error>((final(d).ground(), n is Some)),
            Err(e) => old(d).ground().run(seq![Pos { x: old(d).source_x(), y: 0 }], limit as nat)
                == Err::<(Ground, bool), Error>(e),
        },
{
    match d.update(limit) {
        Ok(true) => Ok(Some(d.water_tiles())),
        Ok(false) => Ok(None),
        Err(e) => Err(e),
    }
}

/// The scan of the puzzle and that of its example.
#[derive(Debug)]
pub struct Solution17 {
    pub data: Option<Data>,
    pub sample: Option<Data>,
}

impl Solution17 {
    /// The ground of the input, once read.
    pub closed spec fn data(self) -> Option<Data> {
        self.data
    }

    /// The ground of the example, once read.
    pub closed spec fn sample(self) -> Option<Data> {
        self.sample
    }

    /// A solution without input.
    pub fn new() -> (s: Self)
        ensures
            s.data() is None,
            s.sample() is None,
    {
        Solution17 { data: None, sample: None }
    }

    /// Reads the input and the example. On an error the solution keeps
    /// what it had.
    pub fn init(&mut self, data: &str, sample: &str) -> (r: Result<(), Error>)
        ensures
            match r {
                Ok(()) => {
                    &&& final(self).data() matches Some(d) && scan_read(text_lines(data@), Ok(d))
                    &&& final(self).sample() matches Some(d) && scan_read(
                        text_lines(sample@),
                        Ok(d),
                    )
                },
                Err(e) => *final(self) == *old(self) && (scan_read(text_lines(data@), Err(e))
                    || scan_read(text_lines(sample@), Err(e))),
            },
    {
        let data = match Data::parse(data) {
            Ok(d) => d,
            Err(e) => {
                return Err(e);
            },
        };
        let sample = match Data::parse(sample) {
            Ok(d) => d,
            Err(e) => {
                return Err(e);
            },
        };
        self.data = Some(data);
        self.sample = Some(sample);
        Ok(())
    }
}

} // verus!
