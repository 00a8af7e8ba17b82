//! A lumber collection area: open ground, trees and lumberyards that
//! change minute by minute with what lies around them.

use crate::error::Error;
use crate::util::mat2::{Mat2, Pos};
use crate::util::text::{lines, text_lines};
use vstd::prelude::*;
use vstd::string::*;

verus! {

/// What an acre holds.
#[derive(Debug, Copy, Clone, PartialEq, Eq, Structural)]
pub enum Tile {
    Lumberyard,
    OpenGround,
    Tree,
}

impl Default for Tile {
    fn default() -> (t: Tile)
        ensures
            t == Tile::OpenGround,
    {
        Tile::OpenGround
    }
}

/// The tile that a character stands for.
pub open spec fn tile_of_char(c: char) -> Option<Tile> {
    if c == '#' {
        Some(Tile::Lumberyard)
    } else if c == '|' {
        Some(Tile::Tree)
    } else if c == '.' {
        Some(Tile::OpenGround)
    } else {
        None
    }
}

impl Tile {
    /// Reads a tile.
    pub fn from_char(c: char) -> (r: Result<Tile, Error>)
        ensures
            r == (match tile_of_char(c) {
                Some(t) => Ok(t),
                None => Err(Error::MalformedInput),
            }),
    {
        match c {
            '#' => Ok(Tile::Lumberyard),
            '|' => Ok(Tile::Tree),
            '.' => Ok(Tile::OpenGround),
            _ => Err(Error::MalformedInput),
        }
    }

    /// The character of the tile; `tile_of_char` reads it back.
    pub fn to_char(&self) -> (c: char)
        ensures
            tile_of_char(c) == Some(*self),
            c == (match *self {
                Tile::Lumberyard => '#',
                Tile::Tree => '|',
                Tile::OpenGround => '.',
            }),
    {
        match self {
            Tile::Lumberyard => '#',
            Tile::Tree => '|',
            Tile::OpenGround => '.',
        }
    }
}

/// An area as the rules see it: its size and its acres, row by row.
pub struct Area {
    pub rows: nat,
    pub cols: nat,
    pub cells: Seq<Tile>,
}

/// The steps to the eight acres around an acre, row by row.
pub open spec fn steps8() -> Seq<(int, int)> {
    seq![(-1, -1), (0, -1), (1, -1), (-1, 0), (1, 0), (-1, 1), (0, 1), (1, 1)]
}

/// The acres that the first `n` of the eight steps lead to from `p`, as
/// far as they lie in an area of `cols` columns and `rows` rows.
pub open spec fn beside(p: Pos, cols: nat, rows: nat, n: int) -> Seq<Pos>
    decreases n,
{
    if n <= 0 || n > 8 {
        Seq::empty()
    } else {
        let rest = beside(p, cols, rows, n - 1);
        let x = p.x + steps8()[n - 1].0;
        let y = p.y + steps8()[n - 1].1;
        if 0 <= x < cols && 0 <= y < rows {
            rest.push(Pos { x: x as usize, y: y as usize })
        } else {
            rest
        }
    }
}

impl Area {
    /// One if the acre at column `x` and row `y` lies in the area and
    /// holds `kind`, else zero.
    pub open spec fn one_if(self, x: int, y: int, kind: Tile) -> nat {
        if 0 <= x < self.cols && 0 <= y < self.rows && self.cells[self.cols * y + x] == kind {
            1
        } else {
            0
        }
    }

    /// How many of the eight acres around column `x` and row `y` hold
    /// `kind`.
    pub open spec fn around(self, x: int, y: int, kind: Tile) -> nat {
        self.one_if(x - 1, y - 1, kind) + self.one_if(x, y - 1, kind) + self.one_if(
            x + 1,
            y - 1,
            kind,
        ) + self.one_if(x - 1, y, kind) + self.one_if(x + 1, y, kind) + self.one_if(
            x - 1,
            y + 1,
            kind,
        ) + self.one_if(x, y + 1, kind) + self.one_if(x + 1, y + 1, kind)
    }

    /// What the acre at place `i` holds a minute later.
    pub open spec fn next_at(self, i: int) -> Tile {
        let x = i % (self.cols as int);
        let y = i / (self.cols as int);
        rule(self.cells[i], self.around(x, y, Tile::Tree), self.around(x, y, Tile::Lumberyard))
    }

    /// The area a minute later.
    pub open spec fn next(self) -> Area {
        Area {
            rows: self.rows,
            cols: self.cols,
            cells: Seq::new(self.cells.len(), |i: int| self.next_at(i)),
        }
    }

    /// The area `mins` minutes later.
    pub open spec fn after(self, mins: nat) -> Area
        decreases mins,
    {
        if mins == 0 {
            self
        } else {
            self.after((mins - 1) as nat).next()
        }
    }

    /// The resource value: wooded acres times lumberyards.
    pub open spec fn value(self) -> nat {
        count_of(self.cells, Tile::Tree) * count_of(self.cells, Tile::Lumberyard)
    }
}

/// What an acre holds a minute later, given how many trees and
/// lumberyards lie around it.
pub open spec fn rule(t: Tile, trees: nat, lumberyards: nat) -> Tile {
    match t {
        Tile::OpenGround => if trees >= 3 {
            Tile::Tree
        } else {
            Tile::OpenGround
        },
        Tile::Tree => if lumberyards >= 3 {
            Tile::Lumberyard
        } else {
            Tile::Tree
        },
        Tile::Lumberyard => if lumberyards >= 1 && trees >= 1 {
            Tile::Lumberyard
        } else {
            Tile::OpenGround
        },
    }
}

/// How many of the acres hold `kind`.
pub open spec fn count_of(cells: Seq<Tile>, kind: Tile) -> nat
    decreases cells.len(),
{
    if cells.len() == 0 {
        0
    } else {
        count_of(cells.drop_last(), kind) + (if cells.last() == kind {
            1nat
        } else {
            0nat
        })
    }
}

/// No more acres hold a kind than there are acres.
pub proof fn lemma_count_bound(cells: Seq<Tile>, kind: Tile)
    ensures
        count_of(cells, kind) <= cells.len(),
    decreases cells.len(),
{
    if cells.len() > 0 {
        lemma_count_bound(cells.drop_last(), kind);
    }
}

/// The area and a second grid of the same size to compute the next minute
/// in.
#[derive(Debug)]
pub struct Data {
    tiles: Mat2<Tile>,
    back_buffer: Mat2<Tile>,
}

impl View for Data {
    type V = Area;

    closed spec fn view(&self) -> Area {
        Area { rows: self.tiles.rows(), cols: self.tiles.cols(), cells: self.tiles.cells() }
    }
}

fn tally(counts: (usize, usize, usize), seen: Option<Tile>) -> (r: (usize, usize, usize))
    requires
        counts.0 < usize::MAX,
        counts.1 < usize::MAX,
        counts.2 < usize::MAX,
    ensures
        r.0 == counts.0 + (if seen == Some(Tile::Tree) {
            1int
        } else {
            0int
        }),
        r.1 == counts.1 + (if seen == Some(Tile::Lumberyard) {
            1int
        } else {
            0int
        }),
        r.2 == counts.2 + (if seen == Some(Tile::OpenGround) {
            1int
        } else {
            0int
        }),
{
    match seen {
        Some(Tile::Tree) => (counts.0 + 1, counts.1, counts.2),
        Some(Tile::Lumberyard) => (counts.0, counts.1 + 1, counts.2),
        Some(Tile::OpenGround) => (counts.0, counts.1, counts.2 + 1),
        None => counts,
    }
}

impl Data {
    /// Both grids have one cell for each acre and the same size.
    pub closed spec fn wf(self) -> bool {
        &&& self.tiles.wf()
        &&& self.back_buffer.wf()
        &&& self.tiles.rows() == self.back_buffer.rows()
        &&& self.tiles.cols() == self.back_buffer.cols()
    }

    /// An area of `h` rows and `w` columns of open ground.
    pub fn new(h: usize, w: usize) -> (d: Data)
        requires
            h * w <= usize::MAX,
        ensures
            d.wf(),
            d@.rows == h,
            d@.cols == w,
            d@.cells == Seq::new((h * w) as nat, |i: int| Tile::OpenGround),
    {
        let tiles = Mat2::new_with(h, w, Tile::OpenGround);
        let back_buffer = Mat2::new_with(h, w, Tile::OpenGround);
        let d = Data { tiles, back_buffer };
        assert(d@.cells =~= Seq::new((h * w) as nat, |i: int| Tile::OpenGround));
        d
    }

    /// What the acre at `p` holds.
    pub fn get(&self, p: Pos) -> (t: Option<Tile>)
        requires
            self.wf(),
        ensures
            t == (if p.x < self@.cols && p.y < self@.rows {
                Some(self@.cells[self@.cols * p.y + p.x])
            } else {
                None
            }),
    {
        match self.tiles.get(p) {
            Some(t) => Some(*t),
            None => None,
        }
    }

    /// Puts `t` on the acre at `p`.
    pub fn set(&mut self, p: Pos, t: Tile)
        requires
            old(self).wf(),
            p.x < old(self)@.cols,
            p.y < old(self)@.rows,
        ensures
            final(self).wf(),
            final(self)@ == (Area {
                rows: old(self)@.rows,
                cols: old(self)@.cols,
                cells: old(self)@.cells.update(old(self)@.cols * p.y + p.x, t),
            }),
    {
        self.tiles.set(p, t);
    }

    fn look(&self, p: Pos, off: (isize, isize)) -> (t: Option<Tile>)
        requires
            self.wf(),
            self.tiles.contains(p),
            -1 <= off.0 <= 1,
            -1 <= off.1 <= 1,
        ensures
            forall|kind: Tile|
                self@.one_if(p.x + off.0, p.y + off.1, kind) == (if t == Some(kind) {
                    1nat
                } else {
                    0nat
                }),
    {
        let w = self.tiles.width();
        let h = self.tiles.height();
        match p.offset(off) {
            Some(q) => match self.tiles.get(q) {
                Some(t) => Some(*t),
                None => None,
            },
            None => None,
        }
    }

    /// The acres around `p` that lie in the area, row by row.
    pub fn adjacent(&self, p: Pos) -> (r: Vec<Pos>)
        requires
            self.wf(),
            p.x < self@.cols,
            p.y < self@.rows,
        ensures
            r@ == beside(p, self@.cols, self@.rows, 8),
    {
        let steps = [
            (-1isize, -1isize),
            (0, -1),
            (1, -1),
            (-1, 0),
            (1, 0),
            (-1, 1),
            (0, 1),
            (1, 1),
        ];
        let w = self.tiles.width();
        let h = self.tiles.height();
        let mut r: Vec<Pos> = Vec::new();
        let mut k: usize = 0;
        while k < 8
            invariant
                k <= 8,
                self.wf(),
                w == self@.cols,
                h == self@.rows,
                p.x < w,
                p.y < h,
                steps@.len() == 8,
                forall|i: int|
                    0 <= i < 8 ==> (#[trigger] steps@[i]).0 == steps8()[i].0 && steps@[i].1
                        == steps8()[i].1,
                r@ == beside(p, self@.cols, self@.rows, k as int),
            decreases 8 - k,
        {
            let o = steps[k];
            proof {
                assert(steps@[k as int] == o);
                assert(-1 <= steps8()[k as int].0 <= 1 && -1 <= steps8()[k as int].1 <= 1);
                assert(o.0 == steps8()[k as int].0 && o.1 == steps8()[k as int].1);
            }
            if let Some(q) = p.offset(o) {
                if self.tiles.has_pos(q) {
                    r.push(q);
                }
            }
            k += 1;
        }
        r
    }

    /// How many trees, lumberyards and open acres lie around `p`.
    pub fn count_adjacent(&self, p: Pos) -> (r: (usize, usize, usize))
        requires
            self.wf(),
            p.x < self@.cols,
            p.y < self@.rows,
        ensures
            r.0 == self@.around(p.x as int, p.y as int, Tile::Tree),
            r.1 == self@.around(p.x as int, p.y as int, Tile::Lumberyard),
            r.2 == self@.around(p.x as int, p.y as int, Tile::OpenGround),
    {
        let c = (0usize, 0usize, 0usize);
        let c = tally(c, self.look(p, (-1, -1)));
        let c = tally(c, self.look(p, (0, -1)));
        let c = tally(c, self.look(p, (1, -1)));
        let c = tally(c, self.look(p, (-1, 0)));
        let c = tally(c, self.look(p, (1, 0)));
        let c = tally(c, self.look(p, (-1, 1)));
        let c = tally(c, self.look(p, (0, 1)));
        let c = tally(c, self.look(p, (1, 1)));
        c
    }

    /// How many acres hold trees, lumberyards and open ground.
    pub fn count_resources(&self) -> (r: (usize, usize, usize))
        requires
            self.wf(),
        ensures
            r.0 == count_of(self@.cells, Tile::Tree),
            r.1 == count_of(self@.cells, Tile::Lumberyard),
            r.2 == count_of(self@.cells, Tile::OpenGround),
    {
        let all = self.tiles.grids();
        let (mut trees, mut lumberyards, mut open) = (0usize, 0usize, 0usize);
        let mut i: usize = 0;
        let ghost cells = self@.cells;
        assert(cells.subrange(0, 0) =~= Seq::empty());
        while i < all.len()
            invariant
                i <= all@.len(),
                all@.len() == cells.len(),
                forall|j: int| 0 <= j < all@.len() ==> *(#[trigger] all@[j]) == cells[j],
                trees == count_of(cells.subrange(0, i as int), Tile::Tree),
                lumberyards == count_of(cells.subrange(0, i as int), Tile::Lumberyard),
                open == count_of(cells.subrange(0, i as int), Tile::OpenGround),
                trees <= i,
                lumberyards <= i,
                open <= i,
            decreases all@.len() - i,
        {
            proof {
                let next = cells.subrange(0, i + 1);
                assert(next.drop_last() =~= cells.subrange(0, i as int));
                assert(next.last() == cells[i as int]);
            }
            match *all[i] {
                Tile::OpenGround => {
                    open += 1;
                },
                Tile::Tree => {
                    trees += 1;
                },
                Tile::Lumberyard => {
                    lumberyards += 1;
                },
            }
            i += 1;
        }
        assert(cells.subrange(0, i as int) =~= cells);
        (trees, lumberyards, open)
    }

    /// Lets a minute pass.
    pub fn update(&mut self)
        requires
            old(self).wf(),
        ensures
            final(self).wf(),
            final(self)@ == old(self)@.next(),
    {
        let coords = self.tiles.coords();
        let mut i: usize = 0;
        while i < coords.len()
            invariant
                i <= coords@.len(),
                self.wf(),
                self.tiles == old(self).tiles,
                coords@.len() == self.tiles.cells().len(),
                forall|j: int|
                    0 <= j < coords@.len() ==> self.tiles.contains(#[trigger] coords@[j])
                        && self.tiles.index_of(coords@[j]) == j,
                forall|j: int| 0 <= j < i ==> self.back_buffer.cells()[j] == old(self)@.next_at(j),
            decreases coords@.len() - i,
        {
            let p = coords[i];
            let (trees, lumberyards, _) = self.count_adjacent(p);
            let here = *self.tiles.get(p).unwrap();
            let t = match here {
                Tile::OpenGround => if trees >= 3 {
                    Tile::Tree
                } else {
                    Tile::OpenGround
                },
                Tile::Tree => if lumberyards >= 3 {
                    Tile::Lumberyard
                } else {
                    Tile::Tree
                },
                Tile::Lumberyard => if lumberyards >= 1 && trees >= 1 {
                    Tile::Lumberyard
                } else {
                    Tile::OpenGround
                },
            };
            proof {
                let w = self.tiles.cols() as int;
                let x = p.x as int;
                let y = p.y as int;
                assert(i == w * y + x);
                assert((w * y + x) % w == x && (w * y + x) / w == y) by (nonlinear_arith)
                    requires
                        0 <= x < w,
                        0 <= y,
                ;
                assert(self.back_buffer.index_of(p) == i);
            }
            self.back_buffer.set(p, t);
            i += 1;
        }
        std::mem::swap(&mut self.back_buffer, &mut self.tiles);
        assert(self@.cells =~= old(self)@.next().cells);
    }

    /// Lets `mins` minutes pass.
    pub fn update_mins(&mut self, mins: usize)
        requires
            old(self).wf(),
        ensures
            final(self).wf(),
            final(self)@ == old(self)@.after(mins as nat),
    {
        let mut done: usize = 0;
        while done < mins
            invariant
                done <= mins,
                self.wf(),
                self@ == old(self)@.after(done as nat),
            decreases mins - done,
        {
            self.update();
            done += 1;
        }
    }

    /// The resource value: wooded acres times lumberyards.
    pub fn resource_value(&self) -> (v: usize)
        requires
            self.wf(),
            self@.value() <= usize::MAX,
        ensures
            v == self@.value(),
    {
        let (trees, lumberyards, _) = self.count_resources();
        trees * lumberyards
    }

    /// A copy of the area.
    pub fn duplicate(&self) -> (d: Data)
        requires
            self.wf(),
        ensures
            d.wf(),
            d@ == self@,
    {
        let all = self.tiles.grids();
        let mut cells: Vec<Tile> = Vec::new();
        let mut back: Vec<Tile> = Vec::new();
        let mut i: usize = 0;
        while i < all.len()
            invariant
                i <= all@.len(),
                cells@.len() == i,
                back@.len() == i,
                forall|j: int| 0 <= j < i ==> cells@[j] == *all@[j],
            decreases all@.len() - i,
        {
            cells.push(*all[i]);
            back.push(Tile::OpenGround);
            i += 1;
        }
        assert(cells@ =~= self.tiles.cells());
        let d = Data {
            tiles: Mat2::from_vec(cells, self.tiles.height(), self.tiles.width()),
            back_buffer: Mat2::from_vec(back, self.tiles.height(), self.tiles.width()),
        };
        d
    }
}

/// The resource value after ten minutes.
pub fn part1(d: &Data) -> (v: usize)
    requires
        d.wf(),
        d@.after(10).value() <= usize::MAX,
    ensures
        v == d@.after(10).value(),
{
    let mut d = d.duplicate();
    d.update_mins(10);
    d.resource_value()
}

/// The resource values after the minutes one to `n`.
pub open spec fn values(area: Area, n: nat) -> Seq<nat> {
    Seq::new(n, |i: int| area.after((i + 1) as nat).value())
}

/// The nearest place below `below` that holds `target`.
pub open spec fn nearest_before(v: Seq<nat>, target: nat, below: int) -> Option<int>
    decreases below,
{
    if below <= 0 {
        None
    } else if v[below - 1] == target {
        Some(below - 1)
    } else {
        nearest_before(v, target, below - 1)
    }
}

/// The value at `minute`, far beyond the values `v` of the first minutes,
/// on the assumption that the values have begun to repeat: the period is
/// the distance from the last value to the nearest equal value before it.
/// Nothing where the last value has no equal before it.
pub open spec fn extrapolate(v: Seq<nat>, minute: nat) -> Option<nat> {
    let last = v.len() - 1;
    match nearest_before(v, v[last], last) {
        None => None,
        Some(i) => Some(v[last - ((minute - v.len()) % (last - i))]),
    }
}

/// The views of the values.
pub open spec fn as_nats(v: Seq<usize>) -> Seq<nat> {
    Seq::new(v.len(), |i: int| v[i] as nat)
}

/// Extrapolates the values of the first minutes to `minute`.
pub fn extrapolate_values(v: &Vec<usize>, minute: usize) -> (r: Option<usize>)
    requires
        v@.len() >= 1,
        minute >= v@.len(),
    ensures
        r.is_some() == extrapolate(as_nats(v@), minute as nat).is_some(),
        r matches Some(x) ==> extrapolate(as_nats(v@), minute as nat) == Some(x as nat),
{
    let n = v.len();
    let last = n - 1;
    let target = v[last];
    let ghost nats = as_nats(v@);
    let mut below: usize = last;
    while below > 0
        invariant
            below <= last,
            last == v@.len() - 1,
            n == v@.len(),
            minute >= n,
            nats == as_nats(v@),
            target == v@[last as int],
            nearest_before(nats, target as nat, last as int) == nearest_before(
                nats,
                target as nat,
                below as int,
            ),
        decreases below,
    {
        if v[below - 1] == target {
            let i = below - 1;
            let period = last - i;
            let back = (minute - n) % period;
            proof {
                assert(nats[below - 1] == target as nat);
                assert(nearest_before(nats, target as nat, below as int) == Some(i as int));
                assert(nats[last as int] == target as nat);
                assert(nats[last - back] == v@[last - back] as nat);
            }
            return Some(v[last - back]);
        }
        below -= 1;
    }
    None
}

/// The resource value after a thousand million minutes, extrapolated
/// from the first thousand.
pub fn part2(d: &Data) -> (r: Option<usize>)
    requires
        d.wf(),
        forall|i: int| 0 <= i < 1000 ==> (#[trigger] values(d@, 1000)[i]) <= usize::MAX,
    ensures
        r.is_some() == extrapolate(values(d@, 1000), 1_000_000_000).is_some(),
        r matches Some(x) ==> extrapolate(values(d@, 1000), 1_000_000_000) == Some(x as nat),
{
    let mut d = d.duplicate();
    let ghost start = d@;
    let mut v: Vec<usize> = Vec::new();
    let mut i: usize = 0;
    while i < 1000
        invariant
            i <= 1000,
            d.wf(),
            d@ == start.after(i as nat),
            v@.len() == i,
            forall|j: int| 0 <= j < 1000 ==> (#[trigger] values(start, 1000)[j]) <= usize::MAX,
            forall|j: int| 0 <= j < i ==> v@[j] == values(start, 1000)[j],
        decreases 1000 - i,
    {
        d.update();
        assert(values(start, 1000)[i as int] == d@.value());
        v.push(d.resource_value());
        i += 1;
    }
    assert(as_nats(v@) =~= values(start, 1000));
    extrapolate_values(&v, 1_000_000_000)
}

/// The tile at column `x` of a line; open ground beyond its end.
pub open spec fn tile_in_line(line: Seq<char>, x: int) -> Option<Tile> {
    if 0 <= x < line.len() {
        tile_of_char(line[x])
    } else {
        Some(Tile::OpenGround)
    }
}

/// The length of the longest line.
pub open spec fn longest(lines: Seq<Seq<char>>) -> nat
    decreases lines.len(),
{
    if lines.len() == 0 {
        0
    } else {
        let rest = longest(lines.drop_last());
        if lines.last().len() > rest {
            lines.last().len()
        } else {
            rest
        }
    }
}

/// Whether every character of every line stands for a tile.
pub open spec fn all_tiles(lines: Seq<Seq<char>>) -> bool {
    forall|y: int, x: int|
        0 <= y < lines.len() && 0 <= x < lines[y].len() ==> tile_of_char(#[trigger] lines[y][x]) is Some
}

/// The area that the lines draw: one row for each line, as wide as the
/// longest line, with open ground where a line is shorter.
pub open spec fn area_of_lines(lines: Seq<Seq<char>>) -> Area {
    let cols = longest(lines);
    Area {
        rows: lines.len(),
        cols,
        cells: Seq::new(
            lines.len() * cols,
            |i: int| tile_in_line(lines[i / (cols as int)], i % (cols as int)).unwrap(),
        ),
    }
}

/// No line is longer than the longest.
pub proof fn lemma_longest(lines: Seq<Seq<char>>, y: int)
    requires
        0 <= y < lines.len(),
    ensures
        lines[y].len() <= longest(lines),
    decreases lines.len(),
{
    if y < lines.len() - 1 {
        lemma_longest(lines.drop_last(), y);
    }
}

fn longest_line(lines: &Vec<String>) -> (w: usize)
    ensures
        w == longest(lines.deep_view()),
{
    let mut w: usize = 0;
    let mut y: usize = 0;
    let ghost text = lines.deep_view();
    assert(text.subrange(0, 0) =~= Seq::empty());
    while y < lines.len()
        invariant
            y <= lines@.len(),
            text == lines.deep_view(),
            w == longest(text.subrange(0, y as int)),
        decreases lines@.len() - y,
    {
        proof {
            let next = text.subrange(0, y + 1);
            assert(next.drop_last() =~= text.subrange(0, y as int));
            assert(next.last() == lines@[y as int]@);
        }
        let len = lines[y].as_str().unicode_len();
        if len > w {
            w = len;
        }
        y += 1;
    }
    assert(text.subrange(0, y as int) =~= text);
    w
}

impl Data {
    /// Reads an area from its lines. Text without lines, a character
    /// that stands for no tile and an area too large to address are
    /// malformed.
    pub fn from_lines(lines: &Vec<String>) -> (r: Result<Data, Error>)
        ensures
            match r {
                Ok(d) => d.wf() && lines@.len() > 0 && all_tiles(lines.deep_view()) && d@
                    == area_of_lines(lines.deep_view()),
                Err(e) => e == Error::MalformedInput && (lines@.len() == 0 || !all_tiles(
                    lines.deep_view(),
                ) || lines@.len() * longest(lines.deep_view()) > usize::MAX),
            },
    {
        let h = lines.len();
        if h == 0 {
            return Err(Error::MalformedInput);
        }
        let w = longest_line(lines);
        let size = match h.checked_mul(w) {
            Some(n) => n,
            None => {
                return Err(Error::MalformedInput);
            },
        };
        let ghost text = lines.deep_view();
        let ghost want = area_of_lines(text);
        let mut cells: Vec<Tile> = Vec::new();
        let mut y: usize = 0;
        while y < h
            invariant
                y <= h,
                h == lines@.len(),
                text == lines.deep_view(),
                want == area_of_lines(text),
                w == longest(text),
                h * w <= usize::MAX,
                cells@.len() == y * w,
                forall|i: int| 0 <= i < cells@.len() ==> cells@[i] == want.cells[i],
                forall|j: int, x: int|
                    0 <= j < y && 0 <= x < text[j].len() ==> tile_of_char(#[trigger] text[j][x]) is Some,
            decreases h - y,
        {
            let line = lines[y].as_str();
            let len = line.unicode_len();
            assert(text[y as int] == line@);
            proof {
                lemma_longest(text, y as int);
                assert(y * w + w <= h * w) by (nonlinear_arith)
                    requires
                        y < h,
                        0 <= w,
                ;
            }
            let mut x: usize = 0;
            while x < w
                invariant
                    x <= w,
                    y < h,
                    h == lines@.len(),
                    len == line@.len(),
                    len <= w,
                    text == lines.deep_view(),
                    text[y as int] == line@,
                    want == area_of_lines(text),
                    w == longest(text),
                    h * w <= usize::MAX,
                    y * w + w <= h * w,
                    cells@.len() == y * w + x,
                    forall|i: int| 0 <= i < cells@.len() ==> cells@[i] == want.cells[i],
                    forall|k: int| 0 <= k < x && k < len ==> tile_of_char(#[trigger] line@[k]) is Some,
                decreases w - x,
            {
                let t = if x < len {
                    match Tile::from_char(line.get_char(x)) {
                        Ok(t) => t,
                        Err(e) => {
                            assert(tile_of_char(text[y as int][x as int]) is None);
                            return Err(e);
                        },
                    }
                } else {
                    Tile::OpenGround
                };
                proof {
                    let i = (y * w + x) as int;
                    let wi = w as int;
                    assert(i / wi == y && i % wi == x) by (nonlinear_arith)
                        requires
                            i == y * wi + x,
                            0 <= x < wi,
                            0 <= y,
                    ;
                    assert(i < h * w) by (nonlinear_arith)
                        requires
                            i == y * w + x,
                            x < w,
                            y * w + w <= h * w,
                    ;
                    assert(want.cells[i] == tile_in_line(text[y as int], x as int).unwrap());
                }
                cells.push(t);
                x += 1;
            }
            assert(y * w + w == (y + 1) * w) by (nonlinear_arith);
            y += 1;
        }
        let mut back: Vec<Tile> = Vec::new();
        let mut i: usize = 0;
        while i < size
            invariant
                i <= size,
                back@.len() == i,
            decreases size - i,
        {
            back.push(Tile::OpenGround);
            i += 1;
        }
        assert(all_tiles(text));
        assert(cells@ =~= want.cells);
        let d = Data {
            tiles: Mat2::from_vec(cells, h, w),
            back_buffer: Mat2::from_vec(back, h, w),
        };
        Ok(d)
    }

    /// Reads an area: `#` for a lumberyard, `|` for trees, `.` for open
    /// ground, one line for each row.
    pub fn parse(s: &str) -> (r: Result<Data, Error>)
        ensures
            match r {
                Ok(d) => d.wf() && text_lines(s@).len() > 0 && all_tiles(text_lines(s@)) && d@
                    == area_of_lines(text_lines(s@)),
                Err(e) => e == Error::MalformedInput && (text_lines(s@).len() == 0 || !all_tiles(
                    text_lines(s@),
                ) || text_lines(s@).len() * longest(text_lines(s@)) > usize::MAX),
            },
    {
        let all = lines(s);
        Data::from_lines(&all)
    }
}

/// The input of the puzzle and its example.
#[derive(Debug)]
pub struct Solution18 {
    pub data: Option<Data>,
    pub sample: Option<Data>,
}

impl Solution18 {
    /// The area of the input, once read.
    pub closed spec fn data(self) -> Option<Data> {
        self.data
    }

    /// The area of the example, once read.
    pub closed spec fn sample(self) -> Option<Data> {
        self.sample
    }

    /// The areas that were read are well-formed.
    pub open spec fn wf(self) -> bool {
        &&& self.data() matches Some(d) ==> d.wf()
        &&& self.sample() matches Some(d) ==> d.wf()
    }

    /// A solution without input.
    pub fn new() -> (s: Self)
        ensures
            s.wf(),
            s.data() is None,
            s.sample() is None,
    {
        Solution18 { data: None, sample: None }
    }

    /// Reads the input and the example. On an error the solution keeps
    /// what it had.
    pub fn init(&mut self, data: &str, sample: &str) -> (r: Result<(), Error>)
        requires
            old(self).wf(),
        ensures
            final(self).wf(),
            match r {
                Ok(()) => {
                    &&& final(self).data() is Some
                    &&& final(self).sample() is Some
                    &&& final(self).data().unwrap()@ == area_of_lines(text_lines(data@))
                    &&& final(self).sample().unwrap()@ == area_of_lines(text_lines(sample@))
                },
                Err(e) => e == Error::MalformedInput && *final(self) == *old(self) && (!reads_area(
                    text_lines(data@),
                ) || !reads_area(text_lines(sample@))),
            },
    {
        let data = match Data::parse(data) {
            Ok(d) => d,
            Err(e) => {
                return Err(e);
            },
        };
        let sample = match Data::parse(sample) {
            Ok(d) => d,
            Err(e) => {
                return Err(e);
            },
        };
        self.data = Some(data);
        self.sample = Some(sample);
        Ok(())
    }
}

/// Whether the lines draw an area that can be addressed: there is a
/// line, and every character draws an acre.
pub open spec fn reads_area(lines: Seq<Seq<char>>) -> bool {
    lines.len() > 0 && all_tiles(lines) && lines.len() * longest(lines) <= usize::MAX
}

impl core::str::FromStr for Data {
    type Err = Error;

    /// Reads an area: a line for each row, a character for each acre.
    fn from_str(s: &str) -> (r: Result<Self, Error>)
        ensures
            match r {
                Ok(d) => d.wf() && text_lines(s@).len() > 0 && all_tiles(text_lines(s@)) && d@
                    == area_of_lines(text_lines(s@)),
                Err(e) => e == Error::MalformedInput && (text_lines(s@).len() == 0 || !all_tiles(
                    text_lines(s@),
                ) || text_lines(s@).len() * longest(text_lines(s@)) > usize::MAX),
            },
    {
        Data::parse(s)
    }
}

} // verus!
