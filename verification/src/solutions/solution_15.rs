//! Elves and goblins fight in a cave.

use crate::error::Error;
use crate::util::mat2::{lemma_distinct_places, Mat2, Pos};
use crate::util::text::{lines, text_lines};
use vstd::prelude::*;
use vstd::string::*;

verus! {

/// The two sides.
#[derive(Debug, Copy, Clone, PartialEq, Eq, Structural)]
pub enum UnitKind {
    Elf,
    Goblin,
}

/// A fighter: its side, its hit points, its attack power and its number.
#[derive(Debug, Clone, Copy, PartialEq, Eq, Structural)]
pub struct Unit {
    pub kind: UnitKind,
    pub hp: u64,
    pub atk: u64,
    pub id: usize,
}

/// What a square of the cave is made of.
#[derive(Debug, Copy, Clone, PartialEq, Eq, Structural)]
pub enum GridKind {
    Wall,
    Open,
}

/// A square of the cave, and the unit that stands on it.
#[derive(Debug, Clone, Copy, PartialEq, Eq, Structural)]
pub struct Grid {
    pub unit: Option<Unit>,
    pub kind: GridKind,
}

impl Default for Grid {
    fn default() -> (g: Grid)
        ensures
            g == (Grid { kind: GridKind::Wall, unit: None }),
    {
        Grid { kind: GridKind::Wall, unit: None }
    }
}

/// The side that a letter stands for.
pub open spec fn kind_of_char(c: char) -> Option<UnitKind> {
    if c == 'G' {
        Some(UnitKind::Goblin)
    } else if c == 'E' {
        Some(UnitKind::Elf)
    } else {
        None
    }
}

/// The square that a character draws, with the number `id` for a unit on
/// it.
pub open spec fn square_of_char(c: char, id: usize) -> Option<Grid> {
    if c == '.' {
        Some(Grid { unit: None, kind: GridKind::Open })
    } else if c == '#' {
        Some(Grid { unit: None, kind: GridKind::Wall })
    } else {
        match kind_of_char(c) {
            Some(kind) => Some(
                Grid { unit: Some(Unit { kind, id, hp: 200, atk: 3 }), kind: GridKind::Open },
            ),
            None => None,
        }
    }
}

impl Unit {
    /// The other side.
    pub open spec fn opponent(self) -> UnitKind {
        match self.kind {
            UnitKind::Goblin => UnitKind::Elf,
            UnitKind::Elf => UnitKind::Goblin,
        }
    }

    /// The unit after a hit of `dmg`: it loses as many hit points, as far
    /// as it has them.
    pub open spec fn hit(self, dmg: u64) -> Unit {
        Unit {
            kind: self.kind,
            hp: if dmg >= self.hp {
                0
            } else {
                (self.hp - dmg) as u64
            },
            atk: self.atk,
            id: self.id,
        }
    }

    /// A fresh unit of the side that the letter stands for, with two
    /// hundred hit points and attack power three.
    pub fn from_char(c: char, id: usize) -> (r: Result<Unit, Error>)
        ensures
            r == (match kind_of_char(c) {
                Some(kind) => Ok(Unit { kind, id, hp: 200, atk: 3 }),
                None => Err(Error::MalformedInput),
            }),
    {
        let kind = match c {
            'G' => UnitKind::Goblin,
            'E' => UnitKind::Elf,
            _ => {
                return Err(Error::MalformedInput);
            },
        };
        Ok(Unit { kind, id, hp: 200, atk: 3 })
    }

    /// Whether the two units are on different sides.
    pub fn can_attack(&self, other: &Unit) -> (b: bool)
        ensures
            b == (self.kind != other.kind),
    {
        self.kind != other.kind
    }

    /// The character of the unit on a drawing: goblins count from `A`,
    /// elves from `0`, by the last four bits of the number.
    pub fn to_char(&self) -> (c: char)
        ensures
            c as int == (match self.kind {
                UnitKind::Goblin => 65int,
                UnitKind::Elf => 48int,
            }) + self.id % 16,
    {
        let id = self.id;
        let low = id & 0xf;
        assert(low == id % 16) by (bit_vector)
            requires
                low == id & 0xf,
        ;
        let n = low as u8;
        let base: u8 = match self.kind {
            UnitKind::Goblin => 65,
            UnitKind::Elf => 48,
        };
        (base + n) as char
    }

    /// Hits the unit with `dmg`. Returns whether it has died.
    pub fn damage(&mut self, dmg: u64) -> (dead: bool)
        ensures
            *final(self) == old(self).hit(dmg),
            dead == (final(self).hp == 0),
    {
        let atk = if dmg < self.hp {
            dmg
        } else {
            self.hp
        };
        self.hp = self.hp - atk;
        self.hp == 0
    }

    /// The side that the unit fights.
    pub fn opponent_kind(&self) -> (k: UnitKind)
        ensures
            k == self.opponent(),
    {
        match self.kind {
            UnitKind::Goblin => UnitKind::Elf,
            UnitKind::Elf => UnitKind::Goblin,
        }
    }
}

impl Grid {
    /// Whether nothing can step onto the square: it is a wall, or a unit
    /// stands on it.
    pub open spec fn blocked(self) -> bool {
        self.kind == GridKind::Wall || self.unit is Some
    }

    /// Reads a square; a unit on it gets the number `id`.
    pub fn from_char(c: char, id: usize) -> (r: Result<Grid, Error>)
        ensures
            r == (match square_of_char(c, id) {
                Some(g) => Ok(g),
                None => Err(Error::MalformedInput),
            }),
    {
        match c {
            '.' => Ok(Grid { unit: None, kind: GridKind::Open }),
            '#' => Ok(Grid { unit: None, kind: GridKind::Wall }),
            c => match Unit::from_char(c, id) {
                Ok(unit) => Ok(Grid { unit: Some(unit), kind: GridKind::Open }),
                Err(e) => Err(e),
            },
        }
    }

    /// The character of the square on a drawing.
    pub fn to_char(&self) -> (c: char)
        ensures
            self.unit is None ==> c == (if self.kind == GridKind::Wall {
                '#'
            } else {
                '.'
            }),
            self.unit matches Some(u) ==> c as int == (match u.kind {
                UnitKind::Goblin => 65int,
                UnitKind::Elf => 48int,
            }) + u.id % 16,
    {
        match (&self.unit, &self.kind) {
            (Some(u), _) => u.to_char(),
            (None, GridKind::Wall) => '#',
            (None, GridKind::Open) => '.',
        }
    }

    /// Whether nothing can step onto the square.
    pub fn is_blocked(&self) -> (b: bool)
        ensures
            b == self.blocked(),
    {
        self.kind == GridKind::Wall || self.unit.is_some()
    }
}

/// How many units of the side `kind` stand on the squares.
pub open spec fn units_of(cells: Seq<Grid>, kind: UnitKind) -> nat
    decreases cells.len(),
{
    if cells.len() == 0 {
        0
    } else {
        units_of(cells.drop_last(), kind) + (match cells.last().unit {
            Some(u) => if u.kind == kind {
                1nat
            } else {
                0nat
            },
            None => 0nat,
        })
    }
}

/// The units on the squares, in the order of the squares.
pub open spec fn units_on(cells: Seq<Grid>) -> Seq<Unit>
    decreases cells.len(),
{
    if cells.len() == 0 {
        Seq::empty()
    } else {
        match cells.last().unit {
            Some(u) => units_on(cells.drop_last()).push(u),
            None => units_on(cells.drop_last()),
        }
    }
}

/// The hit points of all units on the squares together.
pub open spec fn hp_of(cells: Seq<Grid>) -> nat
    decreases cells.len(),
{
    if cells.len() == 0 {
        0
    } else {
        hp_of(cells.drop_last()) + (match cells.last().unit {
            Some(u) => u.hp as nat,
            None => 0nat,
        })
    }
}

/// The side that has won: the side that alone is left. With no unit at
/// all the goblins count as winners.
pub open spec fn winner_of(cells: Seq<Grid>) -> Option<UnitKind> {
    if units_of(cells, UnitKind::Elf) == 0 {
        Some(UnitKind::Goblin)
    } else if units_of(cells, UnitKind::Goblin) == 0 {
        Some(UnitKind::Elf)
    } else {
        None
    }
}

/// The squares with the attack power of every elf set to `atk`.
pub open spec fn upgraded(cells: Seq<Grid>, atk: u64) -> Seq<Grid> {
    Seq::new(
        cells.len(),
        |i: int|
            match cells[i].unit {
                Some(u) => if u.kind == UnitKind::Elf {
                    Grid {
                        unit: Some(Unit { kind: u.kind, hp: u.hp, atk, id: u.id }),
                        kind: cells[i].kind,
                    }
                } else {
                    cells[i]
                },
                None => cells[i],
            },
    )
}

/// No more units of a side stand in a cave than it has squares.
pub proof fn lemma_units_bound(cells: Seq<Grid>, kind: UnitKind)
    ensures
        units_of(cells, kind) <= cells.len(),
    decreases cells.len(),
{
    if cells.len() > 0 {
        lemma_units_bound(cells.drop_last(), kind);
    }
}

/// Whether a unit of the side `kind` stands on the square.
pub open spec fn stands(g: Grid, kind: UnitKind) -> nat {
    match g.unit {
        Some(u) => if u.kind == kind {
            1nat
        } else {
            0nat
        },
        None => 0nat,
    }
}

/// The hit points of the unit on the square.
pub open spec fn hp_on(g: Grid) -> nat {
    match g.unit {
        Some(u) => u.hp as nat,
        None => 0nat,
    }
}

/// A square that changes takes its unit and its hit points out of the
/// count and brings the new ones in.
pub proof fn lemma_square_changes(cells: Seq<Grid>, i: int, g: Grid, kind: UnitKind)
    requires
        0 <= i < cells.len(),
    ensures
        units_of(cells.update(i, g), kind) + stands(cells[i], kind) == units_of(cells, kind) + stands(
            g,
            kind,
        ),
        hp_of(cells.update(i, g)) + hp_on(cells[i]) == hp_of(cells) + hp_on(g),
    decreases cells.len(),
{
    let after = cells.update(i, g);
    if i == cells.len() - 1 {
        assert(after.drop_last() =~= cells.drop_last());
    } else {
        lemma_square_changes(cells.drop_last(), i, g, kind);
        assert(after.drop_last() =~= cells.drop_last().update(i, g));
    }
}

/// Whether a fight can have made the squares `after` of the squares
/// `before`: neither side has more units, and all units together have no
/// more hit points.
pub open spec fn fought(before: Seq<Grid>, after: Seq<Grid>) -> bool {
    &&& units_of(after, UnitKind::Elf) <= units_of(before, UnitKind::Elf)
    &&& units_of(after, UnitKind::Goblin) <= units_of(before, UnitKind::Goblin)
    &&& hp_of(after) <= hp_of(before)
}

/// The cave: its squares with the units on them.
#[derive(Debug)]
pub struct Cave {
    grids: Mat2<Grid>,
    w: usize,
    h: usize,
}

impl Cave {
    /// The squares of the cave.
    pub closed spec fn grids(self) -> Mat2<Grid> {
        self.grids
    }

    /// The cave as its squares.
    pub open spec fn floor(self) -> Floor {
        Floor {
            cols: self.grids().cols(),
            rows: self.grids().rows(),
            cells: self.grids().cells(),
        }
    }

    /// There is one square for each position.
    pub closed spec fn wf(self) -> bool {
        &&& self.grids.wf()
        &&& self.grids.rows() == self.h
        &&& self.grids.cols() == self.w
    }

    /// A cave of `h` rows and `w` columns of solid wall.
    pub fn new(h: usize, w: usize) -> (c: Cave)
        requires
            h * w <= usize::MAX,
        ensures
            c.wf(),
            c.grids().wf(),
            c.grids().rows() == h,
            c.grids().cols() == w,
            forall|i: int|
                0 <= i < c.grids().cells().len() ==> #[trigger] c.grids().cells()[i] == (Grid {
                    kind: GridKind::Wall,
                    unit: None,
                }),
    {
        Cave { grids: Mat2::new_with(h, w, Grid { kind: GridKind::Wall, unit: None }), h, w }
    }

    /// The square at `p`.
    pub fn get(&self, p: Pos) -> (g: Option<Grid>)
        requires
            self.wf(),
        ensures
            self.grids().wf(),
            g == (if self.grids().contains(p) {
                Some(self.grids().at(p))
            } else {
                None
            }),
    {
        match self.grids.get(p) {
            Some(g) => Some(*g),
            None => None,
        }
    }

    /// Puts `g` on the square at `p`.
    pub fn set(&mut self, p: Pos, g: Grid)
        requires
            old(self).wf(),
            old(self).grids().contains(p),
        ensures
            final(self).wf(),
            final(self).grids().rows() == old(self).grids().rows(),
            final(self).grids().cols() == old(self).grids().cols(),
            final(self).grids().cells() == old(self).grids().cells().update(
                old(self).grids().index_of(p),
                g,
            ),
    {
        self.grids.set(p, g);
    }

    fn count(&self) -> (r: (usize, usize, u128))
        requires
            self.wf(),
        ensures
            r.0 == units_of(self.grids().cells(), UnitKind::Elf),
            r.1 == units_of(self.grids().cells(), UnitKind::Goblin),
            r.2 == hp_of(self.grids().cells()),
    {
        let all = self.grids.grids();
        let ghost cells = self.grids.cells();
        let (mut elfs, mut gobs) = (0usize, 0usize);
        let mut hp: u128 = 0;
        let mut i: usize = 0;
        assert(cells.subrange(0, 0) =~= Seq::<Grid>::empty());
        while i < all.len()
            invariant
                i <= all@.len(),
                all@.len() == cells.len(),
                forall|j: int| 0 <= j < all@.len() ==> *(#[trigger] all@[j]) == cells[j],
                elfs == units_of(cells.subrange(0, i as int), UnitKind::Elf),
                gobs == units_of(cells.subrange(0, i as int), UnitKind::Goblin),
                hp == hp_of(cells.subrange(0, i as int)),
                elfs <= i,
                gobs <= i,
                hp <= i * 0xffff_ffff_ffff_ffff,
            decreases all@.len() - i,
        {
            proof {
                let next = cells.subrange(0, i + 1);
                assert(next.drop_last() =~= cells.subrange(0, i as int));
                assert(next.last() == cells[i as int]);
                assert((i + 1) * 0xffff_ffff_ffff_ffff == i * 0xffff_ffff_ffff_ffff
                    + 0xffff_ffff_ffff_ffff) by (nonlinear_arith);
                assert(i * 0xffff_ffff_ffff_ffff + 0xffff_ffff_ffff_ffff <= u128::MAX)
                    by (nonlinear_arith)
                    requires
                        i < 0xffff_ffff_ffff_ffff,
                ;
            }
            match all[i].unit {
                Some(u) => {
                    match u.kind {
                        UnitKind::Elf => {
                            elfs += 1;
                        },
                        UnitKind::Goblin => {
                            gobs += 1;
                        },
                    }
                    hp = hp + u.hp as u128;
                },
                None => {},
            }
            i += 1;
        }
        assert(cells.subrange(0, i as int) =~= cells);
        (elfs, gobs, hp)
    }

    /// How many elves are alive.
    pub fn elfs(&self) -> (n: usize)
        requires
            self.wf(),
        ensures
            n == units_of(self.grids().cells(), UnitKind::Elf),
    {
        self.count().0
    }

    /// The side that has won, once only one side is left.
    pub fn winner(&self) -> (w: Option<UnitKind>)
        requires
            self.wf(),
        ensures
            w == winner_of(self.grids().cells()),
    {
        let (elfs, gobs, _) = self.count();
        if elfs == 0 {
            Some(UnitKind::Goblin)
        } else if gobs == 0 {
            Some(UnitKind::Elf)
        } else {
            None
        }
    }

    /// Whether the fight is over.
    pub fn is_done(&self) -> (b: bool)
        requires
            self.wf(),
        ensures
            b == winner_of(self.grids().cells()).is_some(),
    {
        self.winner().is_some()
    }

    /// The hit points of all units together.
    pub fn hp_sum(&self) -> (hp: u64)
        requires
            self.wf(),
            hp_of(self.grids().cells()) <= u64::MAX,
        ensures
            hp == hp_of(self.grids().cells()),
    {
        self.count().2 as u64
    }

    /// Gives every elf the attack power `atk`.
    pub fn upgrade_elf_weapons(&mut self, atk: u64)
        requires
            old(self).wf(),
        ensures
            final(self).wf(),
            final(self).grids().rows() == old(self).grids().rows(),
            final(self).grids().cols() == old(self).grids().cols(),
            final(self).grids().cells() == upgraded(old(self).grids().cells(), atk),
    {
        let coords = self.grids.coords();
        let ghost before = self.grids.cells();
        let mut i: usize = 0;
        while i < coords.len()
            invariant
                i <= coords@.len(),
                self.wf(),
                self.grids.rows() == old(self).grids.rows(),
                self.grids.cols() == old(self).grids.cols(),
                self.h == old(self).h,
                self.w == old(self).w,
                before == old(self).grids.cells(),
                coords@.len() == before.len(),
                self.grids.cells().len() == before.len(),
                forall|j: int|
                    0 <= j < coords@.len() ==> self.grids.contains(#[trigger] coords@[j])
                        && self.grids.index_of(coords@[j]) == j,
                forall|j: int| 0 <= j < i ==> self.grids.cells()[j] == upgraded(before, atk)[j],
                forall|j: int| i <= j < before.len() ==> self.grids.cells()[j] == before[j],
            decreases coords@.len() - i,
        {
            let p = coords[i];
            let g = *self.grids.get(p).unwrap();
            if let Some(unit) = g.unit {
                if unit.kind == UnitKind::Elf {
                    self.grids.set(
                        p,
                        Grid {
                            unit: Some(Unit { kind: unit.kind, hp: unit.hp, atk, id: unit.id }),
                            kind: g.kind,
                        },
                    );
                }
            }
            i += 1;
        }
        assert(self.grids.cells() =~= upgraded(before, atk));
    }

    /// Moves the unit at `from` to `to`. Nothing happens where no unit
    /// stands at `from`.
    pub fn move_unit(&mut self, from: Pos, to: Pos)
        requires
            old(self).wf(),
            old(self).grids().contains(from),
            old(self).grids().contains(to),
        ensures
            final(self).wf(),
            final(self).grids().rows() == old(self).grids().rows(),
            final(self).grids().cols() == old(self).grids().cols(),
            final(self).grids().cells() == (match old(self).grids().at(from).unit {
                Some(u) => old(self).grids().cells().update(
                    old(self).grids().index_of(from),
                    Grid { unit: None, kind: old(self).grids().at(from).kind },
                ).update(
                    old(self).grids().index_of(to),
                    Grid {
                        unit: Some(u),
                        kind: (if to == from {
                            old(self).grids().at(from).kind
                        } else {
                            old(self).grids().at(to).kind
                        }),
                    },
                ),
                None => old(self).grids().cells(),
            }),
            fought(old(self).grids().cells(), final(self).grids().cells()),
            final(self).floor() == old(self).floor().moved(from, to),
    {
        let source = *self.grids.get(from).unwrap();
        match source.unit {
            Some(unit) => {
                proof {
                    self.grids.lemma_index_in_range(from);
                    self.grids.lemma_index_in_range(to);
                }
                let ghost first = self.grids().cells();
                let free = Grid { unit: None, kind: source.kind };
                self.grids.set(from, free);
                let ghost second = self.grids().cells();
                let target = *self.grids.get(to).unwrap();
                let taken = Grid { unit: Some(unit), kind: target.kind };
                self.grids.set(to, taken);
                proof {
                    let i = old(self).grids().index_of(from);
                    let j = old(self).grids().index_of(to);
                    lemma_square_changes(first, i, free, UnitKind::Elf);
                    lemma_square_changes(first, i, free, UnitKind::Goblin);
                    lemma_square_changes(second, j, taken, UnitKind::Elf);
                    lemma_square_changes(second, j, taken, UnitKind::Goblin);
                    assert(stands(first[i], UnitKind::Elf) == stands(taken, UnitKind::Elf));
                    assert(stands(first[i], UnitKind::Goblin) == stands(taken, UnitKind::Goblin));
                    assert(hp_on(first[i]) == hp_on(taken));
                }
            },
            None => {},
        }
    }

    /// Lets the unit at `p` hit the unit at `enemy_pos`, which leaves the
    /// cave when it dies. Nothing happens where one of the two squares is
    /// without a unit.
    pub fn attack(&mut self, p: Pos, enemy_pos: Pos)
        requires
            old(self).wf(),
            old(self).grids().contains(p),
            old(self).grids().contains(enemy_pos),
        ensures
            final(self).wf(),
            final(self).grids().rows() == old(self).grids().rows(),
            final(self).grids().cols() == old(self).grids().cols(),
            final(self).grids().cells() == (match (
                old(self).grids().at(p).unit,
                old(self).grids().at(enemy_pos).unit,
            ) {
                (Some(me), Some(enemy)) => old(self).grids().cells().update(
                    old(self).grids().index_of(enemy_pos),
                    Grid {
                        unit: (if enemy.hit(me.atk).hp == 0 {
                            None
                        } else {
                            Some(enemy.hit(me.atk))
                        }),
                        kind: old(self).grids().at(enemy_pos).kind,
                    },
                ),
                _ => old(self).grids().cells(),
            }),
            fought(old(self).grids().cells(), final(self).grids().cells()),
            final(self).floor() == old(self).floor().attacked(p, enemy_pos),
    {
        let me = *self.grids.get(p).unwrap();
        let other = *self.grids.get(enemy_pos).unwrap();
        match (me.unit, other.unit) {
            (Some(unit), Some(enemy)) => {
                let mut enemy = enemy;
                let dead = enemy.damage(unit.atk);
                let left = if dead {
                    None
                } else {
                    Some(enemy)
                };
                let ghost first = self.grids().cells();
                let hurt = Grid { unit: left, kind: other.kind };
                proof {
                    self.grids.lemma_index_in_range(enemy_pos);
                }
                self.grids.set(enemy_pos, hurt);
                proof {
                    let i = old(self).grids().index_of(enemy_pos);
                    lemma_square_changes(first, i, hurt, UnitKind::Elf);
                    lemma_square_changes(first, i, hurt, UnitKind::Goblin);
                }
            },
            _ => {},
        }
    }
}

/// Whether the two places lie side by side, in a row or in a column.
pub open spec fn adjacent(p: Pos, q: Pos) -> bool {
    (p.x == q.x && (p.y + 1 == q.y || q.y + 1 == p.y)) || (p.y == q.y && (p.x + 1 == q.x || q.x + 1
        == p.x))
}

/// The places beside `p` on a grid of `w` columns and `h` rows, in
/// reading order: above, left, right, below.
pub open spec fn around(p: Pos, w: nat, h: nat) -> Seq<Pos> {
    let up = if p.y > 0 {
        seq![Pos { x: p.x, y: (p.y - 1) as usize }]
    } else {
        Seq::empty()
    };
    let left = if p.x > 0 {
        seq![Pos { x: (p.x - 1) as usize, y: p.y }]
    } else {
        Seq::empty()
    };
    let right = if p.x + 1 < w {
        seq![Pos { x: (p.x + 1) as usize, y: p.y }]
    } else {
        Seq::empty()
    };
    let down = if p.y + 1 < h {
        seq![Pos { x: p.x, y: (p.y + 1) as usize }]
    } else {
        Seq::empty()
    };
    up + left + right + down
}

/// How many numbers of the sequence are zero.
pub open spec fn zeros(dist: Seq<usize>) -> nat
    decreases dist.len(),
{
    if dist.len() == 0 {
        0
    } else {
        zeros(dist.drop_last()) + (if dist.last() == 0 {
            1nat
        } else {
            0nat
        })
    }
}

/// A zero that becomes another number leaves one zero fewer.
pub proof fn lemma_zeros_update(dist: Seq<usize>, i: int, d: usize)
    requires
        0 <= i < dist.len(),
        dist[i] == 0,
        d != 0,
    ensures
        zeros(dist.update(i, d)) + 1 == zeros(dist),
    decreases dist.len(),
{
    let after = dist.update(i, d);
    if i == dist.len() - 1 {
        assert(after.drop_last() =~= dist.drop_last());
    } else {
        lemma_zeros_update(dist.drop_last(), i, d);
        assert(after.drop_last() =~= dist.drop_last().update(i, d));
    }
}

/// A number that is not zero and changes to another such number leaves
/// the zeros as many.
pub proof fn lemma_zeros_same(dist: Seq<usize>, i: int, d: usize)
    requires
        0 <= i < dist.len(),
        dist[i] != 0,
        d != 0,
    ensures
        zeros(dist.update(i, d)) == zeros(dist),
    decreases dist.len(),
{
    let after = dist.update(i, d);
    if i == dist.len() - 1 {
        assert(after.drop_last() =~= dist.drop_last());
    } else {
        lemma_zeros_same(dist.drop_last(), i, d);
        assert(after.drop_last() =~= dist.drop_last().update(i, d));
    }
}

/// The cave as its squares: so many columns and rows, and what stands on
/// each square, row by row.
pub ghost struct Floor {
    pub cols: nat,
    pub rows: nat,
    pub cells: Seq<Grid>,
}

/// A search for the nearest enemy under way: the count of steps to each
/// place that was reached (zero for none), the place from which each was
/// reached, the places from which the search goes on, and the enemy found
/// so far: its place, its number in reading order and its count of steps.
pub ghost struct Search {
    pub dist: Seq<usize>,
    pub from: Seq<Pos>,
    pub q: Seq<(usize, Pos)>,
    pub min_id: u128,
    pub pos: Pos,
    pub min_d: usize,
    pub found: bool,
}

/// No more numbers of a sequence are zero than it has numbers.
pub proof fn lemma_zeros_bound(dist: Seq<usize>)
    ensures
        zeros(dist) <= dist.len(),
    decreases dist.len(),
{
    if dist.len() > 0 {
        lemma_zeros_bound(dist.drop_last());
    }
}

impl Floor {
    /// Whether `p` lies in the cave.
    pub open spec fn contains(self, p: Pos) -> bool {
        p.x < self.cols && p.y < self.rows
    }

    /// The place of `p` among the squares.
    pub open spec fn index_of(self, p: Pos) -> int {
        self.cols * p.y + p.x
    }

    /// The square at `p`.
    pub open spec fn at(self, p: Pos) -> Grid {
        self.cells[self.index_of(p)]
    }

    /// The search after the places beside `cur` from the `k`th on were
    /// looked at, where `cur` was reached in `d` steps. An enemy there is
    /// the one found if it comes before the one found so far in reading
    /// order and is nearer; an open place that was not reached yet is
    /// reached in one step more, and the search goes on from it.
    pub open spec fn look(self, s: Search, enemy: UnitKind, d: usize, cur: Pos, k: int) -> Search
        decreases around(cur, self.cols, self.rows).len() - k,
    {
        let near = around(cur, self.cols, self.rows);
        if k < 0 || k >= near.len() {
            s
        } else {
            let nb = near[k];
            let ix = self.index_of(nb);
            let g = self.at(nb);
            let idx = nb.x + self.rows * nb.y;
            let next = if holds_enemy(g, enemy) {
                if idx < s.min_id && d < s.min_d {
                    Search {
                        dist: s.dist.update(ix, (d + 1) as usize),
                        from: s.from.update(ix, cur),
                        min_id: idx as u128,
                        min_d: (d + 1) as usize,
                        pos: nb,
                        found: true,
                        ..s
                    }
                } else {
                    s
                }
            } else if !g.blocked() && s.dist[ix] == 0 {
                Search {
                    q: s.q.push(((d + 1) as usize, nb)),
                    dist: s.dist.update(ix, (d + 1) as usize),
                    from: s.from.update(ix, cur),
                    ..s
                }
            } else {
                s
            };
            self.look(next, enemy, d, cur, k + 1)
        }
    }

    /// The search after it has gone on from the places of its queue from
    /// the `head`th on, for at most `fuel` of them: it ends at a place
    /// that lies further than the enemy found.
    pub open spec fn spread(self, s: Search, enemy: UnitKind, head: int, fuel: nat) -> Search
        decreases fuel,
    {
        if fuel == 0 || head < 0 || head >= s.q.len() {
            s
        } else {
            let (d, cur) = s.q[head];
            if d > s.min_d || d == usize::MAX {
                s
            } else {
                self.spread(self.look(s, enemy, d, cur, 0), enemy, head + 1, (fuel - 1) as nat)
            }
        }
    }

    /// The place beside the beginning of the search on the way that led
    /// to `last`, which was reached in `left` steps: the place that was
    /// reached in two.
    pub open spec fn trace(self, s: Search, last: Pos, left: nat) -> Pos
        decreases left,
    {
        let d = s.dist[self.index_of(last)];
        if d != left || d <= 2 {
            last
        } else {
            self.trace(s, s.from[self.index_of(last)], (d - 1) as nat)
        }
    }

    /// The search before its first step from `p`.
    pub open spec fn search_from(self, p: Pos) -> Search {
        Search {
            dist: Seq::new(
                self.cells.len(),
                |i: int|
                    if i == self.index_of(p) {
                        1usize
                    } else {
                        0usize
                    },
            ),
            from: Seq::new(self.cells.len(), |i: int| p),
            q: seq![(1usize, p)],
            min_id: u128::MAX,
            pos: p,
            min_d: usize::MAX,
            found: false,
        }
    }

    /// The first step of the unit at `p` on a shortest way towards an
    /// enemy: the search spreads over the open places in the order in
    /// which they were reached, beside each place above, left, right and
    /// below; of the enemies that it meets the one counts that comes
    /// first in reading order among those that are nearer than the one
    /// found before. Nothing where no unit stands at `p` or the search
    /// meets no enemy.
    pub open spec fn nearest(self, p: Pos) -> Option<Pos> {
        if !self.contains(p) {
            None
        } else {
            match self.at(p).unit {
                None => None,
                Some(u) => {
                    let s = self.spread(self.search_from(p), u.opponent(), 0, self.cells.len());
                    if s.found {
                        Some(self.trace(s, s.pos, s.min_d as nat))
                    } else {
                        None
                    }
                },
            }
        }
    }
}

impl Floor {
    /// The place of the enemy beside `p` for the unit at `p` to attack,
    /// once the places beside `p` from the `k`th on are looked at too,
    /// where `best` is the choice among the places before, with its hit
    /// points: an enemy with fewer hit points takes its place.
    pub open spec fn closest(self, p: Pos, k: int, best: Option<(Pos, u64)>) -> Option<Pos>
        decreases around(p, self.cols, self.rows).len() - k,
    {
        let near = around(p, self.cols, self.rows);
        if k < 0 || k >= near.len() {
            match best {
                Some((q, _)) => Some(q),
                None => None,
            }
        } else {
            let q = near[k];
            let next = match (self.at(p).unit, self.at(q).unit) {
                (Some(me), Some(other)) => if me.kind != other.kind {
                    match best {
                        Some((b, hp)) => if other.hp < hp {
                            Some((q, other.hp))
                        } else {
                            best
                        },
                        None => Some((q, other.hp)),
                    }
                } else {
                    best
                },
                _ => best,
            };
            self.closest(p, k + 1, next)
        }
    }

    /// The place of the enemy beside `p` to attack: of the enemies there
    /// the one with the fewest hit points, and of those with as few the
    /// first in reading order.
    pub open spec fn close_enemy(self, p: Pos) -> Option<Pos> {
        if !self.contains(p) || self.at(p).unit is None {
            None
        } else {
            self.closest(p, 0, None)
        }
    }

    /// The cave after the unit at `from` has moved to `to`.
    pub open spec fn moved(self, from: Pos, to: Pos) -> Floor {
        match self.at(from).unit {
            Some(u) => Floor {
                cells: self.cells.update(
                    self.index_of(from),
                    Grid { unit: None, kind: self.at(from).kind },
                ).update(
                    self.index_of(to),
                    Grid {
                        unit: Some(u),
                        kind: (if to == from {
                            self.at(from).kind
                        } else {
                            self.at(to).kind
                        }),
                    },
                ),
                ..self
            },
            None => self,
        }
    }

    /// The cave after the unit at `p` has hit the unit at `enemy`, which
    /// leaves the cave when it dies.
    pub open spec fn attacked(self, p: Pos, enemy: Pos) -> Floor {
        match (self.at(p).unit, self.at(enemy).unit) {
            (Some(me), Some(other)) => Floor {
                cells: self.cells.update(
                    self.index_of(enemy),
                    Grid {
                        unit: (if other.hit(me.atk).hp == 0 {
                            None
                        } else {
                            Some(other.hit(me.atk))
                        }),
                        kind: self.at(enemy).kind,
                    },
                ),
                ..self
            },
            _ => self,
        }
    }

    /// The cave after the turn of the unit at `p`: with an enemy beside
    /// it, it attacks; else it steps towards the nearest enemy and
    /// attacks if it then stands beside one. Nothing happens where no
    /// unit stands at `p`.
    pub open spec fn turn(self, p: Pos) -> Floor {
        if !self.contains(p) || self.at(p).unit is None {
            self
        } else {
            match self.close_enemy(p) {
                Some(enemy) => self.attacked(p, enemy),
                None => match self.nearest(p) {
                    Some(next) => {
                        let after = self.moved(p, next);
                        match after.close_enemy(next) {
                            Some(enemy) => after.attacked(next, enemy),
                            None => after,
                        }
                    },
                    None => self,
                },
            }
        }
    }

    /// The cave after the turns at the places from the `i`th on.
    pub open spec fn turns(self, places: Seq<Pos>, i: int) -> Floor
        decreases places.len() - i,
    {
        if i < 0 || i >= places.len() {
            self
        } else {
            self.turn(places[i]).turns(places, i + 1)
        }
    }

    /// The places among the first `upto` squares, row by row, on which a
    /// unit stands.
    pub open spec fn unit_places(self, upto: int) -> Seq<Pos>
        decreases upto,
    {
        if upto <= 0 {
            Seq::empty()
        } else {
            let rest = self.unit_places(upto - 1);
            if self.cells[upto - 1].unit is Some {
                rest.push(
                    Pos {
                        x: ((upto - 1) % (self.cols as int)) as usize,
                        y: ((upto - 1) / (self.cols as int)) as usize,
                    },
                )
            } else {
                rest
            }
        }
    }

    /// The cave after a round: the turns at the places where units stand
    /// at its beginning, in reading order.
    pub open spec fn round(self) -> Floor {
        self.turns(self.unit_places(self.cells.len() as int), 0)
    }

    /// The cave at the end of the fight and how the fight ends, where
    /// `done` rounds have passed: the rounds until one side alone is left
    /// and the winner, or nothing where more than `limit` rounds are
    /// needed.
    pub open spec fn fight(self, done: nat, limit: nat) -> (Floor, Option<(nat, UnitKind)>)
        decreases limit - done,
    {
        match winner_of(self.cells) {
            Some(w) => (self, Some((done, w))),
            None => if done >= limit {
                (self, None)
            } else {
                self.round().fight(done + 1, limit)
            },
        }
    }

    /// The outcome of the fight: the number of rounds times the hit
    /// points that are left, where the fight ends within `limit` rounds
    /// and the rounds, the hit points and the outcome fit 64 bits.
    pub open spec fn outcome(self, limit: nat) -> Option<u64> {
        let (end, r) = self.fight(0, limit);
        match r {
            Some((rounds, _)) => if rounds <= u64::MAX && hp_of(end.cells) <= u64::MAX && rounds
                * hp_of(end.cells) <= u64::MAX {
                Some((rounds * hp_of(end.cells)) as u64)
            } else {
                None
            },
            None => None,
        }
    }

    /// The outcome of the fight with the least attack power of the elves
    /// from `atk` to `max_atk` with which they win without a loss: the
    /// number of rounds less one, times the hit points that are left.
    /// Nothing where no such power lets them win, or the rounds, the hit
    /// points or the outcome do not fit 64 bits.
    pub open spec fn clean_win(self, atk: u64, max_atk: u64, limit: nat) -> Option<u64>
        decreases max_atk + 1 - atk,
    {
        if atk > max_atk {
            None
        } else {
            let (end, r) = (Floor { cells: upgraded(self.cells, atk), ..self }).fight(0, limit);
            let won = match r {
                Some((_, w)) => w == UnitKind::Elf && units_of(end.cells, UnitKind::Elf) == units_of(
                    self.cells,
                    UnitKind::Elf,
                ),
                None => false,
            };
            if won {
                let rounds = r.unwrap().0;
                if rounds >= 1 && rounds <= u64::MAX && hp_of(end.cells) <= u64::MAX && (rounds - 1)
                    * hp_of(end.cells) <= u64::MAX {
                    Some(((rounds - 1) * hp_of(end.cells)) as u64)
                } else {
                    None
                }
            } else if atk == u64::MAX {
                None
            } else {
                self.clean_win((atk + 1) as u64, max_atk, limit)
            }
        }
    }
}

/// A square has its column and its row from its place among the squares.
pub proof fn lemma_place_of(w: int, x: int, y: int)
    requires
        0 <= x < w,
        0 <= y,
    ensures
        (w * y + x) % w == x,
        (w * y + x) / w == y,
{
    assert(w * y + x == y * w + x) by (nonlinear_arith);
    vstd::arithmetic::div_mod::lemma_fundamental_div_mod_converse(w * y + x, w, y, x);
}

/// Whether the search from `p` for units of the side `enemy` is in order:
/// the place `p` alone has the count one; every other place that has a
/// count has it from a place beside it, whose count is one less and on
/// which no enemy stands.
pub open spec fn searched(m: Mat2<Grid>, dist: Seq<usize>, from: Seq<Pos>, p: Pos, enemy: UnitKind) -> bool {
    &&& m.wf()
    &&& dist.len() == m.cells().len()
    &&& from.len() == m.cells().len()
    &&& m.contains(p)
    &&& dist[m.index_of(p)] == 1
    &&& forall|c: Pos| m.contains(c) && #[trigger] dist[m.index_of(c)] == 1 ==> c == p
    &&& forall|c: Pos|
        m.contains(c) && #[trigger] dist[m.index_of(c)] >= 2 ==> {
            let o = from[m.index_of(c)];
            &&& m.contains(o)
            &&& adjacent(o, c)
            &&& dist[m.index_of(o)] + 1 == dist[m.index_of(c)]
            &&& !holds_enemy(m.at(o), enemy)
        }
}

/// Whether a unit of the side `enemy` stands on the square.
pub open spec fn holds_enemy(g: Grid, enemy: UnitKind) -> bool {
    match g.unit {
        Some(u) => u.kind == enemy,
        None => false,
    }
}

impl Cave {
    /// The places beside `p` that lie in the cave, in reading order.
    pub fn neighbors(&self, p: Pos) -> (r: Vec<Pos>)
        requires
            self.wf(),
            self.grids().contains(p),
        ensures
            r@ == around(p, self.grids().cols(), self.grids().rows()),
            r@.len() <= 4,
            forall|i: int|
                0 <= i < r@.len() ==> self.grids().contains(#[trigger] r@[i]) && adjacent(p, r@[i]),
    {
        let (w, h) = (self.w, self.h);
        let mut r: Vec<Pos> = Vec::new();
        if p.y > 0 {
            r.push(Pos::new(p.x, p.y - 1));
        }
        if p.x > 0 {
            r.push(Pos::new(p.x - 1, p.y));
        }
        if p.x + 1 < w {
            r.push(Pos::new(p.x + 1, p.y));
        }
        if p.y + 1 < h {
            r.push(Pos::new(p.x, p.y + 1));
        }
        assert(r@ =~= around(p, self.grids().cols(), self.grids().rows()));
        r
    }

    /// The units in the cave, in reading order.
    pub fn units(&self) -> (r: Vec<Unit>)
        requires
            self.wf(),
        ensures
            r@.len() == units_of(self.grids().cells(), UnitKind::Elf) + units_of(
                self.grids().cells(),
                UnitKind::Goblin,
            ),
            r@ == units_on(self.grids().cells()),
    {
        let all = self.grids.grids();
        let ghost cells = self.grids.cells();
        let mut r: Vec<Unit> = Vec::new();
        let mut i: usize = 0;
        assert(cells.subrange(0, 0) =~= Seq::<Grid>::empty());
        while i < all.len()
            invariant
                i <= all@.len(),
                all@.len() == cells.len(),
                forall|j: int| 0 <= j < all@.len() ==> *(#[trigger] all@[j]) == cells[j],
                r@.len() == units_of(cells.subrange(0, i as int), UnitKind::Elf) + units_of(
                    cells.subrange(0, i as int),
                    UnitKind::Goblin,
                ),
                r@.len() <= i,
                r@ == units_on(cells.subrange(0, i as int)),
            decreases all@.len() - i,
        {
            proof {
                let next = cells.subrange(0, i + 1);
                assert(next.drop_last() =~= cells.subrange(0, i as int));
                assert(next.last() == cells[i as int]);
            }
            if let Some(u) = all[i].unit {
                r.push(u);
            }
            i += 1;
        }
        assert(cells.subrange(0, i as int) =~= cells);
        r
    }

    /// The place of the enemy beside `p` to attack: of the enemies there
    /// the one with the fewest hit points, and of those with as few the
    /// first in reading order. Nothing where no unit stands at `p` or no
    /// enemy beside it.
    pub fn find_close_enemy(&self, p: Pos) -> (r: Option<Pos>)
        requires
            self.wf(),
            self.grids().contains(p),
        ensures
            match r {
                Some(q) => is_target(self.grids(), p, q) && exists|i: int|
                    #[trigger] best_target(self.grids(), p, i) && around(
                        p,
                        self.grids().cols(),
                        self.grids().rows(),
                    )[i] == q,
                None => forall|k: int|
                    0 <= k < around(p, self.grids().cols(), self.grids().rows()).len()
                        ==> !is_target(
                        self.grids(),
                        p,
                        #[trigger] around(p, self.grids().cols(), self.grids().rows())[k],
                    ),
            },
            r == self.floor().close_enemy(p),
    {
        let me = match self.grids.get(p) {
            Some(g) => match g.unit {
                Some(u) => u,
                None => {
                    return None;
                },
            },
            None => {
                return None;
            },
        };
        let beside = self.neighbors(p);
        let mut best: Option<(Pos, u64)> = None;
        let ghost mut at: int = 0;
        let mut i: usize = 0;
        while i < beside.len()
            invariant
                i <= beside@.len(),
                self.wf(),
                self.grids().contains(p),
                self.grids().at(p).unit == Some(me),
                beside@ == around(
                    p,
                    self.grids().cols(),
                    self.grids().rows(),
                ),
                forall|k: int|
                    0 <= k < beside@.len() ==> self.grids().contains(#[trigger] beside@[k])
                        && adjacent(p, beside@[k]),
                match best {
                    Some((q, hp)) => {
                        &&& 0 <= at < i
                        &&& beside@[at] == q
                        &&& is_target(self.grids(), p, q)
                        &&& hp == hp_on(self.grids().at(q))
                        &&& forall|k: int|
                            0 <= k < i && is_target(self.grids(), p, #[trigger] beside@[k]) ==> hp
                                <= hp_on(self.grids().at(beside@[k])) && (k < at ==> hp < hp_on(
                                self.grids().at(beside@[k]),
                            ))
                    },
                    None => forall|k: int|
                        0 <= k < i ==> !is_target(self.grids(), p, #[trigger] beside@[k]),
                },
                self.floor().closest(p, 0, None) == self.floor().closest(p, i as int, best),
            decreases beside@.len() - i,
        {
            let q = beside[i];
            if let Some(g) = self.grids.get(q) {
                if let Some(other) = g.unit {
                    if me.can_attack(&other) {
                        best = match best {
                            Some((b, hp)) => if other.hp < hp {
                                proof {
                                    at = i as int;
                                }
                                Some((q, other.hp))
                            } else {
                                Some((b, hp))
                            },
                            None => {
                                proof {
                                    at = i as int;
                                }
                                Some((q, other.hp))
                            },
                        };
                    }
                }
            }
            i += 1;
        }
        match best {
            Some((q, _)) => {
                proof {
                    assert(best_target(self.grids(), p, at));
                }
                Some(q)
            },
            None => None,
        }
    }

    /// The first step of the unit at `p` on a shortest way towards an
    /// enemy, found by a search that spreads over the open places.
    /// Nothing where no unit stands at `p` or no enemy can be reached.
    pub fn find_nearest_enemy(&self, p: Pos) -> (r: Option<Pos>)
        requires
            self.wf(),
            self.grids().contains(p),
        ensures
            r matches Some(q) ==> self.grids().contains(q) && adjacent(p, q),
            r == self.floor().nearest(p),
    {
        let ghost fl = self.floor();
        let (w, h) = (self.w, self.h);
        let enemy = match self.grids.get(p) {
            Some(g) => match g.unit {
                Some(u) => u.opponent_kind(),
                None => {
                    return None;
                },
            },
            None => {
                return None;
            },
        };
        let coords = self.grids.coords();
        let n = coords.len();
        let mut dist: Vec<usize> = Vec::new();
        let mut from: Vec<Pos> = Vec::new();
        let mut i: usize = 0;
        while i < n
            invariant
                i <= n,
                dist@.len() == i,
                from@.len() == i,
                forall|k: int| 0 <= k < i ==> #[trigger] dist@[k] == 0,
                forall|k: int| 0 <= k < i ==> #[trigger] from@[k] == p,
            decreases n - i,
        {
            dist.push(0);
            from.push(p);
            i += 1;
        }
        proof {
            self.grids.lemma_index_in_range(p);
        }
        let start = self.w * p.y + p.x;
        proof {
            lemma_zeros_bound(dist@);
            lemma_zeros_update(dist@, start as int, 1);
        }
        dist[start] = 1;
        let (mut min_id, mut pos, mut min_d) = (u128::MAX, p, usize::MAX);
        let mut found = false;
        let mut q: Vec<(usize, Pos)> = Vec::new();
        q.push((1, p));
        let mut head: usize = 0;
        proof {
            assert forall|c: Pos| self.grids.contains(c) && #[trigger] dist@[self.grids.index_of(c)]
                == 1 implies c == p by {
                self.grids.lemma_index_in_range(c);
                if c != p {
                    lemma_distinct_places(self.grids, c, p);
                }
            }
            assert forall|c: Pos| self.grids.contains(c) implies #[trigger] dist@[self.grids.index_of(
                c,
            )] < 2 by {
                self.grids.lemma_index_in_range(c);
            }
            assert(searched(self.grids, dist@, from@, p, enemy));
        }
        let ghost first = fl.search_from(p);
        let ghost mut fuel: nat = n as nat;
        proof {
            assert(dist@ =~= first.dist);
            assert(from@ =~= first.from);
            assert(q@ =~= first.q);
        }
        while head < q.len()
            invariant_except_break
                fl.spread(first, enemy, 0, n as nat) == fl.spread(
                    Search { dist: dist@, from: from@, q: q@, min_id, pos, min_d, found },
                    enemy,
                    head as int,
                    fuel,
                ),
                fuel >= zeros(dist@) + q@.len() - head,
            invariant
                fl == self.floor(),
                head <= q@.len(),
                self.wf(),
                n == self.grids().cells().len(),
                !holds_enemy(self.grids().at(p), enemy),
                searched(self.grids(), dist@, from@, p, enemy),
                forall|k: int|
                    head <= k < q@.len() ==> queued(self.grids(), dist@, #[trigger] q@[k], enemy),
                found ==> self.grids().contains(pos) && dist@[self.grids().index_of(pos)] == min_d
                    && min_d >= 2,
            ensures
                fl.spread(first, enemy, 0, n as nat) == (Search {
                    dist: dist@,
                    from: from@,
                    q: q@,
                    min_id,
                    pos,
                    min_d,
                    found,
                }),
            decreases zeros(dist@) + q@.len() - head,
        {
            let (d, cur) = q[head];
            let ghost budget = zeros(dist@) + q@.len();
            let ghost at_start = Search { dist: dist@, from: from@, q: q@, min_id, pos, min_d, found };
            assert(queued(self.grids(), dist@, q@[head as int], enemy));
            head += 1;
            if d > min_d {
                break ;
            }
            if d == usize::MAX {
                break ;
            }
            let around = self.neighbors(cur);
            let mut k: usize = 0;
            while k < around.len()
                invariant
                    k <= around@.len(),
                    around@.len() <= 4,
                    fl == self.floor(),
                    around@ == crate::solutions::solution_15::around(cur, fl.cols, fl.rows),
                    fl.look(at_start, enemy, d, cur, 0) == fl.look(
                        Search { dist: dist@, from: from@, q: q@, min_id, pos, min_d, found },
                        enemy,
                        d,
                        cur,
                        k as int,
                    ),
                    head <= q@.len(),
                    self.wf(),
                    n == self.grids().cells().len(),
                    !holds_enemy(self.grids().at(p), enemy),
                    self.grids().contains(cur),
                    !holds_enemy(self.grids().at(cur), enemy),
                    1 <= d < usize::MAX,
                    dist@[self.grids().index_of(cur)] == d,
                    forall|j: int|
                        0 <= j < around@.len() ==> self.grids().contains(#[trigger] around@[j])
                            && adjacent(cur, around@[j]),
                    searched(self.grids(), dist@, from@, p, enemy),
                    forall|j: int|
                        head <= j < q@.len() ==> queued(self.grids(), dist@, #[trigger] q@[j], enemy),
                    found ==> self.grids().contains(pos) && dist@[self.grids().index_of(pos)]
                        == min_d && min_d >= 2,
                    zeros(dist@) + q@.len() <= budget,
                decreases around@.len() - k,
            {
                let nb = around[k];
                proof {
                    self.grids.lemma_index_in_range(nb);
                    self.grids.lemma_index_in_range(cur);
                    self.grids.lemma_index_in_range(p);
                    if found {
                        self.grids.lemma_index_in_range(pos);
                    }
                }
                proof {
                    assert(0 <= self.w * nb.y <= self.w * nb.y + nb.x) by (nonlinear_arith);
                }
                let ix = self.w * nb.y + nb.x;
                let g = *self.grids.get(nb).unwrap();
                let is_enemy = match g.unit {
                    Some(u) => u.kind == enemy,
                    None => false,
                };
                if is_enemy {
                    let (tall, row) = (self.h as u128, nb.y as u128);
                    assert(tall * row <= 0xffff_ffff_ffff_ffff * 0xffff_ffff_ffff_ffff)
                        by (nonlinear_arith)
                        requires
                            tall <= 0xffff_ffff_ffff_ffff,
                            row <= 0xffff_ffff_ffff_ffff,
                    ;
                    let idx = nb.x as u128 + tall * row;
                    if idx < min_id && d < min_d {
                        let ghost before = dist@;
                        let ghost origin = from@;
                        let ghost waiting = q@;
                        proof {
                            if dist@[ix as int] == 0 {
                                lemma_zeros_update(dist@, ix as int, (d + 1) as usize);
                            } else {
                                lemma_zeros_same(dist@, ix as int, (d + 1) as usize);
                            }
                        }
                        dist[ix] = d + 1;
                        from[ix] = cur;
                        min_id = idx;
                        min_d = d + 1;
                        pos = nb;
                        found = true;
                        proof {
                            lemma_search_step(
                                self.grids,
                                before,
                                origin,
                                dist@,
                                from@,
                                p,
                                cur,
                                nb,
                                d,
                                enemy,
                            );
                            assert forall|j: int| head <= j < q@.len() implies queued(
                                self.grids(),
                                dist@,
                                #[trigger] q@[j],
                                enemy,
                            ) by {
                                assert(queued(self.grids(), before, waiting[j], enemy));
                                if q@[j].1 != nb {
                                    self.grids.lemma_index_in_range(q@[j].1);
                                    lemma_distinct_places(
                                        self.grids,
                                        q@[j].1,
                                        nb,
                                    );
                                }
                            }
                        }
                    }
                } else if !g.is_blocked() && dist[ix] == 0 {
                    let ghost before = dist@;
                    let ghost origin = from@;
                    let ghost waiting = q@;
                    proof {
                        lemma_zeros_update(dist@, ix as int, (d + 1) as usize);
                    }
                    q.push((d + 1, nb));
                    dist[ix] = d + 1;
                    from[ix] = cur;
                    proof {
                        lemma_search_step(
                            self.grids,
                            before,
                            origin,
                            dist@,
                            from@,
                            p,
                            cur,
                            nb,
                            d,
                            enemy,
                        );
                        assert forall|j: int| head <= j < q@.len() implies queued(
                            self.grids(),
                            dist@,
                            #[trigger] q@[j],
                            enemy,
                        ) by {
                            if j < waiting.len() {
                                assert(queued(self.grids(), before, waiting[j], enemy));
                                if q@[j].1 != nb {
                                    self.grids.lemma_index_in_range(q@[j].1);
                                    lemma_distinct_places(
                                        self.grids,
                                        q@[j].1,
                                        nb,
                                    );
                                }
                            }
                        }
                        if found && pos != nb {
                            lemma_distinct_places(
                                self.grids,
                                pos,
                                nb,
                            );
                        }
                    }
                }
                k += 1;
            }
            proof {
                fuel = (fuel - 1) as nat;
            }
        }
        if !found {
            return None;
        }
        let ghost last = Search { dist: dist@, from: from@, q: q@, min_id, pos, min_d, found };
        proof {
            assert(fl.nearest(p) == Some(fl.trace(last, pos, min_d as nat)));
        }
        let mut last_pos = pos;
        let mut left = min_d;
        loop
            invariant
                self.wf(),
                fl == self.floor(),
                n == self.grids().cells().len(),
                self.grids().contains(last_pos),
                searched(self.grids(), dist@, from@, p, enemy),
                dist@[self.grids().index_of(last_pos)] == left,
                left >= 2,
                last.dist == dist@,
                last.from == from@,
                fl.trace(last, pos, min_d as nat) == fl.trace(last, last_pos, left as nat),
                fl.nearest(p) == Some(fl.trace(last, pos, min_d as nat)),
            decreases left,
        {
            proof {
                self.grids.lemma_index_in_range(last_pos);
                assert(0 <= self.w * last_pos.y <= self.w * last_pos.y + last_pos.x)
                    by (nonlinear_arith);
            }
            let ix = self.w * last_pos.y + last_pos.x;
            let d = dist[ix];
            let origin = from[ix];
            proof {
                self.grids.lemma_index_in_range(origin);
            }
            if d == 2 {
                assert(origin == p);
                return Some(last_pos);
            }
            last_pos = origin;
            left = d - 1;
        }
    }
}

/// Whether the unit at `p` can attack the place `q` beside it: an enemy
/// stands there.
pub open spec fn is_target(m: Mat2<Grid>, p: Pos, q: Pos) -> bool {
    &&& m.contains(q)
    &&& adjacent(p, q)
    &&& match (m.at(p).unit, m.at(q).unit) {
        (Some(me), Some(enemy)) => me.kind != enemy.kind,
        _ => false,
    }
}

/// Whether place `i` of the places beside `p` is the one for the unit at
/// `p` to attack: an enemy stands there, no enemy beside `p` has fewer
/// hit points, and every enemy beside `p` that comes earlier in reading
/// order has more.
pub open spec fn best_target(m: Mat2<Grid>, p: Pos, i: int) -> bool {
    let c = around(p, m.cols(), m.rows());
    &&& 0 <= i < c.len()
    &&& is_target(m, p, c[i])
    &&& forall|k: int|
        0 <= k < c.len() && is_target(m, p, #[trigger] c[k]) ==> hp_on(m.at(c[i])) <= hp_on(
            m.at(c[k]),
        ) && (k < i ==> hp_on(m.at(c[i])) < hp_on(m.at(c[k])))
}

/// Whether an entry of the queue of a search is in order: its place lies
/// in the cave and has the count of the entry, and no enemy stands on it.
pub open spec fn queued(m: Mat2<Grid>, dist: Seq<usize>, entry: (usize, Pos), enemy: UnitKind) -> bool {
    &&& m.contains(entry.1)
    &&& dist[m.index_of(entry.1)] == entry.0
    &&& entry.0 >= 1
    &&& !holds_enemy(m.at(entry.1), enemy)
}

/// A search stays in order when a place beside a counted place gets the
/// next count and that place as its origin.
pub proof fn lemma_search_step(
    m: Mat2<Grid>,
    before: Seq<usize>,
    origin: Seq<Pos>,
    dist: Seq<usize>,
    from: Seq<Pos>,
    p: Pos,
    cur: Pos,
    nb: Pos,
    d: usize,
    enemy: UnitKind,
)
    requires
        searched(m, before, origin, p, enemy),
        m.contains(cur),
        m.contains(nb),
        adjacent(cur, nb),
        !holds_enemy(m.at(cur), enemy),
        !holds_enemy(m.at(p), enemy),
        1 <= d < usize::MAX,
        before[m.index_of(cur)] == d,
        dist == before.update(m.index_of(nb), (d + 1) as usize),
        from == origin.update(m.index_of(nb), cur),
        before[m.index_of(nb)] == 0 || holds_enemy(m.at(nb), enemy),
    ensures
        searched(m, dist, from, p, enemy),
{
    m.lemma_index_in_range(nb);
    m.lemma_index_in_range(cur);
    m.lemma_index_in_range(p);
    assert(nb != p);
    lemma_distinct_places(m, p, nb);
    lemma_distinct_places(m, cur, nb);
    assert forall|c: Pos| m.contains(c) && #[trigger] dist[m.index_of(c)] == 1 implies c == p by {
        m.lemma_index_in_range(c);
        if c != nb {
            lemma_distinct_places(m, c, nb);
        }
    }
    assert forall|c: Pos| m.contains(c) && #[trigger] dist[m.index_of(c)] >= 2 implies {
        let o = from[m.index_of(c)];
        &&& m.contains(o)
        &&& adjacent(o, c)
        &&& dist[m.index_of(o)] + 1 == dist[m.index_of(c)]
        &&& !holds_enemy(m.at(o), enemy)
    } by {
        m.lemma_index_in_range(c);
        if c != nb {
            lemma_distinct_places(m, c, nb);
            assert(dist[m.index_of(c)] == before[m.index_of(c)]);
            let o = origin[m.index_of(c)];
            m.lemma_index_in_range(o);
            if o != nb {
                lemma_distinct_places(m, o, nb);
            }
        }
    }
}

impl Cave {
    /// A copy of the cave.
    pub fn duplicate(&self) -> (c: Cave)
        requires
            self.wf(),
        ensures
            c.wf(),
            c.grids().rows() == self.grids().rows(),
            c.grids().cols() == self.grids().cols(),
            c.grids().cells() == self.grids().cells(),
    {
        let all = self.grids.grids();
        let mut cells: Vec<Grid> = Vec::new();
        let mut i: usize = 0;
        while i < all.len()
            invariant
                i <= all@.len(),
                cells@.len() == i,
                forall|j: int| 0 <= j < i ==> cells@[j] == *all@[j],
            decreases all@.len() - i,
        {
            cells.push(*all[i]);
            i += 1;
        }
        assert(cells@ =~= self.grids.cells());
        Cave { grids: Mat2::from_vec(cells, self.h, self.w), h: self.h, w: self.w }
    }

    /// Lets every unit take its turn, in reading order of the places
    /// where the units stand at the beginning of the round: a unit with
    /// an enemy beside it attacks; any other unit steps towards the
    /// nearest enemy and attacks if it then stands beside one.
    pub fn update(&mut self)
        requires
            old(self).wf(),
        ensures
            final(self).wf(),
            final(self).grids().rows() == old(self).grids().rows(),
            final(self).grids().cols() == old(self).grids().cols(),
            fought(old(self).grids().cells(), final(self).grids().cells()),
            final(self).floor() == old(self).floor().round(),
    {
        let ghost fl = self.floor();
        let all = self.grids.coords();
        let mut coords: Vec<Pos> = Vec::new();
        let mut k: usize = 0;
        while k < all.len()
            invariant
                k <= all@.len(),
                self.wf(),
                *self == *old(self),
                forall|j: int| 0 <= j < all@.len() ==> self.grids().contains(#[trigger] all@[j]),
                forall|j: int|
                    0 <= j < all@.len() ==> self.grids().index_of(#[trigger] all@[j]) == j,
                forall|j: int|
                    0 <= j < coords@.len() ==> self.grids().contains(#[trigger] coords@[j]),
                fl == self.floor(),
                all@.len() == fl.cells.len(),
                coords@ == fl.unit_places(k as int),
            decreases all@.len() - k,
        {
            proof {
                let c = all@[k as int];
                assert(self.grids().index_of(c) == k);
                lemma_place_of(fl.cols as int, c.x as int, c.y as int);
            }
            let g = *self.grids.get(all[k]).unwrap();
            if g.unit.is_some() {
                coords.push(all[k]);
            }
            k += 1;
        }
        let mut i: usize = 0;
        while i < coords.len()
            invariant
                i <= coords@.len(),
                self.wf(),
                self.grids().rows() == old(self).grids().rows(),
                self.grids().cols() == old(self).grids().cols(),
                fought(old(self).grids().cells(), self.grids().cells()),
                forall|j: int|
                    0 <= j < coords@.len() ==> old(self).grids().contains(#[trigger] coords@[j]),
                fl.round() == self.floor().turns(coords@, i as int),
            decreases coords@.len() - i,
        {
            let p = coords[i];
            i += 1;
            let g = *self.grids.get(p).unwrap();
            if g.unit.is_none() {
                continue ;
            }
            match self.find_close_enemy(p) {
                Some(enemy_pos) => {
                    self.attack(p, enemy_pos);
                },
                None => {
                    if let Some(next_pos) = self.find_nearest_enemy(p) {
                        self.move_unit(p, next_pos);
                        if let Some(enemy_pos) = self.find_close_enemy(next_pos) {
                            self.attack(next_pos, enemy_pos);
                        }
                    }
                },
            }
        }
    }

    /// Lets rounds pass until one side alone is left, at most `limit` of
    /// them. Returns the number of rounds and the winner.
    pub fn run_to_end(&mut self, limit: usize) -> (r: Option<(usize, UnitKind)>)
        requires
            old(self).wf(),
        ensures
            final(self).wf(),
            final(self).grids().rows() == old(self).grids().rows(),
            final(self).grids().cols() == old(self).grids().cols(),
            fought(old(self).grids().cells(), final(self).grids().cells()),
            match r {
                Some((rounds, winner)) => rounds <= limit && winner_of(final(self).grids().cells())
                    == Some(winner),
                None => winner_of(final(self).grids().cells()) is None,
            },
            old(self).floor().fight(0, limit as nat) == (final(self).floor(), ended(r)),
    {
        let mut r: usize = 0;
        loop
            invariant
                old(self).floor().fight(0, limit as nat) == self.floor().fight(r as nat, limit as nat),
                r <= limit,
                self.wf(),
                self.grids().rows() == old(self).grids().rows(),
                self.grids().cols() == old(self).grids().cols(),
                fought(old(self).grids().cells(), self.grids().cells()),
            decreases limit - r,
        {
            if let Some(winner) = self.winner() {
                return Some((r, winner));
            }
            if r == limit {
                return None;
            }
            self.update();
            r += 1;
        }
    }

    /// Reads a cave from its lines: `#` for wall, `.` for open ground,
    /// `G` for a goblin and `E` for an elf; the units are numbered from
    /// one in reading order. The first line gives the width; a longer
    /// line, text without lines and an unknown character are malformed.
    pub fn from_lines(lines: &Vec<String>) -> (r: Result<Cave, Error>)
        ensures
            cave_read(lines.deep_view(), r),
    {
        let ghost text = lines.deep_view();
        let h = lines.len();
        if h == 0 {
            return Err(Error::MalformedInput);
        }
        assert(text[0] == lines@[0]@);
        let w = lines[0].as_str().unicode_len();
        if h.checked_mul(w).is_none() {
            return Err(Error::MalformedInput);
        }
        let mut cave = Cave::new(h, w);
        let mut id: usize = 1;
        let mut y: usize = 0;
        proof {
            assert forall|p: Pos| cave.grids().contains(p) implies #[trigger] cave.grids().at(p)
                == drawn_before(text, p, 0, 0) by {
                cave.grids().lemma_index_in_range(p);
            }
        }
        while y < h
            invariant
                y <= h,
                h == lines@.len(),
                text == lines.deep_view(),
                w == text[0].len(),
                cave.wf(),
                cave.grids().wf(),
                cave.grids().rows() == h,
                cave.grids().cols() == w,
                id == number_at(text, y as int, 0),
                forall|j: int| 0 <= j < y ==> (#[trigger] text[j]).len() <= w && line_known(text[j]),
                forall|p: Pos|
                    cave.grids().contains(p) ==> #[trigger] cave.grids().at(p) == drawn_before(
                        text,
                        p,
                        y as int,
                        0,
                    ),
            decreases h - y,
        {
            let line = lines[y].as_str();
            assert(text[y as int] == line@);
            let len = line.unicode_len();
            if len > w {
                return Err(Error::MalformedInput);
            }
            let mut x: usize = 0;
            while x < len
                invariant
                    x <= len,
                    len <= w,
                    y < h,
                    h == lines@.len(),
                    text == lines.deep_view(),
                    line@ == text[y as int],
                    len == line@.len(),
                    cave.wf(),
                    cave.grids().wf(),
                    cave.grids().rows() == h,
                    cave.grids().cols() == w,
                    id == number_at(text, y as int, x as int),
                    forall|i: int| 0 <= i < x ==> square_of_char(#[trigger] line@[i], 0) is Some,
                    forall|p: Pos|
                        cave.grids().contains(p) ==> #[trigger] cave.grids().at(p) == drawn_before(
                            text,
                            p,
                            y as int,
                            x as int,
                        ),
                decreases len - x,
            {
                let grid = match Grid::from_char(line.get_char(x), id) {
                    Ok(g) => g,
                    Err(e) => {
                        proof {
                            assert(square_of_char(text[y as int][x as int], 0) is None);
                            assert(!line_known(text[y as int]));
                        }
                        return Err(e);
                    },
                };
                proof {
                    assert(units_in(line@, x + 1) == units_in(line@, x as int) + if kind_of_char(
                        line@[x as int],
                    ) is Some {
                        1nat
                    } else {
                        0nat
                    });
                }
                if grid.unit.is_some() {
                    id = if id == usize::MAX {
                        id
                    } else {
                        id + 1
                    };
                }
                let ghost before = cave.grids();
                cave.set(Pos::new(x, y), grid);
                proof {
                    let at = Pos { x, y };
                    assert forall|p: Pos| cave.grids().contains(p) implies #[trigger] cave.grids().at(
                        p,
                    ) == drawn_before(text, p, y as int, x + 1) by {
                        before.lemma_index_in_range(p);
                        before.lemma_index_in_range(at);
                        if p != at {
                            lemma_distinct_places(before, p, at);
                            assert(cave.grids().at(p) == before.at(p));
                        }
                    }
                }
                x += 1;
            }
            proof {
                assert(line_known(text[y as int]));
                assert(units_above(text, y + 1) == units_above(text, y as int) + units_in(
                    text[y as int],
                    text[y as int].len() as int,
                ));
            }
            y += 1;
        }
        proof {
            assert(cave_read(text, Ok(cave)));
        }
        Ok(cave)
    }

    /// Reads a cave.
    pub fn parse(s: &str) -> (r: Result<Cave, Error>)
        ensures
            cave_read(text_lines(s@), r),
    {
        let all = lines(s);
        Cave::from_lines(&all)
    }
}

/// How many of the first `upto` characters of a line draw a unit.
pub open spec fn units_in(line: Seq<char>, upto: int) -> nat
    decreases upto,
{
    if upto <= 0 {
        0
    } else {
        units_in(line, upto - 1) + if kind_of_char(line[upto - 1]) is Some {
            1nat
        } else {
            0nat
        }
    }
}

/// How many characters of the lines before line `y` draw a unit.
pub open spec fn units_above(lines: Seq<Seq<char>>, y: int) -> nat
    decreases y,
{
    if y <= 0 {
        0
    } else {
        units_above(lines, y - 1) + units_in(lines[y - 1], lines[y - 1].len() as int)
    }
}

/// The number for a unit at place `x` of line `y`: one more than the
/// units before it in reading order, as far as the machine can count.
pub open spec fn number_at(lines: Seq<Seq<char>>, y: int, x: int) -> usize {
    if 1 + units_above(lines, y) + units_in(lines[y], x) >= usize::MAX {
        usize::MAX
    } else {
        (1 + units_above(lines, y) + units_in(lines[y], x)) as usize
    }
}

/// Whether every character of the line draws a square.
pub open spec fn line_known(line: Seq<char>) -> bool {
    forall|i: int| 0 <= i < line.len() ==> square_of_char(#[trigger] line[i], 0) is Some
}

/// The square at `p` of the cave that the lines draw, once the lines
/// before line `y` and the characters before place `x` of line `y` are
/// drawn: what the character at `p` draws, and solid wall where nothing
/// is drawn yet or the line of `p` has no character for it.
pub open spec fn drawn_before(lines: Seq<Seq<char>>, p: Pos, y: int, x: int) -> Grid {
    if (p.y < y || (p.y == y && p.x < x)) && p.y < lines.len() && p.x < lines[p.y as int].len() {
        match square_of_char(lines[p.y as int][p.x as int], number_at(lines, p.y as int, p.x as int)) {
            Some(g) => g,
            None => Grid { kind: GridKind::Wall, unit: None },
        }
    } else {
        Grid { kind: GridKind::Wall, unit: None }
    }
}

/// Whether the lines draw a cave: there is a line, no line is longer
/// than the first, every character draws a square, and the cave can be
/// addressed.
pub open spec fn draws_cave(lines: Seq<Seq<char>>) -> bool {
    &&& lines.len() > 0
    &&& lines.len() * lines[0].len() <= usize::MAX
    &&& forall|j: int|
        0 <= j < lines.len() ==> (#[trigger] lines[j]).len() <= lines[0].len() && line_known(
            lines[j],
        )
}

/// Whether `r` is what reading a cave from its lines gives: a cave of as
/// many rows as there are lines and as many columns as the first line has
/// characters, with the square that each character draws; or
/// `MalformedInput` where the lines draw no cave.
pub open spec fn cave_read(lines: Seq<Seq<char>>, r: Result<Cave, Error>) -> bool {
    match r {
        Ok(c) => {
            &&& draws_cave(lines)
            &&& c.wf()
            &&& c.grids().wf()
            &&& c.grids().rows() == lines.len()
            &&& c.grids().cols() == lines[0].len()
            &&& forall|p: Pos|
                c.grids().contains(p) ==> #[trigger] c.grids().at(p) == drawn_before(
                    lines,
                    p,
                    lines.len() as int,
                    0,
                )
        },
        Err(e) => e == Error::MalformedInput && !draws_cave(lines),
    }
}

impl core::str::FromStr for Cave {
    type Err = Error;

    /// Reads a cave.
    fn from_str(s: &str) -> (r: Result<Self, Error>)
        ensures
            cave_read(text_lines(s@), r),
    {
        Cave::parse(s)
    }
}

/// The end of a fight as numbers.
pub open spec fn ended(r: Option<(usize, UnitKind)>) -> Option<(nat, UnitKind)> {
    match r {
        Some((rounds, w)) => Some((rounds as nat, w)),
        None => None,
    }
}

/// Whether `outcome` is a number of rounds, at most `limit`, times the
/// hit points of the units on the squares.
pub open spec fn is_outcome(cells: Seq<Grid>, limit: nat, outcome: u64) -> bool {
    exists|rounds: nat| rounds <= limit && #[trigger] (rounds * hp_of(cells)) == outcome
}

/// The outcome of the fight: the number of rounds times the hit points
/// that are left. Nothing where the fight is not over after `limit`
/// rounds, or the outcome is more than the machine can hold.
pub fn part1(g: &mut Cave, limit: usize) -> (r: Option<u64>)
    requires
        old(g).wf(),
    ensures
        final(g).wf(),
        final(g).grids().rows() == old(g).grids().rows(),
        final(g).grids().cols() == old(g).grids().cols(),
        fought(old(g).grids().cells(), final(g).grids().cells()),
        r matches Some(outcome) ==> winner_of(final(g).grids().cells()) is Some && is_outcome(
            final(g).grids().cells(),
            limit as nat,
            outcome,
        ),
        r == old(g).floor().outcome(limit as nat),
        final(g).floor() == old(g).floor().fight(0, limit as nat).0,
{
    let (rounds, _) = match g.run_to_end(limit) {
        Some(r) => r,
        None => {
            return None;
        },
    };
    let (_, _, hp) = g.count();
    if hp > u64::MAX as u128 || rounds as u128 > u64::MAX as u128 {
        return None;
    }
    let r = (rounds as u64).checked_mul(hp as u64);
    proof {
        if let Some(outcome) = r {
            assert((rounds as nat) * hp_of(g.grids().cells()) == outcome);
        }
    }
    r
}

/// Whether `outcome` is what is left of a fight that the elves have won
/// without a loss: a number of rounds, at most `limit`, less one, times
/// the hit points of the units on the squares, on which as many elves
/// stand as `elfs` and no goblin.
pub open spec fn is_clean_win(cells: Seq<Grid>, elfs: nat, limit: nat, outcome: u64) -> bool {
    &&& winner_of(cells) == Some(UnitKind::Elf)
    &&& units_of(cells, UnitKind::Elf) == elfs
    &&& exists|rounds: nat| 1 <= rounds <= limit && #[trigger] ((rounds - 1) * hp_of(cells)) == outcome
}

/// The outcome of the fight with the least attack power, from four to
/// `max_atk`, with which the elves win without a loss: the number of
/// rounds less one, times the hit points that are left.
pub fn part2(g: &Cave, limit: usize, max_atk: u64) -> (r: Option<u64>)
    requires
        g.wf(),
    ensures
        r matches Some(outcome) ==> max_atk >= 4 && exists|cells: Seq<Grid>| #[trigger]
            is_clean_win(
                cells,
                units_of(g.grids().cells(), UnitKind::Elf),
                limit as nat,
                outcome,
            ),
        r == g.floor().clean_win(4, max_atk, limit as nat),
{
    let elfs = g.elfs();
    let mut atk: u64 = 4;
    while atk <= max_atk
        invariant
            4 <= atk,
            g.wf(),
            elfs == units_of(g.grids().cells(), UnitKind::Elf),
            g.floor().clean_win(4, max_atk, limit as nat) == g.floor().clean_win(
                atk,
                max_atk,
                limit as nat,
            ),
        decreases max_atk + 1 - atk,
    {
        let mut cave = g.duplicate();
        cave.upgrade_elf_weapons(atk);
        if let Some((rounds, winner)) = cave.run_to_end(limit) {
            if winner == UnitKind::Elf && elfs == cave.elfs() {
                let (_, _, hp) = cave.count();
                if hp > u64::MAX as u128 || rounds == 0 || rounds as u128 > u64::MAX as u128 {
                    return None;
                }
                let r = ((rounds - 1) as u64).checked_mul(hp as u64);
                proof {
                    if let Some(outcome) = r {
                        let cells = cave.grids().cells();
                        assert(((rounds as nat) - 1) * hp_of(cells) == outcome);
                        assert(is_clean_win(cells, elfs as nat, limit as nat, outcome));
                    }
                }
                return r;
            }
        }
        if atk == u64::MAX {
            return None;
        }
        atk += 1;
    }
    None
}

/// The cave of the puzzle and that of its example.
#[derive(Debug)]
pub struct Solution15 {
    pub data: Option<Cave>,
    pub sample: Option<Cave>,
}

impl Solution15 {
    /// The cave of the input, once read.
    pub closed spec fn data(self) -> Option<Cave> {
        self.data
    }

    /// The cave of the example, once read.
    pub closed spec fn sample(self) -> Option<Cave> {
        self.sample
    }

    /// A solution without input.
    pub fn new() -> (s: Self)
        ensures
            s.data() is None,
            s.sample() is None,
    {
        Solution15 { data: None, sample: None }
    }

    /// Reads the input and the example. On an error the solution keeps
    /// what it had.
    pub fn init(&mut self, data: &str, sample: &str) -> (r: Result<(), Error>)
        ensures
            match r {
                Ok(()) => {
                    &&& final(self).data() matches Some(c) && cave_read(text_lines(data@), Ok(c))
                    &&& final(self).sample() matches Some(c) && cave_read(
                        text_lines(sample@),
                        Ok(c),
                    )
                },
                Err(e) => *final(self) == *old(self) && (cave_read(text_lines(data@), Err(e))
                    || cave_read(text_lines(sample@), Err(e))),
            },
    {
        let data = match Cave::parse(data) {
            Ok(c) => c,
            Err(e) => {
                return Err(e);
            },
        };
        let sample = match Cave::parse(sample) {
            Ok(c) => c,
            Err(e) => {
                return Err(e);
            },
        };
        self.data = Some(data);
        self.sample = Some(sample);
        Ok(())
    }
}

} // verus!
