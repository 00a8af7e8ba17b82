//! An immune system fights an infection: groups of units choose targets
//! and attack each other until one side is gone.

use crate::error::Error;
use crate::util::pattern::{captures, captures_of, group, group_of, size, size_of};
use crate::util::text::{lines, same_text, split_char, split_on, text_lines};
use vstd::prelude::*;
use vstd::string::*;

verus! {

/// A group of like units.
#[derive(Debug)]
pub struct Group {
    pub units: usize,
    pub hp: usize,
    pub atk_damage: usize,
    pub atk_type: String,
    pub initiative: usize,
    pub weakness: Vec<String>,
    pub immunities: Vec<String>,
}

/// The two armies.
#[derive(Debug)]
pub struct Data {
    pub infection: Vec<Group>,
    pub immune_system: Vec<Group>,
}

/// Whether one of the texts is `wanted`.
pub open spec fn lists(all: Seq<Seq<char>>, wanted: Seq<char>) -> bool {
    exists|i: int| 0 <= i < all.len() && #[trigger] all[i] == wanted
}

fn list_holds(all: &Vec<String>, wanted: &str) -> (b: bool)
    ensures
        b == lists(all.deep_view(), wanted@),
{
    let mut i: usize = 0;
    while i < all.len()
        invariant
            i <= all@.len(),
            forall|j: int| 0 <= j < i ==> #[trigger] all.deep_view()[j] != wanted@,
        decreases all@.len() - i,
    {
        assert(all.deep_view()[i as int] == all@[i as int]@);
        if same_text(all[i].as_str(), wanted) {
            return true;
        }
        i += 1;
    }
    false
}

/// Twice a number holds a divisor twice as often as the number, and as
/// often again as twice the remainder holds it.
pub proof fn lemma_double_quotient(d: int, h: int)
    requires
        d >= 0,
        h > 0,
    ensures
        (d * 2) / h == 2 * (d / h) + (2 * (d % h)) / h,
        (d * 2) / h >= d / h,
{
    let q = d / h;
    let r = d % h;
    assert(d == q * h + r && 0 <= r < h) by (nonlinear_arith)
        requires
            q == d / h,
            r == d % h,
            h > 0,
            d >= 0,
    ;
    let e = (2 * r) / h;
    let f = (2 * r) % h;
    assert(2 * r == e * h + f && 0 <= f < h) by (nonlinear_arith)
        requires
            e == (2 * r) / h,
            f == (2 * r) % h,
            h > 0,
            r >= 0,
    ;
    assert(d * 2 == (2 * q + e) * h + f) by (nonlinear_arith)
        requires
            d == q * h + r,
            2 * r == e * h + f,
    ;
    assert((d * 2) / h == 2 * q + e) by (nonlinear_arith)
        requires
            d * 2 == (2 * q + e) * h + f,
            0 <= f < h,
            h > 0,
    ;
    assert(e >= 0) by (nonlinear_arith)
        requires
            2 * r == e * h + f,
            0 <= f < h,
            r >= 0,
            h > 0,
    ;
    assert(q >= 0) by (nonlinear_arith)
        requires
            d == q * h + r,
            0 <= r < h,
            d >= 0,
            h > 0,
    ;
}

impl Group {
    /// The damage that the group deals: all its units together.
    pub open spec fn power(self) -> nat {
        (self.atk_damage * self.units) as nat
    }

    /// By how much damage of the type `atk_type` counts against this
    /// group: not at all where it is immune, double where it is weak.
    pub open spec fn factor(self, atk_type: Seq<char>) -> nat {
        if lists(self.immunities.deep_view(), atk_type) {
            0
        } else if lists(self.weakness.deep_view(), atk_type) {
            2
        } else {
            1
        }
    }

    /// How many units of `target` an attack of this group destroys: as
    /// many as the damage kills outright, and no more than there are.
    pub open spec fn destroyed(self, target: Group) -> nat {
        let total = self.power() * target.factor(self.atk_type@);
        if total / (target.hp as nat) < target.units {
            total / (target.hp as nat)
        } else {
            target.units as nat
        }
    }

    /// How many units of `target` an attack of this group destroys.
    pub fn attack(&self, target: &Group) -> (n: usize)
        requires
            target.hp > 0,
        ensures
            n == self.destroyed(*target),
            n <= target.units,
    {
        let dmg = self.wide_power();
        let factor = target.type_factor(self.atk_type.as_str());
        let hp = target.hp as u128;
        let whole = dmg / hp;
        let rest = dmg % hp;
        proof {
            lemma_double_quotient(dmg as int, hp as int);
        }
        if factor == 0 {
            assert(dmg * 0 == 0) by (nonlinear_arith);
            0
        } else if factor == 1 {
            assert(dmg * 1 == dmg) by (nonlinear_arith);
            if whole < target.units as u128 {
                whole as usize
            } else {
                target.units
            }
        } else {
            if whole >= target.units as u128 {
                target.units
            } else {
                let killed = 2 * whole + (2 * rest) / hp;
                if killed < target.units as u128 {
                    killed as usize
                } else {
                    target.units
                }
            }
        }
    }

    fn wide_power(&self) -> (p: u128)
        ensures
            p == self.power(),
            p <= 0xffff_ffff_ffff_ffff * 0xffff_ffff_ffff_ffff,
    {
        let a = self.atk_damage as u128;
        let u = self.units as u128;
        assert(a * u <= 0xffff_ffff_ffff_ffff * 0xffff_ffff_ffff_ffff) by (nonlinear_arith)
            requires
                a <= 0xffff_ffff_ffff_ffff,
                u <= 0xffff_ffff_ffff_ffff,
        ;
        a * u
    }

    /// The damage that the group deals: all its units together.
    pub fn effective_power(&self) -> (p: usize)
        requires
            self.power() <= usize::MAX,
        ensures
            p == self.power(),
    {
        self.atk_damage * self.units
    }

    /// By how much damage of the type `atk_type` counts against this
    /// group.
    pub fn type_factor(&self, atk_type: &str) -> (f: usize)
        ensures
            f == self.factor(atk_type@),
            f <= 2,
    {
        if list_holds(&self.immunities, atk_type) {
            0
        } else if list_holds(&self.weakness, atk_type) {
            2
        } else {
            1
        }
    }

    /// The damage that an attack of `atk_damage` of the type `atk_type`
    /// would do to this group.
    pub fn possible_damage(&self, atk_damage: usize, atk_type: &str) -> (d: usize)
        requires
            self.factor(atk_type@) * atk_damage <= usize::MAX,
        ensures
            d == self.factor(atk_type@) * atk_damage,
    {
        self.type_factor(atk_type) * atk_damage
    }

    /// Whether the group has no units left.
    pub fn is_dead(&self) -> (b: bool)
        ensures
            b == (self.units == 0),
    {
        self.units == 0
    }
}

/// The units of all groups together.
pub open spec fn total_units(units: Seq<usize>) -> nat
    decreases units.len(),
{
    if units.len() == 0 {
        0
    } else {
        total_units(units.drop_last()) + units.last() as nat
    }
}

/// Taking units away from one group leaves as many fewer in all.
pub proof fn lemma_total_units_update(units: Seq<usize>, i: int, left: usize)
    requires
        0 <= i < units.len(),
        left <= units[i],
    ensures
        total_units(units.update(i, left)) + (units[i] - left) == total_units(units),
    decreases units.len(),
{
    let after = units.update(i, left);
    if i == units.len() - 1 {
        assert(after.drop_last() =~= units.drop_last());
    } else {
        lemma_total_units_update(units.drop_last(), i, left);
        assert(after.drop_last() =~= units.drop_last().update(i, left));
    }
}

/// All groups together have no more units than the machine can count
/// in 128 bits.
pub proof fn lemma_total_units_bound(units: Seq<usize>)
    requires
        units.len() <= 0xffff_ffff_ffff_ffff,
    ensures
        total_units(units) <= units.len() * 0xffff_ffff_ffff_ffff,
        total_units(units) <= u128::MAX,
    decreases units.len(),
{
    if units.len() > 0 {
        lemma_total_units_bound(units.drop_last());
        let n = units.len() as int;
        assert(n * 0xffff_ffff_ffff_ffff == (n - 1) * 0xffff_ffff_ffff_ffff + 0xffff_ffff_ffff_ffff)
            by (nonlinear_arith);
        assert(n * 0xffff_ffff_ffff_ffff <= u128::MAX) by (nonlinear_arith)
            requires
                0 <= n <= 0xffff_ffff_ffff_ffff,
        ;
    }
}

/// Whether every member is the number of a group.
pub open spec fn all_below(order: Seq<usize>, n: nat) -> bool {
    forall|k: int| 0 <= k < order.len() ==> #[trigger] order[k] < n
}

/// The smaller of two numbers.
pub open spec fn least(a: int, b: int) -> int {
    if a < b {
        a
    } else {
        b
    }
}

/// The armies in a fight, as numbers: the groups of both sides, immune
/// system first; how many of them belong to the immune system; the
/// damage that a unit of each group deals and the units that each group
/// has left; and the groups that are still in the fight, in the order of
/// their turns.
pub ghost struct Battle {
    pub groups: Seq<Group>,
    pub immune: nat,
    pub damage: Seq<usize>,
    pub units: Seq<usize>,
    pub order: Seq<usize>,
}

impl Battle {
    /// Every group has its units and its damage, no group has hit points
    /// of zero, and the order names groups only.
    pub open spec fn wf(self) -> bool {
        &&& self.units.len() == self.groups.len()
        &&& self.damage.len() == self.groups.len()
        &&& self.immune <= self.groups.len()
        &&& all_below(self.order, self.groups.len())
        &&& forall|i: int| 0 <= i < self.groups.len() ==> (#[trigger] self.groups[i]).hp > 0
    }

    /// The damage that group `i` deals: all its units together.
    pub open spec fn power(self, i: int) -> nat {
        (self.damage[i] * self.units[i]) as nat
    }

    /// Whether group `i` comes before group `j` in the order of turns:
    /// by higher power, then by higher initiative.
    pub open spec fn before(self, i: int, j: int) -> bool {
        self.power(i) > self.power(j) || (self.power(i) == self.power(j)
            && self.groups[i].initiative > self.groups[j].initiative)
    }

    /// The damage that group `i` would do to group `j`: its power, not at
    /// all where `j` is immune to its kind of attack, twice where `j` is
    /// weak to it, as far as 128 bits count.
    pub open spec fn threat(self, i: int, j: int) -> nat {
        let f = self.groups[j].factor(self.groups[i].atk_type@);
        if f == 0 {
            0
        } else if f == 1 {
            self.power(i)
        } else if self.power(i) > u128::MAX / 2 {
            u128::MAX as nat
        } else {
            2 * self.power(i)
        }
    }

    /// How many units of group `target` an attack of group `attacker`
    /// destroys: as many as its damage, counted as `target` takes it,
    /// kills outright, and no more than there are.
    pub open spec fn strike(self, attacker: int, target: int) -> int {
        least(
            self.units[target] as int,
            ((self.power(attacker) * self.groups[target].factor(self.groups[attacker].atk_type@))
                as int) / (self.groups[target].hp as int),
        )
    }

    /// Where group `g` goes among the groups `sorted`, looked for from
    /// place `pos` downwards: before the groups behind which it does not
    /// come.
    pub open spec fn slot(self, sorted: Seq<usize>, g: int, pos: int) -> int
        decreases pos,
    {
        if pos > 0 && pos <= sorted.len() && self.before(g, sorted[pos - 1] as int) {
            self.slot(sorted, g, pos - 1)
        } else {
            pos
        }
    }

    /// The first `upto` groups of the order, in the order of their turns.
    pub open spec fn lined(self, upto: int) -> Seq<usize>
        decreases upto,
    {
        if upto <= 0 {
            Seq::empty()
        } else {
            let sorted = self.lined(upto - 1);
            sorted.insert(
                self.slot(sorted, self.order[upto - 1] as int, sorted.len() as int),
                self.order[upto - 1],
            )
        }
    }

    /// The first place from `k` on at which a group without units
    /// stands, or the number of groups.
    pub open spec fn living(self, sorted: Seq<usize>, k: int) -> int
        decreases sorted.len() - k,
    {
        if k < 0 || k >= sorted.len() || self.units[sorted[k] as int] == 0 {
            k
        } else {
            self.living(sorted, k + 1)
        }
    }

    /// The fight with the groups in the order of their turns, without
    /// those from the first group without units on.
    pub open spec fn lined_up(self) -> Battle {
        let sorted = self.lined(self.order.len() as int);
        Battle { order: sorted.take(self.living(sorted, 0)), ..self }
    }

    /// How many of the first `upto` groups in the fight belong to the
    /// immune system.
    pub open spec fn immune_in(self, upto: int) -> nat
        decreases upto,
    {
        if upto <= 0 {
            0
        } else {
            self.immune_in(upto - 1) + if self.order[upto - 1] < self.immune {
                1nat
            } else {
                0nat
            }
        }
    }

    /// How many units the first `upto` groups in the fight have together.
    pub open spec fn units_in(self, upto: int) -> nat
        decreases upto,
    {
        if upto <= 0 {
            0
        } else {
            self.units_in(upto - 1) + self.units[self.order[upto - 1] as int] as nat
        }
    }

    /// Whether group `i` attacks group `j` rather than group `c`: it
    /// would damage it more; or as much, and `j` has more power; or as
    /// much of that too, and `j` has no less initiative.
    pub open spec fn prefers(self, i: int, j: int, c: int) -> bool {
        self.threat(i, j) > self.threat(i, c) || (self.threat(i, j) == self.threat(i, c) && (
        self.power(j) > self.power(c) || (self.power(j) == self.power(c)
            && self.groups[j].initiative >= self.groups[c].initiative)))
    }

    /// The place in the order of the target of group `i`, once the places
    /// from `b` on are looked at too, where `best` is the choice among
    /// the places before: an enemy that is not taken yet, the one that
    /// group `i` prefers.
    pub open spec fn pick(self, i: int, taken: Seq<bool>, b: int, best: Option<int>) -> Option<int>
        decreases self.order.len() - b,
    {
        if b < 0 || b >= self.order.len() {
            best
        } else {
            let j = self.order[b];
            let next = if (j < self.immune) != (i < self.immune) && !taken[b] {
                match best {
                    None => Some(b),
                    Some(c) => if self.prefers(i, j as int, self.order[c] as int) {
                        Some(b)
                    } else {
                        Some(c)
                    },
                }
            } else {
                best
            };
            self.pick(i, taken, b + 1, next)
        }
    }

    /// The attackers with their targets, once the groups from place `a`
    /// of the order on have chosen too, in the order of their turns.
    pub open spec fn chosen(self, a: int, taken: Seq<bool>, targets: Seq<(usize, usize)>) -> Seq<
        (usize, usize),
    >
        decreases self.order.len() - a,
    {
        if a < 0 || a >= self.order.len() {
            targets
        } else {
            match self.pick(self.order[a] as int, taken, 0, None) {
                Some(c) => self.chosen(
                    a + 1,
                    taken.update(c, true),
                    targets.push((self.order[a], self.order[c])),
                ),
                None => self.chosen(a + 1, taken, targets),
            }
        }
    }

    /// The attackers with their targets: every group in the fight
    /// chooses, in the order of the turns, of the enemies that no one has
    /// chosen yet the one that it prefers.
    pub open spec fn targets(self) -> Seq<(usize, usize)> {
        self.chosen(0, Seq::new(self.order.len(), |i: int| false), Seq::empty())
    }

    /// Where the attack `pair` goes among the attacks `sorted`, looked
    /// for from place `pos` downwards: before the attacks of groups with
    /// less initiative.
    pub open spec fn turn_slot(self, sorted: Seq<(usize, usize)>, pair: (usize, usize), pos: int) -> int
        decreases pos,
    {
        if pos > 0 && pos <= sorted.len() && self.groups[pair.0 as int].initiative
            > self.groups[sorted[pos - 1].0 as int].initiative {
            self.turn_slot(sorted, pair, pos - 1)
        } else {
            pos
        }
    }

    /// The first `upto` attacks by falling initiative of the attackers.
    pub open spec fn by_turn(self, targets: Seq<(usize, usize)>, upto: int) -> Seq<(usize, usize)>
        decreases upto,
    {
        if upto <= 0 {
            Seq::empty()
        } else {
            let sorted = self.by_turn(targets, upto - 1);
            sorted.insert(
                self.turn_slot(sorted, targets[upto - 1], sorted.len() as int),
                targets[upto - 1],
            )
        }
    }

    /// The fight after the attacks from place `k` on: each destroys the
    /// units that it destroys of what its target has left by then.
    pub open spec fn struck(self, sorted: Seq<(usize, usize)>, k: int) -> Battle
        decreases sorted.len() - k,
    {
        if k < 0 || k >= sorted.len() {
            self
        } else {
            let (attacker, target) = sorted[k];
            let left = (self.units[target as int] - self.strike(attacker as int, target as int)) as usize;
            (Battle { units: self.units.update(target as int, left), ..self }).struck(sorted, k + 1)
        }
    }

    /// The fight after the attacks, by falling initiative of the
    /// attackers.
    pub open spec fn fought(self, targets: Seq<(usize, usize)>) -> Battle {
        self.struck(self.by_turn(targets, targets.len() as int), 0)
    }

    /// How the fight ends: whether one side has won, whether that is the
    /// immune system, and how many units the winner has left, as far as
    /// the machine can count. Round after round the groups line up,
    /// choose their targets and attack; a side has won when the groups
    /// in the fight are all its own or there is none; a round that
    /// destroys no unit ends the fight without a winner.
    pub open spec fn outcome(self) -> (bool, bool, usize)
        decreases total_units(self.units),
    {
        let b = self.lined_up();
        let imms = b.immune_in(b.order.len() as int);
        let n = b.units_in(b.order.len() as int);
        if imms == 0 || imms == b.order.len() {
            (
                true,
                imms != 0,
                if n > usize::MAX {
                    usize::MAX
                } else {
                    n as usize
                },
            )
        } else {
            let after = b.fought(b.targets());
            if total_units(after.units) < total_units(self.units) {
                after.outcome()
            } else {
                (false, false, 0)
            }
        }
    }
}

/// Whether the armies can fight: no group has hit points of zero.
pub open spec fn can_fight(d: Data) -> bool {
    &&& forall|i: int| 0 <= i < d.immune_system@.len() ==> (#[trigger] d.immune_system@[i]).hp > 0
    &&& forall|i: int| 0 <= i < d.infection@.len() ==> (#[trigger] d.infection@[i]).hp > 0
}

/// Whether the boost can be added to the damage of every group of the
/// immune system.
pub open spec fn boost_fits(d: Data, boost: usize) -> bool {
    forall|i: int|
        0 <= i < d.immune_system@.len() ==> (#[trigger] d.immune_system@[i]).atk_damage + boost
            <= usize::MAX
}

/// The fight of the armies before the first round, with `boost` more
/// damage for every unit of the immune system. Nothing where the armies
/// cannot fight or the boost is more than the machine can add.
pub open spec fn start(d: Data, boost: usize) -> Option<Battle> {
    if can_fight(d) && boost_fits(d, boost) {
        let groups = d.immune_system@ + d.infection@;
        let immune = d.immune_system@.len();
        Some(
            Battle {
                groups,
                immune,
                damage: Seq::new(
                    groups.len(),
                    |i: int|
                        if i < immune {
                            (groups[i].atk_damage + boost) as usize
                        } else {
                            groups[i].atk_damage
                        },
                ),
                units: Seq::new(groups.len(), |i: int| groups[i].units),
                order: Seq::new(groups.len(), |i: int| i as usize),
            },
        )
    } else {
        None
    }
}

/// How the fight of the armies ends, with `boost` more damage for every
/// unit of the immune system; without a winner where there is no fight.
pub open spec fn combat(d: Data, boost: usize) -> (bool, bool, usize) {
    match start(d, boost) {
        Some(b) => b.outcome(),
        None => (false, false, 0),
    }
}

/// The groups that the references name.
pub open spec fn groups_of(groups: Seq<&Group>) -> Seq<Group> {
    Seq::new(groups.len(), |i: int| *groups[i])
}

/// The armies in the field: the groups of both sides, immune system
/// first, with the units that each has left and the damage that each of
/// its units deals.
pub struct Field<'a> {
    groups: Vec<&'a Group>,
    immune: usize,
    units: Vec<usize>,
    damage: Vec<usize>,
    order: Vec<usize>,
}

impl<'a> Field<'a> {
    /// The fight as numbers.
    pub closed spec fn model(self) -> Battle {
        Battle {
            groups: groups_of(self.groups@),
            immune: self.immune as nat,
            damage: self.damage@,
            units: self.units@,
            order: self.order@,
        }
    }

    /// The units that each group has left.
    pub closed spec fn units(self) -> Seq<usize> {
        self.units@
    }

    /// The groups that are still in the fight, in the order of their
    /// turns.
    pub closed spec fn order(self) -> Seq<usize> {
        self.order@
    }

    /// How many groups took the field.
    pub closed spec fn size(self) -> nat {
        self.groups@.len()
    }

    /// How many of the groups belong to the immune system.
    pub closed spec fn immune_count(self) -> nat {
        self.immune as nat
    }

    /// Every group has its units and its damage, no group has hit points
    /// of zero, and the order names groups only.
    pub closed spec fn wf(self) -> bool {
        &&& self.units@.len() == self.groups@.len()
        &&& self.damage@.len() == self.groups@.len()
        &&& self.immune <= self.groups@.len()
        &&& all_below(self.order@, self.groups@.len())
        &&& forall|i: int| 0 <= i < self.groups@.len() ==> (#[trigger] self.groups@[i]).hp > 0
    }

    /// Whether every group in the fight has units left.
    pub closed spec fn all_alive(self) -> bool {
        forall|k: int|
            0 <= k < self.order@.len() ==> self.units@[(#[trigger] self.order@[k]) as int] > 0
    }

    /// The armies of `d`, with `boost` more damage for every unit of the
    /// immune system. Nothing where a group has hit points of zero or the
    /// boost is more than the machine can add.
    pub fn new(d: &'a Data, boost: usize) -> (r: Option<Field<'a>>)
        ensures
            match r {
                Some(f) => f.wf() && f.size() == d.immune_system@.len() + d.infection@.len()
                    && f.order().len() == f.size() && f.immune_count() == d.immune_system@.len()
                    && start(*d, boost) == Some(f.model()),
                None => start(*d, boost) is None,
            },
    {
        let mut groups: Vec<&Group> = Vec::new();
        let mut units: Vec<usize> = Vec::new();
        let mut damage: Vec<usize> = Vec::new();
        let mut order: Vec<usize> = Vec::new();
        let mut i: usize = 0;
        while i < d.immune_system.len()
            invariant
                i <= d.immune_system@.len(),
                groups@.len() == i,
                units@.len() == i,
                damage@.len() == i,
                order@.len() == i,
                all_below(order@, i as nat),
                forall|k: int| 0 <= k < i ==> (#[trigger] groups@[k]).hp > 0,
                forall|k: int|
                    0 <= k < i ==> (#[trigger] d.immune_system@[k]).hp > 0
                        && d.immune_system@[k].atk_damage + boost <= usize::MAX,
                forall|k: int|
                    0 <= k < i ==> *(#[trigger] groups@[k]) == d.immune_system@[k] && units@[k]
                        == d.immune_system@[k].units && damage@[k] == d.immune_system@[k].atk_damage
                        + boost && order@[k] == k,
            decreases d.immune_system@.len() - i,
        {
            let g = &d.immune_system[i];
            if g.hp == 0 {
                return None;
            }
            let dmg = match g.atk_damage.checked_add(boost) {
                Some(v) => v,
                None => {
                    return None;
                },
            };
            order.push(groups.len());
            groups.push(g);
            units.push(g.units);
            damage.push(dmg);
            i += 1;
        }
        let immune = groups.len();
        let mut j: usize = 0;
        while j < d.infection.len()
            invariant
                j <= d.infection@.len(),
                immune == d.immune_system@.len(),
                groups@.len() == immune + j,
                units@.len() == immune + j,
                damage@.len() == immune + j,
                order@.len() == immune + j,
                all_below(order@, (immune + j) as nat),
                forall|k: int| 0 <= k < immune + j ==> (#[trigger] groups@[k]).hp > 0,
                forall|k: int|
                    0 <= k < immune ==> (#[trigger] d.immune_system@[k]).hp > 0
                        && d.immune_system@[k].atk_damage + boost <= usize::MAX,
                forall|k: int| 0 <= k < j ==> (#[trigger] d.infection@[k]).hp > 0,
                forall|k: int|
                    0 <= k < immune ==> *(#[trigger] groups@[k]) == d.immune_system@[k] && units@[k]
                        == d.immune_system@[k].units && damage@[k] == d.immune_system@[k].atk_damage
                        + boost && order@[k] == k,
                forall|k: int|
                    immune <= k < immune + j ==> *(#[trigger] groups@[k]) == d.infection@[k - immune]
                        && units@[k] == d.infection@[k - immune].units && damage@[k]
                        == d.infection@[k - immune].atk_damage && order@[k] == k,
            decreases d.infection@.len() - j,
        {
            let g = &d.infection[j];
            if g.hp == 0 {
                return None;
            }
            let ghost earlier = groups@;
            order.push(groups.len());
            groups.push(g);
            units.push(g.units);
            damage.push(g.atk_damage);
            proof {
                assert forall|k: int| immune <= k < immune + j + 1 implies *(#[trigger] groups@[k])
                    == d.infection@[k - immune] && units@[k] == d.infection@[k - immune].units
                    && damage@[k] == d.infection@[k - immune].atk_damage && order@[k] == k by {
                    if k < immune + j {
                        assert(groups@[k] == earlier[k]);
                    }
                }
                assert forall|k: int| 0 <= k < immune implies *(#[trigger] groups@[k])
                    == d.immune_system@[k] && units@[k] == d.immune_system@[k].units && damage@[k]
                    == d.immune_system@[k].atk_damage + boost && order@[k] == k by {
                    assert(groups@[k] == earlier[k]);
                }
            }
            j += 1;
        }
        let f = Field { groups, immune, units, damage, order };
        proof {
            let b = start(*d, boost).unwrap();
            let m = f.model();
            assert(can_fight(*d) && boost_fits(*d, boost));
            assert forall|k: int| 0 <= k < m.groups.len() implies m.groups[k] == b.groups[k] by {
                assert(m.groups[k] == *f.groups@[k]);
                if k >= immune {
                    assert(b.groups[k] == d.infection@[k - immune]);
                }
            }
            assert(m.groups =~= b.groups);
            assert forall|k: int| 0 <= k < m.groups.len() implies m.damage[k] == b.damage[k]
                && m.units[k] == b.units[k] && m.order[k] == b.order[k] by {
                assert(m.groups[k] == *f.groups@[k]);
                assert(b.groups[k] == m.groups[k]);
            }
            assert(m.damage =~= b.damage);
            assert(m.units =~= b.units);
            assert(m.order =~= b.order);
        }
        Some(f)
    }

    /// The damage that group `i` deals: all its units together.
    fn power(&self, i: usize) -> (p: u128)
        requires
            self.wf(),
            i < self.size(),
        ensures
            p == self.model().power(i as int),
    {
        let a = self.damage[i] as u128;
        let u = self.units[i] as u128;
        assert(a * u <= u128::MAX) by (nonlinear_arith)
            requires
                a <= 0xffff_ffff_ffff_ffff,
                u <= 0xffff_ffff_ffff_ffff,
        ;
        a * u
    }

    /// Whether group `i` comes before group `j` in the order of turns:
    /// by higher power, then by higher initiative.
    fn before(&self, i: usize, j: usize) -> (b: bool)
        requires
            self.wf(),
            i < self.size(),
            j < self.size(),
        ensures
            b == self.model().before(i as int, j as int),
    {
        let (pi, pj) = (self.power(i), self.power(j));
        pi > pj || (pi == pj && self.groups[i].initiative > self.groups[j].initiative)
    }

    /// Puts the groups in the order of their turns and drops those from
    /// the first dead group on.
    fn line_up(&mut self)
        requires
            old(self).wf(),
        ensures
            final(self).wf(),
            final(self).size() == old(self).size(),
            final(self).immune_count() == old(self).immune_count(),
            final(self).units() == old(self).units(),
            final(self).order().len() <= old(self).order().len(),
            final(self).all_alive(),
            final(self).model() == old(self).model().lined_up(),
    {
        let ghost m = self.model();
        let mut sorted: Vec<usize> = Vec::new();
        let mut i: usize = 0;
        while i < self.order.len()
            invariant
                i <= self.order@.len(),
                self.wf(),
                *self == *old(self),
                m == self.model(),
                sorted@.len() == i,
                all_below(sorted@, self.groups@.len()),
                sorted@ == m.lined(i as int),
            decreases self.order@.len() - i,
        {
            let g = self.order[i];
            let mut pos: usize = sorted.len();
            while pos > 0 && self.before(g, sorted[pos - 1])
                invariant
                    pos <= sorted@.len(),
                    self.wf(),
                    m == self.model(),
                    g < self.groups@.len(),
                    all_below(sorted@, self.groups@.len()),
                    m.slot(sorted@, g as int, sorted@.len() as int) == m.slot(
                        sorted@,
                        g as int,
                        pos as int,
                    ),
                decreases pos,
            {
                pos -= 1;
            }
            let ghost prior = sorted@;
            sorted.insert(pos, g);
            proof {
                assert forall|k: int| 0 <= k < sorted@.len() implies #[trigger] sorted@[k]
                    < self.groups@.len() by {
                    if k < pos {
                        assert(sorted@[k] == prior[k]);
                    } else if k > pos {
                        assert(sorted@[k] == prior[k - 1]);
                    }
                }
            }
            i += 1;
        }
        let mut alive: Vec<usize> = Vec::new();
        let mut k: usize = 0;
        while k < sorted.len()
            invariant
                k <= sorted@.len(),
                self.wf(),
                *self == *old(self),
                m == self.model(),
                sorted@ == m.lined(m.order.len() as int),
                sorted@.len() == self.order@.len(),
                all_below(sorted@, self.groups@.len()),
                alive@ == sorted@.take(k as int),
                all_below(alive@, self.groups@.len()),
                forall|j: int| 0 <= j < k ==> self.units@[(#[trigger] alive@[j]) as int] > 0,
                m.living(sorted@, 0) == m.living(sorted@, k as int),
            ensures
                self.wf(),
                *self == *old(self),
                k <= sorted@.len(),
                alive@ == sorted@.take(k as int),
                all_below(alive@, self.groups@.len()),
                forall|j: int| 0 <= j < k ==> self.units@[(#[trigger] alive@[j]) as int] > 0,
                m.living(sorted@, 0) == k,
            decreases sorted@.len() - k,
        {
            let g = sorted[k];
            if self.units[g] == 0 {
                break ;
            }
            alive.push(g);
            proof {
                assert(alive@ =~= sorted@.take(k + 1));
            }
            k += 1;
        }
        self.order = alive;
    }

    /// How many of the groups in the fight belong to the immune system,
    /// and how many units all groups in the fight have together.
    fn tally(&self) -> (r: (usize, u128))
        requires
            self.wf(),
        ensures
            r.0 <= self.order().len(),
            r.0 > 0 ==> self.immune_count() > 0,
            r.0 == self.model().immune_in(self.order().len() as int),
            r.1 == self.model().units_in(self.order().len() as int),
    {
        let mut imms: usize = 0;
        let mut n: u128 = 0;
        let mut k: usize = 0;
        while k < self.order.len()
            invariant
                k <= self.order@.len(),
                self.wf(),
                imms <= k,
                imms > 0 ==> self.immune > 0,
                n <= k * 0xffff_ffff_ffff_ffff,
                imms == self.model().immune_in(k as int),
                n == self.model().units_in(k as int),
            decreases self.order@.len() - k,
        {
            let g = self.order[k];
            if g < self.immune {
                imms += 1;
            }
            proof {
                assert((k + 1) * 0xffff_ffff_ffff_ffff == k * 0xffff_ffff_ffff_ffff
                    + 0xffff_ffff_ffff_ffff) by (nonlinear_arith);
                assert(k * 0xffff_ffff_ffff_ffff + 0xffff_ffff_ffff_ffff <= u128::MAX)
                    by (nonlinear_arith)
                    requires
                        k < 0xffff_ffff_ffff_ffff,
                ;
            }
            n = n + self.units[g] as u128;
            k += 1;
        }
        (imms, n)
    }

    /// The damage that group `i` would do to group `j`.
    fn threat(&self, i: usize, j: usize) -> (d: u128)
        requires
            self.wf(),
            i < self.size(),
            j < self.size(),
        ensures
            d == self.model().threat(i as int, j as int),
    {
        let p = self.power(i);
        let f = self.groups[j].type_factor(self.groups[i].atk_type.as_str());
        if f == 0 {
            0
        } else if f == 1 {
            p
        } else if p > u128::MAX / 2 {
            u128::MAX
        } else {
            2 * p
        }
    }

    /// Lets every group in the fight choose its target: of the enemies
    /// that no one has chosen yet the one that it would damage most; among
    /// equals the one with more power, then the one with more initiative,
    /// then the one later in the order.
    fn choose_targets(&self) -> (targets: Vec<(usize, usize)>)
        requires
            self.wf(),
        ensures
            targets@.len() <= self.order().len(),
            forall|k: int|
                0 <= k < targets@.len() ==> (#[trigger] targets@[k]).0 < self.size() && targets@[k].1
                    < self.size(),
            targets@ == self.model().targets(),
    {
        let ghost m = self.model();
        let n = self.order.len();
        let mut taken: Vec<bool> = Vec::new();
        let mut t: usize = 0;
        while t < n
            invariant
                t <= n,
                taken@.len() == t,
                forall|k: int| 0 <= k < t ==> !(#[trigger] taken@[k]),
            decreases n - t,
        {
            taken.push(false);
            t += 1;
        }
        let mut targets: Vec<(usize, usize)> = Vec::new();
        let mut a: usize = 0;
        proof {
            assert(taken@ =~= Seq::new(m.order.len(), |i: int| false));
            assert(targets@ =~= Seq::<(usize, usize)>::empty());
        }
        while a < n
            invariant
                a <= n,
                n == self.order@.len(),
                taken@.len() == n,
                self.wf(),
                m == self.model(),
                targets@.len() <= a,
                forall|k: int|
                    0 <= k < targets@.len() ==> (#[trigger] targets@[k]).0 < self.groups@.len()
                        && targets@[k].1 < self.groups@.len(),
                m.targets() == m.chosen(a as int, taken@, targets@),
            decreases n - a,
        {
            let i = self.order[a];
            let mine = i < self.immune;
            let mut best: Option<usize> = None;
            let mut b: usize = 0;
            while b < n
                invariant
                    b <= n,
                    n == self.order@.len(),
                    taken@.len() == n,
                    self.wf(),
                    m == self.model(),
                    i < self.groups@.len(),
                    mine == (i < self.immune),
                    best matches Some(c) ==> c < n,
                    m.pick(i as int, taken@, 0, None) == m.pick(
                        i as int,
                        taken@,
                        b as int,
                        place(best),
                    ),
                decreases n - b,
            {
                let j = self.order[b];
                if (j < self.immune) != mine && !taken[b] {
                    best = match best {
                        None => Some(b),
                        Some(c) => {
                            let old = self.order[c];
                            let (dj, dc) = (self.threat(i, j), self.threat(i, old));
                            let (pj, pc) = (self.power(j), self.power(old));
                            let (ij, ic) = (self.groups[j].initiative, self.groups[old].initiative);
                            if dj > dc || (dj == dc && (pj > pc || (pj == pc && ij >= ic))) {
                                Some(b)
                            } else {
                                Some(c)
                            }
                        },
                    };
                }
                b += 1;
            }
            if let Some(c) = best {
                taken[c] = true;
                targets.push((i, self.order[c]));
            }
            a += 1;
        }
        targets
    }

    /// Lets the groups attack their targets, by falling initiative.
    /// Returns how many units were destroyed.
    fn fight(&mut self, targets: &Vec<(usize, usize)>) -> (destroyed: u128)
        requires
            old(self).wf(),
            forall|k: int|
                0 <= k < targets@.len() ==> (#[trigger] targets@[k]).0 < old(self).size()
                    && targets@[k].1 < old(self).size(),
        ensures
            final(self).wf(),
            final(self).size() == old(self).size(),
            final(self).immune_count() == old(self).immune_count(),
            final(self).order() == old(self).order(),
            total_units(final(self).units()) + destroyed == total_units(old(self).units()),
            final(self).model() == old(self).model().fought(targets@),
    {
        let ghost m = self.model();
        let mut sorted: Vec<(usize, usize)> = Vec::new();
        let mut i: usize = 0;
        while i < targets.len()
            invariant
                i <= targets@.len(),
                self.wf(),
                *self == *old(self),
                m == self.model(),
                forall|k: int|
                    0 <= k < targets@.len() ==> (#[trigger] targets@[k]).0 < self.groups@.len()
                        && targets@[k].1 < self.groups@.len(),
                forall|k: int|
                    0 <= k < sorted@.len() ==> (#[trigger] sorted@[k]).0 < self.groups@.len()
                        && sorted@[k].1 < self.groups@.len(),
                sorted@ == m.by_turn(targets@, i as int),
            decreases targets@.len() - i,
        {
            let pair = targets[i];
            let mut pos: usize = sorted.len();
            while pos > 0 && self.groups[pair.0].initiative > self.groups[sorted[pos
                - 1].0].initiative
                invariant
                    pos <= sorted@.len(),
                    self.wf(),
                    m == self.model(),
                    pair.0 < self.groups@.len(),
                    forall|k: int|
                        0 <= k < sorted@.len() ==> (#[trigger] sorted@[k]).0 < self.groups@.len()
                            && sorted@[k].1 < self.groups@.len(),
                    m.turn_slot(sorted@, pair, sorted@.len() as int) == m.turn_slot(
                        sorted@,
                        pair,
                        pos as int,
                    ),
                decreases pos,
            {
                pos -= 1;
            }
            let ghost prior = sorted@;
            sorted.insert(pos, pair);
            proof {
                assert forall|k: int| 0 <= k < sorted@.len() implies (#[trigger] sorted@[k]).0
                    < self.groups@.len() && sorted@[k].1 < self.groups@.len() by {
                    if k < pos {
                        assert(sorted@[k] == prior[k]);
                    } else if k > pos {
                        assert(sorted@[k] == prior[k - 1]);
                    }
                }
            }
            i += 1;
        }
        let mut destroyed: u128 = 0;
        let mut k: usize = 0;
        let count = self.units.len();
        proof {
            lemma_total_units_bound(self.units@);
        }
        while k < sorted.len()
            invariant
                k <= sorted@.len(),
                self.wf(),
                total_units(old(self).units@) <= u128::MAX,
                self.groups == old(self).groups,
                self.order == old(self).order,
                self.immune == old(self).immune,
                self.damage == old(self).damage,
                forall|j: int|
                    0 <= j < sorted@.len() ==> (#[trigger] sorted@[j]).0 < self.groups@.len()
                        && sorted@[j].1 < self.groups@.len(),
                total_units(self.units@) + destroyed == total_units(old(self).units@),
                m.fought(targets@) == self.model().struck(sorted@, k as int),
            decreases sorted@.len() - k,
        {
            let (attacker, target) = sorted[k];
            let killed = self.strike(attacker, target);
            let left = self.units[target] - killed;
            let ghost before = self.model();
            proof {
                lemma_total_units_update(self.units@, target as int, left);
            }
            self.units[target] = left;
            proof {
                assert(self.model() == (Battle {
                    units: before.units.update(target as int, left),
                    ..before
                }));
            }
            destroyed = destroyed + killed as u128;
            k += 1;
        }
        destroyed
    }

    /// How many units of group `target` an attack of group `attacker`
    /// destroys now.
    fn strike(&self, attacker: usize, target: usize) -> (killed: usize)
        requires
            self.wf(),
            attacker < self.size(),
            target < self.size(),
        ensures
            killed <= self.units()[target as int],
            killed == self.model().strike(attacker as int, target as int),
    {
        let hp = self.groups[target].hp as u128;
        let dmg = self.power(attacker);
        let factor = self.groups[target].type_factor(self.groups[attacker].atk_type.as_str());
        let units = self.units[target];
        let whole = dmg / hp;
        let rest = dmg % hp;
        proof {
            lemma_double_quotient(dmg as int, hp as int);
            assert(dmg * 0 == 0 && dmg * 1 == dmg);
            assert((0int) / (hp as int) == 0);
        }
        if factor == 0 {
            0
        } else if factor == 1 {
            if whole < units as u128 {
                whole as usize
            } else {
                units
            }
        } else {
            if whole >= units as u128 {
                units
            } else {
                let killed = 2 * whole + (2 * rest) / hp;
                if killed < units as u128 {
                    killed as usize
                } else {
                    units
                }
            }
        }
    }
}

/// The place of a choice as a number.
pub open spec fn place(best: Option<usize>) -> Option<int> {
    match best {
        Some(c) => Some(c as int),
        None => None,
    }
}

/// Lets the armies fight, with `boost` more damage for every unit of the
/// immune system. Returns whether one side has won, whether that is the
/// immune system, and how many units the winner has left. A fight in
/// which a round destroys no unit has no winner, nor has one of armies
/// that cannot fight.
pub fn simulate_combat(d: &Data, boost: usize) -> (r: (bool, bool, usize))
    ensures
        r == combat(*d, boost),
        !r.0 ==> !r.1 && r.2 == 0,
        r.0 ==> can_fight(*d),
        r.1 ==> d.immune_system@.len() > 0,
{
    let mut field = match Field::new(d, boost) {
        Some(f) => f,
        None => {
            return (false, false, 0);
        },
    };
    loop
        invariant
            field.wf(),
            field.immune_count() == d.immune_system@.len(),
            can_fight(*d),
            combat(*d, boost) == field.model().outcome(),
        decreases total_units(field.units()),
    {
        let ghost before = field.model();
        field.line_up();
        let (imms, n) = field.tally();
        if imms == 0 || imms == field.order.len() {
            let left = if n > usize::MAX as u128 {
                usize::MAX
            } else {
                n as usize
            };
            return (true, imms != 0, left);
        }
        let targets = field.choose_targets();
        let destroyed = field.fight(&targets);
        if destroyed == 0 {
            return (false, false, 0);
        }
    }
}

/// The units that the winner has left; zero where the fight has no
/// winner.
pub fn part1(d: &Data) -> (n: usize)
    ensures
        n == combat(*d, 0).2,
{
    simulate_combat(d, 0).2
}

/// What the search for the smallest boost finds between the boosts `l`
/// and `r`, by halving: the units that the immune system has left with
/// a boost that lets it win while one less does not.
pub open spec fn boost_search(d: Data, l: int, r: int) -> Option<usize>
    decreases r + 1 - l,
{
    if l > r || l < 1 || r > usize::MAX {
        None
    } else {
        let m = l + (r - l) / 2;
        let with = combat(d, m as usize);
        if !with.0 || !with.1 {
            boost_search(d, m + 1, r)
        } else if combat(d, (m - 1) as usize).1 {
            boost_search(d, l, m - 1)
        } else {
            Some(with.2)
        }
    }
}

/// The units that the immune system has left with the smallest boost
/// that lets it win, searched between one and ten thousand by halving.
pub fn part2(d: &Data) -> (r: Option<usize>)
    ensures
        r == boost_search(*d, 1, 10000),
{
    let (mut l, mut r) = (1usize, 10000usize);
    loop
        invariant
            1 <= l,
            r <= 10000,
            boost_search(*d, 1, 10000) == boost_search(*d, l as int, r as int),
        decreases r + 1 - l,
    {
        if l > r {
            return None;
        }
        let m = l + (r - l) / 2;
        let (has_winner, imm_won, rem) = simulate_combat(d, m);
        if !has_winner || !imm_won {
            l = m + 1;
            continue ;
        }
        let (_, imm_won, _) = simulate_combat(d, m - 1);
        if imm_won {
            r = m - 1;
            continue ;
        }
        return Some(rem);
    }
}

/// The armies of the puzzle and those of its example.
#[derive(Debug)]
pub struct Solution24 {
    pub data: Data,
    pub sample: Data,
}

impl Solution24 {
    /// A solution without armies.
    pub fn new() -> (s: Self)
        ensures
            s.data.infection@.len() == 0,
            s.data.immune_system@.len() == 0,
            s.sample.infection@.len() == 0,
            s.sample.immune_system@.len() == 0,
    {
        Solution24 {
            data: Data { infection: Vec::new(), immune_system: Vec::new() },
            sample: Data { infection: Vec::new(), immune_system: Vec::new() },
        }
    }
}

/// The regular expression of a line that describes a group.
pub open spec fn group_pattern() -> Seq<char> {
    r"^(?P<units>\d+) units each with (?P<hp>\d+) hit points (\((?P<ts>[^\)]*)\) )?with an attack that does (?P<ad>\d+) (?P<at>\w+) damage at initiative (?P<init>\d+)$"@
}

/// The regular expression of the weaknesses in a description.
pub open spec fn weak_pattern() -> Seq<char> {
    r"weak to ((\w+(, )?)+)"@
}

/// The regular expression of the immunities in a description.
pub open spec fn immune_pattern() -> Seq<char> {
    r"immune to ((\w+(, )?)+)"@
}

/// The text without a blank at its beginning.
pub open spec fn without_blank(text: Seq<char>) -> Seq<char> {
    if text.len() > 0 && text[0] == ' ' {
        text.subrange(1, text.len() as int)
    } else {
        text
    }
}

/// The names in a list such as `fire, cold`: the pieces between the
/// commas, each without the blank behind the comma.
pub open spec fn names_in(list: Seq<char>) -> Seq<Seq<char>> {
    Seq::new(split_on(list, ',').len(), |i: int| without_blank(split_on(list, ',')[i]))
}

/// The names that the pattern finds in a description: those of capture
/// group one, or none where the pattern does not match.
pub open spec fn names_found(pattern: Seq<char>, chart: Seq<char>) -> Seq<Seq<char>> {
    match captures_of(pattern, chart) {
        Some(g) => match group_of(g, 1) {
            Some(list) => names_in(list),
            None => Seq::empty(),
        },
        None => Seq::empty(),
    }
}

/// The description of weaknesses and immunities in the capture groups of
/// a line: group four, or the empty text.
pub open spec fn chart_of(g: Seq<Option<Seq<char>>>) -> Seq<char> {
    match group_of(g, 4) {
        Some(text) => text,
        None => Seq::empty(),
    }
}

/// Whether `group` is the group that a line describes.
pub open spec fn describes(line: Seq<char>, group: Group) -> bool {
    match captures_of(group_pattern(), line) {
        Some(g) => {
            &&& size_of(g, 1) == Some(group.units)
            &&& size_of(g, 2) == Some(group.hp)
            &&& size_of(g, 5) == Some(group.atk_damage)
            &&& group_of(g, 6) == Some(group.atk_type@)
            &&& size_of(g, 7) == Some(group.initiative)
            &&& group.weakness.deep_view() == names_found(weak_pattern(), chart_of(g))
            &&& group.immunities.deep_view() == names_found(immune_pattern(), chart_of(g))
        },
        None => false,
    }
}

fn names(list: &str) -> (r: Vec<String>)
    ensures
        r.deep_view() == names_in(list@),
{
    let pieces = split_char(list, ',');
    let mut r: Vec<String> = Vec::new();
    let mut i: usize = 0;
    while i < pieces.len()
        invariant
            i <= pieces@.len(),
            pieces.deep_view() == split_on(list@, ','),
            r@.len() == i,
            forall|j: int| 0 <= j < i ==> #[trigger] r.deep_view()[j] == without_blank(pieces.deep_view()[j]),
        decreases pieces@.len() - i,
    {
        let piece = pieces[i];
        assert(pieces.deep_view()[i as int] == piece@);
        let n = piece.unicode_len();
        let name = if n > 0 && piece.get_char(0) == ' ' {
            piece.substring_char(1, n)
        } else {
            piece
        };
        let ghost before = r.deep_view();
        r.push(String::from_str(name));
        proof {
            assert forall|j: int| 0 <= j < i + 1 implies #[trigger] r.deep_view()[j]
                == without_blank(pieces.deep_view()[j]) by {
                if j < i {
                    assert(r.deep_view()[j] == before[j]);
                }
            }
        }
        i += 1;
    }
    assert(r.deep_view() =~= names_in(list@));
    r
}

fn find_names(pattern: &str, chart: &str) -> (r: Vec<String>)
    ensures
        r.deep_view() == names_found(pattern@, chart@),
{
    match captures(pattern, chart) {
        Some(g) => match group(&g, 1) {
            Some(list) => names(list),
            None => {
                let r: Vec<String> = Vec::new();
                assert(r.deep_view() =~= Seq::<Seq<char>>::empty());
                r
            },
        },
        None => {
            let r: Vec<String> = Vec::new();
            assert(r.deep_view() =~= Seq::<Seq<char>>::empty());
            r
        },
    }
}

impl Group {
    /// Reads a line such as `18 units each with 729 hit points (weak to
    /// fire; immune to cold, slashing) with an attack that does 8
    /// radiation damage at initiative 10`.
    pub fn parse(s: &str) -> (r: Result<Group, Error>)
        ensures
            match r {
                Ok(g) => describes(s@, g),
                Err(e) => e == Error::MalformedInput && forall|g: Group| !describes(s@, g),
            },
    {
        let groups = captures(
            r"^(?P<units>\d+) units each with (?P<hp>\d+) hit points (\((?P<ts>[^\)]*)\) )?with an attack that does (?P<ad>\d+) (?P<at>\w+) damage at initiative (?P<init>\d+)$",
            s,
        );
        let g = match &groups {
            Some(g) => g,
            None => {
                return Err(Error::MalformedInput);
            },
        };
        let (units, hp, atk_damage, initiative) = match (size(g, 1), size(g, 2), size(g, 5), size(g, 7)) {
            (Some(u), Some(h), Some(a), Some(i)) => (u, h, a, i),
            _ => {
                return Err(Error::MalformedInput);
            },
        };
        let atk_type = match group(g, 6) {
            Some(t) => String::from_str(t),
            None => {
                return Err(Error::MalformedInput);
            },
        };
        let chart = match group(g, 4) {
            Some(text) => text,
            None => "",
        };
        proof {
            reveal_strlit("");
            assert(chart@ =~= chart_of(g.deep_view()));
        }
        let weakness = find_names(r"weak to ((\w+(, )?)+)", chart);
        let immunities = find_names(r"immune to ((\w+(, )?)+)", chart);
        Ok(Group { units, hp, initiative, atk_damage, atk_type, weakness, immunities })
    }
}

/// Whether the text is `Immune System:`.
pub open spec fn is_immune_heading(line: Seq<char>) -> bool {
    line == "Immune System:"@
}

/// Whether the text is `Infection:`.
pub open spec fn is_infection_heading(line: Seq<char>) -> bool {
    line == "Infection:"@
}

/// Whether the heading of the infection stands on one of the lines from
/// the second to the one before line `k`.
pub open spec fn in_infection(lines: Seq<Seq<char>>, k: int) -> bool {
    exists|j: int| 1 <= j < k && j < lines.len() && is_infection_heading(#[trigger] lines[j])
}

/// Whether line `k` writes a group: it is not the first line, not empty,
/// and not the heading of the infection.
pub open spec fn is_group_line(lines: Seq<Seq<char>>, k: int) -> bool {
    1 <= k < lines.len() && lines[k].len() > 0 && !is_infection_heading(lines[k])
}

/// The lines before line `upto` that write groups of the infection, or
/// of the immune system: a group belongs to the infection when it stands
/// below the heading of the infection.
pub open spec fn group_lines(lines: Seq<Seq<char>>, upto: int, infection: bool) -> Seq<int>
    decreases upto,
{
    if upto <= 0 {
        Seq::empty()
    } else {
        let rest = group_lines(lines, upto - 1, infection);
        if is_group_line(lines, upto - 1) && in_infection(lines, upto - 1) == infection {
            rest.push(upto - 1)
        } else {
            rest
        }
    }
}

/// Whether the groups are those that the lines `at` describe, one each.
pub open spec fn written(lines: Seq<Seq<char>>, at: Seq<int>, groups: Seq<Group>) -> bool {
    groups.len() == at.len() && forall|i: int|
        0 <= i < at.len() ==> describes(lines[at[i]], #[trigger] groups[i])
}

/// Whether one of the lines before line `upto` that should write a group
/// describes none.
pub open spec fn unreadable(lines: Seq<Seq<char>>, upto: int) -> bool {
    exists|k: int|
        0 <= k < upto && #[trigger] is_group_line(lines, k) && forall|g: Group|
            !describes(lines[k], g)
}

/// Whether `r` is what reading the armies from the lines gives: the
/// groups of the immune system and of the infection as the lines
/// describe them, or `MalformedInput` where the first line is not the
/// heading of the immune system or a line describes no group.
pub open spec fn armies_read(lines: Seq<Seq<char>>, r: Result<Data, Error>) -> bool {
    match r {
        Ok(d) => {
            &&& lines.len() > 0 ==> is_immune_heading(lines[0])
            &&& written(lines, group_lines(lines, lines.len() as int, false), d.immune_system@)
            &&& written(lines, group_lines(lines, lines.len() as int, true), d.infection@)
        },
        Err(e) => e == Error::MalformedInput && ((lines.len() > 0 && !is_immune_heading(lines[0]))
            || unreadable(lines, lines.len() as int)),
    }
}

impl Data {
    /// Reads the armies from their lines: the heading `Immune System:`
    /// first, then the groups of the immune system, the heading
    /// `Infection:` and the groups of the infection; empty lines are
    /// passed over.
    pub fn from_lines(lines: &Vec<String>) -> (r: Result<Data, Error>)
        ensures
            armies_read(lines.deep_view(), r),
    {
        let ghost text = lines.deep_view();
        let mut data = Data { immune_system: Vec::new(), infection: Vec::new() };
        let mut infection = false;
        let mut i: usize = 0;
        while i < lines.len()
            invariant
                i <= lines@.len(),
                text == lines.deep_view(),
                i > 0 ==> is_immune_heading(text[0]),
                infection == in_infection(text, i as int),
                written(text, group_lines(text, i as int, false), data.immune_system@),
                written(text, group_lines(text, i as int, true), data.infection@),
            decreases lines@.len() - i,
        {
            let l = lines[i].as_str();
            assert(text[i as int] == l@);
            proof {
                assert(in_infection(text, i + 1) == (in_infection(text, i as int) || (i >= 1
                    && is_infection_heading(text[i as int])))) by {
                    if in_infection(text, i as int) {
                        let j = choose|j: int|
                            1 <= j < i && j < text.len() && is_infection_heading(#[trigger] text[j]);
                        assert(1 <= j < i + 1);
                    }
                    if in_infection(text, i + 1) && !in_infection(text, i as int) {
                        let j = choose|j: int|
                            1 <= j < i + 1 && j < text.len() && is_infection_heading(
                                #[trigger] text[j],
                            );
                        if j < i {
                            assert(in_infection(text, i as int));
                        }
                    }
                }
            }
            if i == 0 {
                if !same_text(l, "Immune System:") {
                    return Err(Error::MalformedInput);
                }
            } else if l.unicode_len() == 0 {
                proof {
                    reveal_strlit("Infection:");
                    assert(!is_infection_heading(text[i as int]));
                }
            } else if same_text(l, "Infection:") {
                infection = true;
            } else {
                let g = match Group::parse(l) {
                    Ok(g) => g,
                    Err(e) => {
                        proof {
                            assert(is_group_line(text, i as int));
                            assert(unreadable(text, text.len() as int));
                        }
                        return Err(e);
                    },
                };
                proof {
                    assert(is_group_line(text, i as int));
                }
                if infection {
                    data.infection.push(g);
                } else {
                    data.immune_system.push(g);
                }
            }
            i += 1;
        }
        Ok(data)
    }

    /// Reads the armies of the puzzle.
    pub fn parse(s: &str) -> (r: Result<Data, Error>)
        ensures
            armies_read(text_lines(s@), r),
    {
        let all = lines(s);
        Data::from_lines(&all)
    }
}

impl Solution24 {
    /// Reads the input and the example. On an error the solution keeps
    /// what it had.
    pub fn init(&mut self, data: &str, sample: &str) -> (r: Result<(), Error>)
        ensures
            match r {
                Ok(()) => armies_read(text_lines(data@), Ok(final(self).data)) && armies_read(
                    text_lines(sample@),
                    Ok(final(self).sample),
                ),
                Err(e) => *final(self) == *old(self) && (armies_read(text_lines(data@), Err(e))
                    || armies_read(text_lines(sample@), Err(e))),
            },
    {
        let data = match Data::parse(data) {
            Ok(d) => d,
            Err(e) => {
                return Err(e);
            },
        };
        let sample = match Data::parse(sample) {
            Ok(d) => d,
            Err(e) => {
                return Err(e);
            },
        };
        self.data = data;
        self.sample = sample;
        Ok(())
    }
}

} // verus!
