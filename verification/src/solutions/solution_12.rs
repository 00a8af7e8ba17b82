//! A row of pots with plants, which spread by rules over windows of five
//! pots.

use crate::error::Error;
use crate::util::pattern::{captures, captures_of, group, group_of};
use crate::util::text::{lines, text_lines};
use vstd::prelude::*;
use vstd::string::*;

verus! {

/// A pot, with a plant or without.
#[derive(Debug, PartialEq, Eq, Structural, Copy, Clone)]
pub enum Pot {
    NoPlant,
    Plant,
}

impl Default for Pot {
    fn default() -> (p: Pot)
        ensures
            p == Pot::NoPlant,
    {
        Pot::NoPlant
    }
}

/// Five pots in a row.
pub type Pattern = [Pot; 5];

/// A rule: what becomes of the pot in the middle of such a window.
#[derive(Debug, PartialEq, Eq, Copy, Clone)]
pub struct PatternMatch {
    pub pattern: Pattern,
    pub pot: Pot,
}

/// The pot that a character stands for.
pub open spec fn pot_of_char(c: char) -> Option<Pot> {
    if c == '.' {
        Some(Pot::NoPlant)
    } else if c == '#' {
        Some(Pot::Plant)
    } else {
        None
    }
}

/// One for a plant, zero for none.
pub open spec fn bit(p: Pot) -> nat {
    match p {
        Pot::Plant => 1,
        Pot::NoPlant => 0,
    }
}

/// The number of a window: its pots as binary digits, the leftmost pot
/// counting least.
pub open spec fn number(w: Seq<Pot>) -> nat {
    bit(w[0]) + 2 * bit(w[1]) + 4 * bit(w[2]) + 8 * bit(w[3]) + 16 * bit(w[4])
}

/// The pot at place `at` of a row; beyond the row there are no plants.
pub open spec fn pot_at(pots: Seq<Pot>, at: int) -> Pot {
    if 0 <= at < pots.len() {
        pots[at]
    } else {
        Pot::NoPlant
    }
}

/// The window of five pots that begins at place `start`.
pub open spec fn window(pots: Seq<Pot>, start: int) -> Seq<Pot> {
    Seq::new(5, |i: int| pot_at(pots, start + i))
}

/// What the rules make of a window: nothing grows where no rule speaks
/// of it.
pub open spec fn grown(rules: Seq<Option<Pot>>, w: Seq<Pot>) -> Pot {
    match rules[number(w) as int] {
        Some(p) => p,
        None => Pot::NoPlant,
    }
}

/// The place of the first plant from `from` on.
pub open spec fn first_plant(pots: Seq<Pot>, from: int) -> Option<int>
    decreases pots.len() - from,
{
    if from < 0 || from >= pots.len() {
        None
    } else if pots[from] == Pot::Plant {
        Some(from)
    } else {
        first_plant(pots, from + 1)
    }
}

/// The place of the last plant before `upto`.
pub open spec fn last_plant(pots: Seq<Pot>, upto: int) -> Option<int>
    decreases upto,
{
    if upto <= 0 || upto > pots.len() {
        None
    } else if pots[upto - 1] == Pot::Plant {
        Some(upto - 1)
    } else {
        last_plant(pots, upto - 1)
    }
}

/// How far a row has to grow at an end with `free` empty pots, so that
/// four pots are empty there.
pub open spec fn fill(free: int) -> int {
    if free >= 4 {
        0
    } else {
        4 - free
    }
}

/// A row of pots, and the place in it of the pot with the number zero.
pub struct Row {
    pub pots: Seq<Pot>,
    pub left: int,
}

impl Row {
    /// The row a generation later: it grows at both ends until four pots
    /// are empty there, and every pot becomes what the rules make of the
    /// window around it. Nothing where the row has no plant.
    pub open spec fn next(self, rules: Seq<Option<Pot>>) -> Option<Row> {
        match (first_plant(self.pots, 0), last_plant(self.pots, self.pots.len() as int)) {
            (Some(first), Some(last)) => {
                let left_fill = fill(first);
                let right_fill = fill(self.pots.len() - last - 1);
                Some(
                    Row {
                        pots: Seq::new(
                            (self.pots.len() + left_fill + right_fill) as nat,
                            |i: int| grown(rules, window(self.pots, i - left_fill - 2)),
                        ),
                        left: self.left + left_fill,
                    },
                )
            },
            _ => None,
        }
    }

    /// The row `gens` generations later.
    pub open spec fn after(self, rules: Seq<Option<Pot>>, gens: nat) -> Option<Row>
        decreases gens,
    {
        if gens == 0 {
            Some(self)
        } else {
            match self.after(rules, (gens - 1) as nat) {
                Some(row) => row.next(rules),
                None => None,
            }
        }
    }

    /// The sum of the numbers of the first `upto` pots that hold a plant.
    pub open spec fn sum(self, upto: nat) -> int
        decreases upto,
    {
        if upto == 0 {
            0
        } else {
            self.sum((upto - 1) as nat) + (if self.pots[upto - 1] == Pot::Plant {
                upto - 1 - self.left
            } else {
                0
            })
        }
    }
}

/// Whether the row after `g` generations has a plant and more pots than
/// the machine can grow a row from.
pub open spec fn long_at(start: Row, rules: Seq<Option<Pot>>, g: nat) -> bool {
    match start.after(rules, g) {
        Some(row) => row.next(rules) is Some && row.pots.len() > usize::MAX - 8,
        None => false,
    }
}

/// Whether one of the rows before generation `gens` is too long to grow.
pub open spec fn too_long(start: Row, rules: Seq<Option<Pot>>, gens: nat) -> bool {
    exists|g: nat| g < gens && #[trigger] long_at(start, rules, g)
}

/// Whether the sums of the numbers of the first pots with a plant, as
/// far as all `upto` pots, fit 128 bits.
pub open spec fn sums_fit(row: Row, upto: nat) -> bool {
    forall|k: nat| k <= upto ==> i128::MIN <= #[trigger] row.sum(k) <= i128::MAX
}

/// The sum of the numbers of the pots that hold a plant after `gens`
/// generations: `Overflow` where a row on the way is too long to grow or
/// the sum does not fit the machine, `NotFound` where a row on the way
/// has no plant.
pub open spec fn run_result(start: Row, rules: Seq<Option<Pot>>, gens: nat) -> Result<isize, Error> {
    if too_long(start, rules, gens) {
        Err(Error::Overflow)
    } else {
        match start.after(rules, gens) {
            None => Err(Error::NotFound),
            Some(row) => if sums_fit(row, row.pots.len()) && isize::MIN <= row.sum(row.pots.len())
                <= isize::MAX {
                Ok(row.sum(row.pots.len()) as isize)
            } else {
                Err(Error::Overflow)
            },
        }
    }
}

impl Pot {
    /// Reads a pot.
    pub fn from_char(c: char) -> (r: Result<Pot, Error>)
        ensures
            r == (match pot_of_char(c) {
                Some(p) => Ok(p),
                None => Err(Error::MalformedInput),
            }),
    {
        match c {
            '.' => Ok(Pot::NoPlant),
            '#' => Ok(Pot::Plant),
            _ => Err(Error::MalformedInput),
        }
    }
}

/// Reads a row of pots.
pub fn parse_pot_pattern(s: &str) -> (r: Result<Vec<Pot>, Error>)
    ensures
        match r {
            Ok(pots) => pots@.len() == s@.len() && forall|i: int|
                0 <= i < s@.len() ==> pot_of_char(#[trigger] s@[i]) == Some(pots@[i]),
            Err(e) => e == Error::MalformedInput && exists|i: int|
                0 <= i < s@.len() && pot_of_char(#[trigger] s@[i]) is None,
        },
{
    let n = s.unicode_len();
    let mut pots: Vec<Pot> = Vec::new();
    let mut i: usize = 0;
    while i < n
        invariant
            i <= n,
            n == s@.len(),
            pots@.len() == i,
            forall|j: int| 0 <= j < i ==> pot_of_char(#[trigger] s@[j]) == Some(pots@[j]),
        decreases n - i,
    {
        match Pot::from_char(s.get_char(i)) {
            Ok(p) => {
                pots.push(p);
            },
            Err(e) => {
                assert(pot_of_char(s@[i as int]) is None);
                return Err(e);
            },
        }
        i += 1;
    }
    Ok(pots)
}

/// The first rule that speaks of the window with the number `n`.
pub open spec fn rule_for(patterns: Seq<PatternMatch>, n: nat) -> Option<Pot>
    decreases patterns.len(),
{
    if patterns.len() == 0 {
        None
    } else {
        match rule_for(patterns.drop_last(), n) {
            Some(p) => Some(p),
            None => if number(patterns.last().pattern@) == n {
                Some(patterns.last().pot)
            } else {
                None
            },
        }
    }
}

/// The rules as a table by the number of the window.
pub open spec fn rule_table(patterns: Seq<PatternMatch>) -> Seq<Option<Pot>> {
    Seq::new(32, |n: int| rule_for(patterns, n as nat))
}

/// The row at the beginning and the rules.
#[derive(Debug)]
pub struct Data {
    state: Vec<Pot>,
    pats: [Option<Pot>; 32],
}

fn window_at(data: &[Pot], start: i128) -> (pat: Pattern)
    requires
        -0x1_0000_0000_0000_0000_0000 <= start <= 0x1_0000_0000_0000_0000_0000,
    ensures
        pat@ == window(data@, start as int),
{
    let n = data.len();
    let mut pat: Pattern = [Pot::NoPlant;5];
    let mut i: usize = 0;
    while i < 5
        invariant
            i <= 5,
            n == data@.len(),
            -0x1_0000_0000_0000_0000_0000 <= start <= 0x1_0000_0000_0000_0000_0000,
            forall|j: int| 0 <= j < i ==> pat@[j] == pot_at(data@, start + j),
        decreases 5 - i,
    {
        let at = start + i as i128;
        if at >= 0 && at < n as i128 {
            pat[i] = data[at as usize];
        } else {
            pat[i] = Pot::NoPlant;
        }
        i += 1;
    }
    assert(pat@ =~= window(data@, start as int));
    pat
}

/// The window of five pots that begins at place `ix` of the row; beyond
/// the row there are no plants.
pub fn get_pattern(data: &[Pot], ix: isize) -> (pat: Pattern)
    ensures
        pat@ == window(data@, ix as int),
{
    window_at(data, ix as i128)
}

impl Data {
    /// The row at the beginning.
    pub closed spec fn state(self) -> Seq<Pot> {
        self.state@
    }

    /// The rules, by the number of the window.
    pub closed spec fn rules(self) -> Seq<Option<Pot>> {
        self.pats@
    }

    /// One for a plant, zero for none.
    pub fn pot_to_num(pot: Pot) -> (n: u32)
        ensures
            n == bit(pot),
    {
        match pot {
            Pot::Plant => 1,
            Pot::NoPlant => 0,
        }
    }

    /// The number of a window.
    pub fn pattern_to_num(data: &Pattern) -> (n: u32)
        ensures
            n == number(data@),
            n < 32,
    {
        Data::pot_to_num(data[0]) + 2 * Data::pot_to_num(data[1]) + 4 * Data::pot_to_num(data[2])
            + 8 * Data::pot_to_num(data[3]) + 16 * Data::pot_to_num(data[4])
    }

    /// The row `state` with the rules `patterns`. Of two rules for one
    /// window the first counts.
    pub fn new(state: Vec<Pot>, patterns: Vec<PatternMatch>) -> (d: Data)
        ensures
            d.state() == state@,
            d.rules() == rule_table(patterns@),
    {
        let mut pats: [Option<Pot>; 32] = [None;32];
        let mut i: usize = 0;
        assert(patterns@.subrange(0, 0) =~= Seq::<PatternMatch>::empty());
        while i < patterns.len()
            invariant
                i <= patterns@.len(),
                forall|n: int|
                    0 <= n < 32 ==> #[trigger] pats@[n] == rule_for(
                        patterns@.subrange(0, i as int),
                        n as nat,
                    ),
            decreases patterns@.len() - i,
        {
            proof {
                let next = patterns@.subrange(0, i + 1);
                assert(next.drop_last() =~= patterns@.subrange(0, i as int));
                assert(next.last() == patterns@[i as int]);
            }
            let n = Data::pattern_to_num(&patterns[i].pattern) as usize;
            if pats[n].is_none() {
                pats[n] = Some(patterns[i].pot);
            }
            i += 1;
        }
        assert(patterns@.subrange(0, i as int) =~= patterns@);
        let d = Data { state, pats };
        assert(d.rules() =~= rule_table(patterns@));
        d
    }

    /// What the rules make of a window, where a rule speaks of it.
    pub fn find_match(&self, data: Pattern) -> (r: Option<Pot>)
        ensures
            r == self.rules()[number(data@) as int],
    {
        let num = Data::pattern_to_num(&data) as usize;
        self.pats[num]
    }
}

/// Once a row has lost its last plant, there are no later generations.
pub proof fn lemma_after_none(row: Row, rules: Seq<Option<Pot>>, at: nat, later: nat)
    requires
        row.after(rules, at) is None,
        at <= later,
    ensures
        row.after(rules, later) is None,
    decreases later,
{
    if later > at {
        lemma_after_none(row, rules, at, (later - 1) as nat);
    }
}

fn find_first(pots: &Vec<Pot>) -> (r: Option<usize>)
    ensures
        match r {
            Some(i) => first_plant(pots@, 0) == Some(i as int) && i < pots@.len(),
            None => first_plant(pots@, 0) is None,
        },
{
    let mut i: usize = 0;
    while i < pots.len()
        invariant
            i <= pots@.len(),
            first_plant(pots@, 0) == first_plant(pots@, i as int),
        decreases pots@.len() - i,
    {
        if pots[i] == Pot::Plant {
            return Some(i);
        }
        i += 1;
    }
    None
}

fn find_last(pots: &Vec<Pot>) -> (r: Option<usize>)
    ensures
        match r {
            Some(i) => last_plant(pots@, pots@.len() as int) == Some(i as int) && i < pots@.len(),
            None => last_plant(pots@, pots@.len() as int) is None,
        },
{
    let mut i: usize = pots.len();
    while i > 0
        invariant
            i <= pots@.len(),
            last_plant(pots@, pots@.len() as int) == last_plant(pots@, i as int),
        decreases i,
    {
        if pots[i - 1] == Pot::Plant {
            return Some(i - 1);
        }
        i -= 1;
    }
    None
}

impl Data {
    /// The row at the beginning, with the pot number zero at its left
    /// end.
    pub open spec fn start(self) -> Row {
        Row { pots: self.state(), left: 0 }
    }

    fn grow(&self, buffer: &Vec<Pot>) -> (r: Result<(Vec<Pot>, usize), Error>)
        requires
            self.rules().len() == 32,
        ensures
            match r {
                Ok((pots, left_fill)) => (Row { pots: buffer@, left: 0 }).next(self.rules()) == Some(
                    Row { pots: pots@, left: left_fill as int },
                ) && left_fill <= 4 && buffer@.len() <= usize::MAX - 8,
                Err(e) => (e == Error::NotFound && (Row { pots: buffer@, left: 0 }).next(
                    self.rules(),
                ) is None) || (e == Error::Overflow && (Row { pots: buffer@, left: 0 }).next(
                    self.rules(),
                ) is Some && buffer@.len() > usize::MAX - 8),
            },
    {
        let n = buffer.len();
        let (first, last) = match (find_first(buffer), find_last(buffer)) {
            (Some(f), Some(l)) => (f, l),
            _ => {
                return Err(Error::NotFound);
            },
        };
        let left_fill: usize = if first >= 4 {
            0
        } else {
            4 - first
        };
        let right_free = n - last - 1;
        let right_fill: usize = if right_free >= 4 {
            0
        } else {
            4 - right_free
        };
        if n > usize::MAX - 8 {
            return Err(Error::Overflow);
        }
        let m = n + left_fill + right_fill;
        let mut next: Vec<Pot> = Vec::new();
        let mut i: usize = 0;
        while i < m
            invariant
                i <= m,
                m == n + left_fill + right_fill,
                n == buffer@.len(),
                left_fill <= 4,
                self.rules().len() == 32,
                next@.len() == i,
                forall|j: int|
                    0 <= j < i ==> #[trigger] next@[j] == grown(
                        self.rules(),
                        window(buffer@, j - left_fill - 2),
                    ),
            decreases m - i,
        {
            let p = window_at(buffer.as_slice(), i as i128 - left_fill as i128 - 2);
            let c = match self.find_match(p) {
                Some(c) => c,
                None => Pot::NoPlant,
            };
            next.push(c);
            i += 1;
        }
        proof {
            let want = (Row { pots: buffer@, left: 0 }).next(self.rules()).unwrap();
            assert(next@ =~= want.pots);
        }
        Ok((next, left_fill))
    }

    /// The sum of the numbers of the pots with a plant after `gens`
    /// generations. `NotFound` where the row loses its last plant on the
    /// way; `Overflow` where a row or the sum does not fit the machine.
    pub fn run(&self, gens: usize) -> (r: Result<isize, Error>)
        ensures
            match r {
                Ok(sum) => self.start().after(self.rules(), gens as nat) matches Some(row) && sum
                    == row.sum(row.pots.len()),
                Err(e) => (e == Error::NotFound && self.start().after(self.rules(), gens as nat) is None)
                    || e == Error::Overflow,
            },
            r == run_result(self.start(), self.rules(), gens as nat),
    {
        let mut buffer: Vec<Pot> = Vec::new();
        let mut i: usize = 0;
        while i < self.state.len()
            invariant
                i <= self.state@.len(),
                buffer@ == self.state@.subrange(0, i as int),
            decreases self.state@.len() - i,
        {
            buffer.push(self.state[i]);
            assert(buffer@ =~= self.state@.subrange(0, i + 1));
            i += 1;
        }
        assert(self.state@.subrange(0, i as int) =~= self.state@);
        let mut left_index: i128 = 0;
        let mut done: usize = 0;
        while done < gens
            invariant
                done <= gens,
                self.rules().len() == 32,
                0 <= left_index <= 4 * done,
                self.start().after(self.rules(), done as nat) == Some(
                    Row { pots: buffer@, left: left_index as int },
                ),
                forall|g: nat| g < done ==> !#[trigger] long_at(self.start(), self.rules(), g),
            decreases gens - done,
        {
            let ghost row = Row { pots: buffer@, left: left_index as int };
            proof {
                assert(row.next(self.rules()) is Some <==> (Row { pots: buffer@, left: 0 }).next(
                    self.rules(),
                ) is Some);
            }
            match self.grow(&buffer) {
                Ok((next, left_fill)) => {
                    proof {
                        assert(row.next(self.rules()) == Some(
                            Row { pots: next@, left: left_index + left_fill },
                        ));
                    }
                    buffer = next;
                    left_index = left_index + left_fill as i128;
                },
                Err(e) => {
                    proof {
                        if e == Error::NotFound {
                            assert(row.next(self.rules()) is None);
                            assert(self.start().after(self.rules(), (done + 1) as nat) is None);
                            lemma_after_none(
                                self.start(),
                                self.rules(),
                                (done + 1) as nat,
                                gens as nat,
                            );
                            assert forall|g: nat| g < gens implies !#[trigger] long_at(
                                self.start(),
                                self.rules(),
                                g,
                            ) by {
                                if g > done {
                                    lemma_after_none(self.start(), self.rules(), (done + 1) as nat, g);
                                }
                            }
                        } else {
                            assert(long_at(self.start(), self.rules(), done as nat));
                        }
                    }
                    return Err(e);
                },
            }
            done += 1;
        }
        let ghost row = Row { pots: buffer@, left: left_index as int };
        proof {
            assert(!too_long(self.start(), self.rules(), gens as nat));
        }
        let mut sum: i128 = 0;
        let mut i: usize = 0;
        while i < buffer.len()
            invariant
                i <= buffer@.len(),
                row == (Row { pots: buffer@, left: left_index as int }),
                self.start().after(self.rules(), gens as nat) == Some(row),
                !too_long(self.start(), self.rules(), gens as nat),
                0 <= left_index <= 4 * gens,
                sum == row.sum(i as nat),
                forall|k: nat| k <= i ==> i128::MIN <= #[trigger] row.sum(k) <= i128::MAX,
            decreases buffer@.len() - i,
        {
            if buffer[i] == Pot::Plant {
                let term = i as i128 - left_index;
                match sum.checked_add(term) {
                    Some(s) => {
                        sum = s;
                    },
                    None => {
                        proof {
                            assert(!(i128::MIN <= row.sum((i + 1) as nat) <= i128::MAX));
                        }
                        return Err(Error::Overflow);
                    },
                }
            }
            i += 1;
        }
        if sum < isize::MIN as i128 || sum > isize::MAX as i128 {
            return Err(Error::Overflow);
        }
        Ok(sum as isize)
    }
}

/// The regular expression of a rule such as `..#.. => #`.
pub open spec fn rule_pattern() -> Seq<char> {
    r"^([#\.]{5})( => )([#\.])$"@
}

/// The regular expression of the first line, such as
/// `initial state: #..#`.
pub open spec fn init_pattern() -> Seq<char> {
    r"^(initial state: )([#\.]*)$"@
}

/// Whether the pots are what the characters draw.
pub open spec fn draws(text: Seq<char>, pots: Seq<Pot>) -> bool {
    pots.len() == text.len() && forall|i: int|
        0 <= i < text.len() ==> pot_of_char(#[trigger] text[i]) == Some(pots[i])
}

/// Whether the first line draws the row `pots` behind `initial state: `.
pub open spec fn first_line_draws(line: Seq<char>, pots: Seq<Pot>) -> bool {
    match captures_of(init_pattern(), line) {
        Some(g) => match group_of(g, 2) {
            Some(row) => draws(row, pots),
            None => false,
        },
        None => false,
    }
}

/// Whether `rule` is the rule that the capture groups of a line write:
/// the window in group one, the outcome in group three.
pub open spec fn rule_of_groups(groups: Option<Seq<Option<Seq<char>>>>, rule: PatternMatch) -> bool {
    match groups {
        Some(g) => match (group_of(g, 1), group_of(g, 3)) {
            (Some(w), Some(o)) => w.len() == 5 && o.len() == 1 && draws(w, rule.pattern@) && draws(
                o,
                seq![rule.pot],
            ),
            _ => false,
        },
        None => false,
    }
}

/// Whether the capture groups of a line write a rule.
pub open spec fn groups_write_rule(groups: Option<Seq<Option<Seq<char>>>>) -> bool {
    exists|rule: PatternMatch| rule_of_groups(groups, rule)
}

/// Whether a line writes a rule.
pub open spec fn writes_rule(line: Seq<char>) -> bool {
    groups_write_rule(captures_of(rule_pattern(), line))
}

/// Whether the rules are those that the lines from the third on write,
/// one each.
pub open spec fn rules_read(lines: Seq<Seq<char>>, rules: Seq<PatternMatch>) -> bool {
    rules.len() == lines.len() - 2 && forall|i: int|
        0 <= i < rules.len() ==> rule_of_groups(
            captures_of(rule_pattern(), lines[i + 2]),
            #[trigger] rules[i],
        )
}

/// Whether `r` is what reading a garden from its lines gives: the row of
/// pots of the first line and the rules of the lines from the third on;
/// or `MalformedInput` where there are fewer than two lines, the first
/// line draws no row, or one of the lines from the third on writes no
/// rule.
pub open spec fn garden_read(lines: Seq<Seq<char>>, r: Result<Data, Error>) -> bool {
    match r {
        Ok(d) => {
            &&& lines.len() >= 2
            &&& first_line_draws(lines[0], d.state())
            &&& exists|rules: Seq<PatternMatch>|
                #![trigger rule_table(rules)]
                d.rules() == rule_table(rules) && rules_read(lines, rules)
        },
        Err(e) => {
            &&& e == Error::MalformedInput
            &&& lines.len() < 2 || (forall|pots: Seq<Pot>| !first_line_draws(lines[0], pots))
                || exists|i: int| 2 <= i < lines.len() && !writes_rule(#[trigger] lines[i])
        },
    }
}

impl PatternMatch {
    /// Reads a rule out of the capture groups of its line.
    pub fn from_groups(groups: &Option<Vec<Option<String>>>) -> (r: Result<PatternMatch, Error>)
        ensures
            match r {
                Ok(rule) => rule_of_groups(groups.deep_view(), rule),
                Err(e) => e == Error::MalformedInput && !groups_write_rule(groups.deep_view()),
            },
    {
        let g = match groups {
            Some(g) => g,
            None => {
                return Err(Error::MalformedInput);
            },
        };
        let (w, o) = match (group(g, 1), group(g, 3)) {
            (Some(w), Some(o)) => (w, o),
            _ => {
                return Err(Error::MalformedInput);
            },
        };
        let (window, outcome) = match (parse_pot_pattern(w), parse_pot_pattern(o)) {
            (Ok(window), Ok(outcome)) => (window, outcome),
            _ => {
                proof {
                    assert forall|rule: PatternMatch| !rule_of_groups(groups.deep_view(), rule) by {
                        if rule_of_groups(groups.deep_view(), rule) {
                            assert(draws(w@, rule.pattern@));
                            assert(draws(o@, seq![rule.pot]));
                        }
                    }
                }
                return Err(Error::MalformedInput);
            },
        };
        if window.len() != 5 || outcome.len() != 1 {
            return Err(Error::MalformedInput);
        }
        let pattern: Pattern = [window[0], window[1], window[2], window[3], window[4]];
        let rule = PatternMatch { pattern, pot: outcome[0] };
        Ok(rule)
    }

    /// Reads a rule such as `..#.. => #`.
    pub fn parse(s: &str) -> (r: Result<PatternMatch, Error>)
        ensures
            match r {
                Ok(rule) => rule_of_groups(captures_of(rule_pattern(), s@), rule),
                Err(e) => e == Error::MalformedInput && !groups_write_rule(
                    captures_of(rule_pattern(), s@),
                ),
            },
    {
        let groups = captures(r"^([#\.]{5})( => )([#\.])$", s);
        PatternMatch::from_groups(&groups)
    }
}

impl Data {
    /// Reads the puzzle from its lines: the row at the beginning, a line
    /// that is skipped unread, then one rule on each line.
    pub fn from_lines(lines: &Vec<String>) -> (r: Result<Data, Error>)
        ensures
            garden_read(lines.deep_view(), r),
    {
        if lines.len() < 2 {
            return Err(Error::MalformedInput);
        }
        assert(lines.deep_view()[0] == lines@[0]@);
        let groups = captures(r"^(initial state: )([#\.]*)$", lines[0].as_str());
        let state = match &groups {
            Some(g) => match group(g, 2) {
                Some(row) => match parse_pot_pattern(row) {
                    Ok(state) => state,
                    Err(e) => {
                        proof {
                            let i = choose|i: int|
                                0 <= i < row@.len() && pot_of_char(#[trigger] row@[i]) is None;
                            assert forall|pots: Seq<Pot>| !draws(row@, pots) by {
                                if draws(row@, pots) {
                                    assert(pot_of_char(row@[i]) == Some(pots[i]));
                                }
                            }
                        }
                        return Err(e);
                    },
                },
                None => {
                    return Err(Error::MalformedInput);
                },
            },
            None => {
                return Err(Error::MalformedInput);
            },
        };
        let mut patterns: Vec<PatternMatch> = Vec::new();
        let mut i: usize = 2;
        while i < lines.len()
            invariant
                2 <= i <= lines@.len(),
                patterns@.len() == i - 2,
                forall|j: int|
                    0 <= j < patterns@.len() ==> rule_of_groups(
                        captures_of(rule_pattern(), lines.deep_view()[j + 2]),
                        #[trigger] patterns@[j],
                    ),
            decreases lines@.len() - i,
        {
            assert(lines.deep_view()[i as int] == lines@[i as int]@);
            match PatternMatch::parse(lines[i].as_str()) {
                Ok(rule) => {
                    patterns.push(rule);
                },
                Err(e) => {
                    proof {
                        assert(!writes_rule(lines.deep_view()[i as int]));
                    }
                    return Err(e);
                },
            }
            i += 1;
        }
        let ghost rules = patterns@;
        let d = Data::new(state, patterns);
        assert(d.rules() == rule_table(rules));
        assert(rules_read(lines.deep_view(), rules));
        Ok(d)
    }

    /// Reads the puzzle: a first line such as `initial state: #..#`, an
    /// empty line, then rules such as `..#.. => #`.
    pub fn parse(s: &str) -> (r: Result<Data, Error>)
        ensures
            garden_read(text_lines(s@), r),
    {
        let all = lines(s);
        Data::from_lines(&all)
    }
}

/// The puzzle and its example.
#[derive(Debug)]
pub struct Solution12 {
    pub data: Option<Data>,
    pub sample: Option<Data>,
}

impl Solution12 {
    /// The puzzle, once read.
    pub closed spec fn data(self) -> Option<Data> {
        self.data
    }

    /// The example, once read.
    pub closed spec fn sample(self) -> Option<Data> {
        self.sample
    }

    /// A solution without input.
    pub fn new() -> (s: Self)
        ensures
            s.data() is None,
            s.sample() is None,
    {
        Solution12 { data: None, sample: None }
    }

    /// Reads the input and the example. On an error the solution keeps
    /// what it had.
    pub fn init(&mut self, data: &str, sample: &str) -> (r: Result<(), Error>)
        ensures
            match r {
                Ok(()) => {
                    &&& final(self).data() matches Some(d) && garden_read(text_lines(data@), Ok(d))
                    &&& final(self).sample() matches Some(d) && garden_read(
                        text_lines(sample@),
                        Ok(d),
                    )
                },
                Err(e) => *final(self) == *old(self) && (garden_read(text_lines(data@), Err(e))
                    || garden_read(text_lines(sample@), Err(e))),
            },
    {
        let data = match Data::parse(data) {
            Ok(d) => d,
            Err(e) => {
                return Err(e);
            },
        };
        let sample = match Data::parse(sample) {
            Ok(d) => d,
            Err(e) => {
                return Err(e);
            },
        };
        self.data = Some(data);
        self.sample = Some(sample);
        Ok(())
    }
}

} // verus!
