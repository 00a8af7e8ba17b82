//! Day 9: the marble game of the elves.
//!
//! The marbles lie in a circle, which a linked list holds with the current
//! marble at its back: the marble clockwise of the current one is at the
//! front. Turning the circle moves marbles from one end to the other.

use crate::error::Error;
use crate::util::pattern::{captures, captures_of, size, size_of};
use vstd::prelude::*;

verus! {

/// The rules of one game: the number of the last marble and the number of
/// players.
#[derive(Debug, Clone, Copy, PartialEq, Eq, Structural)]
pub struct Game {
    pub marbles: usize,
    pub players: usize,
}

/// The regular expression of a line such as
/// `9 players; last marble is worth 25 points`.
pub open spec fn game_pattern() -> Seq<char> {
    r"^(\d+)( players; last marble is worth )(\d+)( points)$"@
}

/// The game that the capture groups of a line write: the players in
/// group one, the last marble in group three.
pub open spec fn game_of_groups(groups: Option<Seq<Option<Seq<char>>>>) -> Result<Game, Error> {
    match groups {
        Some(g) => match (size_of(g, 3), size_of(g, 1)) {
            (Some(marbles), Some(players)) => Ok(Game { marbles, players }),
            _ => Err(Error::MalformedInput),
        },
        None => Err(Error::MalformedInput),
    }
}

/// The game that a line writes.
pub open spec fn game_of_line(line: Seq<char>) -> Result<Game, Error> {
    game_of_groups(captures_of(game_pattern(), line))
}

/// Reads a game out of the capture groups of its line.
pub fn game_from_groups(groups: &Option<Vec<Option<String>>>) -> (r: Result<Game, Error>)
    ensures
        r == game_of_groups(groups.deep_view()),
{
    match groups {
        None => Err(Error::MalformedInput),
        Some(g) => match (size(g, 3), size(g, 1)) {
            (Some(marbles), Some(players)) => Ok(Game { marbles, players }),
            _ => Err(Error::MalformedInput),
        },
    }
}

/// Reads a line such as `9 players; last marble is worth 25 points`.
pub fn parse(s: &str) -> (r: Result<Game, Error>)
    ensures
        r == game_of_line(s@),
{
    let groups = captures(r"^(\d+)( players; last marble is worth )(\d+)( points)$", s);
    game_from_groups(&groups)
}

/// The remainder of `off` by `n` that has the sign of `off`.
pub open spec fn remainder(off: int, n: int) -> int {
    if off >= 0 {
        off % n
    } else {
        -((-off) % n)
    }
}

/// The place `off` steps from `cur` in a circle of `n` places, counted
/// from the end where the steps lead below the first place.
pub open spec fn offset_of(cur: int, off: int, n: int) -> int {
    let to = cur + remainder(off, n);
    if to < 0 {
        n + to
    } else {
        to
    }
}

/// The place `off` steps from `cur` in a circle of `n` places: `off` is
/// first reduced to fewer than `n` steps, and steps that lead below the
/// first place count from the end.
pub fn offset(cur: usize, off: isize, n: usize) -> (to: usize)
    requires
        0 < n <= isize::MAX,
        cur <= isize::MAX,
        cur + remainder(off as int, n as int) <= isize::MAX,
    ensures
        to == offset_of(cur as int, off as int, n as int),
{
    let steps: i128 = off as i128;
    let places: i128 = n as i128;
    let rest: i128 = if steps >= 0 {
        steps % places
    } else {
        -((-steps) % places)
    };
    let to: i128 = cur as i128 + rest;
    if to < 0 {
        (places + to) as usize
    } else {
        to as usize
    }
}

/// The marbles of a circle, from the marble clockwise of the current one
/// round to the current one, in a `linked_list::LinkedList`. The list has
/// an allocator for a parameter, which keeps the verifier from taking the
/// type as it is; so the list stands in this struct, which the verifier
/// does not look into. What the list holds is told by `circle_items`.
#[verifier::external_body]
pub struct Circle {
    list: linked_list::LinkedList<usize>,
}

/// The marbles that a circle holds, from its front to its back.
pub uninterp spec fn circle_items(c: Circle) -> Seq<usize>;

impl Circle {
    /// Makes an empty list with `linked_list::LinkedList::new`.
    #[verifier::external_body]
    pub(crate) fn new() -> (c: Circle)
        ensures
            circle_items(c) == Seq::<usize>::empty(),
    {
        Circle { list: linked_list::LinkedList::new() }
    }

    /// Calls `LinkedList::push_back`, which puts `marble` behind the last
    /// item and leaves the others as they are.
    #[verifier::external_body]
    pub(crate) fn push_back(&mut self, marble: usize)
        ensures
            circle_items(*final(self)) == circle_items(*old(self)).push(marble),
    {
        self.list.push_back(marble)
    }

    /// Calls `LinkedList::push_front`, which puts `marble` before the
    /// first item and leaves the others as they are.
    #[verifier::external_body]
    pub(crate) fn push_front(&mut self, marble: usize)
        ensures
            circle_items(*final(self)) == seq![marble] + circle_items(*old(self)),
    {
        self.list.push_front(marble)
    }

    /// Calls `LinkedList::pop_back`, which takes the last item out and
    /// hands it back; an empty list stays empty and gives nothing.
    #[verifier::external_body]
    pub(crate) fn pop_back(&mut self) -> (marble: Option<usize>)
        ensures
            circle_items(*old(self)).len() == 0 ==> marble is None && circle_items(*final(self))
                == circle_items(*old(self)),
            circle_items(*old(self)).len() > 0 ==> marble == Some(circle_items(*old(self)).last())
                && circle_items(*final(self)) == circle_items(*old(self)).drop_last(),
    {
        self.list.pop_back()
    }

    /// Calls `LinkedList::pop_front`, which takes the first item out and
    /// hands it back; an empty list stays empty and gives nothing.
    #[verifier::external_body]
    pub(crate) fn pop_front(&mut self) -> (marble: Option<usize>)
        ensures
            circle_items(*old(self)).len() == 0 ==> marble is None && circle_items(*final(self))
                == circle_items(*old(self)),
            circle_items(*old(self)).len() > 0 ==> marble == Some(circle_items(*old(self)).first())
                && circle_items(*final(self)) == circle_items(*old(self)).drop_first(),
    {
        self.list.pop_front()
    }
}

/// The circle after the marble clockwise of the current one has become
/// the current one.
pub open spec fn clockwise(circle: Seq<usize>) -> Seq<usize> {
    if circle.len() == 0 {
        circle
    } else {
        circle.drop_first().push(circle.first())
    }
}

/// The circle after the marble counter-clockwise of the current one has
/// become the current one.
pub open spec fn counter_clockwise(circle: Seq<usize>) -> Seq<usize> {
    if circle.len() == 0 {
        circle
    } else {
        seq![circle.last()] + circle.drop_last()
    }
}

/// The circle after `steps` turns counter-clockwise.
pub open spec fn turned_back(circle: Seq<usize>, steps: nat) -> Seq<usize>
    decreases steps,
{
    if steps == 0 {
        circle
    } else {
        counter_clockwise(turned_back(circle, (steps - 1) as nat))
    }
}

/// Whether a marble scores: each twenty-third does.
pub open spec fn scores(marble: usize) -> bool {
    marble % 23 == 0
}

/// The circle after `marble` was played. A marble that scores is kept by
/// the player, who also takes the marble seven places counter-clockwise
/// of the current one; the marble clockwise of that one becomes the
/// current one. Any other marble goes between the marbles one and two
/// places clockwise of the current one and becomes the current one.
pub open spec fn placed(circle: Seq<usize>, marble: usize) -> Seq<usize> {
    if !scores(marble) {
        clockwise(circle).push(marble)
    } else if turned_back(circle, 7).len() == 0 {
        circle
    } else {
        clockwise(turned_back(circle, 7).drop_last())
    }
}

/// Turning a circle keeps the number of its marbles.
pub proof fn lemma_turned_back_len(circle: Seq<usize>, steps: nat)
    ensures
        turned_back(circle, steps).len() == circle.len(),
    decreases steps,
{
    if steps > 0 {
        lemma_turned_back_len(circle, (steps - 1) as nat);
    }
}

/// The number of marbles in the circle of a game: each marble played adds
/// one, and each that scores takes two away, so the circle is never empty.
pub proof fn lemma_circle_holds(players: nat, marble: usize)
    ensures
        played(players, marble).circle.len() + 2 * (marble / 23) == marble + 1,
    decreases marble,
{
    if marble > 0 {
        let before = played(players, (marble - 1) as usize);
        lemma_circle_holds(players, (marble - 1) as usize);
        lemma_turned_back_len(before.circle, 7);
        if scores(marble) {
            assert((marble - 1) / 23 == marble / 23 - 1);
        } else {
            assert((marble - 1) / 23 == marble / 23);
        }
    }
}

/// The points that playing `marble` brings: for a marble that scores, its
/// number and that of the marble taken out of the circle.
pub open spec fn points(circle: Seq<usize>, marble: usize) -> nat {
    if !scores(marble) {
        0
    } else if turned_back(circle, 7).len() == 0 {
        marble as nat
    } else {
        (marble + turned_back(circle, 7).last()) as nat
    }
}

/// A game under way: the circle and the score of each player.
pub ghost struct Table {
    pub circle: Seq<usize>,
    pub scores: Seq<nat>,
}

/// The game of `players` players after the marbles up to `marble` were
/// played in turn, marble one by the first player.
pub open spec fn played(players: nat, marble: usize) -> Table
    recommends
        players > 0,
    decreases marble,
{
    if marble == 0 {
        Table { circle: seq![0usize], scores: Seq::new(players, |i: int| 0nat) }
    } else {
        let before = played(players, (marble - 1) as usize);
        let player = (marble - 1) % (players as int);
        Table {
            circle: placed(before.circle, marble),
            scores: before.scores.update(
                player,
                before.scores[player] + points(before.circle, marble),
            ),
        }
    }
}

/// The highest of the scores, zero where there are none.
pub open spec fn highest(scores: Seq<nat>) -> nat
    decreases scores.len(),
{
    if scores.len() == 0 {
        0
    } else if scores.last() > highest(scores.drop_last()) {
        scores.last()
    } else {
        highest(scores.drop_last())
    }
}

/// The highest score of a game: `MalformedInput` where nobody plays,
/// `NotFound` where no marble scores, `Overflow` where the highest score
/// does not fit the machine.
pub open spec fn high_score(g: Game) -> Result<usize, Error> {
    if g.players == 0 {
        Err(Error::MalformedInput)
    } else if g.marbles < 23 {
        Err(Error::NotFound)
    } else if highest(played(g.players as nat, g.marbles).scores) > usize::MAX {
        Err(Error::Overflow)
    } else {
        Ok(highest(played(g.players as nat, g.marbles).scores) as usize)
    }
}

/// A game has one score for each player.
pub proof fn lemma_played_scores(players: nat, marble: usize)
    requires
        players > 0,
    ensures
        played(players, marble).scores.len() == players,
    decreases marble,
{
    if marble > 0 {
        lemma_played_scores(players, (marble - 1) as usize);
    }
}

/// No score is above the highest.
pub proof fn lemma_highest(scores: Seq<nat>, i: int)
    requires
        0 <= i < scores.len(),
    ensures
        scores[i] <= highest(scores),
    decreases scores.len(),
{
    if i < scores.len() - 1 {
        lemma_highest(scores.drop_last(), i);
    }
}

/// No score of a game ever falls.
pub proof fn lemma_scores_grow(players: nat, early: usize, late: usize, i: int)
    requires
        players > 0,
        early <= late,
        0 <= i < players,
    ensures
        played(players, early).scores[i] <= played(players, late).scores[i],
    decreases late,
{
    if early < late {
        lemma_scores_grow(players, early, (late - 1) as usize, i);
        lemma_played_scores(players, (late - 1) as usize);
    }
}

/// Turns the circle one marble clockwise.
fn turn_clockwise(circle: &mut Circle)
    ensures
        circle_items(*final(circle)) == clockwise(circle_items(*old(circle))),
{
    if let Some(marble) = circle.pop_front() {
        circle.push_back(marble);
    }
}

/// Turns the circle one marble counter-clockwise.
fn turn_counter_clockwise(circle: &mut Circle)
    ensures
        circle_items(*final(circle)) == counter_clockwise(circle_items(*old(circle))),
{
    if let Some(marble) = circle.pop_back() {
        circle.push_front(marble);
    }
}

/// The highest of the scores.
fn highest_of(scores: &Vec<usize>) -> (top: usize)
    ensures
        top == highest(scores@.map_values(|s: usize| s as nat)),
{
    let ghost all = scores@.map_values(|s: usize| s as nat);
    let mut top: usize = 0;
    let mut i: usize = 0;
    while i < scores.len()
        invariant
            i <= scores@.len(),
            all == scores@.map_values(|s: usize| s as nat),
            top == highest(all.take(i as int)),
        decreases scores@.len() - i,
    {
        proof {
            assert(all.take(i + 1).drop_last() =~= all.take(i as int));
        }
        if scores[i] > top {
            top = scores[i];
        }
        i += 1;
    }
    proof {
        assert(all.take(i as int) =~= all);
    }
    top
}

/// Plays the game and gives the highest score.
pub fn part1(g: &Game) -> (r: Result<usize, Error>)
    ensures
        r == high_score(*g),
{
    if g.players == 0 {
        return Err(Error::MalformedInput);
    }
    if g.marbles < 23 {
        return Err(Error::NotFound);
    }
    let ghost players = g.players as nat;
    let mut circle = Circle::new();
    circle.push_back(0);
    let mut scores: Vec<usize> = Vec::new();
    let mut i: usize = 0;
    while i < g.players
        invariant
            i <= g.players,
            scores@ == Seq::new(i as nat, |k: int| 0usize),
        decreases g.players - i,
    {
        scores.push(0);
        proof {
            assert(scores@ =~= Seq::new((i + 1) as nat, |k: int| 0usize));
        }
        i += 1;
    }
    let mut player: usize = 0;
    let mut marble: usize = 0;
    proof {
        assert(circle_items(circle) =~= seq![0usize]);
        assert(scores@.map_values(|s: usize| s as nat) =~= played(players, 0).scores);
    }
    while marble < g.marbles
        invariant
            players == g.players,
            players > 0,
            marble <= g.marbles,
            player == marble % g.players,
            circle_items(circle) == played(players, marble).circle,
            scores@.map_values(|s: usize| s as nat) == played(players, marble).scores,
            scores@.len() == players,
        decreases g.marbles - marble,
    {
        let ghost before = played(players, marble);
        let ghost old_scores = scores@;
        marble += 1;
        if marble % 23 == 0 {
            let mut k: usize = 0;
            while k < 7
                invariant
                    k <= 7,
                    circle_items(circle) == turned_back(before.circle, k as nat),
                decreases 7 - k,
            {
                turn_counter_clockwise(&mut circle);
                k += 1;
            }
            let taken = match circle.pop_back() {
                Some(taken) => taken,
                None => 0,
            };
            turn_clockwise(&mut circle);
            proof {
                assert(scores@[player as int] as nat == before.scores[player as int]);
                lemma_scores_grow(players, marble, g.marbles, player as int);
                lemma_played_scores(players, g.marbles);
                lemma_highest(played(players, g.marbles).scores, player as int);
            }
            let gain = match marble.checked_add(taken) {
                Some(gain) => gain,
                None => {
                    return Err(Error::Overflow);
                },
            };
            let sum = match scores[player].checked_add(gain) {
                Some(sum) => sum,
                None => {
                    return Err(Error::Overflow);
                },
            };
            scores[player] = sum;
        }
        else {
            turn_clockwise(&mut circle);
            circle.push_back(marble);
        }
        proof {
            lemma_turned_back_len(before.circle, 7);
            assert(circle_items(circle) =~= placed(before.circle, marble));
            assert(scores@.map_values(|s: usize| s as nat) =~= played(players, marble).scores);
        }
        player = (player + 1) % g.players;
        proof {
            assert(player == marble % g.players) by (nonlinear_arith)
                requires
                    g.players > 0,
                    marble >= 1,
                    player == (((marble - 1) % (g.players as int)) + 1) % (g.players as int),
            ;
        }
    }
    let top = highest_of(&scores);
    Ok(top)
}

/// The second part of the puzzle plays the same game with a hundred times
/// as many marbles: this function has nothing of its own to find.
pub fn part2(g: &Game) -> (r: Result<usize, Error>)
    ensures
        r == Ok::<usize, Error>(0),
{
    Ok(0)
}

} // verus!
