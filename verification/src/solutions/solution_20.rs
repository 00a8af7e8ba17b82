//! A map of rooms and doors, drawn by following a regular expression of
//! directions.

use crate::error::Error;
use crate::util::mat2::{Mat2, Pos};
use crate::util::text::chars_of;
use vstd::prelude::*;
use vstd::string::*;

verus! {

/// A direction on the map.
#[derive(Debug, Copy, Clone, PartialEq, Eq, Structural)]
pub enum Direction {
    North,
    East,
    South,
    West,
}

/// What a place on the map holds.
#[derive(Debug, Copy, Clone, PartialEq, Eq, Structural)]
pub enum TileKind {
    VerticalDoor,
    HorizontalDoor,
    Wall,
    Room,
    Cur,
}

impl Default for TileKind {
    fn default() -> (t: TileKind)
        ensures
            t == TileKind::Wall,
    {
        TileKind::Wall
    }
}

/// The direction that a letter stands for.
pub open spec fn direction_of_char(c: char) -> Option<Direction> {
    if c == 'N' {
        Some(Direction::North)
    } else if c == 'E' {
        Some(Direction::East)
    } else if c == 'S' {
        Some(Direction::South)
    } else if c == 'W' {
        Some(Direction::West)
    } else {
        None
    }
}

/// The tile that a character stands for.
pub open spec fn tile_of_char(c: char) -> Option<TileKind> {
    if c == '#' {
        Some(TileKind::Wall)
    } else if c == '.' {
        Some(TileKind::Room)
    } else if c == '-' {
        Some(TileKind::VerticalDoor)
    } else if c == '|' {
        Some(TileKind::HorizontalDoor)
    } else if c == 'X' {
        Some(TileKind::Cur)
    } else {
        None
    }
}

impl Direction {
    /// The step of a move in this direction: east and south count up.
    pub open spec fn step(self) -> (int, int) {
        match self {
            Direction::North => (0, -1),
            Direction::East => (1, 0),
            Direction::South => (0, 1),
            Direction::West => (-1, 0),
        }
    }

    /// Whether the direction runs east or west.
    pub open spec fn horizontal(self) -> bool {
        self == Direction::East || self == Direction::West
    }

    /// The door that one passes in this direction.
    pub open spec fn door(self) -> TileKind {
        if self.horizontal() {
            TileKind::HorizontalDoor
        } else {
            TileKind::VerticalDoor
        }
    }

    /// Reads a direction.
    pub fn from_char(c: char) -> (r: Result<Direction, Error>)
        ensures
            r == (match direction_of_char(c) {
                Some(d) => Ok(d),
                None => Err(Error::MalformedInput),
            }),
    {
        match c {
            'N' => Ok(Direction::North),
            'E' => Ok(Direction::East),
            'S' => Ok(Direction::South),
            'W' => Ok(Direction::West),
            _ => Err(Error::MalformedInput),
        }
    }

    /// The letter of the direction.
    pub open spec fn letter(self) -> char {
        match self {
            Direction::North => 'N',
            Direction::East => 'E',
            Direction::South => 'S',
            Direction::West => 'W',
        }
    }

    /// The letter of the direction; `direction_of_char` reads it back.
    pub fn to_char(&self) -> (c: char)
        ensures
            c == self.letter(),
            direction_of_char(c) == Some(*self),
    {
        match self {
            Direction::North => 'N',
            Direction::East => 'E',
            Direction::South => 'S',
            Direction::West => 'W',
        }
    }

    /// The step of a move in this direction.
    pub fn offset(&self) -> (off: (isize, isize))
        ensures
            (off.0 as int, off.1 as int) == self.step(),
    {
        match self {
            Direction::North => (0, -1),
            Direction::East => (1, 0),
            Direction::South => (0, 1),
            Direction::West => (-1, 0),
        }
    }

    /// Whether the direction is east or west.
    pub fn is_horizontal(&self) -> (b: bool)
        ensures
            b == self.horizontal(),
    {
        match self {
            Direction::North | Direction::South => false,
            _ => true,
        }
    }

    /// Whether the direction is north or south.
    pub fn is_vertical(&self) -> (b: bool)
        ensures
            b == !self.horizontal(),
    {
        !self.is_horizontal()
    }

    /// The door that a step in this direction goes through.
    pub fn door_kind(&self) -> (t: TileKind)
        ensures
            t == self.door(),
    {
        if self.is_vertical() {
            TileKind::VerticalDoor
        } else {
            TileKind::HorizontalDoor
        }
    }
}

impl TileKind {
    /// Reads a tile.
    pub fn from_char(c: char) -> (r: Result<TileKind, Error>)
        ensures
            r == (match tile_of_char(c) {
                Some(t) => Ok(t),
                None => Err(Error::MalformedInput),
            }),
    {
        match c {
            '#' => Ok(TileKind::Wall),
            '.' => Ok(TileKind::Room),
            '-' => Ok(TileKind::VerticalDoor),
            '|' => Ok(TileKind::HorizontalDoor),
            'X' => Ok(TileKind::Cur),
            _ => Err(Error::MalformedInput),
        }
    }

    /// The character of the tile; `tile_of_char` reads it back.
    pub fn to_char(&self) -> (c: char)
        ensures
            tile_of_char(c) == Some(*self),
    {
        match self {
            TileKind::Wall => '#',
            TileKind::Room => '.',
            TileKind::VerticalDoor => '-',
            TileKind::HorizontalDoor => '|',
            TileKind::Cur => 'X',
        }
    }
}

/// A regular expression of directions: a run of steps, a choice between
/// branches, or parts one after the other.
#[derive(Debug)]
pub enum Expression {
    Sequence(Vec<Direction>),
    OneOf(Vec<Expression>),
    Concat(Vec<Expression>),
}

impl Default for Expression {
    fn default() -> (e: Expression)
        ensures
            e@ == Expr::Sequence(Seq::<Direction>::empty()),
    {
        let e = Expression::Sequence(Vec::new());
        assert(e@ == Expr::Sequence(Seq::<Direction>::empty())) by {
            reveal_with_fuel(Expression::view, 2);
        }
        e
    }
}

/// What an expression says, apart from how it is stored.
pub ghost enum Expr {
    Sequence(Seq<Direction>),
    OneOf(Seq<Expr>),
    Concat(Seq<Expr>),
}

/// What the expressions say, one by one.
pub open spec fn views(all: Seq<Expression>) -> Seq<Expr>
    decreases all,
{
    if all.len() == 0 {
        Seq::empty()
    } else {
        views(all.subrange(0, all.len() - 1)).push(all[all.len() - 1].view())
    }
}

impl Expression {
    /// What the expression says.
    pub open spec fn view(self) -> Expr
        decreases self,
    {
        match self {
            Expression::Sequence(seq) => Expr::Sequence(seq@),
            Expression::OneOf(exprs) => Expr::OneOf(views(exprs@)),
            Expression::Concat(exprs) => Expr::Concat(views(exprs@)),
        }
    }
}

/// The views of a list that has grown by one expression.
pub proof fn lemma_views_push(all: Seq<Expression>, e: Expression)
    ensures
        views(all.push(e)) == views(all).push(e.view()),
{
    let grown = all.push(e);
    assert(grown.subrange(0, grown.len() - 1) =~= all);
}

/// The index of the bracket that closes the one at the beginning of the
/// text between `i` and `to`, where `level` brackets are open at `i`.
pub open spec fn find_close(s: Seq<char>, i: int, to: int, level: int) -> Option<int>
    decreases to - i,
{
    if i < 0 || i >= to || to > s.len() {
        None
    } else if level == 1 && s[i] == ')' {
        Some(i)
    } else if s[i] == '(' {
        find_close(s, i + 1, to, level + 1)
    } else if s[i] == ')' {
        find_close(s, i + 1, to, level - 1)
    } else {
        find_close(s, i + 1, to, level)
    }
}

/// Where the branch ends that is under way at `i`: at the first bar
/// outside all brackets, or at `to`.
pub open spec fn option_end(s: Seq<char>, i: int, to: int, level: int) -> int
    decreases to - i,
{
    if i < 0 || i >= to || to > s.len() {
        to
    } else if s[i] == '(' {
        option_end(s, i + 1, to, level + 1)
    } else if s[i] == ')' {
        option_end(s, i + 1, to, level - 1)
    } else if level == 0 && s[i] == '|' {
        i
    } else {
        option_end(s, i + 1, to, level)
    }
}

/// Where the run of steps ends that begins at `i`: at the first opening
/// bracket, or at `to`.
pub open spec fn run_end(s: Seq<char>, i: int, to: int) -> int
    decreases to - i,
{
    if i < 0 || i >= to || to > s.len() || s[i] == '(' {
        if i > to {
            to
        } else {
            i
        }
    } else {
        run_end(s, i + 1, to)
    }
}

/// The steps that the letters between `from` and `to` write, if all of
/// them are letters of directions.
pub open spec fn steps_of(s: Seq<char>, from: int, to: int) -> Option<Seq<Direction>>
    decreases to - from,
{
    if from >= to {
        Some(Seq::empty())
    } else {
        match (steps_of(s, from, to - 1), direction_of_char(s[to - 1])) {
            (Some(before), Some(d)) => Some(before.push(d)),
            _ => None,
        }
    }
}

/// The expression that begins at `from`, and how many characters it takes:
/// a choice in brackets, or a run of steps up to the next bracket.
pub open spec fn parse_one(s: Seq<char>, from: int, to: int) -> Result<(Expr, int), Error>
    decreases to - from, 0nat,
{
    if from < 0 || from >= to || to > s.len() {
        Ok((Expr::Sequence(Seq::empty()), 0))
    } else if s[from] == '(' {
        match find_close(s, from, to, 0) {
            None => Err(Error::MalformedInput),
            Some(end) => if from < end < to {
                match parse_options(s, from + 1, end) {
                    Err(e) => Err(e),
                    Ok(options) => Ok((Expr::OneOf(options), end + 1 - from)),
                }
            } else {
                Err(Error::MalformedInput)
            },
        }
    } else {
        match steps_of(s, from, run_end(s, from, to)) {
            Some(steps) => Ok((Expr::Sequence(steps), run_end(s, from, to) - from)),
            None => Err(Error::MalformedInput),
        }
    }
}

/// The expressions between `from` and `to`, one after the other.
pub open spec fn parse_list(s: Seq<char>, from: int, to: int) -> Result<Seq<Expr>, Error>
    decreases to - from, 1nat,
{
    if from < 0 || from >= to || to > s.len() {
        Ok(Seq::empty())
    } else {
        match parse_one(s, from, to) {
            Err(e) => Err(e),
            Ok((first, skip)) => if 0 < skip <= to - from {
                match parse_list(s, from + skip, to) {
                    Err(e) => Err(e),
                    Ok(rest) => Ok(seq![first] + rest),
                }
            } else {
                Err(Error::MalformedInput)
            },
        }
    }
}

/// The branches between `from` and `to`, with bars between them.
pub open spec fn parse_options(s: Seq<char>, from: int, to: int) -> Result<Seq<Expr>, Error>
    decreases to - from, 2nat,
{
    if from < 0 || from > to || to > s.len() {
        Err(Error::MalformedInput)
    } else {
        let end = option_end(s, from, to, 0);
        if from <= end <= to {
            match parse_list(s, from, end) {
                Err(e) => Err(e),
                Ok(parts) => if end >= to {
                    Ok(seq![Expr::Concat(parts)])
                } else {
                    match parse_options(s, end + 1, to) {
                        Err(e) => Err(e),
                        Ok(rest) => Ok(seq![Expr::Concat(parts)] + rest),
                    }
                },
            }
        } else {
            Err(Error::MalformedInput)
        }
    }
}

/// The whole expression between `from` and `to`.
pub open spec fn parse_many(s: Seq<char>, from: int, to: int) -> Result<Expr, Error> {
    match parse_list(s, from, to) {
        Err(e) => Err(e),
        Ok(parts) => Ok(Expr::Concat(parts)),
    }
}

/// The expression of the puzzle: between `^` and `$`.
pub open spec fn parse_text(s: Seq<char>) -> Result<Expr, Error> {
    if s.len() >= 2 && s[0] == '^' && s[s.len() - 1] == '$' {
        parse_many(s, 1, s.len() - 1)
    } else {
        Err(Error::MalformedInput)
    }
}

fn close_at(s: &Vec<char>, from: usize, to: usize) -> (r: Option<usize>)
    requires
        from <= to <= s@.len(),
    ensures
        match r {
            Some(end) => find_close(s@, from as int, to as int, 0) == Some(end as int) && from
                <= end < to,
            None => find_close(s@, from as int, to as int, 0) is None,
        },
{
    let mut level: i128 = 0;
    let mut i: usize = from;
    while i < to
        invariant
            from <= i <= to <= s@.len(),
            -(i - from) <= level <= i - from,
            find_close(s@, from as int, to as int, 0) == find_close(
                s@,
                i as int,
                to as int,
                level as int,
            ),
        decreases to - i,
    {
        let c = s[i];
        if level == 1 && c == ')' {
            return Some(i);
        }
        if c == '(' {
            level = level + 1;
        } else if c == ')' {
            level = level - 1;
        }
        i += 1;
    }
    None
}

fn option_end_at(s: &Vec<char>, from: usize, to: usize) -> (end: usize)
    requires
        from <= to <= s@.len(),
    ensures
        end == option_end(s@, from as int, to as int, 0),
        from <= end <= to,
{
    let mut level: i128 = 0;
    let mut i: usize = from;
    while i < to
        invariant
            from <= i <= to <= s@.len(),
            -(i - from) <= level <= i - from,
            option_end(s@, from as int, to as int, 0) == option_end(
                s@,
                i as int,
                to as int,
                level as int,
            ),
        decreases to - i,
    {
        let c = s[i];
        if c == '(' {
            level = level + 1;
        } else if c == ')' {
            level = level - 1;
        } else if level == 0 && c == '|' {
            return i;
        }
        i += 1;
    }
    to
}

fn run_end_at(s: &Vec<char>, from: usize, to: usize) -> (end: usize)
    requires
        from <= to <= s@.len(),
    ensures
        end == run_end(s@, from as int, to as int),
        from <= end <= to,
{
    let mut i: usize = from;
    while i < to && s[i] != '('
        invariant
            from <= i <= to <= s@.len(),
            run_end(s@, from as int, to as int) == run_end(s@, i as int, to as int),
        decreases to - i,
    {
        i += 1;
    }
    i
}

fn steps_at(s: &Vec<char>, from: usize, to: usize) -> (r: Option<Vec<Direction>>)
    requires
        from <= to <= s@.len(),
    ensures
        match r {
            Some(steps) => steps_of(s@, from as int, to as int) == Some(steps@),
            None => steps_of(s@, from as int, to as int) is None,
        },
{
    let mut steps: Vec<Direction> = Vec::new();
    let mut i: usize = from;
    while i < to
        invariant
            from <= i <= to <= s@.len(),
            steps_of(s@, from as int, i as int) == Some(steps@),
        decreases to - i,
    {
        match Direction::from_char(s[i]) {
            Ok(d) => {
                steps.push(d);
            },
            Err(_) => {
                proof {
                    lemma_steps_fail(s@, from as int, i + 1, to as int);
                }
                return None;
            },
        }
        i += 1;
    }
    Some(steps)
}

/// A closing bracket is found at or behind the place where the search
/// begins.
pub proof fn lemma_find_close_bounds(s: Seq<char>, i: int, to: int, level: int)
    ensures
        find_close(s, i, to, level) matches Some(end) ==> i <= end < to,
    decreases to - i,
{
    if !(i < 0 || i >= to || to > s.len()) && !(level == 1 && s[i] == ')') {
        if s[i] == '(' {
            lemma_find_close_bounds(s, i + 1, to, level + 1);
        } else if s[i] == ')' {
            lemma_find_close_bounds(s, i + 1, to, level - 1);
        } else {
            lemma_find_close_bounds(s, i + 1, to, level);
        }
    }
}

/// Where the letters up to some place write no steps, the letters up to
/// a later place write none.
pub proof fn lemma_steps_fail(s: Seq<char>, from: int, at: int, to: int)
    requires
        from <= at <= to,
        steps_of(s, from, at) is None,
    ensures
        steps_of(s, from, to) is None,
    decreases to - at,
{
    if at < to {
        lemma_steps_fail(s, from, at, to - 1);
    }
}

fn parse_one_at(s: &Vec<char>, from: usize, to: usize) -> (r: Result<(Expression, usize), Error>)
    requires
        from <= to <= s@.len(),
    ensures
        match r {
            Ok((e, skip)) => parse_one(s@, from as int, to as int) == Ok::<(Expr, int), Error>(
                (e@, skip as int),
            ) && skip <= to - from,
            Err(e) => parse_one(s@, from as int, to as int) == Err::<(Expr, int), Error>(e),
        },
    decreases to - from, 0nat,
{
    if from >= to {
        let e = Expression::Sequence(Vec::new());
        assert(e@ == Expr::Sequence(Seq::<Direction>::empty()));
        return Ok((e, 0));
    }
    if s[from] == '(' {
        match close_at(s, from, to) {
            None => Err(Error::MalformedInput),
            Some(end) => {
                proof {
                    lemma_find_close_bounds(s@, from + 1, to as int, 1);
                }
                match parse_options_at(s, from + 1, end) {
                    Err(e) => Err(e),
                    Ok(options) => {
                        let e = Expression::OneOf(options);
                        Ok((e, end + 1 - from))
                    },
                }
            },
        }
    } else {
        let end = run_end_at(s, from, to);
        match steps_at(s, from, end) {
            Some(steps) => {
                let e = Expression::Sequence(steps);
                Ok((e, end - from))
            },
            None => Err(Error::MalformedInput),
        }
    }
}

fn parse_list_at(s: &Vec<char>, from: usize, to: usize) -> (r: Result<Vec<Expression>, Error>)
    requires
        from <= to <= s@.len(),
    ensures
        match r {
            Ok(parts) => parse_list(s@, from as int, to as int) == Ok::<Seq<Expr>, Error>(
                views(parts@),
            ),
            Err(e) => parse_list(s@, from as int, to as int) == Err::<Seq<Expr>, Error>(e),
        },
    decreases to - from, 1nat,
{
    if from >= to {
        let parts: Vec<Expression> = Vec::new();
        return Ok(parts);
    }
    match parse_one_at(s, from, to) {
        Err(e) => Err(e),
        Ok((first, skip)) => {
            if skip == 0 {
                return Err(Error::MalformedInput);
            }
            match parse_list_at(s, from + skip, to) {
                Err(e) => Err(e),
                Ok(rest) => {
                    let mut parts: Vec<Expression> = Vec::new();
                    let ghost first_view = first@;
                    let ghost rest_views = views(rest@);
                    parts.push(first);
                    proof {
                        lemma_views_push(Seq::<Expression>::empty(), parts@[0]);
                        assert(Seq::<Expression>::empty().push(parts@[0]) =~= parts@);
                        assert(views(parts@) =~= seq![first_view]);
                    }
                    let mut rest = rest;
                    append_all(&mut parts, &mut rest);
                    Ok(parts)
                },
            }
        },
    }
}

/// Moves the expressions of `more` to the end of `parts`.
fn append_all(parts: &mut Vec<Expression>, more: &mut Vec<Expression>)
    ensures
        views(final(parts)@) == views(old(parts)@) + views(old(more)@),
{
    let ghost before = parts@;
    let ghost added = more@;
    parts.append(more);
    proof {
        lemma_views_add(before, added);
    }
}

/// The views of two lists, one after the other.
pub proof fn lemma_views_add(a: Seq<Expression>, b: Seq<Expression>)
    ensures
        views(a + b) == views(a) + views(b),
    decreases b.len(),
{
    if b.len() == 0 {
        assert(a + b =~= a);
        assert(views(a) + views(b) =~= views(a));
    } else {
        let front = b.subrange(0, b.len() - 1);
        let last = b[b.len() - 1];
        lemma_views_add(a, front);
        assert((a + b).subrange(0, (a + b).len() - 1) =~= a + front);
        assert((a + b)[(a + b).len() - 1] == last);
        assert(views(a + b) =~= views(a) + views(b));
    }
}

fn parse_options_at(s: &Vec<char>, from: usize, to: usize) -> (r: Result<Vec<Expression>, Error>)
    requires
        from <= to <= s@.len(),
    ensures
        match r {
            Ok(options) => parse_options(s@, from as int, to as int) == Ok::<Seq<Expr>, Error>(
                views(options@),
            ),
            Err(e) => parse_options(s@, from as int, to as int) == Err::<Seq<Expr>, Error>(e),
        },
    decreases to - from, 2nat,
{
    let end = option_end_at(s, from, to);
    match parse_list_at(s, from, end) {
        Err(e) => Err(e),
        Ok(parts) => {
            let branch = Expression::Concat(parts);
            let ghost branch_view = branch@;
            let mut options: Vec<Expression> = Vec::new();
            options.push(branch);
            proof {
                lemma_views_push(Seq::<Expression>::empty(), options@[0]);
                assert(Seq::<Expression>::empty().push(options@[0]) =~= options@);
                assert(views(options@) =~= seq![branch_view]);
            }
            if end >= to {
                Ok(options)
            } else {
                match parse_options_at(s, end + 1, to) {
                    Err(e) => Err(e),
                    Ok(rest) => {
                        let mut rest = rest;
                        append_all(&mut options, &mut rest);
                        Ok(options)
                    },
                }
            }
        },
    }
}

/// Reads the expression at the beginning of the text: a choice in
/// brackets, or a run of steps up to the next bracket. Returns it with
/// the number of characters that it takes.
pub fn parse_expression(s: &str) -> (r: Result<(Expression, usize), Error>)
    ensures
        match r {
            Ok((e, skip)) => parse_one(s@, 0, s@.len() as int) == Ok::<(Expr, int), Error>(
                (e@, skip as int),
            ),
            Err(e) => parse_one(s@, 0, s@.len() as int) == Err::<(Expr, int), Error>(e),
        },
{
    let chars = chars_of(s);
    parse_one_at(&chars, 0, chars.len())
}

/// Reads the text as expressions one after the other.
pub fn parse_expressions(s: &str) -> (r: Result<Expression, Error>)
    ensures
        match r {
            Ok(e) => parse_many(s@, 0, s@.len() as int) == Ok::<Expr, Error>(e@),
            Err(e) => parse_many(s@, 0, s@.len() as int) == Err::<Expr, Error>(e),
        },
{
    let chars = chars_of(s);
    match parse_list_at(&chars, 0, chars.len()) {
        Ok(parts) => Ok(Expression::Concat(parts)),
        Err(e) => Err(e),
    }
}

/// The expression of the puzzle.
#[derive(Debug)]
pub struct Data {
    pub expr: Expression,
}

impl Data {
    /// Reads the expression of the puzzle, which stands between `^` and
    /// `$`.
    pub fn parse(s: &str) -> (r: Result<Data, Error>)
        ensures
            match r {
                Ok(d) => parse_text(s@) == Ok::<Expr, Error>(d.expr@),
                Err(e) => parse_text(s@) == Err::<Expr, Error>(e),
            },
    {
        let chars = chars_of(s);
        let n = chars.len();
        if n < 2 || chars[0] != '^' || chars[n - 1] != '$' {
            return Err(Error::MalformedInput);
        }
        match parse_list_at(&chars, 1, n - 1) {
            Ok(parts) => Ok(Data { expr: Expression::Concat(parts) }),
            Err(e) => Err(e),
        }
    }
}

/// A square map as the walk sees it: its width, its tiles and, for each
/// place, in how many steps it was reached at best; `usize::MAX` for a
/// place that was not reached.
pub ghost struct Maze {
    pub n: nat,
    pub tiles: Seq<TileKind>,
    pub reach: Seq<usize>,
}

/// The smaller of two numbers.
pub open spec fn least(a: usize, b: usize) -> usize {
    if a <= b {
        a
    } else {
        b
    }
}

impl Maze {
    /// Whether column `x` and row `y` lie on the map.
    pub open spec fn holds(self, x: int, y: int) -> bool {
        0 <= x < self.n && 0 <= y < self.n
    }

    /// One move in the direction `dir` from the room at `p`, reached in
    /// `d - 1` steps: through a door into the next room, which is reached
    /// in `d` steps that way.
    pub open spec fn step(self, p: Pos, d: usize, dir: Direction) -> Result<
        (Maze, Pos, usize),
        Error,
    > {
        let (dx, dy) = dir.step();
        let (x1, y1) = (p.x + dx, p.y + dy);
        let (x2, y2) = (p.x + 2 * dx, p.y + 2 * dy);
        if !self.holds(x1, y1) || !self.holds(x2, y2) {
            Err(Error::OutOfGrid)
        } else if d == usize::MAX {
            Err(Error::Overflow)
        } else {
            let door = self.n * y1 + x1;
            let room = self.n * y2 + x2;
            Ok(
                (
                    Maze {
                        n: self.n,
                        tiles: self.tiles.update(door, dir.door()).update(room, TileKind::Room),
                        reach: self.reach.update(room, least(self.reach[room], d)),
                    },
                    Pos { x: x2 as usize, y: y2 as usize },
                    (d + 1) as usize,
                ),
            )
        }
    }

    /// A run of moves, one after the other.
    pub open spec fn walk(self, p: Pos, d: usize, seq: Seq<Direction>) -> Result<
        (Maze, Pos, usize),
        Error,
    >
        decreases seq.len(),
    {
        if seq.len() == 0 {
            Ok((self, p, d))
        } else {
            match self.walk(p, d, seq.drop_last()) {
                Err(e) => Err(e),
                Ok((m, q, e)) => m.step(q, e, seq.last()),
            }
        }
    }

    /// The map after the walks that the expression describes, begun at
    /// `p` with the step count `d`, and where the walk goes on: behind a
    /// run of moves or parts one after the other at their end, behind a
    /// choice where it began.
    pub open spec fn fill(self, e: Expr, p: Pos, d: usize) -> Result<(Maze, Pos, usize), Error>
        decreases e, 0nat,
    {
        match e {
            Expr::Sequence(seq) => self.walk(p, d, seq),
            Expr::Concat(exprs) => self.fill_concat(exprs, p, d),
            Expr::OneOf(exprs) => match self.fill_one_of(exprs, p, d) {
                Err(e) => Err(e),
                Ok(m) => Ok((m, p, d)),
            },
        }
    }

    /// The walks of parts one after the other.
    pub open spec fn fill_concat(self, exprs: Seq<Expr>, p: Pos, d: usize) -> Result<
        (Maze, Pos, usize),
        Error,
    >
        decreases exprs, 1nat,
    {
        if exprs.len() == 0 {
            Ok((self, p, d))
        } else {
            match self.fill_concat(exprs.subrange(0, exprs.len() - 1), p, d) {
                Err(e) => Err(e),
                Ok((m, q, e)) => m.fill(exprs[exprs.len() - 1], q, e),
            }
        }
    }

    /// The walks of the branches of a choice, each begun at the same
    /// place.
    pub open spec fn fill_one_of(self, exprs: Seq<Expr>, p: Pos, d: usize) -> Result<Maze, Error>
        decreases exprs, 1nat,
    {
        if exprs.len() == 0 {
            Ok(self)
        } else {
            match self.fill_one_of(exprs.subrange(0, exprs.len() - 1), p, d) {
                Err(e) => Err(e),
                Ok(m) => match m.fill(exprs[exprs.len() - 1], p, d) {
                    Err(e) => Err(e),
                    Ok((after, _, _)) => Ok(after),
                },
            }
        }
    }
}

/// The greatest number of steps in which a place was reached, if any
/// was.
pub open spec fn furthest(reach: Seq<usize>) -> Option<usize>
    decreases reach.len(),
{
    if reach.len() == 0 {
        None
    } else {
        let before = furthest(reach.drop_last());
        if reach.last() == usize::MAX {
            before
        } else {
            match before {
                Some(m) => if m >= reach.last() {
                    Some(m)
                } else {
                    Some(reach.last())
                },
                None => Some(reach.last()),
            }
        }
    }
}

/// How many places were reached in `min_d` steps or more.
pub open spec fn far_rooms(reach: Seq<usize>, min_d: usize) -> nat
    decreases reach.len(),
{
    if reach.len() == 0 {
        0
    } else {
        far_rooms(reach.drop_last(), min_d) + (if reach.last() != usize::MAX && reach.last()
            >= min_d {
            1nat
        } else {
            0nat
        })
    }
}

/// The place `times` steps of `(dx, dy)` from `p`, where it lies on a map
/// of `n` by `n` places.
fn moved(p: Pos, dx: isize, dy: isize, times: u8, n: usize) -> (r: Option<Pos>)
    requires
        -1 <= dx <= 1,
        -1 <= dy <= 1,
        times <= 2,
    ensures
        r == (if 0 <= p.x + times * dx < n && 0 <= p.y + times * dy < n {
            Some(Pos { x: (p.x + times * dx) as usize, y: (p.y + times * dy) as usize })
        } else {
            None
        }),
{
    let t = times as i128;
    assert(-2 <= t * (dx as i128) <= 2 && -2 <= t * (dy as i128) <= 2) by (nonlinear_arith)
        requires
            0 <= t <= 2,
            -1 <= dx <= 1,
            -1 <= dy <= 1,
    ;
    let x = p.x as i128 + t * (dx as i128);
    let y = p.y as i128 + t * (dy as i128);
    if x >= 0 && x < n as i128 && y >= 0 && y < n as i128 {
        Some(Pos { x: x as usize, y: y as usize })
    } else {
        None
    }
}

/// The map that a walk draws.
#[derive(Debug)]
pub struct Grid {
    tiles: Mat2<TileKind>,
    p: Pos,
    reach: Mat2<usize>,
}

impl Grid {
    /// The map as the walk sees it.
    pub closed spec fn maze(self) -> Maze {
        Maze { n: self.tiles.rows(), tiles: self.tiles.cells(), reach: self.reach.cells() }
    }

    /// Where the walk begins.
    pub closed spec fn start(self) -> Pos {
        self.p
    }

    /// The map is square, with one tile and one count for each place.
    pub closed spec fn wf(self) -> bool {
        &&& self.tiles.wf()
        &&& self.reach.wf()
        &&& self.tiles.rows() == self.tiles.cols()
        &&& self.reach.rows() == self.tiles.rows()
        &&& self.reach.cols() == self.tiles.rows()
    }

    /// A map of `n` by `n` walls, with the beginning of the walk in the
    /// middle.
    pub fn new(n: usize) -> (g: Self)
        requires
            n * n <= usize::MAX,
        ensures
            g.wf(),
            g.maze().n == n,
            g.start() == (Pos { x: n / 2, y: n / 2 }),
            g.maze().tiles == Seq::new((n * n) as nat, |i: int| TileKind::Wall),
            g.maze().reach == Seq::new((n * n) as nat, |i: int| usize::MAX),
    {
        let center = Pos::new(n / 2, n / 2);
        let reach = Mat2::new_with(n, n, usize::MAX);
        let tiles = Mat2::new_with(n, n, TileKind::Wall);
        let g = Grid { tiles, p: center, reach };
        assert(g.maze().tiles =~= Seq::new((n * n) as nat, |i: int| TileKind::Wall));
        assert(g.maze().reach =~= Seq::new((n * n) as nat, |i: int| usize::MAX));
        g
    }

    /// The tile at `p`.
    pub fn tile(&self, p: Pos) -> (t: Option<TileKind>)
        requires
            self.wf(),
        ensures
            t == (if self.maze().holds(p.x as int, p.y as int) {
                Some(self.maze().tiles[self.maze().n * p.y + p.x])
            } else {
                None
            }),
    {
        match self.tiles.get(p) {
            Some(t) => Some(*t),
            None => None,
        }
    }

    /// In how many steps the place at `p` was reached at best.
    pub fn reached(&self, p: Pos) -> (d: Option<usize>)
        requires
            self.wf(),
        ensures
            d == (if self.maze().holds(p.x as int, p.y as int) {
                Some(self.maze().reach[self.maze().n * p.y + p.x])
            } else {
                None
            }),
    {
        match self.reach.get(p) {
            Some(d) => Some(*d),
            None => None,
        }
    }

    fn step(&mut self, p: Pos, d: usize, dir: Direction) -> (r: Result<(Pos, usize), Error>)
        requires
            old(self).wf(),
        ensures
            final(self).wf(),
            final(self).start() == old(self).start(),
            match r {
                Ok((q, e)) => old(self).maze().step(p, d, dir) == Ok::<(Maze, Pos, usize), Error>(
                    (final(self).maze(), q, e),
                ),
                Err(e) => old(self).maze().step(p, d, dir) == Err::<(Maze, Pos, usize), Error>(e),
            },
    {
        let n = self.tiles.height();
        let w = self.tiles.width();
        let o = dir.offset();
        let (door, room) = match (moved(p, o.0, o.1, 1, n), moved(p, o.0, o.1, 2, n)) {
            (Some(door), Some(room)) => (door, room),
            _ => {
                return Err(Error::OutOfGrid);
            },
        };
        if d == usize::MAX {
            return Err(Error::Overflow);
        }
        self.tiles.set(door, dir.door_kind());
        self.tiles.set(room, TileKind::Room);
        let before = *self.reach.get(room).unwrap();
        let best = if before <= d {
            before
        } else {
            d
        };
        self.reach.set(room, best);
        Ok((room, d + 1))
    }

    /// Walks a run of moves from `p`, where the step count stands at `d`.
    /// Returns where the walk ends, and the step count there.
    pub fn walk_seq(&mut self, p: Pos, d: usize, seq: &[Direction]) -> (r: Result<(Pos, usize), Error>)
        requires
            old(self).wf(),
        ensures
            final(self).wf(),
            final(self).start() == old(self).start(),
            match r {
                Ok((q, e)) => old(self).maze().walk(p, d, seq@) == Ok::<(Maze, Pos, usize), Error>(
                    (final(self).maze(), q, e),
                ),
                Err(e) => old(self).maze().walk(p, d, seq@) == Err::<(Maze, Pos, usize), Error>(e),
            },
    {
        let mut at = p;
        let mut count = d;
        let mut i: usize = 0;
        assert(seq@.subrange(0, 0) =~= Seq::<Direction>::empty());
        while i < seq.len()
            invariant
                i <= seq@.len(),
                self.wf(),
                self.start() == old(self).start(),
                old(self).maze().walk(p, d, seq@.subrange(0, i as int)) == Ok::<
                    (Maze, Pos, usize),
                    Error,
                >((self.maze(), at, count)),
            decreases seq@.len() - i,
        {
            proof {
                let next = seq@.subrange(0, i + 1);
                assert(next.drop_last() =~= seq@.subrange(0, i as int));
                assert(next.last() == seq@[i as int]);
            }
            match self.step(at, count, seq[i]) {
                Ok((q, e)) => {
                    at = q;
                    count = e;
                },
                Err(e) => {
                    proof {
                        assert(old(self).maze().walk(p, d, seq@.subrange(0, i + 1)) == Err::<
                            (Maze, Pos, usize),
                            Error,
                        >(e));
                        lemma_walk_fails(old(self).maze(), p, d, seq@, i + 1);
                    }
                    return Err(e);
                },
            }
            i += 1;
        }
        assert(seq@.subrange(0, i as int) =~= seq@);
        Ok((at, count))
    }

    /// Draws the walks that the expression describes, begun at `p` with
    /// the step count `d`.
    pub fn fill2(&mut self, e: &Expression, p: Pos, d: usize) -> (r: Result<(Pos, usize), Error>)
        requires
            old(self).wf(),
        ensures
            final(self).wf(),
            final(self).start() == old(self).start(),
            match r {
                Ok((q, c)) => old(self).maze().fill(e@, p, d) == Ok::<(Maze, Pos, usize), Error>(
                    (final(self).maze(), q, c),
                ),
                Err(err) => old(self).maze().fill(e@, p, d) == Err::<(Maze, Pos, usize), Error>(
                    err,
                ),
            },
        decreases e,
    {
        match e {
            Expression::Sequence(seq) => self.walk_seq(p, d, seq.as_slice()),
            Expression::Concat(exprs) => {
                let mut pd = (p, d);
                let mut i: usize = 0;
                let ghost all = views(exprs@);
                proof {
                    lemma_views(exprs@, 0);
                    assert(all.subrange(0, 0) =~= Seq::<Expr>::empty());
                }
                while i < exprs.len()
                    invariant
                        i <= exprs@.len(),
                        self.wf(),
                        self.start() == old(self).start(),
                        all == views(exprs@),
                        all.len() == exprs@.len(),
                        *e == Expression::Concat(*exprs),
                        e@ == Expr::Concat(all),
                        old(self).maze().fill_concat(all.subrange(0, i as int), p, d) == Ok::<
                            (Maze, Pos, usize),
                            Error,
                        >((self.maze(), pd.0, pd.1)),
                    decreases exprs@.len() - i,
                {
                    proof {
                        lemma_views(exprs@, i as int);
                        let next = all.subrange(0, i + 1);
                        assert(next.subrange(0, next.len() - 1) =~= all.subrange(0, i as int));
                        assert(next[next.len() - 1] == exprs@[i as int]@);
                    }
                    proof {
                        assert(decreases_to!(e => exprs));
                        assert(decreases_to!(exprs => exprs@));
                        assert(decreases_to!(exprs@ => exprs@[i as int]));
                    }
                    match self.fill2(&exprs[i], pd.0, pd.1) {
                        Ok(next) => {
                            pd = next;
                        },
                        Err(err) => {
                            proof {
                                assert(old(self).maze().fill_concat(all.subrange(0, i + 1), p, d)
                                    == Err::<(Maze, Pos, usize), Error>(err));
                                lemma_concat_fails(old(self).maze(), all, p, d, i + 1);
                            }
                            return Err(err);
                        },
                    }
                    i += 1;
                }
                assert(all.subrange(0, i as int) =~= all);
                Ok(pd)
            },
            Expression::OneOf(exprs) => {
                let mut i: usize = 0;
                let ghost all = views(exprs@);
                proof {
                    lemma_views(exprs@, 0);
                    assert(all.subrange(0, 0) =~= Seq::<Expr>::empty());
                }
                while i < exprs.len()
                    invariant
                        i <= exprs@.len(),
                        self.wf(),
                        self.start() == old(self).start(),
                        all == views(exprs@),
                        all.len() == exprs@.len(),
                        *e == Expression::OneOf(*exprs),
                        e@ == Expr::OneOf(all),
                        old(self).maze().fill_one_of(all.subrange(0, i as int), p, d) == Ok::<
                            Maze,
                            Error,
                        >(self.maze()),
                    decreases exprs@.len() - i,
                {
                    proof {
                        lemma_views(exprs@, i as int);
                        let next = all.subrange(0, i + 1);
                        assert(next.subrange(0, next.len() - 1) =~= all.subrange(0, i as int));
                        assert(next[next.len() - 1] == exprs@[i as int]@);
                    }
                    proof {
                        assert(decreases_to!(e => exprs));
                        assert(decreases_to!(exprs => exprs@));
                        assert(decreases_to!(exprs@ => exprs@[i as int]));
                    }
                    match self.fill2(&exprs[i], p, d) {
                        Ok(_) => {},
                        Err(err) => {
                            proof {
                                assert(old(self).maze().fill_one_of(all.subrange(0, i + 1), p, d)
                                    == Err::<Maze, Error>(err));
                                lemma_one_of_fails(old(self).maze(), all, p, d, i + 1);
                            }
                            return Err(err);
                        },
                    }
                    i += 1;
                }
                assert(all.subrange(0, i as int) =~= all);
                Ok((p, d))
            },
        }
    }

    /// Draws the walks that the expression describes, begun in the middle
    /// of the map.
    pub fn fill(&mut self, e: &Expression) -> (r: Result<(), Error>)
        requires
            old(self).wf(),
        ensures
            final(self).wf(),
            final(self).start() == old(self).start(),
            match r {
                Ok(()) => old(self).maze().fill(e@, old(self).start(), 1) matches Ok(done)
                    && done.0 == final(self).maze(),
                Err(err) => old(self).maze().fill(e@, old(self).start(), 1) == Err::<
                    (Maze, Pos, usize),
                    Error,
                >(err),
            },
    {
        let p = self.p;
        match self.fill2(e, p, 1) {
            Ok(_) => Ok(()),
            Err(err) => Err(err),
        }
    }

    /// The greatest number of steps in which a room was reached.
    pub fn furthest_room_dist(&self) -> (r: Option<usize>)
        requires
            self.wf(),
        ensures
            r == furthest(self.maze().reach),
    {
        let all = self.reach.grids();
        let ghost reach = self.reach.cells();
        let mut best: Option<usize> = None;
        let mut i: usize = 0;
        assert(reach.subrange(0, 0) =~= Seq::<usize>::empty());
        while i < all.len()
            invariant
                i <= all@.len(),
                all@.len() == reach.len(),
                forall|j: int| 0 <= j < all@.len() ==> *(#[trigger] all@[j]) == reach[j],
                best == furthest(reach.subrange(0, i as int)),
            decreases all@.len() - i,
        {
            proof {
                let next = reach.subrange(0, i + 1);
                assert(next.drop_last() =~= reach.subrange(0, i as int));
                assert(next.last() == reach[i as int]);
            }
            let d = *all[i];
            if d != usize::MAX {
                best = match best {
                    Some(m) => if m >= d {
                        Some(m)
                    } else {
                        Some(d)
                    },
                    None => Some(d),
                };
            }
            i += 1;
        }
        assert(reach.subrange(0, i as int) =~= reach);
        best
    }

    /// How many rooms were reached in `min_d` steps or more.
    pub fn rooms_with_min_d(&self, min_d: usize) -> (n: usize)
        requires
            self.wf(),
        ensures
            n == far_rooms(self.maze().reach, min_d),
    {
        let all = self.reach.grids();
        let ghost reach = self.reach.cells();
        let mut n: usize = 0;
        let mut i: usize = 0;
        assert(reach.subrange(0, 0) =~= Seq::<usize>::empty());
        while i < all.len()
            invariant
                i <= all@.len(),
                all@.len() == reach.len(),
                forall|j: int| 0 <= j < all@.len() ==> *(#[trigger] all@[j]) == reach[j],
                n == far_rooms(reach.subrange(0, i as int), min_d),
                n <= i,
            decreases all@.len() - i,
        {
            proof {
                let next = reach.subrange(0, i + 1);
                assert(next.drop_last() =~= reach.subrange(0, i as int));
                assert(next.last() == reach[i as int]);
            }
            let d = *all[i];
            if d != usize::MAX && d >= min_d {
                n += 1;
            }
            i += 1;
        }
        assert(reach.subrange(0, i as int) =~= reach);
        n
    }
}

/// The views of a list are as many as the list has members, and the view
/// of each member stands at its place.
pub proof fn lemma_views(all: Seq<Expression>, i: int)
    ensures
        views(all).len() == all.len(),
        0 <= i < all.len() ==> views(all)[i] == all[i].view(),
    decreases all.len(),
{
    if all.len() > 0 {
        let front = all.subrange(0, all.len() - 1);
        lemma_views(front, i);
        if 0 <= i < all.len() - 1 {
            assert(front[i] == all[i]);
        }
    }
}

/// Where a run of moves fails after some of them, it fails as a whole,
/// with the same error.
pub proof fn lemma_walk_fails(m: Maze, p: Pos, d: usize, seq: Seq<Direction>, k: int)
    requires
        0 <= k <= seq.len(),
        m.walk(p, d, seq.subrange(0, k)) is Err,
    ensures
        m.walk(p, d, seq) == m.walk(p, d, seq.subrange(0, k)),
    decreases seq.len(),
{
    if k == seq.len() {
        assert(seq.subrange(0, k) =~= seq);
    } else {
        assert(seq.drop_last().subrange(0, k) =~= seq.subrange(0, k));
        lemma_walk_fails(m, p, d, seq.drop_last(), k);
    }
}

/// Where parts one after the other fail after some of them, they fail as
/// a whole, with the same error.
pub proof fn lemma_concat_fails(m: Maze, exprs: Seq<Expr>, p: Pos, d: usize, k: int)
    requires
        0 <= k <= exprs.len(),
        m.fill_concat(exprs.subrange(0, k), p, d) is Err,
    ensures
        m.fill_concat(exprs, p, d) == m.fill_concat(exprs.subrange(0, k), p, d),
    decreases exprs.len(),
{
    if k == exprs.len() {
        assert(exprs.subrange(0, k) =~= exprs);
    } else {
        let front = exprs.subrange(0, exprs.len() - 1);
        assert(front.subrange(0, k) =~= exprs.subrange(0, k));
        lemma_concat_fails(m, front, p, d, k);
    }
}

/// Where the branches of a choice fail after some of them, the choice
/// fails, with the same error.
pub proof fn lemma_one_of_fails(m: Maze, exprs: Seq<Expr>, p: Pos, d: usize, k: int)
    requires
        0 <= k <= exprs.len(),
        m.fill_one_of(exprs.subrange(0, k), p, d) is Err,
    ensures
        m.fill_one_of(exprs, p, d) == m.fill_one_of(exprs.subrange(0, k), p, d),
    decreases exprs.len(),
{
    if k == exprs.len() {
        assert(exprs.subrange(0, k) =~= exprs);
    } else {
        let front = exprs.subrange(0, exprs.len() - 1);
        assert(front.subrange(0, k) =~= exprs.subrange(0, k));
        lemma_one_of_fails(m, front, p, d, k);
    }
}

/// The map of `n` by `n` walls before any walk.
pub open spec fn blank(n: usize) -> Maze {
    Maze {
        n: n as nat,
        tiles: Seq::new((n * n) as nat, |i: int| TileKind::Wall),
        reach: Seq::new((n * n) as nat, |i: int| usize::MAX),
    }
}

/// The greatest number of doors on a shortest way to a room, on a map of
/// `n` by `n` places. `Overflow` where the map is too large to address,
/// `NotFound` where the walk reaches no room.
pub fn part1(d: &Data, n: usize) -> (r: Result<usize, Error>)
    ensures
        n * n > usize::MAX ==> r == Err::<usize, Error>(Error::Overflow),
        n * n <= usize::MAX ==> (match blank(n).fill(d.expr@, Pos { x: n / 2, y: n / 2 }, 1) {
            Ok(done) => r == (match furthest(done.0.reach) {
                Some(far) => Ok(far),
                None => Err(Error::NotFound),
            }),
            Err(e) => r == Err::<usize, Error>(e),
        }),
{
    if n.checked_mul(n).is_none() {
        return Err(Error::Overflow);
    }
    let mut grid = Grid::new(n);
    match grid.fill(&d.expr) {
        Ok(()) => {},
        Err(e) => {
            return Err(e);
        },
    }
    match grid.furthest_room_dist() {
        Some(far) => Ok(far),
        None => Err(Error::NotFound),
    }
}

/// How many rooms have a shortest way through a thousand doors or more.
pub fn part2(d: &Data, n: usize) -> (r: Result<usize, Error>)
    ensures
        n * n > usize::MAX ==> r == Err::<usize, Error>(Error::Overflow),
        n * n <= usize::MAX ==> (match blank(n).fill(d.expr@, Pos { x: n / 2, y: n / 2 }, 1) {
            Ok(done) => r == Ok::<usize, Error>(far_rooms(done.0.reach, 1000) as usize),
            Err(e) => r == Err::<usize, Error>(e),
        }),
{
    if n.checked_mul(n).is_none() {
        return Err(Error::Overflow);
    }
    let mut grid = Grid::new(n);
    match grid.fill(&d.expr) {
        Ok(()) => {},
        Err(e) => {
            return Err(e);
        },
    }
    Ok(grid.rooms_with_min_d(1000))
}

/// The expression of the puzzle and that of its example.
#[derive(Debug)]
pub struct Solution20 {
    pub data: Option<Data>,
    pub sample: Option<Data>,
}

impl Solution20 {
    /// The expression of the input, once read.
    pub closed spec fn data(self) -> Option<Data> {
        self.data
    }

    /// The expression of the example, once read.
    pub closed spec fn sample(self) -> Option<Data> {
        self.sample
    }

    /// A solution without input.
    pub fn new() -> (s: Self)
        ensures
            s.data() is None,
            s.sample() is None,
    {
        Solution20 { data: None, sample: None }
    }

    /// Reads the example and the input. On an error the solution keeps
    /// what it had.
    pub fn init(&mut self, sample: &str, data: &str) -> (r: Result<(), Error>)
        ensures
            match r {
                Ok(()) => {
                    &&& final(self).sample() matches Some(s) && parse_text(sample@) == Ok::<
                        Expr,
                        Error,
                    >(s.expr@)
                    &&& final(self).data() matches Some(d) && parse_text(data@) == Ok::<Expr, Error>(
                        d.expr@,
                    )
                },
                Err(e) => *final(self) == *old(self) && (parse_text(sample@) == Err::<Expr, Error>(e)
                    || parse_text(data@) == Err::<Expr, Error>(e)),
            },
    {
        let sample = match Data::parse(sample) {
            Ok(d) => d,
            Err(e) => {
                return Err(e);
            },
        };
        let data = match Data::parse(data) {
            Ok(d) => d,
            Err(e) => {
                return Err(e);
            },
        };
        self.sample = Some(sample);
        self.data = Some(data);
        Ok(())
    }
}

/// The letters of the directions.
pub open spec fn letters(dirs: Seq<Direction>) -> Seq<char>
    decreases dirs.len(),
{
    if dirs.len() == 0 {
        Seq::empty()
    } else {
        letters(dirs.drop_last()).push(dirs.last().letter())
    }
}

/// The expression as text: a run of moves as its letters, a choice as
/// its branches between brackets with bars between them, and parts one
/// after the other.
pub open spec fn text_of(e: Expr) -> Seq<char>
    decreases e, 0nat,
{
    match e {
        Expr::Sequence(dirs) => letters(dirs),
        Expr::OneOf(choices) => seq!['('] + choices_text(choices) + seq![')'],
        Expr::Concat(parts) => parts_text(parts),
    }
}

/// The texts of the parts one after the other.
pub open spec fn parts_text(all: Seq<Expr>) -> Seq<char>
    decreases all, 1nat,
{
    if all.len() == 0 {
        Seq::empty()
    } else {
        parts_text(all.subrange(0, all.len() - 1)) + text_of(all[all.len() - 1])
    }
}

/// The texts of the branches with bars between them.
pub open spec fn choices_text(all: Seq<Expr>) -> Seq<char>
    decreases all, 1nat,
{
    if all.len() == 0 {
        Seq::empty()
    } else if all.len() == 1 {
        text_of(all[0])
    } else {
        choices_text(all.subrange(0, all.len() - 1)) + seq!['|'] + text_of(all[all.len() - 1])
    }
}

impl Expression {
    /// The expression as text.
    pub fn to_text(&self) -> (text: String)
        ensures
            text@ == text_of(self@),
    {
        write_text(self)
    }
}

/// The expression as text.
fn write_text(e: &Expression) -> (text: String)
    ensures
        text@ == text_of(e@),
    decreases e,
{
    let mut text = String::new();
    match e {
            Expression::Sequence(dirs) => {
                let mut i: usize = 0;
                assert(dirs@.take(0) =~= Seq::<Direction>::empty());
                while i < dirs.len()
                    invariant
                        i <= dirs@.len(),
                        text@ == letters(dirs@.take(i as int)),
                    decreases dirs@.len() - i,
                {
                    proof {
                        assert(dirs@.take(i + 1).drop_last() =~= dirs@.take(i as int));
                    }
                    text.push(dirs[i].to_char());
                    i += 1;
                }
                assert(dirs@.take(i as int) =~= dirs@);
            },
            Expression::OneOf(choices) => {
                let ghost all = views(choices@);
                proof {
                    lemma_views(choices@, 0);
                    assert(all.subrange(0, 0) =~= Seq::<Expr>::empty());
                    assert(decreases_to!(e => choices));
                }
                text.push('(');
                let mut i: usize = 0;
                while i < choices.len()
                    invariant
                        i <= choices@.len(),
                        all == views(choices@),
                        all.len() == choices@.len(),
                        *e == Expression::OneOf(*choices),
                        decreases_to!(e => choices),
                        text@ == seq!['('] + choices_text(all.subrange(0, i as int)),
                    decreases choices@.len() - i,
                {
                    proof {
                        lemma_views(choices@, i as int);
                        let next = all.subrange(0, i + 1);
                        assert(next.subrange(0, next.len() - 1) =~= all.subrange(0, i as int));
                        assert(next[next.len() - 1] == choices@[i as int]@);
                        assert(decreases_to!(e => choices));
                        assert(decreases_to!(choices => choices@));
                        assert(decreases_to!(choices@ => choices@[i as int]));
                    }
                    if i != 0 {
                        text.push('|');
                    }
                    let branch = write_text(&choices[i]);
                    text.append(branch.as_str());
                    proof {
                        let next = all.subrange(0, i + 1);
                        if i == 0 {
                            assert(next[0] == choices@[0]@);
                            assert(all.subrange(0, 0).len() == 0);
                        }
                        assert(text@ =~= seq!['('] + choices_text(next));
                    }
                    i += 1;
                }
                text.push(')');
                proof {
                    assert(all.subrange(0, i as int) =~= all);
                    assert(e@ == Expr::OneOf(all));
                }
            },
            Expression::Concat(parts) => {
                let ghost all = views(parts@);
                proof {
                    lemma_views(parts@, 0);
                    assert(all.subrange(0, 0) =~= Seq::<Expr>::empty());
                    assert(decreases_to!(e => parts));
                }
                let mut i: usize = 0;
                while i < parts.len()
                    invariant
                        i <= parts@.len(),
                        all == views(parts@),
                        all.len() == parts@.len(),
                        *e == Expression::Concat(*parts),
                        decreases_to!(e => parts),
                        text@ == parts_text(all.subrange(0, i as int)),
                    decreases parts@.len() - i,
                {
                    proof {
                        lemma_views(parts@, i as int);
                        let next = all.subrange(0, i + 1);
                        assert(next.subrange(0, next.len() - 1) =~= all.subrange(0, i as int));
                        assert(next[next.len() - 1] == parts@[i as int]@);
                        assert(decreases_to!(e => parts));
                        assert(decreases_to!(parts => parts@));
                        assert(decreases_to!(parts@ => parts@[i as int]));
                    }
                    let part = write_text(&parts[i]);
                    text.append(part.as_str());
                    i += 1;
                }
                proof {
                    assert(all.subrange(0, i as int) =~= all);
                    assert(e@ == Expr::Concat(all));
                }
            },
        }
        text
}

} // verus!
