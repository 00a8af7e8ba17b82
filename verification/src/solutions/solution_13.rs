//! Carts on tracks: where do they first crash, and where is the last one
//! left?

use crate::error::Error;
use crate::util::text::{lines, text_lines};
use vstd::prelude::*;
use vstd::string::*;

verus! {

/// The way a cart faces.
#[derive(Copy, Clone, Debug, PartialEq, Eq, Structural)]
pub enum Direction {
    North,
    East,
    South,
    West,
}

/// A piece of track.
#[derive(Copy, Clone, Debug, PartialEq, Eq, Structural)]
pub enum Path {
    VerticalRoad,
    HorizontalRoad,
    UpCurve,
    DownCurve,
    Cross,
}

/// A cart: the way it faces, where it stands, how many crossings it has
/// taken modulo three, and whether it has crashed.
#[derive(Debug, Clone, Copy, PartialEq, Eq)]
pub struct Cart {
    pub dir: Direction,
    pub pos: (usize, usize),
    pub cross_counter: usize,
    pub crashed: bool,
}

/// The direction that a character stands for.
pub open spec fn direction_of_char(c: char) -> Option<Direction> {
    if c == 'v' {
        Some(Direction::South)
    } else if c == '^' {
        Some(Direction::North)
    } else if c == '>' {
        Some(Direction::East)
    } else if c == '<' {
        Some(Direction::West)
    } else {
        None
    }
}

/// The piece of track that a character stands for.
pub open spec fn path_of_char(c: char) -> Option<Path> {
    if c == '+' {
        Some(Path::Cross)
    } else if c == '-' {
        Some(Path::HorizontalRoad)
    } else if c == '|' {
        Some(Path::VerticalRoad)
    } else if c == '\\' {
        Some(Path::DownCurve)
    } else if c == '/' {
        Some(Path::UpCurve)
    } else {
        None
    }
}

impl Direction {
    /// The direction a quarter turn to the left.
    pub open spec fn turned_left(self) -> Direction {
        match self {
            Direction::North => Direction::West,
            Direction::West => Direction::South,
            Direction::South => Direction::East,
            Direction::East => Direction::North,
        }
    }

    /// The direction a quarter turn to the right.
    pub open spec fn turned_right(self) -> Direction {
        match self {
            Direction::North => Direction::East,
            Direction::East => Direction::South,
            Direction::South => Direction::West,
            Direction::West => Direction::North,
        }
    }

    /// The step that a move in this direction takes: right and down count
    /// up.
    pub open spec fn step(self) -> (int, int) {
        match self {
            Direction::North => (0, -1),
            Direction::South => (0, 1),
            Direction::East => (1, 0),
            Direction::West => (-1, 0),
        }
    }

    /// A turn to the left undoes a turn to the right and the other way
    /// round, and four turns lead back.
    pub proof fn lemma_turns(self)
        ensures
            self.turned_left().turned_right() == self,
            self.turned_right().turned_left() == self,
            self.turned_left().turned_left().turned_left().turned_left() == self,
            self.turned_right().turned_right() == self.turned_left().turned_left(),
    {
    }

    /// Reads the direction of a cart.
    pub fn from_char(c: char) -> (r: Result<Direction, Error>)
        ensures
            r == (match direction_of_char(c) {
                Some(d) => Ok(d),
                None => Err(Error::MalformedInput),
            }),
    {
        match c {
            'v' => Ok(Direction::South),
            '^' => Ok(Direction::North),
            '>' => Ok(Direction::East),
            '<' => Ok(Direction::West),
            _ => Err(Error::MalformedInput),
        }
    }

    /// The character of the direction.
    pub open spec fn letter(self) -> char {
        match self {
            Direction::North => '^',
            Direction::South => 'v',
            Direction::East => '>',
            Direction::West => '<',
        }
    }

    /// The character of the direction; `direction_of_char` reads it back.
    pub fn to_char(&self) -> (c: char)
        ensures
            c == self.letter(),
            direction_of_char(c) == Some(*self),
    {
        match self {
            Direction::North => '^',
            Direction::South => 'v',
            Direction::East => '>',
            Direction::West => '<',
        }
    }

    /// The direction after a turn to the left.
    pub fn left(&self) -> (d: Direction)
        ensures
            d == self.turned_left(),
    {
        match self {
            Direction::North => Direction::West,
            Direction::West => Direction::South,
            Direction::South => Direction::East,
            Direction::East => Direction::North,
        }
    }

    /// The direction after a turn to the right.
    pub fn right(&self) -> (d: Direction)
        ensures
            d == self.turned_right(),
    {
        match self {
            Direction::North => Direction::East,
            Direction::East => Direction::South,
            Direction::South => Direction::West,
            Direction::West => Direction::North,
        }
    }
}

impl Path {
    /// The direction in which a cart leaves this piece of track that
    /// came facing `dir` and has taken `counter` crossings modulo three;
    /// nothing where the track does not run that way.
    pub open spec fn leaving(self, dir: Direction, counter: usize) -> Option<Direction> {
        match self {
            Path::VerticalRoad => if dir == Direction::North || dir == Direction::South {
                Some(dir)
            } else {
                None
            },
            Path::HorizontalRoad => if dir == Direction::East || dir == Direction::West {
                Some(dir)
            } else {
                None
            },
            Path::UpCurve => Some(
                match dir {
                    Direction::North => Direction::East,
                    Direction::South => Direction::West,
                    Direction::West => Direction::South,
                    Direction::East => Direction::North,
                },
            ),
            Path::DownCurve => Some(
                match dir {
                    Direction::North => Direction::West,
                    Direction::South => Direction::East,
                    Direction::West => Direction::North,
                    Direction::East => Direction::South,
                },
            ),
            Path::Cross => if counter == 0 {
                Some(dir.turned_left())
            } else if counter == 1 {
                Some(dir)
            } else if counter == 2 {
                Some(dir.turned_right())
            } else {
                None
            },
        }
    }

    /// The cart after it has moved on from this piece of track: it turns
    /// as the track has it and goes one step; at a crossing it counts one
    /// up. `OffTrack` where the track does not run the way the cart faces
    /// or the step leads off the grid to the left or to the top.
    pub open spec fn moved(self, cart: Cart) -> Result<Cart, Error> {
        match self.leaving(cart.dir, cart.cross_counter) {
            None => Err(Error::OffTrack),
            Some(dir) => if cart.pos.0 + dir.step().0 < 0 || cart.pos.1 + dir.step().1 < 0
                || cart.pos.0 + dir.step().0 > usize::MAX || cart.pos.1 + dir.step().1
                > usize::MAX {
                Err(Error::OffTrack)
            } else {
                Ok(
                    Cart {
                        dir,
                        pos: (
                            (cart.pos.0 + dir.step().0) as usize,
                            (cart.pos.1 + dir.step().1) as usize,
                        ),
                        cross_counter: if self == Path::Cross {
                            ((cart.cross_counter + 1) % 3) as usize
                        } else {
                            cart.cross_counter
                        },
                        crashed: cart.crashed,
                    },
                )
            },
        }
    }

    /// Reads a piece of track.
    pub fn from_char(c: char) -> (r: Result<Path, Error>)
        ensures
            r == (match path_of_char(c) {
                Some(p) => Ok(p),
                None => Err(Error::MalformedInput),
            }),
    {
        match c {
            '+' => Ok(Path::Cross),
            '-' => Ok(Path::HorizontalRoad),
            '|' => Ok(Path::VerticalRoad),
            '\\' => Ok(Path::DownCurve),
            '/' => Ok(Path::UpCurve),
            _ => Err(Error::MalformedInput),
        }
    }

    /// The character of the piece of track.
    pub open spec fn letter(self) -> char {
        match self {
            Path::HorizontalRoad => '-',
            Path::VerticalRoad => '|',
            Path::UpCurve => '/',
            Path::DownCurve => '\\',
            Path::Cross => '+',
        }
    }

    /// The character of the piece of track; `path_of_char` reads it back.
    pub fn to_char(&self) -> (c: char)
        ensures
            c == self.letter(),
            path_of_char(c) == Some(*self),
    {
        match self {
            Path::HorizontalRoad => '-',
            Path::VerticalRoad => '|',
            Path::UpCurve => '/',
            Path::DownCurve => '\\',
            Path::Cross => '+',
        }
    }

    /// The step of a move in the direction `dir`, and the direction.
    pub fn move_to_dir(dir: Direction) -> (r: ((isize, isize), Direction))
        ensures
            r.1 == dir,
            (r.0.0 as int, r.0.1 as int) == dir.step(),
    {
        match dir {
            Direction::North => ((0, -1), dir),
            Direction::South => ((0, 1), dir),
            Direction::East => ((1, 0), dir),
            Direction::West => ((-1, 0), dir),
        }
    }

    /// Moves the cart on from this piece of track. On an error the cart
    /// stays as it is.
    pub fn move_cart(&self, cart: &mut Cart) -> (r: Result<(), Error>)
        ensures
            match r {
                Ok(()) => self.moved(*old(cart)) == Ok::<Cart, Error>(*final(cart)),
                Err(e) => self.moved(*old(cart)) == Err::<Cart, Error>(e) && *final(cart) == *old(
                    cart,
                ),
            },
    {
        let turned = match self {
            Path::VerticalRoad => match cart.dir {
                Direction::North | Direction::South => cart.dir,
                _ => {
                    return Err(Error::OffTrack);
                },
            },
            Path::HorizontalRoad => match cart.dir {
                Direction::East | Direction::West => cart.dir,
                _ => {
                    return Err(Error::OffTrack);
                },
            },
            Path::UpCurve => match cart.dir {
                Direction::North => Direction::East,
                Direction::South => Direction::West,
                Direction::West => Direction::South,
                Direction::East => Direction::North,
            },
            Path::DownCurve => match cart.dir {
                Direction::North => Direction::West,
                Direction::South => Direction::East,
                Direction::West => Direction::North,
                Direction::East => Direction::South,
            },
            Path::Cross => match cart.cross_counter {
                0 => cart.dir.left(),
                1 => cart.dir,
                2 => cart.dir.right(),
                _ => {
                    return Err(Error::OffTrack);
                },
            },
        };
        let (off, dir) = Path::move_to_dir(turned);
        let x = match off.0 {
            -1 => if cart.pos.0 == 0 {
                return Err(Error::OffTrack);
            } else {
                cart.pos.0 - 1
            },
            1 => if cart.pos.0 == usize::MAX {
                return Err(Error::OffTrack);
            } else {
                cart.pos.0 + 1
            },
            _ => cart.pos.0,
        };
        let y = match off.1 {
            -1 => if cart.pos.1 == 0 {
                return Err(Error::OffTrack);
            } else {
                cart.pos.1 - 1
            },
            1 => if cart.pos.1 == usize::MAX {
                return Err(Error::OffTrack);
            } else {
                cart.pos.1 + 1
            },
            _ => cart.pos.1,
        };
        let counter = match self {
            Path::Cross => (cart.cross_counter + 1) % 3,
            _ => cart.cross_counter,
        };
        *cart = Cart { dir, pos: (x, y), cross_counter: counter, crashed: cart.crashed };
        Ok(())
    }
}

/// The place of a cart in reading order on a grid of `w` columns.
pub open spec fn key(c: Cart, w: nat) -> int {
    c.pos.1 * w + c.pos.0
}

/// Where `c` goes among carts in reading order: behind the carts that
/// stand before it or at the same place.
pub open spec fn insert_pos(sorted: Seq<Cart>, c: Cart, w: nat) -> int
    decreases sorted.len(),
{
    if sorted.len() == 0 || key(sorted.last(), w) <= key(c, w) {
        sorted.len() as int
    } else {
        insert_pos(sorted.drop_last(), c, w)
    }
}

/// The carts in reading order; carts at the same place keep their order.
pub open spec fn in_reading_order(carts: Seq<Cart>, w: nat) -> Seq<Cart>
    decreases carts.len(),
{
    if carts.len() == 0 {
        Seq::empty()
    } else {
        let before = in_reading_order(carts.drop_last(), w);
        before.insert(insert_pos(before, carts.last(), w), carts.last())
    }
}

/// Whether cart `j`, not crashed yet, stands where cart `i` stands.
pub open spec fn meets(carts: Seq<Cart>, i: int, j: int) -> bool {
    j != i && !carts[j].crashed && carts[j].pos == carts[i].pos
}

/// Whether one of the carts before `upto` meets cart `i`.
pub open spec fn met_before(carts: Seq<Cart>, i: int, upto: int) -> bool {
    exists|j: int| 0 <= j < upto && meets(carts, i, j)
}

/// The carts after cart `i` has arrived at its place: it crashes with
/// every cart that stands there and has not crashed before.
pub open spec fn crash_at(carts: Seq<Cart>, i: int) -> Seq<Cart> {
    Seq::new(
        carts.len(),
        |j: int|
            if j == i {
                Cart {
                    dir: carts[i].dir,
                    pos: carts[i].pos,
                    cross_counter: carts[i].cross_counter,
                    crashed: carts[i].crashed || met_before(carts, i, carts.len() as int),
                }
            } else if meets(carts, i, j) {
                Cart {
                    dir: carts[j].dir,
                    pos: carts[j].pos,
                    cross_counter: carts[j].cross_counter,
                    crashed: true,
                }
            } else {
                carts[j]
            },
    )
}

/// The tracks of a grid: its size and its cells, row by row.
pub struct Tracks {
    pub rows: nat,
    pub cols: nat,
    pub cells: Seq<Option<Path>>,
}

impl Tracks {
    /// The piece of track at column `x` and row `y`.
    pub open spec fn path_at(self, x: int, y: int) -> Option<Path> {
        if 0 <= x < self.cols && 0 <= y < self.rows {
            self.cells[y * self.cols + x]
        } else {
            None
        }
    }

    /// The carts after those from `i` on, in the order given, have taken
    /// their turn: a cart that has not crashed moves on from its piece of
    /// track and crashes with the carts at its new place. A crash leaves
    /// as many carts as there were; the comparison of the lengths is there
    /// for the measure of the recursion and never fails.
    pub open spec fn sweep(self, carts: Seq<Cart>, i: int) -> Result<Seq<Cart>, Error>
        decreases carts.len() - i,
    {
        if i < 0 || i >= carts.len() {
            Ok(carts)
        } else if carts[i].crashed {
            self.sweep(carts, i + 1)
        } else {
            match self.path_at(carts[i].pos.0 as int, carts[i].pos.1 as int) {
                None => Err(Error::OffTrack),
                Some(path) => match path.moved(carts[i]) {
                    Err(e) => Err(e),
                    Ok(c) => {
                        let after = crash_at(carts.update(i, c), i);
                        if after.len() == carts.len() {
                            self.sweep(after, i + 1)
                        } else {
                            Err(Error::OffTrack)
                        }
                    },
                },
            }
        }
    }

    /// The carts after one tick: they take their turns in reading order.
    pub open spec fn tick(self, carts: Seq<Cart>) -> Result<Seq<Cart>, Error> {
        self.sweep(in_reading_order(carts, self.cols), 0)
    }
}

/// The place of the first cart that has crashed.
pub open spec fn first_crashed(carts: Seq<Cart>) -> Option<(usize, usize)>
    decreases carts.len(),
{
    if carts.len() == 0 {
        None
    } else {
        match first_crashed(carts.drop_last()) {
            Some(pos) => Some(pos),
            None => if carts.last().crashed {
                Some(carts.last().pos)
            } else {
                None
            },
        }
    }
}

/// How many carts have not crashed.
pub open spec fn running(carts: Seq<Cart>) -> nat
    decreases carts.len(),
{
    if carts.len() == 0 {
        0
    } else {
        running(carts.drop_last()) + (if carts.last().crashed {
            0nat
        } else {
            1nat
        })
    }
}

/// The place of the first cart that has not crashed.
pub open spec fn first_running(carts: Seq<Cart>) -> Option<(usize, usize)>
    decreases carts.len(),
{
    if carts.len() == 0 {
        None
    } else {
        match first_running(carts.drop_last()) {
            Some(pos) => Some(pos),
            None => if !carts.last().crashed {
                Some(carts.last().pos)
            } else {
                None
            },
        }
    }
}

/// The place of the first crash within `limit` ticks.
pub open spec fn collision(tracks: Tracks, carts: Seq<Cart>, limit: nat) -> Result<
    Option<(usize, usize)>,
    Error,
>
    decreases limit,
{
    match first_crashed(carts) {
        Some(pos) => Ok(Some(pos)),
        None => if limit == 0 {
            Ok(None)
        } else {
            match tracks.tick(carts) {
                Err(e) => Err(e),
                Ok(next) => collision(tracks, next, (limit - 1) as nat),
            }
        },
    }
}

/// The place of the last cart left once all others have crashed, if that
/// happens within `limit` ticks.
pub open spec fn last_cart(tracks: Tracks, carts: Seq<Cart>, limit: nat) -> Result<
    Option<(usize, usize)>,
    Error,
>
    decreases limit,
{
    if running(carts) <= 1 {
        Ok(first_running(carts))
    } else if limit == 0 {
        Ok(None)
    } else {
        match tracks.tick(carts) {
            Err(e) => Err(e),
            Ok(next) => last_cart(tracks, next, (limit - 1) as nat),
        }
    }
}

/// Tracks and the carts on them.
#[derive(Debug)]
pub struct Grid {
    grid: Vec<Option<Path>>,
    carts: Vec<Cart>,
    h: usize,
    w: usize,
}

fn key_of(c: &Cart, w: usize) -> (k: u128)
    ensures
        k == key(*c, w as nat),
{
    let y = c.pos.1 as u128;
    let x = c.pos.0 as u128;
    let wide = w as u128;
    assert(y * wide + x <= u128::MAX) by (nonlinear_arith)
        requires
            y <= 0xffff_ffff_ffff_ffff,
            wide <= 0xffff_ffff_ffff_ffff,
            x <= 0xffff_ffff_ffff_ffff,
    ;
    assert(y * wide <= y * wide + x) by (nonlinear_arith)
        requires
            x >= 0,
    ;
    y * wide + x
}

fn sort_carts(carts: &Vec<Cart>, w: usize) -> (sorted: Vec<Cart>)
    ensures
        sorted@ == in_reading_order(carts@, w as nat),
{
    let mut sorted: Vec<Cart> = Vec::new();
    let mut i: usize = 0;
    assert(carts@.subrange(0, 0) =~= Seq::<Cart>::empty());
    while i < carts.len()
        invariant
            i <= carts@.len(),
            sorted@ == in_reading_order(carts@.subrange(0, i as int), w as nat),
            sorted@.len() == i,
        decreases carts@.len() - i,
    {
        let c = carts[i];
        let k = key_of(&c, w);
        let mut pos: usize = sorted.len();
        assert(sorted@.subrange(0, pos as int) =~= sorted@);
        while pos > 0 && key_of(&sorted[pos - 1], w) > k
            invariant
                pos <= sorted@.len(),
                k == key(c, w as nat),
                insert_pos(sorted@, c, w as nat) == insert_pos(
                    sorted@.subrange(0, pos as int),
                    c,
                    w as nat,
                ),
            decreases pos,
        {
            proof {
                let head = sorted@.subrange(0, pos as int);
                assert(head.drop_last() =~= sorted@.subrange(0, pos - 1));
                assert(head.last() == sorted@[pos - 1]);
            }
            pos -= 1;
        }
        proof {
            let head = sorted@.subrange(0, pos as int);
            if pos > 0 {
                assert(head.last() == sorted@[pos - 1]);
            }
            assert(insert_pos(head, c, w as nat) == pos);
            let next = carts@.subrange(0, i + 1);
            assert(next.drop_last() =~= carts@.subrange(0, i as int));
            assert(next.last() == c);
        }
        sorted.insert(pos, c);
        i += 1;
        proof {
            assert(sorted@.subrange(0, sorted@.len() as int) =~= sorted@);
        }
    }
    assert(carts@.subrange(0, i as int) =~= carts@);
    sorted
}

impl Grid {
    /// The tracks of the grid.
    pub closed spec fn tracks(self) -> Tracks {
        Tracks { rows: self.h as nat, cols: self.w as nat, cells: self.grid@ }
    }

    /// The carts on the grid.
    pub closed spec fn carts(self) -> Seq<Cart> {
        self.carts@
    }

    /// There is one cell for each position.
    pub open spec fn wf(self) -> bool {
        self.tracks().cells.len() == self.tracks().rows * self.tracks().cols
    }

    /// A grid of `h` rows and `w` columns without tracks or carts.
    pub fn new(h: usize, w: usize) -> (g: Grid)
        requires
            h * w <= usize::MAX,
        ensures
            g.wf(),
            g.tracks().rows == h,
            g.tracks().cols == w,
            g.tracks().cells == Seq::new((h * w) as nat, |i: int| None::<Path>),
            g.carts() == Seq::<Cart>::empty(),
    {
        let mut grid: Vec<Option<Path>> = Vec::new();
        let n = h * w;
        let mut i: usize = 0;
        while i < n
            invariant
                i <= n,
                grid@.len() == i,
                forall|j: int| 0 <= j < i ==> grid@[j] == None::<Path>,
            decreases n - i,
        {
            grid.push(None);
            i += 1;
        }
        let g = Grid { h, w, grid, carts: Vec::new() };
        assert(g.tracks().cells =~= Seq::new((h * w) as nat, |i: int| None::<Path>));
        g
    }

    /// The place of column `x` and row `y` among the cells.
    pub fn calc_index(&self, x: usize, y: usize) -> (ix: usize)
        requires
            self.wf(),
            x < self.tracks().cols,
            y < self.tracks().rows,
        ensures
            ix == y * self.tracks().cols + x,
            ix < self.tracks().cells.len(),
    {
        let n = self.grid.len();
        proof {
            let (w, h, xi, yi) = (self.w as int, self.h as int, x as int, y as int);
            assert(yi * w + xi < h * w) by (nonlinear_arith)
                requires
                    0 <= xi < w,
                    0 <= yi < h,
            ;
            assert(0 <= yi * w) by (nonlinear_arith)
                requires
                    0 <= yi,
                    0 <= w,
            ;
        }
        y * self.w + x
    }

    /// The number of rows.
    pub fn height(&self) -> (h: usize)
        ensures
            h == self.tracks().rows,
    {
        self.h
    }

    /// The number of columns.
    pub fn width(&self) -> (w: usize)
        ensures
            w == self.tracks().cols,
    {
        self.w
    }

    /// The piece of track at column `x` and row `y`.
    pub fn get(&self, x: usize, y: usize) -> (p: Option<Path>)
        requires
            self.wf(),
        ensures
            p == self.tracks().path_at(x as int, y as int),
    {
        if x < self.w && y < self.h {
            let ix = self.calc_index(x, y);
            self.grid[ix]
        } else {
            None
        }
    }

    /// Lays `path` at column `x` and row `y`.
    pub fn set(&mut self, x: usize, y: usize, path: Option<Path>)
        requires
            old(self).wf(),
            x < old(self).tracks().cols,
            y < old(self).tracks().rows,
        ensures
            final(self).wf(),
            final(self).carts() == old(self).carts(),
            final(self).tracks() == (Tracks {
                rows: old(self).tracks().rows,
                cols: old(self).tracks().cols,
                cells: old(self).tracks().cells.update(y * old(self).tracks().cols + x, path),
            }),
    {
        let ix = self.calc_index(x, y);
        self.grid[ix] = path;
    }

    /// Puts a cart on the grid.
    pub fn add_cart(&mut self, cart: Cart)
        ensures
            final(self).tracks() == old(self).tracks(),
            final(self).carts() == old(self).carts().push(cart),
    {
        self.carts.push(cart);
    }

    /// The carts, in the order in which they last took their turns.
    pub fn cart_list(&self) -> (carts: Vec<Cart>)
        ensures
            carts@ == self.carts(),
    {
        let mut out: Vec<Cart> = Vec::new();
        let mut i: usize = 0;
        while i < self.carts.len()
            invariant
                i <= self.carts@.len(),
                out@ == self.carts@.subrange(0, i as int),
            decreases self.carts@.len() - i,
        {
            out.push(self.carts[i]);
            assert(out@ =~= self.carts@.subrange(0, i + 1));
            i += 1;
        }
        assert(self.carts@.subrange(0, i as int) =~= self.carts@);
        out
    }

    fn crash(&mut self, i: usize)
        requires
            i < old(self).carts().len(),
        ensures
            final(self).tracks() == old(self).tracks(),
            final(self).carts() == crash_at(old(self).carts(), i as int),
    {
        let ghost before = self.carts@;
        let n = self.carts.len();
        let pos = self.carts[i].pos;
        let mut hit = false;
        let mut j: usize = 0;
        while j < n
            invariant
                j <= n,
                i < n,
                n == before.len(),
                self.carts@.len() == n,
                self.h == old(self).h,
                self.w == old(self).w,
                self.grid == old(self).grid,
                pos == before[i as int].pos,
                hit == met_before(before, i as int, j as int),
                self.carts@[i as int] == before[i as int],
                forall|k: int|
                    0 <= k < j && k != i ==> self.carts@[k] == crash_at(before, i as int)[k],
                forall|k: int| j <= k < n ==> self.carts@[k] == before[k],
            decreases n - j,
        {
            let other = self.carts[j];
            if i != j && !other.crashed && other.pos.0 == pos.0 && other.pos.1 == pos.1 {
                assert(meets(before, i as int, j as int));
                self.carts[j] = Cart {
                    dir: other.dir,
                    pos: other.pos,
                    cross_counter: other.cross_counter,
                    crashed: true,
                };
                hit = true;
            } else {
                proof {
                    if met_before(before, i as int, j + 1) {
                        let k = choose|k: int| 0 <= k < j + 1 && meets(before, i as int, k);
                        assert(k != j);
                        assert(0 <= k < j && meets(before, i as int, k));
                    }
                }
            }
            j += 1;
        }
        let me = self.carts[i];
        self.carts[i] = Cart {
            dir: me.dir,
            pos: me.pos,
            cross_counter: me.cross_counter,
            crashed: me.crashed || hit,
        };
        assert(self.carts@ =~= crash_at(before, i as int));
    }

    /// Lets every cart take its turn, in reading order. After an error
    /// the carts that came before the failing one have moved.
    pub fn tick(&mut self) -> (r: Result<(), Error>)
        requires
            old(self).wf(),
        ensures
            final(self).wf(),
            final(self).tracks() == old(self).tracks(),
            match r {
                Ok(()) => old(self).tracks().tick(old(self).carts()) == Ok::<Seq<Cart>, Error>(
                    final(self).carts(),
                ),
                Err(e) => old(self).tracks().tick(old(self).carts()) == Err::<Seq<Cart>, Error>(e),
            },
    {
        let ghost tracks = self.tracks();
        self.carts = sort_carts(&self.carts, self.w);
        let n = self.carts.len();
        let mut i: usize = 0;
        while i < n
            invariant
                i <= n,
                n == self.carts@.len(),
                self.wf(),
                self.tracks() == tracks,
                tracks == old(self).tracks(),
                tracks.tick(old(self).carts()) == tracks.sweep(self.carts@, i as int),
            decreases n - i,
        {
            if !self.carts[i].crashed {
                let pos = self.carts[i].pos;
                match self.get(pos.0, pos.1) {
                    None => {
                        return Err(Error::OffTrack);
                    },
                    Some(path) => {
                        let mut cart = self.carts[i];
                        match path.move_cart(&mut cart) {
                            Err(e) => {
                                return Err(e);
                            },
                            Ok(()) => {
                                self.carts[i] = cart;
                                self.crash(i);
                            },
                        }
                    },
                }
            }
            i += 1;
        }
        Ok(())
    }

    fn find_crashed(&self) -> (r: Option<(usize, usize)>)
        ensures
            r == first_crashed(self.carts()),
    {
        let mut i: usize = 0;
        assert(self.carts@.subrange(0, 0) =~= Seq::<Cart>::empty());
        while i < self.carts.len()
            invariant
                i <= self.carts@.len(),
                first_crashed(self.carts@.subrange(0, i as int)) is None,
            decreases self.carts@.len() - i,
        {
            proof {
                let next = self.carts@.subrange(0, i + 1);
                assert(next.drop_last() =~= self.carts@.subrange(0, i as int));
                assert(next.last() == self.carts@[i as int]);
            }
            if self.carts[i].crashed {
                proof {
                    lemma_first_crashed_prefix(self.carts@, i + 1);
                }
                return Some(self.carts[i].pos);
            }
            i += 1;
        }
        assert(self.carts@.subrange(0, i as int) =~= self.carts@);
        None
    }

    fn find_running(&self) -> (r: (usize, Option<(usize, usize)>))
        ensures
            r.0 == running(self.carts()),
            r.1 == first_running(self.carts()),
    {
        let mut count: usize = 0;
        let mut first: Option<(usize, usize)> = None;
        let mut i: usize = 0;
        assert(self.carts@.subrange(0, 0) =~= Seq::<Cart>::empty());
        while i < self.carts.len()
            invariant
                i <= self.carts@.len(),
                count == running(self.carts@.subrange(0, i as int)),
                count <= i,
                first == first_running(self.carts@.subrange(0, i as int)),
            decreases self.carts@.len() - i,
        {
            proof {
                let next = self.carts@.subrange(0, i + 1);
                assert(next.drop_last() =~= self.carts@.subrange(0, i as int));
                assert(next.last() == self.carts@[i as int]);
            }
            if !self.carts[i].crashed {
                count += 1;
                if first.is_none() {
                    first = Some(self.carts[i].pos);
                }
            }
            i += 1;
        }
        assert(self.carts@.subrange(0, i as int) =~= self.carts@);
        (count, first)
    }

    /// Lets ticks pass until a cart has crashed, at most `limit` of them,
    /// and returns the place of the first crashed cart.
    pub fn run_till_collision(&mut self, limit: usize) -> (r: Result<Option<(usize, usize)>, Error>)
        requires
            old(self).wf(),
        ensures
            final(self).wf(),
            final(self).tracks() == old(self).tracks(),
            r == collision(old(self).tracks(), old(self).carts(), limit as nat),
    {
        let mut left = limit;
        loop
            invariant
                self.wf(),
                self.tracks() == old(self).tracks(),
                collision(old(self).tracks(), old(self).carts(), limit as nat) == collision(
                    self.tracks(),
                    self.carts(),
                    left as nat,
                ),
            decreases left,
        {
            if let Some(pos) = self.find_crashed() {
                return Ok(Some(pos));
            }
            if left == 0 {
                return Ok(None);
            }
            match self.tick() {
                Err(e) => {
                    return Err(e);
                },
                Ok(()) => {},
            }
            left -= 1;
        }
    }

    /// Lets ticks pass until at most one cart is left that has not
    /// crashed, at most `limit` of them, and returns the place of that
    /// cart.
    pub fn run_till_last_cart(&mut self, limit: usize) -> (r: Result<Option<(usize, usize)>, Error>)
        requires
            old(self).wf(),
        ensures
            final(self).wf(),
            final(self).tracks() == old(self).tracks(),
            r == last_cart(old(self).tracks(), old(self).carts(), limit as nat),
    {
        let mut left = limit;
        loop
            invariant
                self.wf(),
                self.tracks() == old(self).tracks(),
                last_cart(old(self).tracks(), old(self).carts(), limit as nat) == last_cart(
                    self.tracks(),
                    self.carts(),
                    left as nat,
                ),
            decreases left,
        {
            let (count, first) = self.find_running();
            if count <= 1 {
                return Ok(first);
            }
            if left == 0 {
                return Ok(None);
            }
            match self.tick() {
                Err(e) => {
                    return Err(e);
                },
                Ok(()) => {},
            }
            left -= 1;
        }
    }
}

/// The first crashed cart among the first carts is the first crashed cart
/// among all.
pub proof fn lemma_first_crashed_prefix(carts: Seq<Cart>, k: int)
    requires
        0 <= k <= carts.len(),
        first_crashed(carts.subrange(0, k)) is Some,
    ensures
        first_crashed(carts) == first_crashed(carts.subrange(0, k)),
    decreases carts.len(),
{
    if k == carts.len() {
        assert(carts.subrange(0, k) =~= carts);
    } else {
        assert(carts.drop_last().subrange(0, k) =~= carts.subrange(0, k));
        lemma_first_crashed_prefix(carts.drop_last(), k);
    }
}

/// The place of the first crash.
pub fn part1(g: &mut Grid, limit: usize) -> (r: Result<Option<(usize, usize)>, Error>)
    requires
        old(g).wf(),
    ensures
        final(g).wf(),
        r == collision(old(g).tracks(), old(g).carts(), limit as nat),
{
    g.run_till_collision(limit)
}

/// The place of the last cart left.
pub fn part2(g: &mut Grid, limit: usize) -> (r: Result<Option<(usize, usize)>, Error>)
    requires
        old(g).wf(),
    ensures
        final(g).wf(),
        r == last_cart(old(g).tracks(), old(g).carts(), limit as nat),
{
    g.run_till_last_cart(limit)
}

/// What a character lays on the grid: a piece of track, or nothing for a
/// blank; a cart stands on a straight road that runs its way. Nothing at
/// all for a character that the map does not know.
pub open spec fn track_of_char(c: char) -> Option<Option<Path>> {
    match direction_of_char(c) {
        Some(d) => if d == Direction::West || d == Direction::East {
            Some(Some(Path::HorizontalRoad))
        } else {
            Some(Some(Path::VerticalRoad))
        },
        None => if c == ' ' {
            Some(None)
        } else {
            match path_of_char(c) {
                Some(p) => Some(Some(p)),
                None => None,
            }
        },
    }
}

/// The character at column `x` of row `y`, if the line is that long.
pub open spec fn char_at(lines: Seq<Seq<char>>, x: int, y: int) -> Option<char> {
    if 0 <= y < lines.len() && 0 <= x < lines[y].len() {
        Some(lines[y][x])
    } else {
        None
    }
}

/// The piece of track at column `x` of row `y`.
pub open spec fn cell_at(lines: Seq<Seq<char>>, x: int, y: int) -> Option<Path> {
    match char_at(lines, x, y) {
        Some(c) => match track_of_char(c) {
            Some(cell) => cell,
            None => None,
        },
        None => None,
    }
}

/// Whether the map knows every character of every line.
pub open spec fn all_known(lines: Seq<Seq<char>>) -> bool {
    forall|y: int, x: int|
        0 <= y < lines.len() && 0 <= x < lines[y].len() ==> track_of_char(#[trigger] lines[y][x]) is Some
}

/// The carts among the first `count` places of a map of `w` columns, in
/// reading order.
pub open spec fn carts_before(lines: Seq<Seq<char>>, w: nat, count: nat) -> Seq<Cart>
    decreases count,
{
    if count == 0 || w == 0 {
        Seq::empty()
    } else {
        let i = (count - 1) as int;
        let before = carts_before(lines, w, (count - 1) as nat);
        match char_at(lines, i % (w as int), i / (w as int)) {
            Some(c) => match direction_of_char(c) {
                Some(dir) => before.push(
                    Cart {
                        dir,
                        pos: ((i % (w as int)) as usize, (i / (w as int)) as usize),
                        cross_counter: 0,
                        crashed: false,
                    },
                ),
                None => before,
            },
            None => before,
        }
    }
}

/// The length of the longest line.
pub open spec fn longest(lines: Seq<Seq<char>>) -> nat
    decreases lines.len(),
{
    if lines.len() == 0 {
        0
    } else {
        let rest = longest(lines.drop_last());
        if lines.last().len() > rest {
            lines.last().len()
        } else {
            rest
        }
    }
}

/// No line is longer than the longest.
pub proof fn lemma_longest(lines: Seq<Seq<char>>, y: int)
    requires
        0 <= y < lines.len(),
    ensures
        lines[y].len() <= longest(lines),
    decreases lines.len(),
{
    if y < lines.len() - 1 {
        lemma_longest(lines.drop_last(), y);
    }
}

fn longest_line(lines: &Vec<String>) -> (w: usize)
    ensures
        w == longest(lines.deep_view()),
{
    let mut w: usize = 0;
    let mut y: usize = 0;
    let ghost text = lines.deep_view();
    assert(text.subrange(0, 0) =~= Seq::empty());
    while y < lines.len()
        invariant
            y <= lines@.len(),
            text == lines.deep_view(),
            w == longest(text.subrange(0, y as int)),
        decreases lines@.len() - y,
    {
        proof {
            let next = text.subrange(0, y + 1);
            assert(next.drop_last() =~= text.subrange(0, y as int));
            assert(next.last() == lines@[y as int]@);
        }
        let len = lines[y].as_str().unicode_len();
        if len > w {
            w = len;
        }
        y += 1;
    }
    assert(text.subrange(0, y as int) =~= text);
    w
}

impl Grid {
    /// Reads a map from its lines: one row for each line, as wide as the
    /// longest line. Text without lines, a character that the map does
    /// not know and a map too large to address are malformed.
    pub fn from_lines(lines: &Vec<String>) -> (r: Result<Grid, Error>)
        ensures
            grid_read(lines.deep_view(), r),
    {
        let h = lines.len();
        if h == 0 {
            return Err(Error::MalformedInput);
        }
        let w = longest_line(lines);
        let size = match h.checked_mul(w) {
            Some(n) => n,
            None => {
                return Err(Error::MalformedInput);
            },
        };
        let ghost text = lines.deep_view();
        let mut cells: Vec<Option<Path>> = Vec::new();
        let mut carts: Vec<Cart> = Vec::new();
        let mut y: usize = 0;
        while y < h
            invariant
                y <= h,
                h == lines@.len(),
                text == lines.deep_view(),
                w == longest(text),
                h * w <= usize::MAX,
                cells@.len() == y * w,
                forall|i: int|
                    0 <= i < cells@.len() ==> #[trigger] cells@[i] == cell_at(
                        text,
                        i % (w as int),
                        i / (w as int),
                    ),
                carts@ == carts_before(text, w as nat, (y * w) as nat),
                forall|j: int, x: int|
                    0 <= j < y && 0 <= x < text[j].len() ==> track_of_char(#[trigger] text[j][x]) is Some,
            decreases h - y,
        {
            let line = lines[y].as_str();
            let len = line.unicode_len();
            assert(text[y as int] == line@);
            proof {
                lemma_longest(text, y as int);
                assert(y * w + w <= h * w) by (nonlinear_arith)
                    requires
                        y < h,
                        0 <= w,
                ;
            }
            let mut x: usize = 0;
            while x < w
                invariant
                    x <= w,
                    y < h,
                    h == lines@.len(),
                    len == line@.len(),
                    len <= w,
                    text == lines.deep_view(),
                    text[y as int] == line@,
                    w == longest(text),
                    h * w <= usize::MAX,
                    y * w + w <= h * w,
                    cells@.len() == y * w + x,
                    forall|i: int|
                        0 <= i < cells@.len() ==> #[trigger] cells@[i] == cell_at(
                            text,
                            i % (w as int),
                            i / (w as int),
                        ),
                    carts@ == carts_before(text, w as nat, (y * w + x) as nat),
                    forall|k: int| 0 <= k < x && k < len ==> track_of_char(#[trigger] line@[k]) is Some,
                decreases w - x,
            {
                proof {
                    let i = (y * w + x) as int;
                    let wi = w as int;
                    assert(i / wi == y && i % wi == x) by (nonlinear_arith)
                        requires
                            i == y * wi + x,
                            0 <= x < wi,
                            0 <= y,
                    ;
                }
                let cell = if x < len {
                    let c = line.get_char(x);
                    match Direction::from_char(c) {
                        Ok(dir) => {
                            carts.push(Cart { cross_counter: 0, dir, pos: (x, y), crashed: false });
                            match dir {
                                Direction::West | Direction::East => Some(Path::HorizontalRoad),
                                _ => Some(Path::VerticalRoad),
                            }
                        },
                        Err(_) => {
                            if c == ' ' {
                                None
                            } else {
                                match Path::from_char(c) {
                                    Ok(p) => Some(p),
                                    Err(e) => {
                                        assert(track_of_char(text[y as int][x as int]) is None);
                                        return Err(e);
                                    },
                                }
                            }
                        },
                    }
                } else {
                    None
                };
                cells.push(cell);
                x += 1;
            }
            assert(y * w + w == (y + 1) * w) by (nonlinear_arith);
            y += 1;
        }
        let g = Grid { grid: cells, carts, h, w };
        proof {
            assert(all_known(text));
            assert forall|x: int, y: int|
                0 <= x < g.tracks().cols && 0 <= y < g.tracks().rows implies g.tracks().path_at(
                x,
                y,
            ) == #[trigger] cell_at(text, x, y) by {
                let wi = w as int;
                let i = y * wi + x;
                assert(i / wi == y && i % wi == x) by (nonlinear_arith)
                    requires
                        i == y * wi + x,
                        0 <= x < wi,
                        0 <= y,
                ;
                assert(i < h * w) by (nonlinear_arith)
                    requires
                        i == y * wi + x,
                        0 <= x < wi,
                        0 <= y < h,
                        wi == w,
                ;
                assert(g.grid@[i] == cell_at(text, i % wi, i / wi));
            }
        }
        Ok(g)
    }

    /// Reads a map of tracks with carts on them.
    pub fn parse(s: &str) -> (r: Result<Grid, Error>)
        ensures
            grid_read(text_lines(s@), r),
    {
        let all = lines(s);
        Grid::from_lines(&all)
    }
}

/// The first of the carts from place `from` on that stands in column `x`
/// and row `y`.
pub open spec fn cart_at(carts: Seq<Cart>, x: int, y: int, from: int) -> Option<Cart>
    decreases carts.len() - from,
{
    if from < 0 || from >= carts.len() {
        None
    } else if carts[from].pos.0 == x && carts[from].pos.1 == y {
        Some(carts[from])
    } else {
        cart_at(carts, x, y, from + 1)
    }
}

/// The character of the square in column `x` and row `y` on a drawing:
/// the direction of the first cart that stands there, else the piece of
/// track, else a blank.
pub open spec fn square_char(t: Tracks, carts: Seq<Cart>, x: int, y: int) -> char {
    match cart_at(carts, x, y, 0) {
        Some(c) => c.dir.letter(),
        None => match t.path_at(x, y) {
            Some(p) => p.letter(),
            None => ' ',
        },
    }
}

/// The first `upto` characters of row `y` of a drawing.
pub open spec fn row_text(t: Tracks, carts: Seq<Cart>, y: int, upto: int) -> Seq<char>
    decreases upto,
{
    if upto <= 0 {
        Seq::empty()
    } else {
        row_text(t, carts, y, upto - 1).push(square_char(t, carts, upto - 1, y))
    }
}

/// The first `rows` rows of a drawing, each with a line feed behind it.
pub open spec fn drawing_of(t: Tracks, carts: Seq<Cart>, rows: int) -> Seq<char>
    decreases rows,
{
    if rows <= 0 {
        Seq::empty()
    } else {
        drawing_of(t, carts, rows - 1) + row_text(t, carts, rows - 1, t.cols as int).push('\n')
    }
}

impl Grid {
    /// The first of the carts that stands in column `x` and row `y`.
    fn find_cart(&self, x: usize, y: usize) -> (r: Option<Cart>)
        ensures
            r == cart_at(self.carts(), x as int, y as int, 0),
    {
        let mut i: usize = 0;
        while i < self.carts.len()
            invariant
                i <= self.carts@.len(),
                cart_at(self.carts(), x as int, y as int, 0) == cart_at(
                    self.carts(),
                    x as int,
                    y as int,
                    i as int,
                ),
            decreases self.carts@.len() - i,
        {
            if self.carts[i].pos.0 == x && self.carts[i].pos.1 == y {
                return Some(self.carts[i]);
            }
            i += 1;
        }
        None
    }

    /// The tracks with the carts on them, as text: a line for each row.
    pub fn drawing(&self) -> (text: String)
        requires
            self.wf(),
        ensures
            text@ == drawing_of(self.tracks(), self.carts(), self.tracks().rows as int),
    {
        let mut text = String::new();
        let mut y: usize = 0;
        while y < self.h
            invariant
                y <= self.h,
                self.wf(),
                text@ == drawing_of(self.tracks(), self.carts(), y as int),
            decreases self.h - y,
        {
            let ghost above = text@;
            let mut x: usize = 0;
            while x < self.w
                invariant
                    x <= self.w,
                    y < self.h,
                    self.wf(),
                    text@ == above + row_text(self.tracks(), self.carts(), y as int, x as int),
                decreases self.w - x,
            {
                let c = match self.find_cart(x, y) {
                    Some(cart) => cart.dir.to_char(),
                    None => match self.get(x, y) {
                        Some(p) => p.to_char(),
                        None => ' ',
                    },
                };
                text.push(c);
                proof {
                    assert(text@ =~= above + row_text(self.tracks(), self.carts(), y as int, x + 1));
                }
                x += 1;
            }
            text.push('\n');
            proof {
                assert(text@ =~= drawing_of(self.tracks(), self.carts(), y + 1));
            }
            y += 1;
        }
        text
    }
}

/// Whether `r` is what reading tracks from their lines gives: a grid of
/// as many rows as there are lines and as many columns as the longest
/// line has characters, with the track that each character draws and the
/// carts in reading order; or `MalformedInput` where there is no line, a
/// character draws nothing, or the grid cannot be addressed.
pub open spec fn grid_read(lines: Seq<Seq<char>>, r: Result<Grid, Error>) -> bool {
    match r {
        Ok(g) => {
            &&& g.wf()
            &&& lines.len() > 0
            &&& all_known(lines)
            &&& g.tracks().rows == lines.len()
            &&& g.tracks().cols == longest(lines)
            &&& forall|x: int, y: int|
                0 <= x < g.tracks().cols && 0 <= y < g.tracks().rows ==> g.tracks().path_at(x, y)
                    == #[trigger] cell_at(lines, x, y)
            &&& g.carts() == carts_before(lines, g.tracks().cols, g.tracks().rows * g.tracks().cols)
        },
        Err(e) => e == Error::MalformedInput && (lines.len() == 0 || !all_known(lines) || lines.len()
            * longest(lines) > usize::MAX),
    }
}

impl core::str::FromStr for Grid {
    type Err = Error;

    /// Reads the tracks and the carts on them.
    fn from_str(s: &str) -> (r: Result<Self, Error>)
        ensures
            grid_read(text_lines(s@), r),
    {
        Grid::parse(s)
    }
}

/// The map of the puzzle and that of its example.
#[derive(Debug)]
pub struct Solution13 {
    pub grid: Option<Grid>,
    pub grid_sample: Option<Grid>,
}

impl Solution13 {
    /// The map of the input, once read.
    pub closed spec fn grid(self) -> Option<Grid> {
        self.grid
    }

    /// The map of the example, once read.
    pub closed spec fn grid_sample(self) -> Option<Grid> {
        self.grid_sample
    }

    /// A solution without input.
    pub fn new() -> (s: Self)
        ensures
            s.grid() is None,
            s.grid_sample() is None,
    {
        Solution13 { grid: None, grid_sample: None }
    }

    /// Reads the input and the example. On an error the solution keeps
    /// what it had.
    pub fn init(&mut self, data: &str, sample: &str) -> (r: Result<(), Error>)
        ensures
            match r {
                Ok(()) => {
                    &&& final(self).grid() matches Some(g) && grid_read(text_lines(data@), Ok(g))
                    &&& final(self).grid_sample() matches Some(g) && grid_read(
                        text_lines(sample@),
                        Ok(g),
                    )
                },
                Err(e) => *final(self) == *old(self) && (grid_read(text_lines(data@), Err(e))
                    || grid_read(text_lines(sample@), Err(e))),
            },
    {
        let grid = match Grid::parse(data) {
            Ok(g) => g,
            Err(e) => {
                return Err(e);
            },
        };
        let grid_sample = match Grid::parse(sample) {
            Ok(g) => g,
            Err(e) => {
                return Err(e);
            },
        };
        self.grid = Some(grid);
        self.grid_sample = Some(grid_sample);
        Ok(())
    }
}

} // verus!
