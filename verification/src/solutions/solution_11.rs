//! A grid of fuel cells: which square of cells holds the most power?

use vstd::prelude::*;

verus! {

/// The grid has cells in the columns and rows one to three hundred.
pub const N: usize = 301;

/// The power level of the cell in column `x` and row `y`.
pub open spec fn power(serial: nat, x: nat, y: nat) -> int {
    ((((x + 10) * y + serial) * (x + 10)) / 100) % 10 - 5
}

/// The power of the cells in row `y` from column one to column `x`.
pub open spec fn row_power(serial: nat, x: nat, y: nat) -> int
    decreases x,
{
    if x == 0 {
        0
    } else {
        row_power(serial, (x - 1) as nat, y) + power(serial, x, y)
    }
}

/// The power of all cells in the columns up to `x` and the rows up to
/// `y`.
pub open spec fn area_power(serial: nat, x: nat, y: nat) -> int
    decreases y,
{
    if y == 0 {
        0
    } else {
        area_power(serial, x, (y - 1) as nat) + row_power(serial, x, y)
    }
}

/// The power of the square of `m` by `m` cells whose last cell lies in
/// column `x` and row `y`.
pub open spec fn square_power(serial: nat, x: nat, y: nat, m: nat) -> int {
    area_power(serial, x, y) - area_power(serial, (x - m) as nat, y) - area_power(
        serial,
        x,
        (y - m) as nat,
    ) + area_power(serial, (x - m) as nat, (y - m) as nat)
}

/// The power of an area grows by its last cell, its last row and its last
/// column, less what the two share.
pub proof fn lemma_area_step(serial: nat, x: nat, y: nat)
    requires
        x >= 1,
        y >= 1,
    ensures
        area_power(serial, x, y) == power(serial, x, y) + area_power(serial, x, (y - 1) as nat)
            + area_power(serial, (x - 1) as nat, y) - area_power(
            serial,
            (x - 1) as nat,
            (y - 1) as nat,
        ),
    decreases y,
{
    if y > 1 {
        lemma_area_step(serial, x, (y - 1) as nat);
    }
}

/// Every cell has a power level between minus five and four.
pub proof fn lemma_power_bound(serial: nat, x: nat, y: nat)
    ensures
        -5 <= power(serial, x, y) <= 4,
{
}

/// The power of an area is bounded by five times the number of its cells.
pub proof fn lemma_area_bound(serial: nat, x: nat, y: nat)
    ensures
        -5 * (x * y) <= area_power(serial, x, y) <= 5 * (x * y),
        x <= 300 && y <= 300 ==> -450000 <= area_power(serial, x, y) <= 450000,
    decreases y,
{
    if y > 0 {
        lemma_area_bound(serial, x, (y - 1) as nat);
        lemma_row_bound(serial, x, y);
        assert(x * y == x * (y - 1) + x) by (nonlinear_arith);
    } else {
        assert(x * y == 0) by (nonlinear_arith)
            requires
                y == 0,
        ;
    }
    if x <= 300 && y <= 300 {
        assert(x * y <= 90000) by (nonlinear_arith)
            requires
                x <= 300,
                y <= 300,
        ;
    }
}

/// The power of a row is bounded by five times the number of its cells.
pub proof fn lemma_row_bound(serial: nat, x: nat, y: nat)
    ensures
        -5 * x <= row_power(serial, x, y) <= 5 * x,
    decreases x,
{
    if x > 0 {
        lemma_row_bound(serial, (x - 1) as nat, y);
    }
}

/// Whether the table holds the cells of the grid, row by row.
pub open spec fn is_grid(cells: Seq<isize>, serial: nat) -> bool {
    cells.len() == N * N && forall|x: int, y: int|
        0 <= x < N && 0 <= y < N ==> #[trigger] cells[y * N + x] == (if x >= 1 && y >= 1 {
            power(serial, x as nat, y as nat)
        } else {
            0
        })
}

/// Whether the table holds, for each cell, the power of the area up to
/// that cell.
pub open spec fn is_sum_table(table: Seq<isize>, serial: nat) -> bool {
    table.len() == N * N && forall|x: int, y: int|
        0 <= x < N && 0 <= y < N ==> #[trigger] table[y * N + x] == area_power(
            serial,
            x as nat,
            y as nat,
        )
}

/// The power levels of the cells of the grid with a serial number.
#[derive(Debug)]
pub struct PowerGrid {
    serial: usize,
    cells: Vec<isize>,
}

/// For each cell of the grid with a serial number the power of the area
/// up to that cell.
#[derive(Debug)]
pub struct SumTable {
    serial: usize,
    table: Vec<isize>,
}

impl PowerGrid {
    /// The serial number of the grid.
    pub closed spec fn serial(self) -> nat {
        self.serial as nat
    }

    /// The power levels, row by row.
    pub closed spec fn cells(self) -> Seq<isize> {
        self.cells@
    }

    /// The power levels are those of the serial number.
    pub open spec fn wf(self) -> bool {
        is_grid(self.cells(), self.serial())
    }

    /// The power level of the cell in column `x` and row `y`.
    pub fn get(&self, x: usize, y: usize) -> (p: isize)
        requires
            self.wf(),
            1 <= x < N,
            1 <= y < N,
        ensures
            p == power(self.serial(), x as nat, y as nat),
    {
        assert(self.cells@[y * N + x] == power(self.serial(), x as nat, y as nat));
        self.cells[y * N + x]
    }
}

impl SumTable {
    /// The serial number of the grid.
    pub closed spec fn serial(self) -> nat {
        self.serial as nat
    }

    /// The powers of the areas, row by row.
    pub closed spec fn table(self) -> Seq<isize> {
        self.table@
    }

    /// The powers are those of the areas of the grid with the serial
    /// number.
    pub open spec fn wf(self) -> bool {
        is_sum_table(self.table(), self.serial())
    }
}

fn cell_power(serial: usize, x: usize, y: usize) -> (p: isize)
    requires
        x < N,
        y < N,
    ensures
        p == power(serial as nat, x as nat, y as nat),
{
    let rack = (x + 10) as u128;
    assert(rack * (y as u128) <= 100000) by (nonlinear_arith)
        requires
            rack <= 311,
            y <= 300,
    ;
    let p = rack * (y as u128) + serial as u128;
    assert(p * rack <= u128::MAX) by (nonlinear_arith)
        requires
            p <= 0x1_0000_0000_0000_0000 + 100000,
            rack <= 311,
    ;
    let p = p * rack;
    let digit = (p / 100) % 10;
    digit as isize - 5
}

/// The power levels of the cells, row by row; the column and the row
/// with the number zero hold no cells.
pub fn build_grid(serial: usize) -> (r: PowerGrid)
    ensures
        r.wf(),
        r.serial() == serial,
{
    let mut grid: Vec<isize> = Vec::new();
    let mut y: usize = 0;
    while y < N
        invariant
            y <= N,
            grid@.len() == y * N,
            forall|i: int, j: int|
                0 <= i < N && 0 <= j < y ==> #[trigger] grid@[j * N + i] == (if i >= 1 && j >= 1 {
                    power(serial as nat, i as nat, j as nat)
                } else {
                    0
                }),
        decreases N - y,
    {
        let mut x: usize = 0;
        while x < N
            invariant
                x <= N,
                y < N,
                grid@.len() == y * N + x,
                forall|i: int, j: int|
                    0 <= i < N && 0 <= j < N && (j < y || (j == y && i < x)) ==> #[trigger] grid@[j
                        * N + i] == (if i >= 1 && j >= 1 {
                        power(serial as nat, i as nat, j as nat)
                    } else {
                        0
                    }),
            decreases N - x,
        {
            let p = if x >= 1 && y >= 1 {
                cell_power(serial, x, y)
            } else {
                0
            };
            grid.push(p);
            x += 1;
        }
        y += 1;
    }
    PowerGrid { serial, cells: grid }
}

/// For each cell the power of the area up to that cell.
pub fn build_sum_table(power_grid: &PowerGrid) -> (r: SumTable)
    requires
        power_grid.wf(),
    ensures
        r.wf(),
        r.serial() == power_grid.serial(),
{
    let grid = &power_grid.cells;
    let serial: Ghost<nat> = Ghost(power_grid.serial());
    let mut table: Vec<isize> = Vec::new();
    let mut y: usize = 0;
    while y < N
        invariant
            y <= N,
            is_grid(grid@, serial@),
            table@.len() == y * N,
            forall|i: int, j: int|
                0 <= i < N && 0 <= j < y ==> #[trigger] table@[j * N + i] == area_power(
                    serial@,
                    i as nat,
                    j as nat,
                ),
        decreases N - y,
    {
        let mut x: usize = 0;
        while x < N
            invariant
                x <= N,
                y < N,
                is_grid(grid@, serial@),
                table@.len() == y * N + x,
                forall|i: int, j: int|
                    0 <= i < N && 0 <= j < N && (j < y || (j == y && i < x)) ==> #[trigger] table@[j
                        * N + i] == area_power(serial@, i as nat, j as nat),
            decreases N - x,
        {
            let sum: isize = if x >= 1 && y >= 1 {
                proof {
                    lemma_area_step(serial@, x as nat, y as nat);
                    lemma_area_bound(serial@, x as nat, y as nat);
                    lemma_area_bound(serial@, x as nat, (y - 1) as nat);
                    lemma_area_bound(serial@, (x - 1) as nat, y as nat);
                    lemma_area_bound(serial@, (x - 1) as nat, (y - 1) as nat);
                    lemma_power_bound(serial@, x as nat, y as nat);
                    assert(grid@[y * N + x] == power(serial@, x as nat, y as nat));
                    assert(table@[(y - 1) * N + x] == area_power(serial@, x as nat, (y - 1) as nat));
                    assert(table@[y * N + (x - 1)] == area_power(serial@, (x - 1) as nat, y as nat));
                    assert(table@[(y - 1) * N + (x - 1)] == area_power(
                        serial@,
                        (x - 1) as nat,
                        (y - 1) as nat,
                    ));
                }
                let power = grid[y * N + x];
                let up = table[(y - 1) * N + x];
                let left = table[y * N + x - 1];
                let both = table[(y - 1) * N + x - 1];
                power + up + left - both
            } else {
                proof {
                    if y == 0 {
                    } else {
                        lemma_zero_columns(serial@, y as nat);
                    }
                }
                0
            };
            table.push(sum);
            x += 1;
        }
        y += 1;
    }
    SumTable { serial: power_grid.serial, table }
}

/// An area without columns has no power.
pub proof fn lemma_zero_columns(serial: nat, y: nat)
    ensures
        area_power(serial, 0, y) == 0,
    decreases y,
{
    if y > 0 {
        lemma_zero_columns(serial, (y - 1) as nat);
    }
}

/// The power of the square of `m` by `m` cells whose last cell lies in
/// column `x` and row `y`.
pub fn calc_sum(table: &SumTable, x: usize, y: usize, m: usize) -> (sum: isize)
    requires
        table.wf(),
        m <= x < N,
        m <= y < N,
    ensures
        sum == square_power(table.serial(), x as nat, y as nat, m as nat),
        -1800000 <= sum <= 1800000,
{
    let sum_table = &table.table;
    let serial: Ghost<nat> = Ghost(table.serial());
    proof {
        lemma_area_bound(serial@, x as nat, y as nat);
        lemma_area_bound(serial@, (x - m) as nat, y as nat);
        lemma_area_bound(serial@, x as nat, (y - m) as nat);
        lemma_area_bound(serial@, (x - m) as nat, (y - m) as nat);
        assert(sum_table@[y * N + x] == area_power(serial@, x as nat, y as nat));
        assert(sum_table@[y * N + (x - m)] == area_power(serial@, (x - m) as nat, y as nat));
        assert(sum_table@[(y - m) * N + x] == area_power(serial@, x as nat, (y - m) as nat));
        assert(sum_table@[(y - m) * N + (x - m)] == area_power(
            serial@,
            (x - m) as nat,
            (y - m) as nat,
        ));
    }
    let a = sum_table[y * N + x];
    let b = sum_table[y * N + (x - m)];
    let c = sum_table[(y - m) * N + x];
    let d = sum_table[(y - m) * N + (x - m)];
    d + a - b - c
}

/// Whether the square whose last cell lies at `(x, y)` comes before the
/// one with the last cell at `(u, v)`, row by row.
pub open spec fn earlier(x: int, y: int, u: int, v: int) -> bool {
    y < v || (y == v && x < u)
}

/// Whether `(bx, by)` is the first cell of the first square of `m` by `m`
/// cells with the most power, which is `max`.
pub open spec fn is_best(serial: nat, m: nat, bx: int, by: int, max: int) -> bool {
    let x = bx + m - 1;
    let y = by + m - 1;
    &&& m <= x < N && m <= y < N
    &&& max == square_power(serial, x as nat, y as nat, m)
    &&& forall|u: int, v: int|
        m <= u < N && m <= v < N ==> #[trigger] square_power(serial, u as nat, v as nat, m) <= max
    &&& forall|u: int, v: int|
        m <= u < N && m <= v < N && earlier(u, v, x, y) ==> #[trigger] square_power(
            serial,
            u as nat,
            v as nat,
            m,
        ) < max
}

/// The first cell of the first square of `m` by `m` cells with the most
/// power, and that power.
pub fn find_max(table: &SumTable, m: usize) -> (r: (usize, usize, isize))
    requires
        table.wf(),
        1 <= m < N,
    ensures
        is_best(table.serial(), m as nat, r.0 as int, r.1 as int, r.2 as int),
{
    let ghost serial = table.serial();
    let (mut max, mut max_x, mut max_y) = (calc_sum(table, m, m, m), m, m);
    let mut y: usize = m;
    while y < N
        invariant
            m <= y <= N,
            1 <= m < N,
            table.wf(),
            serial == table.serial(),
            m <= max_x < N,
            m <= max_y < N,
            max_y <= y,
            max_y < y || (max_x == m && max_y == m),
            max == square_power(serial, max_x as nat, max_y as nat, m as nat),
            -1800000 <= max <= 1800000,
            forall|u: int, v: int|
                m <= u < N && m <= v < y ==> #[trigger] square_power(
                    serial,
                    u as nat,
                    v as nat,
                    m as nat,
                ) <= max,
            forall|u: int, v: int|
                m <= u < N && m <= v < N && earlier(u, v, max_x as int, max_y as int)
                    ==> #[trigger] square_power(serial, u as nat, v as nat, m as nat) < max,
        decreases N - y,
    {
        let mut x: usize = m;
        while x < N
            invariant
                m <= x <= N,
                m <= y < N,
                1 <= m < N,
                table.wf(),
                serial == table.serial(),
                m <= max_x < N,
                m <= max_y < N,
                max_y <= y,
                max == square_power(serial, max_x as nat, max_y as nat, m as nat),
                -1800000 <= max <= 1800000,
                forall|u: int, v: int|
                    m <= u < N && m <= v < N && earlier(u, v, x as int, y as int)
                        ==> #[trigger] square_power(serial, u as nat, v as nat, m as nat) <= max,
                forall|u: int, v: int|
                    m <= u < N && m <= v < N && earlier(u, v, max_x as int, max_y as int)
                        ==> #[trigger] square_power(serial, u as nat, v as nat, m as nat) < max,
                earlier(max_x as int, max_y as int, x as int, y as int) || (max_x == m && max_y == m),
            decreases N - x,
        {
            let sum = calc_sum(table, x, y, m);
            if sum > max {
                max = sum;
                max_x = x;
                max_y = y;
            }
            x += 1;
        }
        y += 1;
    }
    (max_x - m + 1, max_y - m + 1, max)
}

/// Whether `(bx, by)` is the first cell of the first square of `m` by `m`
/// cells with the most power.
pub open spec fn is_best_cell(serial: nat, m: nat, bx: int, by: int) -> bool {
    exists|max: int| is_best(serial, m, bx, by, max)
}

/// Whether `(bx, by)` is the first cell of the first square with the most
/// power of all sizes, and `m` the size of that square.
pub open spec fn is_best_square(serial: nat, m: nat, bx: int, by: int) -> bool {
    exists|max: int| is_best_size(serial, m, bx, by, max)
}

/// The first cell of the square of three by three cells with the most
/// power.
pub fn part1(serial: usize) -> (r: (usize, usize))
    ensures
        is_best_cell(serial as nat, 3, r.0 as int, r.1 as int),
{
    let grid = build_grid(serial);
    let sum_table = build_sum_table(&grid);
    let (x, y, max) = find_max(&sum_table, 3);
    assert(is_best(serial as nat, 3, x as int, y as int, max as int));
    (x, y)
}

/// Whether the squares of `m` by `m` cells hold the most power of all
/// squares, `max` at best, and no larger squares hold as much.
pub open spec fn is_best_size(serial: nat, m: nat, bx: int, by: int, max: int) -> bool {
    &&& 1 <= m < N
    &&& is_best(serial, m, bx, by, max)
    &&& forall|k: nat, x: int, y: int, other: int|
        1 <= k < N && #[trigger] is_best(serial, k, x, y, other) ==> other <= max && (k > m
            ==> other < max)
}

/// The first cell and the size of the square with the most power, of
/// all sizes; of sizes with equal power the largest.
pub fn part2(serial: usize) -> (r: (usize, usize, usize))
    ensures
        is_best_square(serial as nat, r.2 as nat, r.0 as int, r.1 as int),
{
    let grid = build_grid(serial);
    let sum_table = build_sum_table(&grid);
    let ghost s = serial as nat;
    let (mut bx, mut by, mut best) = find_max(&sum_table, 1);
    let mut size: usize = 1;
    let mut m: usize = 2;
    while m < N
        invariant
            2 <= m <= N,
            1 <= size < m,
            sum_table.wf(),
            sum_table.serial() == s,
            is_best(s, size as nat, bx as int, by as int, best as int),
            forall|k: nat, x: int, y: int, other: int|
                1 <= k < m && #[trigger] is_best(s, k, x, y, other) ==> other <= best && (k > size
                    ==> other < best),
        decreases N - m,
    {
        let (x, y, max) = find_max(&sum_table, m);
        proof {
            assert forall|k: nat, u: int, v: int, other: int|
                1 <= k < m + 1 && #[trigger] is_best(s, k, u, v, other) implies other <= (if max
                >= best {
                max as int
            } else {
                best as int
            }) && (k > (if max >= best {
                m
            } else {
                size
            }) ==> other < (if max >= best {
                max as int
            } else {
                best as int
            })) by {
                if k == m {
                    lemma_best_unique(s, k, u, v, other, x as int, y as int, max as int);
                }
            }
        }
        if max >= best {
            bx = x;
            by = y;
            best = max;
            size = m;
        }
        m += 1;
    }
    assert(is_best_size(s, size as nat, bx as int, by as int, best as int));
    (bx, by, size)
}

/// The most power of the squares of one size is one number.
pub proof fn lemma_best_unique(
    serial: nat,
    m: nat,
    x: int,
    y: int,
    max: int,
    u: int,
    v: int,
    other: int,
)
    requires
        is_best(serial, m, x, y, max),
        is_best(serial, m, u, v, other),
    ensures
        max == other,
{
    let (a, b) = (x + m - 1, y + m - 1);
    let (c, d) = (u + m - 1, v + m - 1);
    assert(square_power(serial, a as nat, b as nat, m) <= other);
    assert(square_power(serial, c as nat, d as nat, m) <= max);
}

} // verus!
