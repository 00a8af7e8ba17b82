use aoc::error::Error;
use aoc::solutions::solution_17::{part1, ClaySquare, Data, Direction, Solution17, TileKind};
use aoc::util::mat2::Pos;
use std::collections::VecDeque;

const SCAN: &str = "x=495, y=2..7\ny=7, x=495..501\nx=501, y=3..7\nx=498, y=2..4\nx=506, y=1..2\nx=498, y=10..13\nx=504, y=10..13\ny=13, x=498..504\n";

fn draw(d: &Data, w: usize, h: usize) -> String {
    let mut s = String::new();
    for y in 0..h {
        for x in 0..w {
            s.push(d.get(Pos::new(x, y)).unwrap().to_char());
        }
        s.push('\n');
    }
    s
}

#[test]
fn the_scan_is_read() {
    let d = Data::parse(SCAN).unwrap();
    assert_eq!(
        draw(&d, 14, 14),
        "......+.......\n............#.\n.#..#.......#.\n.#..#..#......\n.#..#..#......\n.#.....#......\n.#.....#......\n.#######......\n..............\n..............\n....#.....#...\n....#.....#...\n....#.....#...\n....#######...\n"
    );
    assert_eq!(d.get(Pos::new(14, 0)), None);
    assert_eq!(Data::parse("").err(), Some(Error::MalformedInput));
    assert_eq!(Data::parse("x=495, y=7..2\n").err(), Some(Error::MalformedInput));
    assert_eq!(Data::parse("x=z\n").err(), Some(Error::MalformedInput));
    // the spring lies outside this ground
    assert_eq!(Data::parse("x=5, y=2..7\n").err(), Some(Error::MalformedInput));
    assert!(Data::from_veins(&vec![]).is_none());
    assert!(Data::from_veins(&vec![ClaySquare { x_start: 0, x_end: 0, y_start: 1, y_end: 1 }]).is_none());
}

#[test]
fn water_runs_and_rests() {
    let mut d = Data::parse(SCAN).unwrap();
    assert_eq!(part1(&mut d, 100_000), Ok(Some(57)));
    assert_eq!(d.water_tiles(), 57);
    assert_eq!(d.resting_water_tiles(), 29);
    assert_eq!(
        draw(&d, 14, 14),
        "......+.......\n......|.....#.\n.#..#||||...#.\n.#..#~~#|.....\n.#..#~~#|.....\n.#~~~~~#|.....\n.#~~~~~#|.....\n.#######|.....\n........|.....\n...|||||||||..\n...|#~~~~~#|..\n...|#~~~~~#|..\n...|#~~~~~#|..\n...|#######|..\n"
    );
    let mut short = Data::parse(SCAN).unwrap();
    assert_eq!(part1(&mut short, 3), Ok(None));
    assert_eq!(short.update(0), Ok(false));
}

#[test]
fn walls_of_a_basin() {
    let mut d = Data::parse(SCAN).unwrap();
    d.update(100_000).unwrap();
    // water at rest is no floor to look along
    assert_eq!(d.find_floor_bound(Pos::new(3, 6), Direction::Left), Err(Error::InvalidTile));
    assert_eq!(d.find_floor_bound(Pos::new(3, 6), Direction::Right), Err(Error::InvalidTile));
    let fresh = Data::parse(SCAN).unwrap();
    // clay right beside the place is the wall; sand beside it is none
    assert_eq!(fresh.find_floor_bound(Pos::new(2, 6), Direction::Left), Ok(Some(Pos::new(2, 6))));
    assert_eq!(fresh.find_floor_bound(Pos::new(6, 6), Direction::Right), Ok(Some(Pos::new(6, 6))));
    assert_eq!(fresh.find_floor_bound(Pos::new(3, 6), Direction::Left), Ok(None));
    assert_eq!(fresh.find_floor_bound(Pos::new(3, 1), Direction::Right), Ok(None));
    assert_eq!(fresh.find_floor_bound(Pos::new(0, 0), Direction::Left), Ok(None));
    assert_eq!(fresh.find_floor_bound(Pos::new(2, 2), Direction::Bottom), Ok(None));
}

#[test]
fn one_step_of_the_water() {
    let mut d = Data::parse(SCAN).unwrap();
    let mut q = VecDeque::new();
    assert_eq!(d.update_flow(Pos::new(6, 0), &mut q), Ok(()));
    assert_eq!(d.get(Pos::new(6, 1)), Some(TileKind::FlowingWater));
    assert_eq!(q, VecDeque::from(vec![Pos::new(6, 1)]));
    // sand does not flow
    let mut q = VecDeque::new();
    assert_eq!(d.update_flow(Pos::new(0, 0), &mut q), Ok(()));
    assert!(q.is_empty());
    let mut s = Solution17::new();
    assert_eq!(s.init(SCAN, "?"), Err(Error::MalformedInput));
    assert_eq!(s.init(SCAN, SCAN), Ok(()));
}
