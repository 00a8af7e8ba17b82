use aoc::error::Error;
use aoc::solutions::solution_15::{part1, part2, Cave, Solution15, UnitKind};
use aoc::util::mat2::Pos;

const MOVES: &str = "#########\n#G..G..G#\n#.......#\n#.......#\n#G..E..G#\n#.......#\n#.......#\n#G..G..G#\n#########\n";

const FIGHT: &str = "#######\n#.G...#\n#...EG#\n#.#.#G#\n#..G#E#\n#.....#\n#######\n";

fn draw(c: &Cave, w: usize, h: usize) -> String {
    let mut s = String::new();
    for y in 0..h {
        for x in 0..w {
            let g = c.get(Pos::new(x, y)).unwrap();
            s.push(match g.unit {
                Some(u) if u.kind == UnitKind::Elf => 'E',
                Some(_) => 'G',
                None => g.to_char(),
            });
        }
        s.push('\n');
    }
    s
}

#[test]
fn caves_are_read() {
    let c: Cave = FIGHT.parse().unwrap();
    assert_eq!(draw(&c, 7, 7), FIGHT);
    assert_eq!(c.elfs(), 2);
    assert_eq!(c.units().len(), 6);
    // units are numbered in reading order
    let ids: Vec<usize> = c.units().iter().map(|u| u.id).collect();
    assert_eq!(ids, vec![1, 2, 3, 4, 5, 6]);
    assert_eq!(c.hp_sum(), 1200);
    assert_eq!("".parse::<Cave>().err(), Some(Error::MalformedInput));
    assert_eq!("#.x\n".parse::<Cave>().err(), Some(Error::MalformedInput));
    assert_eq!("#.\n#..\n".parse::<Cave>().err(), Some(Error::MalformedInput));
    // a shorter line is filled up with wall
    let c: Cave = "#..\n#\n".parse().unwrap();
    assert_eq!(draw(&c, 3, 2), "#..\n###\n");
}

#[test]
fn places_beside_a_place() {
    let c: Cave = FIGHT.parse().unwrap();
    assert_eq!(
        c.neighbors(Pos::new(3, 3)),
        vec![Pos::new(3, 2), Pos::new(2, 3), Pos::new(4, 3), Pos::new(3, 4)]
    );
    assert_eq!(c.neighbors(Pos::new(0, 0)), vec![Pos::new(1, 0), Pos::new(0, 1)]);
    assert_eq!(c.neighbors(Pos::new(6, 6)), vec![Pos::new(6, 5), Pos::new(5, 6)]);
}

#[test]
fn enemies_beside_a_unit() {
    let c: Cave = FIGHT.parse().unwrap();
    // the elf at (4, 2) has the goblin at (5, 2) beside it
    assert_eq!(c.find_close_enemy(Pos::new(4, 2)), Some(Pos::new(5, 2)));
    // the elf at (5, 4) has the goblin at (5, 3) above it
    assert_eq!(c.find_close_enemy(Pos::new(5, 4)), Some(Pos::new(5, 3)));
    // the goblin at (5, 2) stands beside the elf, not beside the goblin below
    assert_eq!(c.find_close_enemy(Pos::new(5, 2)), Some(Pos::new(4, 2)));
    assert_eq!(c.find_close_enemy(Pos::new(2, 1)), None);
    assert_eq!(c.find_close_enemy(Pos::new(1, 1)), None);
    // of two enemies the one with fewer hit points is attacked
    let mut c: Cave = "GEG\n".parse().unwrap();
    assert_eq!(c.find_close_enemy(Pos::new(1, 0)), Some(Pos::new(0, 0)));
    c.attack(Pos::new(1, 0), Pos::new(2, 0));
    assert_eq!(c.find_close_enemy(Pos::new(1, 0)), Some(Pos::new(2, 0)));
}

#[test]
fn steps_towards_the_nearest_enemy() {
    let c: Cave = "#######\n#E..G.#\n#...#.#\n#.G.#G#\n#######\n".parse().unwrap();
    // the goblin to the right is three steps away, the one below as well
    assert_eq!(c.find_nearest_enemy(Pos::new(1, 1)), Some(Pos::new(2, 1)));
    let c: Cave = "#######\n#.E...#\n#.....#\n#...G.#\n#######\n".parse().unwrap();
    assert_eq!(c.find_nearest_enemy(Pos::new(2, 1)), Some(Pos::new(3, 1)));
    assert_eq!(c.find_nearest_enemy(Pos::new(4, 3)), Some(Pos::new(4, 2)));
    // no way through the wall
    let c: Cave = "#####\n#E#G#\n#####\n".parse().unwrap();
    assert_eq!(c.find_nearest_enemy(Pos::new(1, 1)), None);
    // no unit, no search
    assert_eq!(c.find_nearest_enemy(Pos::new(0, 0)), None);
}

#[test]
fn units_move_towards_each_other() {
    let mut c: Cave = MOVES.parse().unwrap();
    c.update();
    assert_eq!(
        draw(&c, 9, 9),
        "#########\n#.G...G.#\n#...G...#\n#...E..G#\n#.G.....#\n#.......#\n#G..G..G#\n#.......#\n#########\n"
    );
    c.update();
    assert_eq!(
        draw(&c, 9, 9),
        "#########\n#..G.G..#\n#...G...#\n#.G.E.G.#\n#.......#\n#G..G..G#\n#.......#\n#.......#\n#########\n"
    );
    c.update();
    assert_eq!(
        draw(&c, 9, 9),
        "#########\n#.......#\n#..GGG..#\n#..GEG..#\n#G..G...#\n#......G#\n#.......#\n#.......#\n#########\n"
    );
}

#[test]
fn a_fight_to_the_end() {
    let mut c: Cave = FIGHT.parse().unwrap();
    let (rounds, winner) = c.run_to_end(1000).unwrap();
    assert_eq!(winner, UnitKind::Goblin);
    assert_eq!(c.hp_sum(), 590);
    assert_eq!(rounds, 47);
    assert_eq!(c.elfs(), 0);
    assert!(c.is_done());
    let mut c: Cave = FIGHT.parse().unwrap();
    assert_eq!(part1(&mut c, 1000), Some(27730));
    let mut c: Cave = FIGHT.parse().unwrap();
    assert_eq!(part1(&mut c, 46), None);
    assert_eq!(c.run_to_end(0), None);
}

#[test]
fn elves_with_better_weapons() {
    let c: Cave = FIGHT.parse().unwrap();
    // with attack power fifteen the elves win without a loss
    assert_eq!(part2(&c, 1000, 200), Some(29 * 172));
    assert_eq!(part2(&c, 1000, 14), None);
    assert_eq!(part2(&c, 1000, 3), None);
    let mut s = Solution15::new();
    assert_eq!(s.init(FIGHT, "x"), Err(Error::MalformedInput));
    assert_eq!(s.init(FIGHT, MOVES), Ok(()));
}
