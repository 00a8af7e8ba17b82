use aoc::error::Error;
use aoc::solutions::solution_18::{
    extrapolate_values, part1 as value_after_ten, part2 as value_far_ahead, Data as Area,
    Solution18, Tile,
};
use aoc::solutions::solution_22::{
    part1 as risk, Data as Cave, Equipment, Region, RegionKind, Solution22,
};
use aoc::solutions::solution_23::{part1 as in_range, Data as Swarm, NanoBot, Solution23};
use aoc::util::mat2::Pos;

const AREA: &str = ".#.#...|#.\n.....#|##|\n.|..|...#.\n..|#.....#\n#.#|||#|#|\n...#.||...\n.|....|...\n||...#|.#|\n|.||||..|.\n...#.|..|.\n";

#[test]
fn tiles_and_characters() {
    assert_eq!(Tile::from_char('#'), Ok(Tile::Lumberyard));
    assert_eq!(Tile::from_char('|'), Ok(Tile::Tree));
    assert_eq!(Tile::from_char('.'), Ok(Tile::OpenGround));
    assert_eq!(Tile::from_char('x'), Err(Error::MalformedInput));
    for t in [Tile::Lumberyard, Tile::Tree, Tile::OpenGround] {
        assert_eq!(Tile::from_char(t.to_char()), Ok(t));
    }
    assert_eq!(Tile::default(), Tile::OpenGround);
}

#[test]
fn area_after_ten_minutes() {
    let area: Area = AREA.parse().unwrap();
    assert_eq!(area.count_resources(), (27, 17, 56));
    assert_eq!(value_after_ten(&area), 37 * 31);
    // the area itself is left alone
    assert_eq!(area.count_resources(), (27, 17, 56));
}

#[test]
fn area_after_one_minute() {
    let mut area: Area = AREA.parse().unwrap();
    area.update();
    let mut text = String::new();
    for y in 0..10 {
        for x in 0..10 {
            text.push(area.get(Pos::new(x, y)).unwrap().to_char());
        }
        text.push('\n');
    }
    assert_eq!(
        text,
        ".......##.\n......|###\n.|..|...#.\n..|#||...#\n..##||.|#|\n...#||||..\n||...|||..\n|||||.||.|\n||||||||||\n....||..|.\n"
    );
    assert_eq!(area.get(Pos::new(10, 0)), None);
    assert_eq!(area.count_adjacent(Pos::new(0, 0)), (0, 0, 3));
    assert_eq!(area.count_adjacent(Pos::new(8, 0)), (0, 4, 1));
    assert_eq!(area.count_adjacent(Pos::new(5, 4)), (6, 0, 2));
    area.update_mins(9);
    assert_eq!(area.resource_value(), 1147);
}

#[test]
fn rules_of_change() {
    // an open acre with three trees around it becomes trees
    let mut a: Area = "|||\n...\n...\n".parse().unwrap();
    a.update();
    assert_eq!(a.get(Pos::new(1, 1)), Some(Tile::Tree));
    assert_eq!(a.get(Pos::new(1, 2)), Some(Tile::OpenGround));
    // trees with three lumberyards around them become a lumberyard
    let mut a: Area = "###\n.|.\n...\n".parse().unwrap();
    a.update();
    assert_eq!(a.get(Pos::new(1, 1)), Some(Tile::Lumberyard));
    // a lumberyard stays with a lumberyard and trees around it, else it goes
    let mut a: Area = "#|.\n.#.\n...\n".parse().unwrap();
    a.update();
    assert_eq!(a.get(Pos::new(1, 1)), Some(Tile::Lumberyard));
    assert_eq!(a.get(Pos::new(0, 0)), Some(Tile::Lumberyard));
    let mut a: Area = "#..\n.#.\n...\n".parse().unwrap();
    a.update();
    assert_eq!(a.get(Pos::new(1, 1)), Some(Tile::OpenGround));
}

#[test]
fn area_text() {
    assert_eq!("".parse::<Area>().err(), Some(Error::MalformedInput));
    assert_eq!("#|x\n".parse::<Area>().err(), Some(Error::MalformedInput));
    // short lines are filled up with open ground
    let a: Area = "#\n.|#\n".parse().unwrap();
    assert_eq!(a.get(Pos::new(0, 0)), Some(Tile::Lumberyard));
    assert_eq!(a.get(Pos::new(2, 0)), Some(Tile::OpenGround));
    assert_eq!(a.get(Pos::new(2, 1)), Some(Tile::Lumberyard));
    assert_eq!(a.count_resources(), (1, 2, 3));
    let mut b = Area::new(2, 2);
    assert_eq!(b.count_resources(), (0, 0, 4));
    b.set(Pos::new(1, 1), Tile::Tree);
    assert_eq!(b.duplicate().count_resources(), (1, 0, 3));
    let mut s = Solution18::new();
    assert_eq!(s.init(AREA, "x"), Err(Error::MalformedInput));
    assert_eq!(s.init(AREA, AREA), Ok(()));
}

#[test]
fn extrapolation_by_the_last_period() {
    // the last value 7 stood three places before: period three
    let v = vec![1, 2, 9, 7, 8, 9, 7];
    assert_eq!(extrapolate_values(&v, 7), Some(7));
    assert_eq!(extrapolate_values(&v, 8), Some(9));
    assert_eq!(extrapolate_values(&v, 9), Some(8));
    assert_eq!(extrapolate_values(&v, 10), Some(7));
    assert_eq!(extrapolate_values(&vec![1, 2, 3], 10), None);
    assert_eq!(extrapolate_values(&vec![4], 10), None);
    // a dead area has the value zero for ever
    let a: Area = "...\n...\n".parse().unwrap();
    assert_eq!(value_far_ahead(&a), Some(0));
}

#[test]
fn regions_and_equipment() {
    let rocky = Region { geo_index: 0, depth: 510 };
    assert_eq!(rocky.erosion_level(), 510);
    assert_eq!(rocky.kind(), RegionKind::Rocky);
    assert_eq!(rocky.risk_level(), 0);
    let wet = Region { geo_index: 16807, depth: 510 };
    assert_eq!(wet.erosion_level(), 17317);
    assert_eq!(wet.kind(), RegionKind::Wet);
    assert_eq!(wet.risk_level(), 1);
    let narrow = Region { geo_index: 145722555, depth: 510 };
    assert_eq!(narrow.erosion_level(), 1805);
    assert_eq!(narrow.kind(), RegionKind::Narrow);
    assert_eq!(narrow.risk_level(), 2);
    assert_eq!(Region { geo_index: usize::MAX, depth: usize::MAX }.erosion_level() < 20183, true);

    assert!(!rocky.can_enter(Equipment::Neither));
    assert!(rocky.can_enter(Equipment::Torch));
    assert!(rocky.can_enter(Equipment::ClimbingGear));
    assert!(!wet.can_enter(Equipment::Torch));
    assert!(!narrow.can_enter(Equipment::ClimbingGear));
    assert_eq!(rocky.swap_equipment(Equipment::Torch), Some(Equipment::ClimbingGear));
    assert_eq!(rocky.swap_equipment(Equipment::ClimbingGear), Some(Equipment::Torch));
    assert_eq!(rocky.swap_equipment(Equipment::Neither), None);
    assert_eq!(wet.swap_equipment(Equipment::Neither), Some(Equipment::ClimbingGear));
    assert_eq!(wet.swap_equipment(Equipment::Torch), None);
    assert_eq!(narrow.swap_equipment(Equipment::Neither), Some(Equipment::Torch));
    assert_eq!(narrow.swap_equipment(Equipment::ClimbingGear), None);
    assert_eq!(RegionKind::default(), RegionKind::Rocky);
    assert_eq!(Region::default(), Region { geo_index: 0, depth: 0 });
}

#[test]
fn cave_of_the_example() {
    let cave = Cave { depth: 510, target: Pos::new(10, 10) };
    let grid = cave.build_grid(1);
    assert_eq!(grid.height(), 11);
    assert_eq!(grid.width(), 11);
    assert_eq!(grid.get(Pos::new(0, 0)).unwrap().geo_index, 0);
    assert_eq!(grid.get(Pos::new(1, 0)).unwrap().erosion_level(), 17317);
    assert_eq!(grid.get(Pos::new(0, 1)).unwrap().erosion_level(), 8415);
    assert_eq!(grid.get(Pos::new(1, 1)).unwrap().geo_index, 145722555);
    assert_eq!(grid.get(Pos::new(1, 1)).unwrap().erosion_level(), 1805);
    assert_eq!(grid.get(Pos::new(10, 10)).unwrap().geo_index, 0);
    assert_eq!(grid.get(Pos::new(10, 10)).unwrap().erosion_level(), 510);
    assert_eq!(risk(&cave), 114);
    assert_eq!(cave.build_grid(2).width(), 22);
    let s = Solution22::new();
    assert_eq!(s.sample, cave);
    assert_eq!(s.data.depth, 4002);
}

#[test]
fn nanobots_in_range_of_the_strongest() {
    let text = "pos=<0,0,0>, r=4\npos=<1,0,0>, r=1\npos=<4,0,0>, r=3\npos=<0,2,0>, r=1\npos=<0,5,0>, r=3\npos=<0,0,3>, r=1\npos=<1,1,1>, r=1\npos=<1,1,2>, r=1\npos=<1,3,1>, r=1\n";
    let swarm = Swarm::parse(text).unwrap();
    assert_eq!(in_range(&swarm), Some(7));
    assert_eq!(in_range(&Swarm::new(vec![])), None);
    let mut s = Solution23::new();
    assert_eq!(s.part1(), (None, None));
    assert_eq!(s.init(text, "pos=<1,-2,3>, r=0\n"), Ok(()));
    assert_eq!(s.part1(), (Some(1), Some(7)));
    assert_eq!(s.init(text, "pos=<1,-2,3>\n"), Err(Error::MalformedInput));
}

#[test]
fn nanobot_distances() {
    let a = NanoBot::new(1, -2, 3, 6);
    let b = NanoBot::new(-1, 0, 0, 0);
    assert_eq!(a.dist(&b), 7);
    assert_eq!(b.dist(&a), 7);
    assert_eq!(a.dist(&a), 0);
    assert!(!a.is_in_range(&b));
    assert!(NanoBot::new(1, -2, 3, 7).is_in_range(&b));
    // the far corners of space are out of reach, and nothing overflows
    let far = NanoBot::new(i64::MAX, i64::MAX, i64::MAX, usize::MAX);
    let near = NanoBot::new(i64::MIN, i64::MIN, i64::MIN, 0);
    assert!(!far.is_in_range(&near));
    assert!(far.is_in_range(&far));
    // of two with the widest signal the later one counts
    let swarm = Swarm::new(vec![NanoBot::new(0, 0, 0, 5), NanoBot::new(100, 0, 0, 5)]);
    assert_eq!(in_range(&swarm), Some(1));
    let swarm = Swarm::new(vec![NanoBot::new(0, 0, 0, 5), NanoBot::new(3, 0, 0, 5), NanoBot::new(9, 0, 0, 1)]);
    assert_eq!(in_range(&swarm), Some(2));
}

#[test]
fn nanobot_lines() {
    assert_eq!(NanoBot::parse("pos=<1,-2,3>, r=4"), Ok(NanoBot::new(1, -2, 3, 4)));
    assert_eq!(NanoBot::parse("pos=<1,-2,3>, r=-4"), Err(Error::MalformedInput));
    assert_eq!(NanoBot::parse("pos=<1,,3>, r=4"), Err(Error::MalformedInput));
    assert_eq!(NanoBot::parse("pos=<1,2,3>,r=4"), Err(Error::MalformedInput));
    assert_eq!(NanoBot::parse(""), Err(Error::MalformedInput));
    assert_eq!(NanoBot::from_groups(&None), Err(Error::MalformedInput));
    assert_eq!(Swarm::parse("").map(|d| in_range(&d)), Ok(None));
}

#[test]
fn solver_script_has_a_line_for_each_nanobot() {
    let swarm = Swarm::new(vec![NanoBot::new(10, -12, 0, 2), NanoBot::new(i64::MIN, i64::MAX, 7, 0)]);
    let script = aoc::solutions::solution_23::part2(&swarm, "(head)\n+++\n(tail)\n");
    assert_eq!(
        script.as_deref(),
        Some(
            "(head)\n(if (<= (dist x 10 y -12 z 0) 2) 1 0)\n(if (<= (dist x -9223372036854775808 y 9223372036854775807 z 7) 0) 1 0)\n(tail)\n"
        )
    );
    assert_eq!(NanoBot::new(-1, 2, -3, 40).line(), "(if (<= (dist x -1 y 2 z -3) 40) 1 0)\n");
}

#[test]
fn solver_script_takes_the_first_mark() {
    let none = Swarm::new(Vec::new());
    let script = |t: &str| aoc::solutions::solution_23::part2(&none, t);
    assert_eq!(script("a+++\nb+++c").as_deref(), Some("ab+++c"));
    assert_eq!(script("++++++").as_deref(), Some("++"));
    assert_eq!(script("+++x").as_deref(), Some(""));
    assert_eq!(script("a++b+++\n"), Some("a++b".to_string()));
    assert_eq!(script("no mark"), None);
    assert_eq!(script("ends with +++"), None);
    assert_eq!(script(""), None);
}
