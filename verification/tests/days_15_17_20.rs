use aoc::error::Error;
use aoc::solutions::solution_15::{Cave, Grid as Square, GridKind, Unit, UnitKind};
use aoc::solutions::solution_17::{ClaySquare, Data as Ground, Direction as Flow, TileKind as Soil};
use aoc::solutions::solution_20::{Direction, TileKind};
use aoc::util::mat2::{Mat2, Pos};

#[test]
fn units_of_both_sides() {
    let g = Unit::from_char('G', 7).unwrap();
    assert_eq!(g, Unit { kind: UnitKind::Goblin, hp: 200, atk: 3, id: 7 });
    let e = Unit::from_char('E', 18).unwrap();
    assert_eq!(e.kind, UnitKind::Elf);
    assert_eq!(Unit::from_char('.', 0), Err(Error::MalformedInput));
    assert!(g.can_attack(&e));
    assert!(!g.can_attack(&g));
    assert_eq!(g.opponent_kind(), UnitKind::Elf);
    assert_eq!(e.opponent_kind(), UnitKind::Goblin);
    assert_eq!(g.to_char(), 'H');
    assert_eq!(e.to_char(), '2');
}

#[test]
fn units_take_damage() {
    let mut u = Unit::from_char('E', 1).unwrap();
    assert!(!u.damage(3));
    assert_eq!(u.hp, 197);
    assert!(!u.damage(196));
    assert_eq!(u.hp, 1);
    assert!(u.damage(3));
    assert_eq!(u.hp, 0);
    assert!(u.damage(0));
    let mut v = Unit::from_char('G', 1).unwrap();
    assert!(v.damage(u64::MAX));
    assert_eq!(v.hp, 0);
}

#[test]
fn squares_of_the_cave() {
    assert_eq!(Square::from_char('.', 1), Ok(Square { unit: None, kind: GridKind::Open }));
    assert_eq!(Square::from_char('#', 1), Ok(Square { unit: None, kind: GridKind::Wall }));
    let g = Square::from_char('G', 3).unwrap();
    assert_eq!(g.unit.unwrap().id, 3);
    assert_eq!(g.kind, GridKind::Open);
    assert_eq!(Square::from_char('x', 1), Err(Error::MalformedInput));
    assert!(g.is_blocked());
    assert!(Square::default().is_blocked());
    assert!(!Square::from_char('.', 1).unwrap().is_blocked());
    assert_eq!(g.to_char(), 'D');
    assert_eq!(Square::default().to_char(), '#');
    assert_eq!(Square::from_char('.', 1).unwrap().to_char(), '.');
}

#[test]
fn units_in_a_cave() {
    let mut cave = Cave::new(2, 3);
    assert_eq!(cave.get(Pos::new(0, 0)), Some(Square::default()));
    assert_eq!(cave.get(Pos::new(3, 0)), None);
    assert_eq!(cave.winner(), Some(UnitKind::Goblin));
    for x in 0..3 {
        cave.set(Pos::new(x, 0), Square::from_char('.', 0).unwrap());
    }
    cave.set(Pos::new(0, 0), Square::from_char('E', 1).unwrap());
    cave.set(Pos::new(2, 0), Square::from_char('G', 2).unwrap());
    assert_eq!(cave.elfs(), 1);
    assert_eq!(cave.hp_sum(), 400);
    assert_eq!(cave.winner(), None);
    assert!(!cave.is_done());

    cave.move_unit(Pos::new(0, 0), Pos::new(1, 0));
    assert_eq!(cave.get(Pos::new(0, 0)).unwrap().unit, None);
    assert_eq!(cave.get(Pos::new(1, 0)).unwrap().unit.unwrap().id, 1);
    // nothing to move
    cave.move_unit(Pos::new(0, 0), Pos::new(0, 1));
    assert_eq!(cave.get(Pos::new(0, 1)), Some(Square::default()));

    cave.attack(Pos::new(1, 0), Pos::new(2, 0));
    assert_eq!(cave.get(Pos::new(2, 0)).unwrap().unit.unwrap().hp, 197);
    assert_eq!(cave.hp_sum(), 397);
    cave.upgrade_elf_weapons(200);
    assert_eq!(cave.get(Pos::new(1, 0)).unwrap().unit.unwrap().atk, 200);
    assert_eq!(cave.get(Pos::new(2, 0)).unwrap().unit.unwrap().atk, 3);
    cave.attack(Pos::new(1, 0), Pos::new(2, 0));
    assert_eq!(cave.get(Pos::new(2, 0)), Some(Square { unit: None, kind: GridKind::Open }));
    assert_eq!(cave.winner(), Some(UnitKind::Elf));
    assert!(cave.is_done());
    assert_eq!(cave.hp_sum(), 200);
    // no one there to hit
    cave.attack(Pos::new(1, 0), Pos::new(2, 0));
    assert_eq!(cave.hp_sum(), 200);
}

#[test]
fn map_directions_and_tiles() {
    for d in [Direction::North, Direction::East, Direction::South, Direction::West] {
        assert_eq!(Direction::from_char(d.to_char()), Ok(d));
        assert_eq!(d.is_horizontal(), !d.is_vertical());
    }
    assert_eq!(Direction::from_char('n'), Err(Error::MalformedInput));
    assert_eq!(Direction::North.offset(), (0, -1));
    assert_eq!(Direction::East.offset(), (1, 0));
    assert_eq!(Direction::South.offset(), (0, 1));
    assert_eq!(Direction::West.offset(), (-1, 0));
    assert!(Direction::East.is_horizontal());
    assert!(Direction::North.is_vertical());
    assert_eq!(Direction::North.door_kind(), TileKind::VerticalDoor);
    assert_eq!(Direction::West.door_kind(), TileKind::HorizontalDoor);
    for t in [TileKind::VerticalDoor, TileKind::HorizontalDoor, TileKind::Wall, TileKind::Room, TileKind::Cur] {
        assert_eq!(TileKind::from_char(t.to_char()), Ok(t));
    }
    assert_eq!(TileKind::from_char('-'), Ok(TileKind::VerticalDoor));
    assert_eq!(TileKind::from_char('?'), Err(Error::MalformedInput));
    assert_eq!(TileKind::default(), TileKind::Wall);
}

#[test]
fn veins_of_clay() {
    assert_eq!(
        ClaySquare::parse("x=495, y=2..7"),
        Ok(ClaySquare { x_start: 495, x_end: 495, y_start: 2, y_end: 7 })
    );
    assert_eq!(
        ClaySquare::parse("y=7, x=495..501"),
        Ok(ClaySquare { x_start: 495, x_end: 501, y_start: 7, y_end: 7 })
    );
    assert_eq!(ClaySquare::parse("z=7, x=495..501"), Err(Error::MalformedInput));
    assert_eq!(ClaySquare::parse("y=7, x=495"), Err(Error::MalformedInput));
    assert_eq!(ClaySquare::parse("y=7, x=1..99999999999999999999999"), Err(Error::MalformedInput));
    assert_eq!(ClaySquare::from_groups(&None), Err(Error::MalformedInput));
}

#[test]
fn water_and_sand() {
    assert!(Soil::FlowingWater.is_water());
    assert!(Soil::RestingWater.is_water());
    assert!(!Soil::Sand.is_water());
    assert!(Soil::Sand.is_free());
    assert!(!Soil::Clay.is_free());
    assert!(!Soil::Spring.is_free());
    assert_eq!(Soil::default(), Soil::Sand);
    assert_eq!(Soil::RestingWater.to_char(), '~');
    assert_eq!(Flow::Bottom.offset(), (0, 1));
    assert_eq!(Flow::Left.offset(), (-1, 0));
    assert_eq!(Flow::Right.offset(), (1, 0));

    // a spring over sand over clay
    let tiles = Mat2::from_vec(
        vec![Soil::Sand, Soil::Spring, Soil::Sand, Soil::Sand, Soil::Sand, Soil::Sand, Soil::Clay, Soil::Clay, Soil::Clay],
        3,
        3,
    );
    let mut ground = Ground::new(tiles, 1);
    assert_eq!(ground.water_tiles(), 0);
    assert!(ground.can_flow(Pos::new(1, 0), Flow::Bottom));
    assert!(ground.can_flow(Pos::new(1, 1), Flow::Left));
    assert!(!ground.can_flow(Pos::new(1, 1), Flow::Bottom));
    assert!(!ground.can_flow(Pos::new(0, 1), Flow::Left));
    assert!(!ground.can_flow(Pos::new(2, 1), Flow::Right));
    // out of the bottom row water always runs
    assert!(ground.can_flow(Pos::new(1, 2), Flow::Bottom));
    ground.flow(Pos::new(1, 0), Flow::Bottom);
    assert_eq!(ground.get(Pos::new(1, 1)), Some(Soil::FlowingWater));
    ground.flow(Pos::new(1, 1), Flow::Left);
    ground.flow(Pos::new(1, 2), Flow::Bottom);
    assert_eq!(ground.water_tiles(), 2);
    assert_eq!(ground.resting_water_tiles(), 0);
    assert_eq!(ground.get(Pos::new(0, 3)), None);
}
