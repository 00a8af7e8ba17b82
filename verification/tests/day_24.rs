use aoc::error::Error;
use aoc::solutions::solution_24::{part1, part2, simulate_combat, Data, Group, Solution24};

const ARMIES: &str = "Immune System:\n17 units each with 5390 hit points (weak to radiation, bludgeoning) with an attack that does 4507 fire damage at initiative 2\n989 units each with 1274 hit points (immune to fire; weak to bludgeoning, slashing) with an attack that does 25 slashing damage at initiative 3\n\nInfection:\n801 units each with 4706 hit points (weak to radiation) with an attack that does 116 bludgeoning damage at initiative 1\n4485 units each with 2961 hit points (immune to radiation; weak to fire, cold) with an attack that does 12 slashing damage at initiative 4\n";

fn group(units: usize, hp: usize, atk_damage: usize, atk_type: &str, weak: &[&str], immune: &[&str]) -> Group {
    Group {
        units,
        hp,
        atk_damage,
        atk_type: atk_type.to_string(),
        initiative: 1,
        weakness: weak.iter().map(|s| s.to_string()).collect(),
        immunities: immune.iter().map(|s| s.to_string()).collect(),
    }
}

#[test]
fn groups_are_read() {
    let g = Group::parse("989 units each with 1274 hit points (immune to fire; weak to bludgeoning, slashing) with an attack that does 25 slashing damage at initiative 3").unwrap();
    assert_eq!(g.units, 989);
    assert_eq!(g.hp, 1274);
    assert_eq!(g.atk_damage, 25);
    assert_eq!(g.atk_type, "slashing");
    assert_eq!(g.initiative, 3);
    assert_eq!(g.weakness, vec!["bludgeoning", "slashing"]);
    assert_eq!(g.immunities, vec!["fire"]);
    let plain = Group::parse("5 units each with 10 hit points with an attack that does 1 cold damage at initiative 7").unwrap();
    assert!(plain.weakness.is_empty());
    assert!(plain.immunities.is_empty());
    assert_eq!(plain.initiative, 7);
    assert_eq!(Group::parse("5 units").err(), Some(Error::MalformedInput));
    assert_eq!(
        Group::parse("99999999999999999999999 units each with 10 hit points with an attack that does 1 cold damage at initiative 7").err(),
        Some(Error::MalformedInput)
    );
}

#[test]
fn damage_by_type() {
    let target = group(10, 10, 1, "cold", &["fire"], &["cold", "slashing"]);
    assert_eq!(target.type_factor("fire"), 2);
    assert_eq!(target.type_factor("cold"), 0);
    assert_eq!(target.type_factor("slashing"), 0);
    assert_eq!(target.type_factor("radiation"), 1);
    assert_eq!(target.possible_damage(7, "fire"), 14);
    assert_eq!(target.possible_damage(7, "cold"), 0);
    assert_eq!(target.possible_damage(7, "radiation"), 7);
    assert!(!target.is_dead());
    assert!(group(0, 10, 1, "cold", &[], &[]).is_dead());
    assert_eq!(group(3, 10, 25, "cold", &[], &[]).effective_power(), 75);
}

#[test]
fn attacks_destroy_whole_units() {
    let target = group(10, 10, 1, "cold", &["fire"], &["cold"]);
    // 3 * 25 = 75 damage kill seven units of ten hit points
    assert_eq!(group(3, 1, 25, "radiation", &[], &[]).attack(&target), 7);
    // double damage would kill fifteen, but there are only ten
    assert_eq!(group(3, 1, 25, "fire", &[], &[]).attack(&target), 10);
    assert_eq!(group(1, 1, 27, "fire", &[], &[]).attack(&target), 5);
    assert_eq!(group(3, 1, 25, "cold", &[], &[]).attack(&target), 0);
    assert_eq!(group(0, 1, 25, "fire", &[], &[]).attack(&target), 0);
    assert_eq!(group(1, 1, 9, "radiation", &[], &[]).attack(&target), 0);
    // the largest groups do not overflow
    let huge = group(usize::MAX, 1, usize::MAX, "fire", &[], &[]);
    assert_eq!(huge.attack(&target), 10);
    let tough = group(usize::MAX, usize::MAX, 1, "x", &["fire"], &[]);
    assert_eq!(huge.attack(&tough), usize::MAX);
}

#[test]
fn armies_are_read() {
    let d = Data::parse(ARMIES).unwrap();
    assert_eq!(d.immune_system.len(), 2);
    assert_eq!(d.infection.len(), 2);
    assert_eq!(d.infection[1].units, 4485);
    assert_eq!(d.infection[1].weakness, vec!["fire", "cold"]);
    assert_eq!(Data::parse("Infection:\n").err(), Some(Error::MalformedInput));
    assert_eq!(Data::parse("Immune System:\nnonsense\n").err(), Some(Error::MalformedInput));
    let empty = Data::parse("").unwrap();
    assert!(empty.immune_system.is_empty());
    let mut s = Solution24::new();
    assert_eq!(s.init(ARMIES, "x"), Err(Error::MalformedInput));
    assert_eq!(s.init(ARMIES, ARMIES), Ok(()));
    assert_eq!(s.sample.immune_system.len(), 2);
}

#[test]
fn the_infection_wins_the_example() {
    let d = Data::parse(ARMIES).unwrap();
    assert_eq!(simulate_combat(&d, 0), (true, false, 5216));
    assert_eq!(part1(&d), 5216);
}

#[test]
fn a_boost_lets_the_immune_system_win() {
    let d = Data::parse(ARMIES).unwrap();
    assert_eq!(simulate_combat(&d, 1570), (true, true, 51));
    assert_eq!(simulate_combat(&d, 1569).1, false);
    assert_eq!(part2(&d), Some(51));
}

#[test]
fn fights_without_a_winner() {
    // each side is immune to what the other deals
    let d = Data {
        immune_system: vec![group(5, 10, 3, "fire", &[], &["cold"])],
        infection: vec![group(5, 10, 3, "cold", &[], &["fire"])],
    };
    assert_eq!(simulate_combat(&d, 0), (false, false, 0));
    assert_eq!(simulate_combat(&d, 1000), (false, false, 0));
    assert_eq!(part2(&d), None);
    // one side alone has won at once
    let alone = Data { immune_system: vec![group(5, 10, 3, "fire", &[], &[])], infection: vec![] };
    assert_eq!(simulate_combat(&alone, 0), (true, true, 5));
    let none = Data { immune_system: vec![], infection: vec![] };
    assert_eq!(simulate_combat(&none, 0), (true, false, 0));
    // hit points of zero are no group to fight with
    let broken = Data { immune_system: vec![group(5, 0, 3, "fire", &[], &[])], infection: vec![] };
    assert_eq!(simulate_combat(&broken, 0), (false, false, 0));
}
