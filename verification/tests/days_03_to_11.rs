use aoc::error::Error;
use aoc::solutions::solution_03::{part1 as overlap, part2 as lonely, Claim, Grid as Fabric};
use aoc::solutions::solution_05::{is_collision, part1 as react, part2 as improve, react_poly};
use aoc::solutions::solution_06::{parse_coord, part1 as largest_area, part2 as near_all, Grid as Marks, Vec2};
use aoc::solutions::solution_10::{parse_point, part1 as message_time, Point, Vec2 as Pair};
use aoc::solutions::solution_11::{build_grid, build_sum_table, calc_sum, find_max, part1 as best_three, part2 as best_any};
use aoc::util::text::{chars_of, scan_number, scan_tag};

fn claims() -> Vec<Claim> {
    ["#1 @ 1,3: 4x4", "#2 @ 3,1: 4x4", "#3 @ 5,5: 2x2"].iter().map(|s| Claim::parse(s).unwrap()).collect()
}

fn coords() -> Vec<Vec2> {
    ["1, 1", "1, 6", "8, 3", "3, 4", "5, 5", "8, 9"].iter().map(|s| parse_coord(s).unwrap()).collect()
}

#[test]
fn claims_are_read() {
    assert_eq!(
        Claim::parse("#123 @ 3,2: 5x4"),
        Ok(Claim { id: 123, left_offset: 3, top_offset: 2, width: 5, height: 4 })
    );
    // what follows the claim is not looked at
    assert_eq!(
        Claim::parse("#1 @ 1,3: 4x4 and more"),
        Ok(Claim { id: 1, left_offset: 1, top_offset: 3, width: 4, height: 4 })
    );
    assert_eq!(Claim::parse("1 @ 1,3: 4x4"), Err(Error::MalformedInput));
    assert_eq!(Claim::parse("#1 @ 1,3: 4x"), Err(Error::MalformedInput));
    assert_eq!(Claim::parse("#1 @1,3: 4x4"), Err(Error::MalformedInput));
    assert_eq!(Claim::parse("#1 @ 1,3: 99999999999999999999x4"), Err(Error::MalformedInput));
    assert_eq!(Claim::parse(""), Err(Error::MalformedInput));
}

#[test]
fn text_is_scanned() {
    let s = chars_of("ab12cd");
    assert_eq!(scan_tag(&s, 0, "ab"), Some(2));
    assert_eq!(scan_tag(&s, 0, "ac"), None);
    assert_eq!(scan_tag(&s, 4, "cd"), Some(6));
    assert_eq!(scan_tag(&s, 5, "cd"), None);
    assert_eq!(scan_tag(&s, 6, ""), Some(6));
    assert_eq!(scan_tag(&s, 7, ""), None);
    assert_eq!(scan_number(&s, 2), Some((12, 4)));
    assert_eq!(scan_number(&s, 3), Some((2, 4)));
    assert_eq!(scan_number(&s, 0), None);
    assert_eq!(scan_number(&s, 6), None);
    assert_eq!(scan_number(&chars_of("18446744073709551615"), 0), Some((u64::MAX, 20)));
    assert_eq!(scan_number(&chars_of("18446744073709551616"), 0), None);
}

#[test]
fn fabric_claimed_twice() {
    let all = claims();
    let mut grid = Fabric::new(8, 8);
    for c in all.iter() {
        grid.set_claim(c);
    }
    assert_eq!(grid.get(0, 0), 0);
    assert_eq!(grid.get(1, 3), 1);
    assert_eq!(grid.get(3, 3), 2);
    assert_eq!(grid.get(4, 4), 2);
    assert_eq!(grid.get(5, 5), 1);
    assert_eq!(grid.get(6, 1), 1);
    assert_eq!(grid.crossovers(), 4);
    assert_eq!(overlap(&grid), 4);
    assert!(!grid.is_single_crossover_claim(&all[0]));
    assert!(!grid.is_single_crossover_claim(&all[1]));
    assert!(grid.is_single_crossover_claim(&all[2]));
    assert_eq!(lonely(&all, &grid), Some(3));
    assert_eq!(lonely(&all[..2], &grid), None);
    grid.set(5, 5);
    assert_eq!(grid.get(5, 5), 2);
    assert_eq!(lonely(&all, &grid), None);
    // a fabric that is wider than high
    let mut wide = Fabric::new(5, 2);
    wide.set(4, 0);
    wide.set(2, 1);
    assert_eq!(wide.get(4, 0), 1);
    assert_eq!(wide.get(2, 1), 1);
    assert_eq!(wide.crossovers(), 0);
}

#[test]
fn units_of_a_polymer_react() {
    assert!(is_collision(b'a', b'A'));
    assert!(is_collision(b'A', b'a'));
    assert!(!is_collision(b'a', b'a'));
    assert!(!is_collision(b'A', b'A'));
    assert!(!is_collision(b'a', b'B'));
    assert!(!is_collision(b'@', b'`'));
    assert!(!is_collision(b'[', b'{'));
    for a in 0..=255u8 {
        for b in 0..=255u8 {
            let want = a.is_ascii_lowercase() != b.is_ascii_lowercase()
                && a.to_ascii_uppercase() == b.to_ascii_uppercase();
            assert_eq!(is_collision(a, b), want, "{} {}", a, b);
        }
    }
    assert_eq!(react_poly(b"aA"), 0);
    assert_eq!(react_poly(b"abBA"), 0);
    assert_eq!(react_poly(b"abAB"), 4);
    assert_eq!(react_poly(b"aabAAB"), 6);
    assert_eq!(react_poly(b""), 0);
    assert_eq!(react(b"dabAcCaCBAcCcaDA"), 10);
    assert_eq!(improve(b"dabAcCaCBAcCcaDA"), 4);
    assert_eq!(improve(b""), 0);
    assert_eq!(improve(b"aAbB"), 0);
    assert_eq!(improve(b"abab"), 2);
}

#[test]
fn coordinates_are_read() {
    assert_eq!(parse_coord("1, 6"), Ok(Vec2 { x: 1, y: 6 }));
    assert_eq!(parse_coord("+1, 06"), Ok(Vec2 { x: 1, y: 6 }));
    assert_eq!(parse_coord("1,6"), Err(Error::MalformedInput));
    assert_eq!(parse_coord("1, 6 "), Err(Error::MalformedInput));
    assert_eq!(parse_coord("1, 2, 3"), Err(Error::MalformedInput));
    assert_eq!(parse_coord(", "), Err(Error::MalformedInput));
    assert_eq!(parse_coord(""), Err(Error::MalformedInput));
    let a = Vec2 { x: 1, y: 6 };
    let b = Vec2 { x: 8, y: 3 };
    assert_eq!(a.dist(&b), 10);
    assert_eq!(b.dist(&a), 10);
    assert_eq!(a.dist(&a), 0);
    assert_eq!(Vec2 { x: 4, y: 3 }.sum_dist(&coords()), 30);
    assert_eq!(Vec2 { x: 0, y: 0 }.sum_dist(&[]), 0);
}

#[test]
fn areas_of_the_closest_places() {
    let all = coords();
    let grid = Marks::from_coords(&all).unwrap();
    assert_eq!(grid.get(Vec2 { x: 0, y: 0 }), 1);
    assert_eq!(grid.get(Vec2 { x: 1, y: 1 }), 1);
    assert_eq!(grid.get(Vec2 { x: 5, y: 0 }), 0);
    assert_eq!(grid.get(Vec2 { x: 3, y: 4 }), 4);
    assert_eq!(grid.get(Vec2 { x: 5, y: 5 }), 5);
    assert_eq!(grid.get(Vec2 { x: 9, y: 10 }), 6);
    assert_eq!(Marks::nearest(&all, Vec2 { x: 5, y: 1 }), 0);
    assert_eq!(Marks::nearest(&all, Vec2 { x: 4, y: 1 }), 1);
    assert_eq!(Marks::nearest(&[], Vec2 { x: 4, y: 1 }), 0);
    assert_eq!(grid.count_coords(4), 9);
    assert_eq!(grid.count_coords(5), 17);
    assert_eq!(grid.finite_coords(6), vec![false, false, false, false, true, true, false]);
    assert_eq!(largest_area(&all), Some(17));
    assert_eq!(largest_area(&[]), None);
    assert_eq!(near_all(&all, 32), Some(16));
    assert_eq!(near_all(&all, 0), Some(0));
    assert_eq!(near_all(&[], 32), None);
    let sums = Marks::from_coords_sum(&all).unwrap();
    assert_eq!(sums.get(Vec2 { x: 4, y: 3 }), 30);
    assert_eq!(sums.count_below(32), 16);
    let mut small = Marks::new(2, 3);
    small.set(Vec2 { x: 2, y: 1 }, 7);
    assert_eq!(small.get(Vec2 { x: 2, y: 1 }), 7);
    assert_eq!(small.count_coords(0), 5);
}

#[test]
fn points_are_read_and_move() {
    let mut p = parse_point("position=< 9,  1> velocity=< 0,  2>").unwrap();
    assert_eq!(p, Point { pos: Pair { x: 9, y: 1 }, velocity: Pair { x: 0, y: 2 } });
    assert_eq!(
        parse_point("position=<-3, 11> velocity=< 1, -2>"),
        Ok(Point { pos: Pair { x: -3, y: 11 }, velocity: Pair { x: 1, y: -2 } })
    );
    assert_eq!(parse_point("position=<-3, 11>"), Err(Error::MalformedInput));
    assert_eq!(parse_point(""), Err(Error::MalformedInput));
    p.update(3);
    assert_eq!(p.pos, Pair { x: 9, y: 7 });
    p.update(0);
    assert_eq!(p.pos, Pair { x: 9, y: 7 });
    let q = Point { pos: Pair { x: 10, y: 6 }, velocity: Pair { x: 0, y: 0 } };
    assert!(p.is_neighbor(&q));
    assert!(p.is_neighbor(&p));
    assert!(!p.is_neighbor(&Point { pos: Pair { x: 11, y: 7 }, velocity: Pair { x: 0, y: 0 } }));
    let far = Point { pos: Pair { x: isize::MAX, y: isize::MIN }, velocity: Pair { x: 0, y: 0 } };
    let other = Point { pos: Pair { x: isize::MIN, y: isize::MAX }, velocity: Pair { x: 0, y: 0 } };
    assert!(!far.is_neighbor(&other));
}

#[test]
fn points_gather_for_a_moment() {
    // two points that are a hundred apart and close in by ten a second
    let points = [
        Point { pos: Pair { x: 0, y: 0 }, velocity: Pair { x: 5, y: 0 } },
        Point { pos: Pair { x: 100, y: 0 }, velocity: Pair { x: -5, y: 0 } },
    ];
    // the box is 101 - 10 t wide: less than 65 from the fourth second on
    assert_eq!(message_time(&points, 100), Some(4));
    assert_eq!(message_time(&points, 3), None);
    assert_eq!(message_time(&points, 0), None);
    assert_eq!(message_time(&[], 100), None);
    // points that fly apart never gather
    let apart = [
        Point { pos: Pair { x: 0, y: 0 }, velocity: Pair { x: -5, y: 0 } },
        Point { pos: Pair { x: 100, y: 0 }, velocity: Pair { x: 5, y: 0 } },
    ];
    assert_eq!(message_time(&apart, 1000), None);
    assert_eq!(message_time(&points[..1], 1000), Some(1));
}

#[test]
fn power_levels_of_fuel_cells() {
    assert_eq!(build_grid(8).get(3, 5), 4);
    assert_eq!(build_grid(57).get(122, 79), -5);
    assert_eq!(build_grid(39).get(217, 196), 0);
    assert_eq!(build_grid(71).get(101, 153), 4);
    assert_eq!(build_grid(usize::MAX).get(300, 300), build_grid(usize::MAX).get(300, 300));
}

#[test]
fn squares_with_the_most_power() {
    let table = build_sum_table(&build_grid(18));
    // the square of three by three cells from (33, 45) ends at (35, 47)
    assert_eq!(calc_sum(&table, 35, 47, 3), 29);
    assert_eq!(calc_sum(&table, 33, 45, 1), 4);
    assert_eq!(calc_sum(&table, 300, 300, 0), 0);
    assert_eq!(find_max(&table, 3), (33, 45, 29));
    assert_eq!(find_max(&table, 16), (90, 269, 113));
    assert_eq!(best_three(18), (33, 45));
    assert_eq!(best_three(42), (21, 61));
}

#[test]
fn squares_of_any_size() {
    assert_eq!(best_any(18), (90, 269, 16));
}

#[test]
fn fabric_just_large_enough_for_the_claims() {
    let all = claims();
    let fabric = Fabric::from_claims(&all).unwrap();
    assert_eq!(overlap(&fabric), 4);
    assert_eq!(lonely(&all, &fabric), Some(3));
    assert_eq!(fabric.get(0, 0), 0);
    assert_eq!(fabric.get(1, 3), 1);
    assert_eq!(fabric.get(3, 3), 2);
    assert_eq!(fabric.get(4, 4), 2);
    assert_eq!(fabric.get(6, 6), 1);
    assert_eq!(fabric.get(6, 1), 1);
    assert_eq!(fabric.get(0, 6), 0);
    assert!(Fabric::from_claims(&[]).is_none());
    let wide = Claim { id: 1, left_offset: usize::MAX, top_offset: 0, width: 1, height: 1 };
    assert!(Fabric::from_claims(&[wide]).is_none());
    let large = Claim { id: 1, left_offset: 0, top_offset: 0, width: usize::MAX, height: 2 };
    assert!(Fabric::from_claims(&[large]).is_none());
    let twice = Claim { id: 9, left_offset: 2, top_offset: 0, width: 1, height: 2 };
    let fabric = Fabric::from_claims(&[twice, twice, twice]).unwrap();
    assert_eq!(fabric.get(2, 1), 3);
    assert_eq!(fabric.get(1, 1), 0);
    assert_eq!(overlap(&fabric), 2);
}

#[test]
fn claims_with_numbers_too_great_are_refused() {
    assert_eq!(Claim::parse("#1 @ 1,3: 4x99999999999999999999"), Err(Error::MalformedInput));
    assert_eq!(Claim::parse("#1 @ 1,3: 4x"), Err(Error::MalformedInput));
}

#[test]
fn picture_of_the_points() {
    let point = |x: isize, y: isize, vx: isize, vy: isize| Point {
        pos: Pair { x, y },
        velocity: Pair { x: vx, y: vy },
    };
    // After two seconds the points lie at (3, -1), (5, -1), (4, 0) and (3, 1).
    let points = vec![point(1, -3, 1, 1), point(9, -1, -2, 0), point(4, 4, 0, -2), point(3, 1, 0, 0)];
    let p = aoc::solutions::solution_10::picture(&points, 2).unwrap();
    assert_eq!((p.w, p.h), (3, 3));
    assert_eq!(p.cells, vec![true, false, true, false, true, false, true, false, false]);
    let one = aoc::solutions::solution_10::picture(&points[..1], 7).unwrap();
    assert_eq!((one.w, one.h, one.cells), (1, 1, vec![true]));
    assert!(aoc::solutions::solution_10::picture(&[], 0).is_none());
    let far = vec![point(0, 0, 0, 0), point(64, 0, 0, 0)];
    assert!(aoc::solutions::solution_10::picture(&far, 0).is_none());
    let near = vec![point(0, 0, 0, 0), point(63, 0, 0, 0)];
    assert_eq!(aoc::solutions::solution_10::picture(&near, 0).map(|p| (p.w, p.h)), Some((64, 1)));
}
