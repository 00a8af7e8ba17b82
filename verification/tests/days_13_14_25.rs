use aoc::error::Error;
use aoc::solutions::solution_13::{
    part1 as first_crash, part2 as last_cart, Cart, Direction, Grid, Path, Solution13,
};
use aoc::solutions::solution_14::{combine, get_data, get_num, part1 as scores, part2 as search, Solution14};
use aoc::solutions::solution_25::{part1 as constellations, Data as Sky, Solution25, UnionFind, Vec4};
use aoc::util::text::split_char;

const TRACKS: &str = "/->-\\        \n|   |  /----\\\n| /-+--+-\\  |\n| | |  | v  |\n\\-+-/  \\-+--/\n  \\------/   \n";

const TRACKS_2: &str = "/>-<\\  \n|   |  \n| /<+-\\\n| | | v\n\\>+</ |\n  |   ^\n  \\<->/\n";

#[test]
fn directions_turn() {
    assert_eq!(Direction::North.left(), Direction::West);
    assert_eq!(Direction::West.left(), Direction::South);
    assert_eq!(Direction::South.left(), Direction::East);
    assert_eq!(Direction::East.left(), Direction::North);
    for d in [Direction::North, Direction::East, Direction::South, Direction::West] {
        assert_eq!(d.left().right(), d);
        assert_eq!(d.right().right(), d.left().left());
        assert_eq!(Direction::from_char(d.to_char()), Ok(d));
    }
    assert_eq!(Direction::from_char('x'), Err(Error::MalformedInput));
    assert_eq!(Direction::from_char('>'), Ok(Direction::East));
}

#[test]
fn paths_and_characters() {
    for p in [Path::VerticalRoad, Path::HorizontalRoad, Path::UpCurve, Path::DownCurve, Path::Cross] {
        assert_eq!(Path::from_char(p.to_char()), Ok(p));
    }
    assert_eq!(Path::from_char('\\'), Ok(Path::DownCurve));
    assert_eq!(Path::from_char('/'), Ok(Path::UpCurve));
    assert_eq!(Path::from_char(' '), Err(Error::MalformedInput));
    assert_eq!(Path::move_to_dir(Direction::North), ((0, -1), Direction::North));
    assert_eq!(Path::move_to_dir(Direction::West), ((-1, 0), Direction::West));
}

#[test]
fn carts_follow_the_track() {
    let start = Cart { dir: Direction::North, pos: (5, 5), cross_counter: 0, crashed: false };
    let mut c = start;
    assert_eq!(Path::VerticalRoad.move_cart(&mut c), Ok(()));
    assert_eq!(c, Cart { pos: (5, 4), ..start });
    let mut c = start;
    assert_eq!(Path::HorizontalRoad.move_cart(&mut c), Err(Error::OffTrack));
    assert_eq!(c, start);
    let mut c = start;
    assert_eq!(Path::UpCurve.move_cart(&mut c), Ok(()));
    assert_eq!(c, Cart { dir: Direction::East, pos: (6, 5), ..start });
    let mut c = start;
    assert_eq!(Path::DownCurve.move_cart(&mut c), Ok(()));
    assert_eq!(c, Cart { dir: Direction::West, pos: (4, 5), ..start });
    // at crossings: left, straight, right, and left again
    let mut c = start;
    assert_eq!(Path::Cross.move_cart(&mut c), Ok(()));
    assert_eq!(c, Cart { dir: Direction::West, pos: (4, 5), cross_counter: 1, crashed: false });
    assert_eq!(Path::Cross.move_cart(&mut c), Ok(()));
    assert_eq!(c, Cart { dir: Direction::West, pos: (3, 5), cross_counter: 2, crashed: false });
    assert_eq!(Path::Cross.move_cart(&mut c), Ok(()));
    assert_eq!(c, Cart { dir: Direction::North, pos: (3, 4), cross_counter: 0, crashed: false });
    // off the grid at the top
    let mut c = Cart { dir: Direction::North, pos: (0, 0), cross_counter: 0, crashed: false };
    assert_eq!(Path::VerticalRoad.move_cart(&mut c), Err(Error::OffTrack));
    let mut c = Cart { dir: Direction::South, pos: (0, 0), cross_counter: 7, crashed: false };
    assert_eq!(Path::Cross.move_cart(&mut c), Err(Error::OffTrack));
}

#[test]
fn first_crash_of_the_example() {
    let mut g: Grid = TRACKS.parse().unwrap();
    assert_eq!(g.cart_list().len(), 2);
    assert_eq!(g.get(2, 0), Some(Path::HorizontalRoad));
    assert_eq!(g.get(0, 0), Some(Path::UpCurve));
    assert_eq!(g.get(5, 0), None);
    assert_eq!(g.get(99, 0), None);
    assert_eq!(first_crash(&mut g, 100), Ok(Some((7, 3))));
    let mut g: Grid = TRACKS.parse().unwrap();
    assert_eq!(first_crash(&mut g, 13), Ok(None));
    let mut g: Grid = TRACKS.parse().unwrap();
    assert_eq!(g.run_till_collision(14), Ok(Some((7, 3))));
}

#[test]
fn one_tick_of_the_example() {
    let mut g: Grid = TRACKS.parse().unwrap();
    assert_eq!(g.tick(), Ok(()));
    assert_eq!(
        g.cart_list(),
        vec![
            Cart { dir: Direction::East, pos: (3, 0), cross_counter: 0, crashed: false },
            Cart { dir: Direction::South, pos: (9, 4), cross_counter: 0, crashed: false },
        ]
    );
    assert_eq!(g.tick(), Ok(()));
    assert_eq!(
        g.cart_list(),
        vec![
            Cart { dir: Direction::East, pos: (4, 0), cross_counter: 0, crashed: false },
            Cart { dir: Direction::East, pos: (10, 4), cross_counter: 1, crashed: false },
        ]
    );
}

#[test]
fn last_cart_of_the_example() {
    let mut g: Grid = TRACKS_2.parse().unwrap();
    assert_eq!(g.cart_list().len(), 9);
    assert_eq!(last_cart(&mut g, 100), Ok(Some((6, 4))));
    let mut g: Grid = TRACKS_2.parse().unwrap();
    assert_eq!(g.run_till_last_cart(2), Ok(None));
}

#[test]
fn carts_take_turns_in_reading_order() {
    // two carts face each other with one square between them: the upper
    // left one moves first and the other runs into it
    let mut g = Grid::new(1, 3);
    for x in 0..3 {
        g.set(x, 0, Some(Path::HorizontalRoad));
    }
    g.add_cart(Cart { dir: Direction::West, pos: (2, 0), cross_counter: 0, crashed: false });
    g.add_cart(Cart { dir: Direction::East, pos: (0, 0), cross_counter: 0, crashed: false });
    assert_eq!(g.tick(), Ok(()));
    assert_eq!(
        g.cart_list(),
        vec![
            Cart { dir: Direction::East, pos: (1, 0), cross_counter: 0, crashed: true },
            Cart { dir: Direction::West, pos: (1, 0), cross_counter: 0, crashed: true },
        ]
    );
    assert_eq!(g.run_till_collision(5), Ok(Some((1, 0))));
    assert_eq!(g.run_till_last_cart(5), Ok(None));
}

#[test]
fn cart_off_the_track() {
    let mut g = Grid::new(1, 2);
    g.set(0, 0, Some(Path::HorizontalRoad));
    g.add_cart(Cart { dir: Direction::East, pos: (0, 0), cross_counter: 0, crashed: false });
    assert_eq!(g.tick(), Ok(()));
    // the cart now stands where no track is
    assert_eq!(g.tick(), Err(Error::OffTrack));
    assert_eq!("".parse::<Grid>().err(), Some(Error::MalformedInput));
    assert_eq!("-x-".parse::<Grid>().err(), Some(Error::MalformedInput));
    let mut s = Solution13::new();
    assert_eq!(s.init(TRACKS, "?"), Err(Error::MalformedInput));
    assert_eq!(s.init(TRACKS, TRACKS_2), Ok(()));
}

#[test]
fn digits_and_numbers() {
    assert_eq!(get_data(37), vec![3, 7]);
    assert_eq!(get_data(0), Vec::<u8>::new());
    assert_eq!(get_data(51589), vec![5, 1, 5, 8, 9]);
    assert_eq!(get_num(&[5, 1, 5, 8, 9]), 51589);
    assert_eq!(get_num(&[0, 1, 2]), 12);
    assert_eq!(get_num(&[]), 0);
    assert_eq!(get_num(&get_data(u64::MAX)), u64::MAX);
}

#[test]
fn elves_combine_recipes() {
    let mut r = vec![3, 7];
    let (mut e1, mut e2) = (0, 1);
    combine(&mut r, &mut e1, &mut e2);
    assert_eq!((r.clone(), e1, e2), (vec![3, 7, 1, 0], 0, 1));
    combine(&mut r, &mut e1, &mut e2);
    assert_eq!((r.clone(), e1, e2), (vec![3, 7, 1, 0, 1, 0], 4, 3));
    combine(&mut r, &mut e1, &mut e2);
    assert_eq!((r.clone(), e1, e2), (vec![3, 7, 1, 0, 1, 0, 1], 6, 4));
}

#[test]
fn ten_scores_after_some() {
    assert_eq!(scores(37, 9), 5158916779);
    assert_eq!(scores(37, 5), 124515891);
    assert_eq!(scores(37, 18), 9251071085);
    assert_eq!(scores(37, 2018), 5941429882);
    assert_eq!(scores(37, 0), 3710101245);
    assert_eq!(Solution14::new().part1(9), 5158916779);
}

#[test]
fn scores_before_a_pattern() {
    assert_eq!(search(37, 51589, 1000), Some(9));
    assert_eq!(search(37, 92510, 1000), Some(18));
    assert_eq!(search(37, 59414, 10000), Some(2018));
    assert_eq!(search(37, 59414, 100), None);
    assert_eq!(search(37, 51589, 0), None);
    assert_eq!(Solution14::new().part2(51589, 1000), Some(9));
    assert_eq!(Solution14::new().data, 37);
}

#[test]
fn sets_are_joined() {
    let mut uf = UnionFind::new(5);
    assert_eq!(uf.sets(), 5);
    for i in 0..5 {
        assert_eq!(uf.find(i), i);
    }
    uf.union(0, 1);
    assert_eq!(uf.sets(), 4);
    assert_eq!(uf.find(0), uf.find(1));
    uf.union(1, 0);
    assert_eq!(uf.sets(), 4);
    uf.union(3, 4);
    uf.union(4, 1);
    assert_eq!(uf.sets(), 2);
    assert_eq!(uf.find(3), uf.find(0));
    assert_ne!(uf.find(2), uf.find(0));
    assert_eq!(uf.find_root(2), 2);
    uf.union(2, 2);
    assert_eq!(uf.sets(), 2);
    assert_eq!(UnionFind::new(0).sets(), 0);
}

#[test]
fn constellations_of_the_examples() {
    let two = "0,0,0,0\n3,0,0,0\n0,3,0,0\n0,0,3,0\n0,0,0,3\n0,0,0,6\n9,0,0,0\n12,0,0,0\n";
    assert_eq!(constellations(&Sky::parse(two).unwrap()), 2);
    let four = "-1,2,2,0\n0,0,2,-2\n0,0,0,-2\n-1,2,0,0\n-2,-2,-2,2\n3,0,2,-1\n-1,3,2,2\n-1,0,-1,0\n0,2,1,-2\n3,0,0,0\n";
    assert_eq!(constellations(&Sky::parse(four).unwrap()), 4);
    let three = "1,-1,0,1\n2,0,-1,0\n3,2,-1,0\n0,0,3,1\n0,0,-1,-1\n2,3,-2,0\n-2,2,0,0\n2,-2,0,-1\n1,-1,0,-1\n3,2,0,2\n";
    assert_eq!(constellations(&Sky::parse(three).unwrap()), 3);
    let eight = "1,-1,-1,-2\n-2,-2,0,1\n0,2,1,3\n-2,3,-2,1\n0,2,3,-2\n-1,-1,1,-2\n0,-2,-1,0\n-2,2,3,-1\n1,2,2,0\n-1,-2,0,-2\n";
    assert_eq!(constellations(&Sky::parse(eight).unwrap()), 8);
    assert_eq!(constellations(&Sky::new(vec![])), 0);
    let mut s = Solution25::new();
    assert_eq!(s.part1(), (0, 0));
    assert_eq!(s.init(two, four), Ok(()));
    assert_eq!(s.part1(), (4, 2));
    assert_eq!(s.init(two, "1,2,3"), Err(Error::MalformedInput));
}

#[test]
fn points_in_four_dimensions() {
    let a = Vec4 { w: 1, x: -1, y: 0, z: 1 };
    let b = Vec4 { w: 2, x: 0, y: -1, z: 0 };
    assert_eq!(a.dist(&b), 4);
    assert_eq!(b.dist(&a), 4);
    assert!(!a.is_close(&b));
    assert!(a.is_close(&Vec4 { w: 1, x: 2, y: 0, z: 1 }));
    let far = Vec4 { w: i64::MAX, x: i64::MAX, y: i64::MAX, z: i64::MAX };
    let near = Vec4 { w: i64::MIN, x: i64::MIN, y: i64::MIN, z: i64::MIN };
    assert!(!far.is_close(&near));
    assert_eq!(Vec4::parse("1,-2,3,4"), Ok(Vec4 { w: 1, x: -2, y: 3, z: 4 }));
    assert_eq!(Vec4::parse("1,-2,3,4,5"), Ok(Vec4 { w: 1, x: -2, y: 3, z: 4 }));
    assert_eq!(Vec4::parse("1,-2,3"), Err(Error::MalformedInput));
    assert_eq!(Vec4::parse("1, 2,3,4"), Err(Error::MalformedInput));
    assert_eq!(Vec4::parse(""), Err(Error::MalformedInput));
}

#[test]
fn splitting_at_a_character() {
    assert_eq!(split_char("a,b,,c", ','), vec!["a", "b", "", "c"]);
    assert_eq!(split_char("", ','), vec![""]);
    assert_eq!(split_char(",", ','), vec!["", ""]);
    assert_eq!(split_char("abc", ','), vec!["abc"]);
    for text in ["a,b,,c", "", ",", ",,x", "ä,ö"] {
        let std: Vec<&str> = text.split(',').collect();
        assert_eq!(split_char(text, ','), std);
    }
}

#[test]
fn tracks_are_drawn_with_their_carts() {
    let text = "/->-\\\n|   |\n\\-<-/\n";
    let grid = aoc::solutions::solution_13::Grid::parse(text).unwrap();
    assert_eq!((grid.width(), grid.height()), (5, 3));
    assert_eq!(grid.drawing(), text);
    let short = "|\n^ \n|";
    let grid = aoc::solutions::solution_13::Grid::parse(short).unwrap();
    assert_eq!(grid.drawing(), "| \n^ \n| \n");
}

#[test]
fn last_day_has_no_second_part() {
    let sky = aoc::solutions::solution_25::Data::new(Vec::new());
    assert_eq!(aoc::solutions::solution_25::part2(&sky), 0);
}
