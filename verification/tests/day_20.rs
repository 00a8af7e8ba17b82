use aoc::error::Error;
use aoc::solutions::solution_20::{
    parse_expression, parse_expressions, part1, part2, Data, Direction, Expression, Grid,
    Solution20, TileKind,
};
use aoc::util::mat2::Pos;

fn render(e: &Expression) -> String {
    match e {
        Expression::Sequence(dirs) => dirs.iter().map(|d| d.to_char()).collect(),
        Expression::OneOf(choices) => {
            let parts: Vec<String> = choices.iter().map(render).collect();
            format!("({})", parts.join("|"))
        }
        Expression::Concat(exprs) => exprs.iter().map(render).collect(),
    }
}

fn doors(text: &str) -> Result<usize, Error> {
    part1(&Data::parse(text).unwrap(), 100)
}

#[test]
fn expressions_print_as_they_were_read() {
    for text in [
        "WNE",
        "ENWWW(NEEE|SSE(EE|N))",
        "ENNWSWW(NEWS|)SSSEEN(WNSE|)EE(SWEN|)NNN",
        "(N|S)(E|W)",
        "()",
        "",
        "N(E)",
        "((N))",
    ] {
        let e = parse_expressions(text).unwrap();
        assert_eq!(render(&e), text);
    }
}

#[test]
fn one_expression_at_a_time() {
    let (e, skip) = parse_expression("NE(S|W)N").unwrap();
    assert_eq!(skip, 2);
    assert_eq!(render(&e), "NE");
    let (e, skip) = parse_expression("(S|W(N|))NE").unwrap();
    assert_eq!(skip, 9);
    assert_eq!(render(&e), "(S|W(N|))");
    let (e, skip) = parse_expression("").unwrap();
    assert_eq!(skip, 0);
    assert_eq!(render(&e), "");
    match parse_expression("(N|)").unwrap().0 {
        Expression::OneOf(branches) => {
            assert_eq!(branches.len(), 2);
            match &branches[1] {
                Expression::Concat(parts) => assert!(parts.is_empty()),
                other => panic!("{:?}", other),
            }
        }
        other => panic!("{:?}", other),
    }
}

#[test]
fn malformed_expressions() {
    assert_eq!(parse_expressions("N(E").err(), Some(Error::MalformedInput));
    assert_eq!(parse_expressions("N)E").err(), Some(Error::MalformedInput));
    assert_eq!(parse_expressions("N|E").err(), Some(Error::MalformedInput));
    assert_eq!(parse_expressions("NxE").err(), Some(Error::MalformedInput));
    assert_eq!(parse_expressions("(N|(E)").err(), Some(Error::MalformedInput));
    assert_eq!(Data::parse("WNE").err(), Some(Error::MalformedInput));
    assert_eq!(Data::parse("^WNE").err(), Some(Error::MalformedInput));
    assert_eq!(Data::parse("WNE$").err(), Some(Error::MalformedInput));
    assert_eq!(Data::parse("").err(), Some(Error::MalformedInput));
    assert_eq!(Data::parse("^").err(), Some(Error::MalformedInput));
    assert!(Data::parse("^$").is_ok());
}

#[test]
fn furthest_rooms_of_the_examples() {
    assert_eq!(doors("^WNE$"), Ok(3));
    assert_eq!(doors("^ENWWW(NEEE|SSE(EE|N))$"), Ok(10));
    assert_eq!(doors("^ENNWSWW(NEWS|)SSSEEN(WNSE|)EE(SWEN|)NNN$"), Ok(18));
    assert_eq!(doors("^ESSWWN(E|NNENN(EESS(WNSE|)SSS|WWWSSSSE(SW|NNNE)))$"), Ok(23));
    assert_eq!(
        doors("^WSSEESWWWNW(S|NENNEEEENN(ESSSSW(NWSW|SSEN)|WSWWN(E|WWS(E|SS))))$"),
        Ok(31)
    );
    assert_eq!(doors("^$"), Err(Error::NotFound));
}

#[test]
fn walks_that_leave_the_map() {
    let d = Data::parse("^WWW$").unwrap();
    // from the middle of thirteen places three rooms lie to the west
    assert_eq!(part1(&d, 13), Ok(3));
    assert_eq!(part1(&d, 12), Ok(3));
    assert_eq!(part1(&d, 11), Err(Error::OutOfGrid));
    assert_eq!(part1(&d, 0), Err(Error::OutOfGrid));
    assert_eq!(part1(&d, usize::MAX), Err(Error::Overflow));
    assert_eq!(part2(&d, usize::MAX), Err(Error::Overflow));
}

#[test]
fn rooms_far_away() {
    let d = Data::parse("^WNE$").unwrap();
    assert_eq!(part2(&d, 100), Ok(0));
    let mut grid = Grid::new(9);
    assert_eq!(grid.furthest_room_dist(), None);
    assert_eq!(grid.fill(&d.expr), Ok(()));
    assert_eq!(grid.rooms_with_min_d(1), 3);
    assert_eq!(grid.rooms_with_min_d(2), 2);
    assert_eq!(grid.rooms_with_min_d(3), 1);
    assert_eq!(grid.rooms_with_min_d(4), 0);
    assert_eq!(grid.furthest_room_dist(), Some(3));
}

#[test]
fn the_walk_draws_doors_and_rooms() {
    let mut grid = Grid::new(9);
    let d = Data::parse("^WNE$").unwrap();
    grid.fill(&d.expr).unwrap();
    assert_eq!(grid.tile(Pos::new(4, 4)), Some(TileKind::Wall));
    assert_eq!(grid.tile(Pos::new(3, 4)), Some(TileKind::HorizontalDoor));
    assert_eq!(grid.tile(Pos::new(2, 4)), Some(TileKind::Room));
    assert_eq!(grid.tile(Pos::new(2, 3)), Some(TileKind::VerticalDoor));
    assert_eq!(grid.tile(Pos::new(2, 2)), Some(TileKind::Room));
    assert_eq!(grid.tile(Pos::new(3, 2)), Some(TileKind::HorizontalDoor));
    assert_eq!(grid.tile(Pos::new(4, 2)), Some(TileKind::Room));
    assert_eq!(grid.tile(Pos::new(9, 0)), None);
    assert_eq!(grid.reached(Pos::new(2, 4)), Some(1));
    assert_eq!(grid.reached(Pos::new(2, 2)), Some(2));
    assert_eq!(grid.reached(Pos::new(4, 2)), Some(3));
    assert_eq!(grid.reached(Pos::new(4, 4)), Some(usize::MAX));
    // a second way to a room keeps the smaller count
    let mut grid = Grid::new(9);
    assert_eq!(grid.walk_seq(Pos::new(4, 4), 1, &[Direction::West, Direction::East, Direction::West]), Ok((Pos::new(2, 4), 4)));
    assert_eq!(grid.reached(Pos::new(2, 4)), Some(1));
    assert_eq!(grid.reached(Pos::new(4, 4)), Some(2));
    assert_eq!(grid.walk_seq(Pos::new(0, 0), usize::MAX, &[Direction::East]), Err(Error::Overflow));
}

#[test]
fn choices_go_on_where_they_began() {
    let mut grid = Grid::new(21);
    let e = parse_expressions("(NN|EEE)").unwrap();
    assert_eq!(grid.fill2(&e, Pos::new(10, 10), 1), Ok((Pos::new(10, 10), 1)));
    let e = parse_expressions("NN").unwrap();
    assert_eq!(grid.fill2(&e, Pos::new(10, 10), 1), Ok((Pos::new(10, 6), 3)));
    assert_eq!(grid.furthest_room_dist(), Some(3));
    let mut s = Solution20::new();
    assert_eq!(s.init("^N$", "^N(E$"), Err(Error::MalformedInput));
    assert_eq!(s.init("^N$", "^N(E)$"), Ok(()));
    assert_eq!(render(&Expression::default()), "");
}

#[test]
fn expression_as_text() {
    for text in ["", "N", "WNE", "N(E|W)S", "(N|)", "(|N|)", "ENWWW(NEEE|SSE(EE|N))", "(N|S)(E|W)", "((N))"] {
        let e = aoc::solutions::solution_20::parse_expressions(text).unwrap();
        assert_eq!(e.to_text(), text, "{text}");
    }
}
