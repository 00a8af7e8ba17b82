use aoc::error::Error;
use aoc::solutions::solution_09::{offset, parse, part1 as high_score, part2 as second, Game};

#[test]
fn game_line_is_read() {
    assert_eq!(
        parse("9 players; last marble is worth 25 points"),
        Ok(Game { marbles: 25, players: 9 })
    );
    assert_eq!(
        parse("428 players; last marble is worth 72061 points"),
        Ok(Game { marbles: 72061, players: 428 })
    );
}

#[test]
fn game_line_with_other_words_is_refused() {
    assert_eq!(parse("9 players; last marble is worth 25 point"), Err(Error::MalformedInput));
    assert_eq!(parse("nine players; last marble is worth 25 points"), Err(Error::MalformedInput));
    assert_eq!(parse(" 9 players; last marble is worth 25 points"), Err(Error::MalformedInput));
    assert_eq!(parse(""), Err(Error::MalformedInput));
    assert_eq!(
        parse("9 players; last marble is worth 99999999999999999999999 points"),
        Err(Error::MalformedInput)
    );
}

#[test]
fn nine_players_and_twenty_five_marbles() {
    assert_eq!(high_score(&Game { marbles: 25, players: 9 }), Ok(32));
}

#[test]
fn the_first_scoring_marble_takes_marble_nine() {
    assert_eq!(high_score(&Game { marbles: 23, players: 9 }), Ok(32));
    assert_eq!(high_score(&Game { marbles: 23, players: 1 }), Ok(32));
}

#[test]
fn one_player_keeps_every_score() {
    // Marble 23 takes marble 9, marble 46 takes marble 17.
    assert_eq!(high_score(&Game { marbles: 46, players: 1 }), Ok(23 + 9 + 46 + 17));
}

#[test]
fn longer_games() {
    assert_eq!(high_score(&Game { marbles: 1618, players: 10 }), Ok(8317));
    assert_eq!(high_score(&Game { marbles: 7999, players: 13 }), Ok(146373));
    assert_eq!(high_score(&Game { marbles: 1104, players: 17 }), Ok(2764));
    assert_eq!(high_score(&Game { marbles: 6111, players: 21 }), Ok(54718));
    assert_eq!(high_score(&Game { marbles: 5807, players: 30 }), Ok(37305));
}

#[test]
fn games_without_a_score() {
    assert_eq!(high_score(&Game { marbles: 22, players: 9 }), Err(Error::NotFound));
    assert_eq!(high_score(&Game { marbles: 0, players: 9 }), Err(Error::NotFound));
    assert_eq!(high_score(&Game { marbles: 25, players: 0 }), Err(Error::MalformedInput));
}

#[test]
fn second_part_of_the_marble_game_finds_nothing() {
    assert_eq!(second(&Game { marbles: 25, players: 9 }), Ok(0));
}

#[test]
fn offsets_in_a_circle() {
    assert_eq!(offset(3, 2, 10), 5);
    assert_eq!(offset(3, -2, 10), 1);
    assert_eq!(offset(3, -5, 10), 8);
    assert_eq!(offset(3, 12, 10), 5);
    assert_eq!(offset(3, -15, 10), 8);
    assert_eq!(offset(0, -10, 10), 0);
    assert_eq!(offset(0, -1, 1), 0);
    // Steps that lead past the last place are not brought back.
    assert_eq!(offset(9, 3, 10), 12);
}
