use aoc::error::Error;
use aoc::solutions::solution_01::Solution01;
use aoc::solutions::solution_02::{count_chars, part1 as checksum_parts, part2 as common_letters, Solution02};
use aoc::solutions::solution_12::{
    get_pattern, parse_pot_pattern, Data as Pots, PatternMatch, Pot, Solution12,
};

const O: Pot = Pot::NoPlant;
const X: Pot = Pot::Plant;

const POTS: &str = "initial state: #..#.#..##......###...###\n\n...## => #\n..#.. => #\n.#... => #\n.#.#. => #\n.#.## => #\n.##.. => #\n.#### => #\n#.#.# => #\n#.### => #\n##.#. => #\n##.## => #\n###.. => #\n###.# => #\n####. => #\n";

fn labels(all: &[&str]) -> Vec<String> {
    all.iter().map(|s| s.to_string()).collect()
}

#[test]
fn frequency_after_all_changes() {
    assert_eq!(Solution01::new(vec![1, -2, 3, 1]).part1(), Ok(3));
    assert_eq!(Solution01::new(vec![1, 1, 1]).part1(), Ok(3));
    assert_eq!(Solution01::new(vec![-1, -2, -3]).part1(), Ok(-6));
    assert_eq!(Solution01::new(vec![]).part1(), Ok(0));
    assert_eq!(Solution01::new(vec![i64::MAX, 1, -5]).part1(), Err(Error::Overflow));
    assert_eq!(Solution01::new(vec![i64::MAX, -1, 1]).part1(), Ok(i64::MAX));
}

#[test]
fn first_frequency_reached_twice() {
    assert_eq!(Solution01::new(vec![1, -2, 3, 1]).part2(100), Ok(Some(2)));
    assert_eq!(Solution01::new(vec![1, -1]).part2(100), Ok(Some(0)));
    assert_eq!(Solution01::new(vec![3, 3, 4, -2, -4]).part2(100), Ok(Some(10)));
    assert_eq!(Solution01::new(vec![-6, 3, 8, 5, -6]).part2(100), Ok(Some(5)));
    assert_eq!(Solution01::new(vec![7, 7, -2, -7, -4]).part2(100), Ok(Some(14)));
    // without changes the frequency stays at zero
    assert_eq!(Solution01::new(vec![]).part2(100), Ok(Some(0)));
    assert_eq!(Solution01::new(vec![1]).part2(100), Ok(None));
    // 0, 3, 6, 10, 8, 4, 7, 10: the seventh change leads back to ten
    assert_eq!(Solution01::new(vec![3, 3, 4, -2, -4]).part2(6), Ok(None));
    assert_eq!(Solution01::new(vec![3, 3, 4, -2, -4]).part2(7), Ok(Some(10)));
    assert_eq!(Solution01::new(vec![i64::MAX]).part2(100), Err(Error::Overflow));
}

#[test]
fn changes_are_read_line_by_line() {
    let mut s = Solution01::new(vec![]);
    assert_eq!(s.init("+1\n-2\n+3\n+1\n"), Ok(()));
    assert_eq!(s.part1(), Ok(3));
    assert_eq!(s.init("+1\nx\n"), Err(Error::MalformedInput));
    assert_eq!(s.part1(), Ok(3));
}

#[test]
fn letters_are_counted() {
    let c = count_chars("bababc").unwrap();
    assert_eq!(c[b'a' as usize], 2);
    assert_eq!(c[b'b' as usize], 3);
    assert_eq!(c[b'c' as usize], 1);
    assert_eq!(c[b'd' as usize], 0);
    assert_eq!(c.iter().sum::<usize>(), 6);
    assert_eq!(count_chars("").unwrap().iter().sum::<usize>(), 0);
    assert_eq!(count_chars("abä"), Err(Error::MalformedInput));
}

#[test]
fn labels_with_letters_twice_and_thrice() {
    let all = labels(&["abcdef", "bababc", "abbcde", "abcccd", "aabcdd", "abcdee", "ababab"]);
    assert_eq!(checksum_parts(&all), Ok((4, 3)));
    assert_eq!(checksum_parts(&[]), Ok((0, 0)));
    assert_eq!(checksum_parts(&labels(&["aa", "ää"])), Err(Error::MalformedInput));
    assert_eq!(Solution02::new(all).part1(), Ok((4, 3)));
}

#[test]
fn labels_that_differ_in_one_place() {
    let all = labels(&["abcde", "fghij", "klmno", "pqrst", "fguij", "axcye", "wvxyz"]);
    assert_eq!(common_letters(&all), "fgij");
    assert_eq!(common_letters(&labels(&["abc", "xyz"])), "");
    assert_eq!(common_letters(&[]), "");
    // the first pair counts
    assert_eq!(common_letters(&labels(&["abc", "abd", "xbc"])), "ab");
    // a longer label is compared as far as the shorter one goes
    assert_eq!(common_letters(&labels(&["abc", "abdef"])), "ab");
    assert_eq!(Solution02::new(all).part2(), "fgij");
}

#[test]
fn windows_of_five_pots() {
    let row = [X, O, O, X, X, O];
    assert_eq!(get_pattern(&row, 0), [X, O, O, X, X]);
    assert_eq!(get_pattern(&row, 1), [O, O, X, X, O]);
    assert_eq!(get_pattern(&row, 3), [X, X, O, O, O]);
    assert_eq!(get_pattern(&row, -2), [O, O, X, O, O]);
    assert_eq!(get_pattern(&row, -5), [O, O, O, O, O]);
    assert_eq!(get_pattern(&row, -7), [O, O, O, O, O]);
    assert_eq!(get_pattern(&row, 6), [O, O, O, O, O]);
    assert_eq!(get_pattern(&[], 0), [O, O, O, O, O]);
    assert_eq!(get_pattern(&[X], isize::MIN), [O, O, O, O, O]);
    assert_eq!(get_pattern(&[X], isize::MAX), [O, O, O, O, O]);
    assert_eq!(Pots::pattern_to_num(&[X, O, O, O, O]), 1);
    assert_eq!(Pots::pattern_to_num(&[O, O, O, O, X]), 16);
    assert_eq!(Pots::pattern_to_num(&[X, X, X, X, X]), 31);
    assert_eq!(Pots::pot_to_num(X), 1);
    assert_eq!(Pots::pot_to_num(O), 0);
}

#[test]
fn pots_and_rules_are_read() {
    assert_eq!(parse_pot_pattern("#..#"), Ok(vec![X, O, O, X]));
    assert_eq!(parse_pot_pattern(""), Ok(vec![]));
    assert_eq!(parse_pot_pattern("#.x"), Err(Error::MalformedInput));
    assert_eq!(Pot::from_char('#'), Ok(X));
    assert_eq!(Pot::from_char(' '), Err(Error::MalformedInput));
    assert_eq!(Pot::default(), O);
    assert_eq!(
        PatternMatch::parse("..#.. => #"),
        Ok(PatternMatch { pattern: [O, O, X, O, O], pot: X })
    );
    assert_eq!(PatternMatch::parse("..#. => #"), Err(Error::MalformedInput));
    assert_eq!(PatternMatch::parse("..#.. => "), Err(Error::MalformedInput));
    assert_eq!(PatternMatch::from_groups(&None), Err(Error::MalformedInput));
    assert_eq!(Pots::parse("").err(), Some(Error::MalformedInput));
    assert_eq!(Pots::parse("state: #\n\n").err(), Some(Error::MalformedInput));
}

#[test]
fn plants_after_twenty_generations() {
    let pots = Pots::parse(POTS).unwrap();
    assert_eq!(pots.run(0), Ok(145));
    assert_eq!(pots.run(1), Ok(91));
    assert_eq!(pots.run(20), Ok(325));
    let mut s = Solution12::new();
    assert_eq!(s.init(POTS, "nothing"), Err(Error::MalformedInput));
    assert_eq!(s.init(POTS, POTS), Ok(()));
}

#[test]
fn rules_decide_what_grows() {
    let rules = vec![
        PatternMatch { pattern: [O, O, X, O, O], pot: X },
        PatternMatch { pattern: [O, O, X, O, O], pot: O },
        PatternMatch { pattern: [O, X, O, O, O], pot: X },
    ];
    let pots = Pots::new(vec![X], rules);
    // of two rules for one window the first counts
    assert_eq!(pots.find_match([O, O, X, O, O]), Some(X));
    assert_eq!(pots.find_match([O, X, O, O, O]), Some(X));
    assert_eq!(pots.find_match([X, X, X, X, X]), None);
    // a lone plant stays and a new one grows to its right; no rule lets
    // two plants side by side live on
    assert_eq!(pots.run(0), Ok(0));
    assert_eq!(pots.run(1), Ok(1));
    assert_eq!(pots.run(2), Ok(0));
    assert_eq!(pots.run(3), Err(Error::NotFound));
    // a row without plants has no next generation
    assert_eq!(Pots::new(vec![O, O], vec![]).run(1), Err(Error::NotFound));
    assert_eq!(Pots::new(vec![O, O], vec![]).run(0), Ok(0));
    assert_eq!(Pots::new(vec![X], vec![]).run(2), Err(Error::NotFound));
    assert_eq!(Pots::new(vec![X], vec![]).run(1), Ok(0));
}
