use aoc::util::file::{data_path, decimal, in_path, sample_path};
use aoc::util::mat2::{diff, Mat2, Pos};
use aoc::util::text::{parse_i64, parse_u64, parse_usize};

#[test]
fn positions_add_and_subtract() {
    let p = Pos::new(3, 4);
    assert_eq!(p, Pos { x: 3, y: 4 });
    assert_eq!(p.add(Pos::new(1, 2)), Pos::new(4, 6));
    assert_eq!(p.sub(Pos::new(1, 2)), Some(Pos::new(2, 2)));
    assert_eq!(p.sub(Pos::new(3, 4)), Some(Pos::new(0, 0)));
    assert_eq!(p.sub(Pos::new(4, 0)), None);
    assert_eq!(p.sub(Pos::new(0, 5)), None);
    assert_eq!(Pos::default(), Pos::new(0, 0));
    assert_eq!(diff(3, 7), 4);
    assert_eq!(diff(7, 3), 4);
    assert_eq!(diff(5, 5), 0);
}

#[test]
fn positions_move_by_offsets() {
    let p = Pos::new(3, 4);
    assert_eq!(p.offset((1, -1)), Some(Pos::new(4, 3)));
    assert_eq!(p.offset((-3, -4)), Some(Pos::new(0, 0)));
    assert_eq!(p.offset((-4, 0)), None);
    assert_eq!(p.offset((0, -5)), None);
    assert_eq!(p.offset((0, 0)), Some(p));
    assert_eq!(Pos::new(0, 0).offset((isize::MIN, 0)), None);
    assert_eq!(
        Pos::new(1 << 63, 0).offset((isize::MIN, 0)),
        Some(Pos::new(0, 0))
    );
}

#[test]
fn grid_is_stored_row_by_row() {
    let mut m = Mat2::from_vec(vec![1, 2, 3, 4, 5, 6], 2, 3);
    assert_eq!(m.height(), 2);
    assert_eq!(m.width(), 3);
    assert_eq!(m.get(Pos::new(0, 0)), Some(&1));
    assert_eq!(m.get(Pos::new(2, 0)), Some(&3));
    assert_eq!(m.get(Pos::new(0, 1)), Some(&4));
    assert_eq!(m.get(Pos::new(2, 1)), Some(&6));
    assert_eq!(m.get(Pos::new(3, 0)), None);
    assert_eq!(m.get(Pos::new(0, 2)), None);
    assert!(m.has_pos(Pos::new(2, 1)));
    assert!(!m.has_pos(Pos::new(3, 1)));
    m.set(Pos::new(1, 1), 50);
    assert_eq!(m.grids(), vec![&1, &2, &3, &4, &50, &6]);
    if let Some(cell) = m.get_mut(Pos::new(0, 1)) {
        *cell = 40;
    }
    assert!(m.get_mut(Pos::new(0, 2)).is_none());
    assert_eq!(m.grids(), vec![&1, &2, &3, &40, &50, &6]);
    assert_eq!(
        m.coords(),
        vec![
            Pos::new(0, 0),
            Pos::new(1, 0),
            Pos::new(2, 0),
            Pos::new(0, 1),
            Pos::new(1, 1),
            Pos::new(2, 1)
        ]
    );
}

#[test]
fn grids_filled_with_one_value() {
    let m: Mat2<u8> = Mat2::new(2, 2);
    assert_eq!(m.grids(), vec![&0, &0, &0, &0]);
    let mut m = Mat2::new_with(1, 3, 'x');
    assert_eq!(m.grids(), vec![&'x', &'x', &'x']);
    m.set(Pos::new(1, 0), 'y');
    m.clear('z');
    assert_eq!(m.grids(), vec![&'z', &'z', &'z']);
    let empty: Mat2<u8> = Mat2::new(0, 5);
    assert_eq!(empty.coords(), vec![]);
    assert!(!empty.has_pos(Pos::new(0, 0)));
}

#[test]
fn input_paths() {
    assert_eq!(in_path(), "in");
    assert_eq!(data_path(1), "/home/jonas/CLionProjects/aoc/in/01.txt");
    assert_eq!(data_path(16), "/home/jonas/CLionProjects/aoc/in/16.txt");
    assert_eq!(data_path(0), "/home/jonas/CLionProjects/aoc/in/00.txt");
    assert_eq!(data_path(123), "/home/jonas/CLionProjects/aoc/in/123.txt");
    assert_eq!(sample_path(9), "/home/jonas/CLionProjects/aoc/in/09_sample.txt");
    assert_eq!(sample_path(25), "/home/jonas/CLionProjects/aoc/in/25_sample.txt");
    assert_eq!(decimal(0), "0");
    assert_eq!(decimal(907), "907");
    assert_eq!(decimal(usize::MAX), usize::MAX.to_string());
}

#[test]
fn numbers_in_text() {
    assert_eq!(parse_u64("0"), Some(0));
    assert_eq!(parse_u64("+17"), Some(17));
    assert_eq!(parse_u64("007"), Some(7));
    assert_eq!(parse_u64(""), None);
    assert_eq!(parse_u64("+"), None);
    assert_eq!(parse_u64("-1"), None);
    assert_eq!(parse_u64("1 "), None);
    assert_eq!(parse_u64("1_000"), None);
    assert_eq!(parse_u64("18446744073709551615"), Some(u64::MAX));
    assert_eq!(parse_u64("18446744073709551616"), None);
    assert_eq!(parse_u64("99999999999999999999"), None);
    assert_eq!(parse_usize("42"), Some(42));
    assert_eq!(parse_usize("x"), None);
    assert_eq!(parse_i64("-12"), Some(-12));
    assert_eq!(parse_i64("+12"), Some(12));
    assert_eq!(parse_i64("12"), Some(12));
    assert_eq!(parse_i64("-0"), Some(0));
    assert_eq!(parse_i64("-"), None);
    assert_eq!(parse_i64("--1"), None);
    assert_eq!(parse_i64("+-1"), None);
    assert_eq!(parse_i64("9223372036854775807"), Some(i64::MAX));
    assert_eq!(parse_i64("9223372036854775808"), None);
    assert_eq!(parse_i64("-9223372036854775808"), Some(i64::MIN));
    assert_eq!(parse_i64("-9223372036854775809"), None);
    for text in ["5", "+5", "-5", "", "+", "05", "5x", "٣"] {
        assert_eq!(parse_u64(text), text.parse::<u64>().ok(), "{:?}", text);
        assert_eq!(parse_i64(text), text.parse::<i64>().ok(), "{:?}", text);
    }
}

#[test]
fn lines_as_the_standard_library_splits_them() {
    for text in [
        "",
        "\n",
        "\n\n",
        "a",
        "a\n",
        "a\nb",
        "a\r\nb\r\n",
        "a\rb\n",
        "a\r",
        "\r\n",
        "\r",
        "a\r\r\nb",
        "a\n\nb\n\n",
        "a\n\r\nb",
        " a b \n\tc\n",
        "é\nß\r\n\u{2028}x\n",
    ] {
        let expected: Vec<String> = text.lines().map(|l| l.to_string()).collect();
        assert_eq!(aoc::util::text::lines(text), expected, "{:?}", text);
    }
    assert_eq!(aoc::util::text::lines("one\r\ntwo\n\nfour"), vec!["one", "two", "", "four"]);
}

#[test]
fn tokens_as_the_standard_library_splits_them() {
    for text in [
        "",
        " ",
        "a",
        " a",
        "a ",
        "  a  b\t\tc\n",
        "a\u{a0}b\u{2003}c\u{3000}d",
        "\u{85}x\u{1680}y\u{feff}z",
        "1 2\r\n3  4",
    ] {
        let expected: Vec<String> = text.split_whitespace().map(|t| t.to_string()).collect();
        assert_eq!(aoc::util::text::split_whitespace(text), expected, "{:?}", text);
    }
    assert_eq!(aoc::util::text::split_whitespace(" 2 3\t0 "), vec!["2", "3", "0"]);
}

#[test]
fn characters_of_a_text() {
    assert_eq!(aoc::util::text::chars_of("aé\u{1F600}z"), vec!['a', 'é', '\u{1F600}', 'z']);
    assert_eq!(aoc::util::text::chars_of(""), Vec::<char>::new());
}

#[test]
fn tokens_between_gaps() {
    let chars: Vec<char> = "ab-c--d".chars().collect();
    let gaps: Vec<bool> = chars.iter().map(|&c| c == '-').collect();
    assert_eq!(aoc::util::text::split_gaps(&chars, &gaps), vec!["ab", "c", "d"]);
    let none = vec![false; 7];
    assert_eq!(aoc::util::text::split_gaps(&chars, &none), vec!["ab-c--d"]);
    let all = vec![true; 7];
    assert_eq!(aoc::util::text::split_gaps(&chars, &all), Vec::<String>::new());
    assert_eq!(aoc::util::text::split_gaps(&Vec::new(), &Vec::new()), Vec::<String>::new());
}

#[test]
fn every_character_splits_as_in_the_standard_library() {
    for code in 0u32..0x3100 {
        if let Some(c) = char::from_u32(code) {
            let text = format!("a{}b\n{}", c, c);
            let tokens: Vec<String> = text.split_whitespace().map(|t| t.to_string()).collect();
            assert_eq!(aoc::util::text::split_whitespace(&text), tokens, "{:?}", c);
            let lines: Vec<String> = text.lines().map(|l| l.to_string()).collect();
            assert_eq!(aoc::util::text::lines(&text), lines, "{:?}", c);
        }
    }
}
