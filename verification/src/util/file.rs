//! Where the puzzle inputs lie.

use vstd::prelude::*;
use vstd::string::*;

verus! {

/// The character of the digit `d`.
pub open spec fn digit_char(d: nat) -> char {
    if d == 0 {
        '0'
    } else if d == 1 {
        '1'
    } else if d == 2 {
        '2'
    } else if d == 3 {
        '3'
    } else if d == 4 {
        '4'
    } else if d == 5 {
        '5'
    } else if d == 6 {
        '6'
    } else if d == 7 {
        '7'
    } else if d == 8 {
        '8'
    } else {
        '9'
    }
}

/// The digits of `n` in base ten, without leading zeros.
pub open spec fn digits_of(n: nat) -> Seq<char>
    decreases n,
{
    if n < 10 {
        seq![digit_char(n)]
    } else {
        digits_of(n / 10).push(digit_char(n % 10))
    }
}

/// The digits of `n`, with a zero before a single digit.
pub open spec fn two_digits(n: nat) -> Seq<char> {
    if n < 10 {
        seq!['0', digit_char(n)]
    } else {
        digits_of(n)
    }
}

/// The directory of the inputs.
pub open spec fn input_dir() -> Seq<char> {
    "/home/jonas/CLionProjects/aoc/in/"@
}

fn digit_str(d: usize) -> (s: &'static str)
    requires
        d < 10,
    ensures
        s@ == seq![digit_char(d as nat)],
{
    proof {
        reveal_strlit("0");
        reveal_strlit("1");
        reveal_strlit("2");
        reveal_strlit("3");
        reveal_strlit("4");
        reveal_strlit("5");
        reveal_strlit("6");
        reveal_strlit("7");
        reveal_strlit("8");
        reveal_strlit("9");
    }
    let s = match d {
        0 => "0",
        1 => "1",
        2 => "2",
        3 => "3",
        4 => "4",
        5 => "5",
        6 => "6",
        7 => "7",
        8 => "8",
        _ => "9",
    };
    assert(s@ =~= seq![digit_char(d as nat)]);
    s
}

/// Writes `n` in base ten.
pub fn decimal(n: usize) -> (s: String)
    ensures
        s@ == digits_of(n as nat),
    decreases n,
{
    if n < 10 {
        String::from_str(digit_str(n))
    } else {
        let mut s = decimal(n / 10);
        s.append(digit_str(n % 10));
        assert(s@ =~= digits_of(n as nat));
        s
    }
}

/// Writes a number of up to 64 bits in base ten.
pub fn decimal_wide(n: u64) -> (s: String)
    ensures
        s@ == digits_of(n as nat),
    decreases n,
{
    if n < 10 {
        String::from_str(digit_str(n as usize))
    } else {
        let mut s = decimal_wide(n / 10);
        s.append(digit_str((n % 10) as usize));
        assert(s@ =~= digits_of(n as nat));
        s
    }
}

/// The text of a number with a minus sign before it where it is below
/// zero.
pub open spec fn signed_digits(n: int) -> Seq<char> {
    if n < 0 {
        seq!['-'] + digits_of((-n) as nat)
    } else {
        digits_of(n as nat)
    }
}

/// Writes a signed number in base ten.
pub fn decimal_signed(n: i64) -> (s: String)
    ensures
        s@ == signed_digits(n as int),
{
    if n < 0 {
        let mut s = String::from_str("-");
        proof {
            reveal_strlit("-");
        }
        let wide: i128 = n as i128;
        let digits = decimal_wide((-wide) as u64);
        s.append(digits.as_str());
        assert(s@ =~= signed_digits(n as int));
        s
    } else {
        decimal_wide(n as u64)
    }
}

/// The name of the directory of the inputs.
pub fn in_path() -> (path: &'static str)
    ensures
        path@ == "in"@,
{
    "in"
}

fn numbered_path(n: usize, ending: &str) -> (path: String)
    ensures
        path@ == input_dir() + two_digits(n as nat) + ending@,
{
    let mut path = String::from_str("/home/jonas/CLionProjects/aoc/in/");
    if n < 10 {
        path.append("0");
        proof {
            reveal_strlit("0");
        }
    }
    let number = decimal(n);
    path.append(number.as_str());
    assert(path@ =~= input_dir() + two_digits(n as nat));
    path.append(ending);
    path
}

/// The path of the input of day `n`.
pub fn data_path(n: usize) -> (path: String)
    ensures
        path@ == input_dir() + two_digits(n as nat) + ".txt"@,
{
    numbered_path(n, ".txt")
}

/// The path of the example of day `n`.
pub fn sample_path(n: usize) -> (path: String)
    ensures
        path@ == input_dir() + two_digits(n as nat) + "_sample.txt"@,
{
    numbered_path(n, "_sample.txt")
}

} // verus!
