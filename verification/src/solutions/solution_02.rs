//! Box labels: how many hold a letter twice or thrice, and which two
//! differ in one place only?

use crate::error::Error;
use vstd::prelude::*;
use vstd::string::*;

verus! {

/// How often each byte occurs in a text.
pub type CharCountMap = [usize; 256];

/// How often the character `c` occurs in the text.
pub open spec fn occurrences(text: Seq<char>, c: char) -> nat
    decreases text.len(),
{
    if text.len() == 0 {
        0
    } else {
        occurrences(text.drop_last(), c) + (if text.last() == c {
            1nat
        } else {
            0nat
        })
    }
}

/// Whether all characters of the text are ASCII.
pub open spec fn ascii(text: Seq<char>) -> bool {
    forall|i: int| 0 <= i < text.len() ==> (#[trigger] text[i] as nat) < 128
}

/// Whether some character occurs exactly `times` times in the text.
pub open spec fn has_count(text: Seq<char>, times: nat) -> bool {
    exists|b: u8| #[trigger] occurrences(text, b as char) == times
}

/// How many of the lines hold some character exactly `times` times.
pub open spec fn lines_with_count(lines: Seq<Seq<char>>, times: nat) -> nat
    decreases lines.len(),
{
    if lines.len() == 0 {
        0
    } else {
        lines_with_count(lines.drop_last(), times) + (if has_count(lines.last(), times) {
            1nat
        } else {
            0nat
        })
    }
}

/// The shorter of two lengths.
pub open spec fn shorter(a: Seq<char>, b: Seq<char>) -> nat {
    if a.len() <= b.len() {
        a.len()
    } else {
        b.len()
    }
}

/// In how many of the first `upto` places the two texts differ.
pub open spec fn differing(a: Seq<char>, b: Seq<char>, upto: nat) -> nat
    decreases upto,
{
    if upto == 0 {
        0
    } else {
        differing(a, b, (upto - 1) as nat) + (if a[upto - 1] != b[upto - 1] {
            1nat
        } else {
            0nat
        })
    }
}

/// The characters that the two texts share in the first `upto` places.
pub open spec fn common(a: Seq<char>, b: Seq<char>, upto: nat) -> Seq<char>
    decreases upto,
{
    if upto == 0 {
        Seq::empty()
    } else if a[upto - 1] == b[upto - 1] {
        common(a, b, (upto - 1) as nat).push(a[upto - 1])
    } else {
        common(a, b, (upto - 1) as nat)
    }
}

/// Whether the lines `i` and `j` differ in exactly one place, as far as
/// the shorter one goes.
pub open spec fn near(lines: Seq<Seq<char>>, i: int, j: int) -> bool {
    differing(lines[i], lines[j], shorter(lines[i], lines[j])) == 1
}

/// Whether `(i, j)` is the first pair of lines, a line and one that does
/// not come before it, that differ in exactly one place.
pub open spec fn first_near(lines: Seq<Seq<char>>, i: int, j: int) -> bool {
    &&& 0 <= i <= j < lines.len()
    &&& near(lines, i, j)
    &&& forall|k: int, l: int|
        0 <= k <= l < lines.len() && (k < i || (k == i && l < j)) ==> !near(lines, k, l)
}

/// Whether two of the lines differ in exactly one place.
pub open spec fn has_near(lines: Seq<Seq<char>>) -> bool {
    exists|i: int, j: int| first_near(lines, i, j)
}

/// Whether `r` holds the letters that the first two lines share which
/// differ in exactly one place, or nothing where there are none.
pub open spec fn is_common(lines: Seq<Seq<char>>, r: Seq<char>) -> bool {
    if has_near(lines) {
        exists|i: int, j: int|
            first_near(lines, i, j) && r == common(
                lines[i],
                lines[j],
                shorter(lines[i], lines[j]),
            )
    } else {
        r == Seq::<char>::empty()
    }
}

/// Counts how often each byte occurs in an ASCII text.
pub fn count_chars(s: &str) -> (r: Result<CharCountMap, Error>)
    ensures
        match r {
            Ok(counter) => ascii(s@) && forall|b: u8| #[trigger]
                counter@[b as int] == occurrences(s@, b as char),
            Err(e) => e == Error::MalformedInput && !ascii(s@),
        },
{
    let n = s.unicode_len();
    let mut counter: CharCountMap = [0usize;256];
    let mut i: usize = 0;
    assert(s@.subrange(0, 0) =~= Seq::<char>::empty());
    while i < n
        invariant
            i <= n,
            n == s@.len(),
            ascii(s@.subrange(0, i as int)),
            forall|b: u8| #[trigger]
                counter@[b as int] == occurrences(s@.subrange(0, i as int), b as char),
            forall|b: u8| #[trigger] counter@[b as int] <= i,
        decreases n - i,
    {
        let c = s.get_char(i);
        proof {
            let next = s@.subrange(0, i + 1);
            assert(next.drop_last() =~= s@.subrange(0, i as int));
            assert(next.last() == c);
        }
        if c as u32 >= 128 {
            assert(!((s@[i as int] as nat) < 128));
            return Err(Error::MalformedInput);
        }
        let b = c as u8;
        let ghost before = counter@;
        counter[b as usize] = counter[b as usize] + 1;
        proof {
            assert forall|x: u8| #[trigger]
                counter@[x as int] == occurrences(s@.subrange(0, i + 1), x as char) by {
                assert(before[x as int] == occurrences(s@.subrange(0, i as int), x as char));
                if x == b {
                    assert(x as char == c);
                } else {
                    assert(x as char != c);
                }
            }
            assert forall|x: u8| #[trigger] counter@[x as int] <= i + 1 by {
                assert(before[x as int] <= i);
            }
            assert(ascii(s@.subrange(0, i + 1))) by {
                assert forall|j: int| 0 <= j < i + 1 implies (#[trigger] s@.subrange(0, i + 1)[j]
                    as nat) < 128 by {
                    if j < i {
                        assert(s@.subrange(0, i as int)[j] == s@[j]);
                    }
                }
            }
        }
        i += 1;
    }
    assert(s@.subrange(0, i as int) =~= s@);
    Ok(counter)
}

fn holds(counter: &CharCountMap, times: usize) -> (b: bool)
    ensures
        b == exists|x: u8| #[trigger] counter@[x as int] == times,
{
    let mut i: usize = 0;
    while i < 256
        invariant
            i <= 256,
            forall|x: u8| x < i ==> #[trigger] counter@[x as int] != times,
        decreases 256 - i,
    {
        if counter[i] == times {
            assert(counter@[(i as u8) as int] == times);
            return true;
        }
        i += 1;
    }
    false
}

/// How many labels hold some letter exactly twice, and how many hold
/// some letter exactly thrice.
pub fn part1(lines: &[String]) -> (r: Result<(usize, usize), Error>)
    ensures
        match r {
            Ok((twos, threes)) => {
                &&& forall|i: int| 0 <= i < lines@.len() ==> ascii(#[trigger] lines.deep_view()[i])
                &&& twos == lines_with_count(lines.deep_view(), 2)
                &&& threes == lines_with_count(lines.deep_view(), 3)
            },
            Err(e) => e == Error::MalformedInput && exists|i: int|
                0 <= i < lines@.len() && !ascii(#[trigger] lines.deep_view()[i]),
        },
{
    let (mut twos, mut threes) = (0usize, 0usize);
    let mut i: usize = 0;
    let ghost text = lines.deep_view();
    assert(text.subrange(0, 0) =~= Seq::<Seq<char>>::empty());
    while i < lines.len()
        invariant
            i <= lines@.len(),
            text == lines.deep_view(),
            forall|j: int| 0 <= j < i ==> ascii(#[trigger] text[j]),
            twos == lines_with_count(text.subrange(0, i as int), 2),
            threes == lines_with_count(text.subrange(0, i as int), 3),
            twos <= i,
            threes <= i,
        decreases lines@.len() - i,
    {
        assert(text[i as int] == lines@[i as int]@);
        proof {
            let next = text.subrange(0, i + 1);
            assert(next.drop_last() =~= text.subrange(0, i as int));
            assert(next.last() == text[i as int]);
        }
        let counter = match count_chars(lines[i].as_str()) {
            Ok(c) => c,
            Err(e) => {
                return Err(e);
            },
        };
        let two = holds(&counter, 2);
        let three = holds(&counter, 3);
        proof {
            let line = text[i as int];
            assert(two == has_count(line, 2)) by {
                if two {
                    let x = choose|x: u8| #[trigger] counter@[x as int] == 2;
                    assert(occurrences(line, x as char) == 2);
                }
                if has_count(line, 2) {
                    let b = choose|b: u8| #[trigger] occurrences(line, b as char) == 2;
                    assert(counter@[b as int] == 2);
                }
            }
            assert(three == has_count(line, 3)) by {
                if three {
                    let x = choose|x: u8| #[trigger] counter@[x as int] == 3;
                    assert(occurrences(line, x as char) == 3);
                }
                if has_count(line, 3) {
                    let b = choose|b: u8| #[trigger] occurrences(line, b as char) == 3;
                    assert(counter@[b as int] == 3);
                }
            }
        }
        if two {
            twos += 1;
        }
        if three {
            threes += 1;
        }
        i += 1;
    }
    assert(text.subrange(0, i as int) =~= text);
    Ok((twos, threes))
}

fn compare(a: &str, b: &str) -> (r: (usize, String))
    ensures
        r.0 == differing(a@, b@, shorter(a@, b@)),
        r.1@ == common(a@, b@, shorter(a@, b@)),
{
    let n = a.unicode_len();
    let m = b.unicode_len();
    let len = if n <= m {
        n
    } else {
        m
    };
    let mut neq: usize = 0;
    let mut same = String::new();
    let mut i: usize = 0;
    while i < len
        invariant
            i <= len,
            len == shorter(a@, b@),
            len <= a@.len(),
            len <= b@.len(),
            neq == differing(a@, b@, i as nat),
            neq <= i,
            same@ == common(a@, b@, i as nat),
        decreases len - i,
    {
        if a.get_char(i) != b.get_char(i) {
            neq += 1;
        } else {
            let piece = a.substring_char(i, i + 1);
            let ghost before = same@;
            same.append(piece);
            assert(same@ =~= before.push(a@[i as int]));
        }
        i += 1;
    }
    (neq, same)
}

/// The letters that the first two labels share which differ in exactly
/// one place; the empty text where there are no such labels.
pub fn part2(lines: &[String]) -> (r: String)
    ensures
        is_common(lines.deep_view(), r@),
{
    let ghost text = lines.deep_view();
    let n = lines.len();
    let mut i: usize = 0;
    while i < n
        invariant
            i <= n,
            n == lines@.len(),
            text == lines.deep_view(),
            forall|k: int, l: int| 0 <= k <= l < n && k < i ==> !near(text, k, l),
        decreases n - i,
    {
        let mut j: usize = i;
        while j < n
            invariant
                i <= j <= n,
                i < n,
                n == lines@.len(),
                text == lines.deep_view(),
                forall|k: int, l: int|
                    0 <= k <= l < n && (k < i || (k == i && l < j)) ==> !near(text, k, l),
            decreases n - j,
        {
            assert(text[i as int] == lines@[i as int]@);
            assert(text[j as int] == lines@[j as int]@);
            let (neq, same) = compare(lines[i].as_str(), lines[j].as_str());
            if neq == 1 {
                assert(first_near(text, i as int, j as int));
                return same;
            }
            j += 1;
        }
        i += 1;
    }
    proof {
        assert forall|a: int, b: int| !first_near(text, a, b) by {
            if first_near(text, a, b) {
                assert(!near(text, a, b));
            }
        }
    }
    String::new()
}

/// The labels of the puzzle.
#[derive(Debug)]
pub struct Solution02 {
    data: Vec<String>,
}

impl Solution02 {
    /// The labels.
    pub closed spec fn data(self) -> Seq<Seq<char>> {
        self.data.deep_view()
    }

    /// A solution with the given labels.
    pub fn new(data: Vec<String>) -> (s: Self)
        ensures
            s.data() == data.deep_view(),
    {
        Solution02 { data }
    }

    /// How many labels hold some letter exactly twice, and how many hold
    /// some letter exactly thrice.
    pub fn part1(&self) -> (r: Result<(usize, usize), Error>)
        ensures
            match r {
                Ok((twos, threes)) => {
                    &&& forall|i: int| 0 <= i < self.data().len() ==> ascii(#[trigger] self.data()[i])
                    &&& twos == lines_with_count(self.data(), 2)
                    &&& threes == lines_with_count(self.data(), 3)
                },
                Err(e) => e == Error::MalformedInput && exists|i: int|
                    0 <= i < self.data().len() && !ascii(#[trigger] self.data()[i]),
            },
    {
        let labels = self.data.as_slice();
        assert(labels.deep_view() =~= self.data.deep_view());
        let r = part1(labels);
        proof {
            let text = labels.deep_view();
            assert(text == self.data());
            match r {
                Ok(_) => {
                    assert forall|i: int| 0 <= i < self.data().len() implies ascii(
                        #[trigger] self.data()[i],
                    ) by {
                        assert(ascii(text[i]));
                    }
                },
                Err(_) => {
                    let i = choose|i: int| 0 <= i < labels@.len() && !ascii(#[trigger] text[i]);
                    assert(!ascii(self.data()[i]));
                },
            }
        }
        r
    }

    /// The letters that the first two labels share which differ in
    /// exactly one place.
    pub fn part2(&self) -> (r: String)
        ensures
            is_common(self.data(), r@),
    {
        let labels = self.data.as_slice();
        assert(labels.deep_view() =~= self.data.deep_view());
        part2(labels)
    }
}

} // verus!
