//! Changes of frequency: where do they lead, and which frequency is
//! reached twice first?

use crate::error::Error;
use crate::util::text::{decimal_i64, lines, parse_i64, text_lines};
use std::collections::BTreeSet;
use vstd::prelude::*;

verus! {

broadcast use {vstd::std_specs::btree::group_btree_axioms, vstd::laws_cmp::group_laws_cmp};

/// The frequency after the first `k` changes, where the list of changes
/// starts over at its end.
pub open spec fn frequency(data: Seq<i64>, k: nat) -> int
    decreases k,
{
    if k == 0 || data.len() == 0 {
        0
    } else {
        frequency(data, (k - 1) as nat) + data[((k - 1) % (data.len() as int)) as int]
    }
}

/// Whether the frequency after `k` changes fits the machine.
pub open spec fn fits(data: Seq<i64>, k: nat) -> bool {
    i64::MIN <= frequency(data, k) <= i64::MAX
}

/// Whether the frequency after `k` changes has been reached before, and
/// none of the earlier ones has.
pub open spec fn first_twice(data: Seq<i64>, k: nat) -> bool {
    &&& exists|j: nat| j < k && frequency(data, j) == frequency(data, k)
    &&& forall|i: nat, j: nat| i < j < k ==> frequency(data, i) != frequency(data, j)
}

/// The changes of frequency of the puzzle.
#[derive(Debug)]
pub struct Solution01 {
    data: Vec<i64>,
}

impl Solution01 {
    /// The changes of frequency.
    pub closed spec fn data(self) -> Seq<i64> {
        self.data@
    }

    /// A solution with the given changes.
    pub fn new(data: Vec<i64>) -> (s: Self)
        ensures
            s.data() == data@,
    {
        Solution01 { data }
    }

    /// Reads one change from each line. On an error the solution keeps
    /// what it had.
    pub fn init(&mut self, input: &str) -> (r: Result<(), Error>)
        ensures
            match r {
                Ok(()) => {
                    &&& final(self).data().len() == text_lines(input@).len()
                    &&& forall|i: int|
                        0 <= i < text_lines(input@).len() ==> decimal_i64(
                            #[trigger] text_lines(input@)[i],
                        ) == Some(final(self).data()[i])
                },
                Err(e) => e == Error::MalformedInput && *final(self) == *old(self) && exists|i: int|
                    0 <= i < text_lines(input@).len() && decimal_i64(
                        #[trigger] text_lines(input@)[i],
                    ) is None,
            },
    {
        let all = lines(input);
        let mut data: Vec<i64> = Vec::new();
        let mut i: usize = 0;
        while i < all.len()
            invariant
                i <= all@.len(),
                data@.len() == i,
                all.deep_view() == text_lines(input@),
                forall|j: int|
                    0 <= j < i ==> decimal_i64(#[trigger] all.deep_view()[j]) == Some(data@[j]),
            decreases all@.len() - i,
        {
            assert(all.deep_view()[i as int] == all@[i as int]@);
            match parse_i64(all[i].as_str()) {
                Some(v) => {
                    data.push(v);
                },
                None => {
                    return Err(Error::MalformedInput);
                },
            }
            i += 1;
        }
        self.data = data;
        Ok(())
    }

    /// The frequency after every change has been made once; `Overflow`
    /// where a frequency on the way does not fit the machine.
    pub fn part1(&self) -> (r: Result<i64, Error>)
        ensures
            match r {
                Ok(v) => v == frequency(self.data(), self.data().len()) && forall|k: nat|
                    k <= self.data().len() ==> fits(self.data(), k),
                Err(e) => e == Error::Overflow && exists|k: nat|
                    k <= self.data().len() && !fits(self.data(), k),
            },
    {
        let mut cur: i64 = 0;
        let mut i: usize = 0;
        while i < self.data.len()
            invariant
                i <= self.data@.len(),
                cur == frequency(self.data@, i as nat),
                forall|k: nat| k <= i ==> fits(self.data@, k),
            decreases self.data@.len() - i,
        {
            let offset = self.data[i];
            proof {
                let n = self.data@.len() as int;
                assert((i as int) % n == i) by (nonlinear_arith)
                    requires
                        0 <= i < n,
                ;
                assert(frequency(self.data@, (i + 1) as nat) == cur + offset);
            }
            match cur.checked_add(offset) {
                Some(next) => {
                    cur = next;
                },
                None => {
                    assert(!fits(self.data(), (i + 1) as nat) && (i + 1) as nat <= self.data().len());
                    return Err(Error::Overflow);
                },
            }
            i += 1;
        }
        Ok(cur)
    }

    /// The first frequency that is reached twice, if one is within `limit`
    /// changes; `Overflow` where a frequency before that does not fit the
    /// machine.
    pub fn part2(&self, limit: usize) -> (r: Result<Option<i64>, Error>)
        ensures
            match r {
                Ok(Some(v)) => exists|k: nat|
                    k <= limit && first_twice(self.data(), k) && v == frequency(self.data(), k),
                Ok(None) => forall|i: nat, j: nat|
                    i < j <= limit ==> frequency(self.data(), i) != frequency(self.data(), j),
                Err(e) => e == Error::Overflow && exists|k: nat|
                    0 < k <= limit && !fits(self.data(), k) && forall|i: nat, j: nat|
                        i < j < k ==> frequency(self.data(), i) != frequency(self.data(), j),
            },
    {
        let n = self.data.len();
        let ghost data = self.data@;
        let mut seen: BTreeSet<i64> = BTreeSet::new();
        let mut freq: i64 = 0;
        let mut k: usize = 0;
        let mut at: usize = 0;
        loop
            invariant
                k <= limit,
                n == data.len(),
                data == self.data@,
                n > 0 ==> at == k % n,
                n > 0 ==> at < n,
                freq == frequency(data, k as nat),
                forall|v: i64|
                    seen@.contains(v) <==> exists|j: nat| j < k && frequency(data, j) == v,
                forall|i: nat, j: nat| i < j < k ==> frequency(data, i) != frequency(data, j),
            decreases limit - k,
        {
            if seen.contains(&freq) {
                proof {
                    assert(seen@.contains(freq));
                    assert(exists|j: nat| j < k && frequency(data, j) == freq);
                    assert(first_twice(self.data(), k as nat));
                }
                return Ok(Some(freq));
            }
            if k == limit {
                proof {
                    assert forall|i: nat, j: nat| i < j <= limit implies frequency(data, i)
                        != frequency(data, j) by {
                        if j == k {
                            if frequency(data, i) == frequency(data, j) {
                                assert(seen@.contains(freq));
                            }
                        }
                    }
                }
                return Ok(None);
            }
            seen.insert(freq);
            proof {
                assert forall|i: nat, j: nat| i < j < k + 1 implies frequency(data, i)
                    != frequency(data, j) by {
                    if j == k {
                        if frequency(data, i) == frequency(data, j) {
                            assert(old_contained(data, k as nat, freq));
                        }
                    }
                }
            }
            if n > 0 {
                let offset = self.data[at];
                assert(frequency(data, (k + 1) as nat) == freq + offset);
                match freq.checked_add(offset) {
                    Some(next) => {
                        freq = next;
                    },
                    None => {
                        assert(!fits(self.data(), (k + 1) as nat) && 0 < (k + 1) as nat <= limit);
                        return Err(Error::Overflow);
                    },
                }
                let ghost before = at;
                at = if at + 1 == n {
                    0
                } else {
                    at + 1
                };
                proof {
                    lemma_next_place(k as int, n as int);
                }
            }
            k += 1;
        }
    }
}

/// The place in a list of `n` changes moves on by one with every change,
/// and starts over at the end.
pub proof fn lemma_next_place(k: int, n: int)
    requires
        0 <= k,
        0 < n,
    ensures
        (k + 1) % n == (if k % n + 1 == n {
            0
        } else {
            k % n + 1
        }),
{
    assert((k + 1) % n == (if k % n + 1 == n {
        0
    } else {
        k % n + 1
    })) by (nonlinear_arith)
        requires
            0 <= k,
            0 < n,
    ;
}

/// Whether the frequency `v` has been reached within the first `k`
/// changes.
pub open spec fn old_contained(data: Seq<i64>, k: nat, v: i64) -> bool {
    exists|j: nat| j < k && frequency(data, j) == v
}

} // verus!
