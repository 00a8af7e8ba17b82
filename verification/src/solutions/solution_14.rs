//! Two elves make recipes: each new score is the sum of their two current
//! scores, written digit by digit onto the scoreboard.

use vstd::prelude::*;

verus! {

/// The number that the digits write in base ten.
pub open spec fn number_of(digits: Seq<u8>) -> nat
    decreases digits.len(),
{
    if digits.len() == 0 {
        0
    } else {
        number_of(digits.drop_last()) * 10 + digits.last() as nat
    }
}

/// The digits of `n` in base ten, none for zero.
pub open spec fn digits(n: nat) -> Seq<u8>
    decreases n,
{
    if n == 0 {
        Seq::empty()
    } else {
        digits(n / 10).push((n % 10) as u8)
    }
}

/// Whether every member is a digit.
pub open spec fn all_digits(r: Seq<u8>) -> bool {
    forall|i: int| 0 <= i < r.len() ==> (#[trigger] r[i]) <= 9
}

/// The digits of a number write the number, and are digits.
pub proof fn lemma_digits(n: nat)
    ensures
        number_of(digits(n)) == n,
        all_digits(digits(n)),
        n > 0 ==> digits(n).len() > 0 && digits(n)[0] != 0,
        n >= 10 ==> digits(n).len() >= 2,
    decreases n,
{
    if n > 0 {
        lemma_digits(n / 10);
        let d = digits(n);
        assert(d.drop_last() =~= digits(n / 10));
        if n >= 10 {
            assert(d[0] == digits(n / 10)[0]);
        }
    }
}

/// More digits never write a smaller number.
pub proof fn lemma_number_grows(r: Seq<u8>, k: int)
    requires
        0 <= k <= r.len(),
    ensures
        number_of(r.subrange(0, k)) <= number_of(r),
    decreases r.len(),
{
    if k == r.len() {
        assert(r.subrange(0, k) =~= r);
    } else {
        lemma_number_grows(r.drop_last(), k);
        assert(r.drop_last().subrange(0, k) =~= r.subrange(0, k));
    }
}

/// The number that the digits write.
pub fn get_num(data: &[u8]) -> (num: u64)
    requires
        number_of(data@) <= u64::MAX,
    ensures
        num == number_of(data@),
{
    let mut num: u64 = 0;
    let mut i: usize = 0;
    assert(data@.subrange(0, 0) =~= Seq::<u8>::empty());
    while i < data.len()
        invariant
            i <= data@.len(),
            num == number_of(data@.subrange(0, i as int)),
            number_of(data@) <= u64::MAX,
        decreases data@.len() - i,
    {
        proof {
            let next = data@.subrange(0, i + 1);
            assert(next.drop_last() =~= data@.subrange(0, i as int));
            assert(next.last() == data@[i as int]);
            lemma_number_grows(data@, i + 1);
        }
        num = num * 10 + data[i] as u64;
        i += 1;
    }
    assert(data@.subrange(0, i as int) =~= data@);
    num
}

/// The digits of `num`, none for zero.
pub fn get_data(num: u64) -> (data: Vec<u8>)
    ensures
        data@ == digits(num as nat),
    decreases num,
{
    if num == 0 {
        Vec::new()
    } else {
        let mut data = get_data(num / 10);
        data.push((num % 10) as u8);
        data
    }
}

/// The scoreboard and the places of the current recipes of the two elves.
pub struct Board {
    pub r: Seq<u8>,
    pub e1: nat,
    pub e2: nat,
}

impl Board {
    /// The elves stand on the board, which holds digits only.
    pub open spec fn wf(self) -> bool {
        &&& all_digits(self.r)
        &&& self.e1 < self.r.len()
        &&& self.e2 < self.r.len()
    }

    /// The sum of the two current recipes.
    pub open spec fn sum(self) -> nat {
        (self.r[self.e1 as int] + self.r[self.e2 as int]) as nat
    }

    /// The scores after the elves have made new recipes: the digits of the
    /// sum of their current recipes come onto the board.
    pub open spec fn scores(self) -> Seq<u8> {
        if self.sum() > 9 {
            self.r.push((self.sum() / 10) as u8).push((self.sum() % 10) as u8)
        } else {
            self.r.push(self.sum() as u8)
        }
    }

    /// The board after the elves have made new recipes and moved on: each
    /// elf steps forward one plus the score of its current recipe, around
    /// the end of the board.
    pub open spec fn step(self) -> Board {
        let r = self.scores();
        Board {
            r,
            e1: ((self.e1 + self.r[self.e1 as int] + 1) % (r.len() as int)) as nat,
            e2: ((self.e2 + self.r[self.e2 as int] + 1) % (r.len() as int)) as nat,
        }
    }

    /// The board once it holds `target` scores or more.
    pub open spec fn grow(self, target: nat) -> Board
        decreases target + 2 - self.r.len(),
    {
        if self.r.len() >= target {
            self
        } else {
            self.step().grow(target)
        }
    }

    /// Where the digits `pat` end the board, or end it but for the last
    /// score: the place of their first digit.
    pub open spec fn found(self, pat: Seq<u8>) -> Option<nat> {
        let n = self.r.len() as int;
        let m = pat.len() as int;
        if n - 1 > m && self.r.subrange(n - 1 - m, n - 1) == pat {
            Some((n - 1 - m) as nat)
        } else if n > m && self.r.subrange(n - m, n) == pat {
            Some((n - m) as nat)
        } else {
            None
        }
    }

    /// The place where the digits `pat` first show up at the end of the
    /// board within `limit` rounds of new recipes.
    pub open spec fn search(self, pat: Seq<u8>, limit: nat) -> Option<nat>
        decreases limit,
    {
        if limit == 0 {
            None
        } else {
            match self.step().found(pat) {
                Some(i) => Some(i),
                None => self.step().search(pat, (limit - 1) as nat),
            }
        }
    }

    /// A step keeps a board well-formed and makes it longer.
    pub proof fn lemma_step(self)
        requires
            self.wf(),
        ensures
            self.step().wf(),
            self.r.len() < self.step().r.len() <= self.r.len() + 2,
    {
        let next = self.step();
        assert forall|i: int| 0 <= i < next.r.len() implies (#[trigger] next.r[i]) <= 9 by {
            if i < self.r.len() {
                assert(next.r[i] == self.r[i]);
            }
        }
    }
}

/// The board that the digits of `val` begin, with the elves on the first
/// two scores.
pub open spec fn start(val: u64) -> Board {
    Board { r: digits(val as nat), e1: 0, e2: 1 }
}

/// Lets the elves make new recipes and move on.
pub fn combine(r: &mut Vec<u8>, e1: &mut usize, e2: &mut usize)
    requires
        (Board { r: old(r)@, e1: *old(e1) as nat, e2: *old(e2) as nat }).wf(),
        old(r)@.len() + 2 <= usize::MAX,
    ensures
        (Board { r: final(r)@, e1: *final(e1) as nat, e2: *final(e2) as nat }) == (Board {
            r: old(r)@,
            e1: *old(e1) as nat,
            e2: *old(e2) as nat,
        }).step(),
{
    let ghost before = Board { r: r@, e1: *e1 as nat, e2: *e2 as nat };
    let r1 = r[*e1];
    let r2 = r[*e2];
    let sum = r1 + r2;
    if sum > 9 {
        r.push(sum / 10);
    }
    r.push(sum % 10);
    assert(r@ =~= before.scores());
    let n = r.len() as u128;
    *e1 = ((*e1 as u128 + r1 as u128 + 1) % n) as usize;
    *e2 = ((*e2 as u128 + r2 as u128 + 1) % n) as usize;
}

/// The ten scores after the first `n`, read as one number.
pub fn part1(val: u64, n: usize) -> (score: u64)
    requires
        val >= 10,
        n + 12 <= usize::MAX,
    ensures
        score == number_of(start(val).grow((n + 10) as nat).r.subrange(n as int, n + 10)),
{
    let mut r = get_data(val);
    let recipes = n + 10;
    let (mut e1, mut e2) = (0usize, 1usize);
    proof {
        lemma_digits(val as nat);
    }
    while r.len() < recipes
        invariant
            recipes == n + 10,
            n + 12 <= usize::MAX,
            (Board { r: r@, e1: e1 as nat, e2: e2 as nat }).wf(),
            start(val).grow(recipes as nat) == (Board { r: r@, e1: e1 as nat, e2: e2 as nat }).grow(
                recipes as nat,
            ),
        decreases recipes + 2 - r@.len(),
    {
        proof {
            (Board { r: r@, e1: e1 as nat, e2: e2 as nat }).lemma_step();
        }
        combine(&mut r, &mut e1, &mut e2);
    }
    let ten = vstd::slice::slice_subrange(r.as_slice(), n, n + 10);
    proof {
        assert(all_digits(ten@)) by {
            assert forall|i: int| 0 <= i < ten@.len() implies (#[trigger] ten@[i]) <= 9 by {
                assert(ten@[i] == r@[n + i]);
            }
        }
        lemma_ten_digits(ten@);
    }
    get_num(ten)
}

/// Ten digits write a number below ten thousand million.
pub proof fn lemma_ten_digits(r: Seq<u8>)
    requires
        all_digits(r),
        r.len() <= 10,
    ensures
        number_of(r) < pow10(r.len()),
        number_of(r) <= u64::MAX,
    decreases r.len(),
{
    if r.len() > 0 {
        lemma_ten_digits(r.drop_last());
        assert(pow10(r.len()) == 10 * pow10((r.len() - 1) as nat));
        lemma_pow10_bound(r.len());
    }
}

/// Ten to the power of `k`.
pub open spec fn pow10(k: nat) -> nat
    decreases k,
{
    if k == 0 {
        1
    } else {
        10 * pow10((k - 1) as nat)
    }
}

/// The powers of ten up to the tenth fit in 64 bits.
pub proof fn lemma_pow10_bound(k: nat)
    requires
        k <= 10,
    ensures
        pow10(k) <= 10_000_000_000,
    decreases k,
{
    reveal_with_fuel(pow10, 11);
}

fn ends_with(r: &Vec<u8>, end: usize, pat: &Vec<u8>) -> (b: bool)
    requires
        pat@.len() <= end <= r@.len(),
    ensures
        b == (r@.subrange(end - pat@.len(), end as int) == pat@),
{
    let m = pat.len();
    let from = end - m;
    let mut i: usize = 0;
    while i < m
        invariant
            i <= m,
            m == pat@.len(),
            from + m == end,
            end <= r@.len(),
            forall|j: int| 0 <= j < i ==> r@[from + j] == pat@[j],
        decreases m - i,
    {
        if r[from + i] != pat[i] {
            assert(r@.subrange(from as int, end as int)[i as int] != pat@[i as int]);
            return false;
        }
        i += 1;
    }
    assert(r@.subrange(from as int, end as int) =~= pat@);
    true
}

/// The number of scores before the digits of `pat` first show up on the
/// board, if they do so within `limit` rounds of new recipes.
pub fn part2(val: u64, pat: u64, limit: usize) -> (r: Option<usize>)
    requires
        val >= 10,
        digits(val as nat).len() + 2 * limit + 2 <= usize::MAX,
    ensures
        r.is_some() == start(val).search(digits(pat as nat), limit as nat).is_some(),
        r matches Some(i) ==> start(val).search(digits(pat as nat), limit as nat) == Some(i as nat),
{
    let mut r = get_data(val);
    let (mut e1, mut e2) = (0usize, 1usize);
    let wanted = get_data(pat);
    let m = wanted.len();
    let mut rounds: usize = 0;
    proof {
        lemma_digits(val as nat);
    }
    while rounds < limit
        invariant
            rounds <= limit,
            m == wanted@.len(),
            wanted@ == digits(pat as nat),
            (Board { r: r@, e1: e1 as nat, e2: e2 as nat }).wf(),
            r@.len() + 2 * (limit - rounds) + 2 <= usize::MAX,
            start(val).search(wanted@, limit as nat) == (Board {
                r: r@,
                e1: e1 as nat,
                e2: e2 as nat,
            }).search(wanted@, (limit - rounds) as nat),
        decreases limit - rounds,
    {
        proof {
            (Board { r: r@, e1: e1 as nat, e2: e2 as nat }).lemma_step();
        }
        combine(&mut r, &mut e1, &mut e2);
        let n = r.len();
        if n >= 1 && n - 1 > m {
            if ends_with(&r, n - 1, &wanted) {
                return Some(n - 1 - m);
            }
        }
        if n > m {
            if ends_with(&r, n, &wanted) {
                return Some(n - m);
            }
        }
        rounds += 1;
    }
    None
}

/// The number of recipes that the elves begin with, as one number.
#[derive(Debug, Clone, Copy, PartialEq, Eq, Structural)]
pub struct Solution14 {
    pub data: u64,
}

impl Solution14 {
    /// The puzzle begins with the scores three and seven.
    pub fn new() -> (s: Self)
        ensures
            s.data == 37,
    {
        Solution14 { data: 37 }
    }

    /// The ten scores after the first `n`, read as one number.
    pub fn part1(&self, n: usize) -> (score: u64)
        requires
            self.data >= 10,
            n + 12 <= usize::MAX,
        ensures
            score == number_of(start(self.data).grow((n + 10) as nat).r.subrange(n as int, n + 10)),
    {
        part1(self.data, n)
    }

    /// The number of scores before the digits of `pat` first show up.
    pub fn part2(&self, pat: u64, limit: usize) -> (r: Option<usize>)
        requires
            self.data >= 10,
            digits(self.data as nat).len() + 2 * limit + 2 <= usize::MAX,
        ensures
            r.is_some() == start(self.data).search(digits(pat as nat), limit as nat).is_some(),
            r matches Some(i) ==> start(self.data).search(digits(pat as nat), limit as nat) == Some(
                i as nat,
            ),
    {
        part2(self.data, pat, limit)
    }
}

} // verus!
