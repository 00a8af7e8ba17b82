//! A program with the instruction pointer bound to a register: run it to
//! the end, and sum the divisors that it would take far too long to find.

use crate::error::Error;
use crate::vm::instruction::Opcode;
use crate::vm::parse::{program_agrees, program_of_lines};
use crate::vm::program::{halted, run, Program};
use crate::vm::register::{Cpu, Reg};
use crate::util::text::text_lines;
use vstd::prelude::*;

verus! {

/// Six registers at zero.
pub open spec fn zeroed() -> Seq<u64> {
    Seq::new(6, |i: int| 0u64)
}

/// The sum of the numbers from 1 to `upto` that divide `n`.
pub open spec fn divisor_sum(n: nat, upto: nat) -> nat
    decreases upto,
{
    if upto == 0 {
        0
    } else {
        divisor_sum(n, (upto - 1) as nat) + (if n % upto == 0 {
            upto
        } else {
            0
        })
    }
}

/// The sum of the numbers from 2 to `upto` that divide `n`.
pub open spec fn inner_divisor_sum(n: nat, upto: nat) -> nat
    decreases upto,
{
    if upto < 2 {
        0
    } else {
        inner_divisor_sum(n, (upto - 1) as nat) + (if n % upto == 0 {
            upto
        } else {
            0
        })
    }
}

/// The divisor sum grows with its bound.
pub proof fn lemma_divisor_sum_grows(n: nat, a: nat, b: nat)
    requires
        a <= b,
    ensures
        divisor_sum(n, a) <= divisor_sum(n, b),
    decreases b,
{
    if a < b {
        lemma_divisor_sum_grows(n, a, (b - 1) as nat);
    }
}

/// The inner divisor sum grows with its bound.
pub proof fn lemma_inner_divisor_sum_grows(n: nat, a: nat, b: nat)
    requires
        a <= b,
    ensures
        inner_divisor_sum(n, a) <= inner_divisor_sum(n, b),
    decreases b,
{
    if a < b {
        lemma_inner_divisor_sum_grows(n, a, (b - 1) as nat);
    }
}

/// Whether some number from 1 to `upto` times `r5` is `n`.
pub open spec fn has_cofactor(n: nat, r5: nat, upto: nat) -> bool {
    exists|r2: nat| 1 <= r2 <= upto && #[trigger] (r5 * r2) == n
}

proof fn lemma_cofactor(n: nat, r5: nat)
    requires
        1 <= r5 <= n,
    ensures
        has_cofactor(n, r5, n) <==> n % r5 == 0,
{
    if n % r5 == 0 {
        let q = n / r5;
        assert(n == r5 * q) by (nonlinear_arith)
            requires
                n % r5 == 0,
                q == n / r5,
                r5 > 0,
        ;
        assert(1 <= q <= n) by (nonlinear_arith)
            requires
                n == r5 * q,
                1 <= r5 <= n,
        ;
        assert(r5 * q == n);
    }
    if has_cofactor(n, r5, n) {
        let r2 = choose|r2: nat| 1 <= r2 <= n && #[trigger] (r5 * r2) == n;
        assert(n % r5 == 0) by (nonlinear_arith)
            requires
                r5 * r2 == n,
                r5 > 0,
        ;
    }
}

/// The sum of the divisors of `n`, found as the program finds it: by
/// trying every pair of factors.
pub fn sum_fact19(n: usize) -> (sum: usize)
    requires
        divisor_sum(n as nat, n as nat) <= usize::MAX,
    ensures
        sum == divisor_sum(n as nat, n as nat),
{
    let mut counter: usize = 0;
    let mut i: usize = 0;
    while i < n
        invariant
            i <= n,
            counter == divisor_sum(n as nat, i as nat),
            divisor_sum(n as nat, n as nat) <= usize::MAX,
        decreases n - i,
    {
        let r5 = i + 1;
        let mut j: usize = 0;
        let mut hit = false;
        while j < n
            invariant
                j <= n,
                1 <= r5 <= n,
                hit == has_cofactor(n as nat, r5 as nat, j as nat),
            decreases n - j,
        {
            let r2 = j + 1;
            assert((r5 as u128) * (r2 as u128) <= u128::MAX) by (nonlinear_arith)
                requires
                    r5 <= 0xffff_ffff_ffff_ffff,
                    r2 <= 0xffff_ffff_ffff_ffff,
            ;
            if (r5 as u128) * (r2 as u128) == n as u128 {
                assert((r5 as nat) * (r2 as nat) == n as nat);
                hit = true;
            }
            proof {
                if has_cofactor(n as nat, r5 as nat, r2 as nat) && !hit {
                    let w = choose|w: nat| 1 <= w <= r2 && #[trigger] ((r5 as nat) * w) == n;
                    assert(w != r2);
                    assert(1 <= w <= j);
                }
            }
            j += 1;
        }
        proof {
            lemma_cofactor(n as nat, r5 as nat);
            lemma_divisor_sum_grows(n as nat, r5 as nat, n as nat);
        }
        if hit {
            counter += r5;
        }
        i += 1;
    }
    counter
}

/// The sum of the divisors of `n` from 2 to `n / 2`, and `n` and one on
/// top: for `n` above one, the sum of all divisors of `n`.
pub fn sum_fact(n: u64) -> (sum: u64)
    requires
        inner_divisor_sum(n as nat, (n / 2) as nat) + n + 1 <= u64::MAX,
    ensures
        sum == inner_divisor_sum(n as nat, (n / 2) as nat) + n + 1,
{
    let half = n / 2;
    let mut sum: u64 = 0;
    let mut i: u64 = 2;
    while i <= half
        invariant
            2 <= i <= half + 1 || (half < 2 && i == 2),
            half == n / 2,
            sum == inner_divisor_sum(n as nat, (i - 1) as nat),
            inner_divisor_sum(n as nat, half as nat) + n + 1 <= u64::MAX,
        decreases half + 1 - i,
    {
        proof {
            lemma_inner_divisor_sum_grows(n as nat, i as nat, half as nat);
        }
        if n % i == 0 {
            sum += i;
        }
        i += 1;
    }
    proof {
        if half < 2 {
            assert(inner_divisor_sum(n as nat, half as nat) == 0);
        }
    }
    sum + n + 1
}

impl Program<6> {
    /// Runs the program on registers at zero for at most `limit` steps and
    /// returns what register zero holds once it has halted.
    pub fn run1(&self, limit: u64) -> (r: Option<u64>)
        ensures
            r == (if self.halted(self.run(zeroed(), limit as nat)) {
                Some(self.run(zeroed(), limit as nat)[0])
            } else {
                None
            }),
    {
        let mut cpu = Cpu::<6>::new();
        let halted = self.run_with_cpu(&mut cpu, limit);
        if halted {
            match Reg::<6>::from_index(0) {
                Ok(r0) => {
                    proof {
                        Reg::<6>::lemma_at_index(0);
                    }
                    Some(cpu.get_reg(r0))
                },
                Err(_) => None,
            }
        } else {
            None
        }
    }

    /// The instructions of the program with the second one replaced by a
    /// jump far out of the program.
    pub open spec fn cut_short(self) -> Seq<Opcode<6>> {
        if self.ops().len() > 1 {
            self.ops().update(1, Opcode::<6>::Seti { a: 1000, c: self.ip_reg() })
        } else {
            self.ops()
        }
    }

    /// Runs the program with register zero at one, cut short after its
    /// set-up: the second instruction is replaced by a jump out of the
    /// program. Returns what register four holds once it has halted.
    pub fn run2(&self, limit: u64) -> (r: Option<u64>)
        ensures
            r == (if halted(
                self.cut_short(),
                self.ip_reg(),
                run(self.cut_short(), self.ip_reg(), zeroed().update(0, 1), limit as nat),
            ) {
                Some(run(self.cut_short(), self.ip_reg(), zeroed().update(0, 1), limit as nat)[4])
            } else {
                None
            }),
    {
        let jump = Opcode::<6>::Seti { a: 1000, c: self.pointer_register() };
        let modded = self.patched(1, jump);
        let mut cpu = Cpu::<6>::new();
        match (Reg::<6>::from_index(0), Reg::<6>::from_index(4)) {
            (Ok(r0), Ok(r4)) => {
                proof {
                    Reg::<6>::lemma_at_index(0);
                    Reg::<6>::lemma_at_index(4);
                }
                cpu.set_reg(r0, 1);
                let halted = modded.run_with_cpu(&mut cpu, limit);
                if halted {
                    Some(cpu.get_reg(r4))
                } else {
                    None
                }
            },
            _ => None,
        }
    }
}

/// What register zero holds when the program halts, if it does so within
/// `limit` steps.
pub fn part1(p: &Program<6>, limit: u64) -> (r: Option<u64>)
    ensures
        r == (if p.halted(p.run(zeroed(), limit as nat)) {
            Some(p.run(zeroed(), limit as nat)[0])
        } else {
            None
        }),
{
    p.run1(limit)
}

/// The number that the program, started with register zero at one, sets
/// out to sum the divisors of.
pub fn part2(p: &Program<6>, limit: u64) -> (r: Option<u64>)
    ensures
        r == (if halted(
            p.cut_short(),
            p.ip_reg(),
            run(p.cut_short(), p.ip_reg(), zeroed().update(0, 1), limit as nat),
        ) {
            Some(run(p.cut_short(), p.ip_reg(), zeroed().update(0, 1), limit as nat)[4])
        } else {
            None
        }),
{
    p.run2(limit)
}

/// The two programs of the puzzle: the example and the input.
#[derive(Debug)]
pub struct Solution19 {
    pub sample: Option<Program<6>>,
    pub data: Option<Program<6>>,
}

impl Solution19 {
    /// The example program, once read.
    pub closed spec fn sample(self) -> Option<Program<6>> {
        self.sample
    }

    /// The input program, once read.
    pub closed spec fn data(self) -> Option<Program<6>> {
        self.data
    }

    /// A solution without input.
    pub fn new() -> (s: Self)
        ensures
            s.sample() is None,
            s.data() is None,
    {
        Solution19 { sample: None, data: None }
    }

    /// Reads the example and the input. On an error the solution keeps
    /// what it had.
    pub fn init(&mut self, sample: &str, data: &str) -> (r: Result<(), Error>)
        ensures
            match r {
                Ok(()) => final(self).sample() is Some && final(self).data() is Some
                    && program_agrees(
                    Ok(final(self).sample().unwrap()),
                    program_of_lines::<6>(text_lines(sample@)),
                ) && program_agrees(
                    Ok(final(self).data().unwrap()),
                    program_of_lines::<6>(text_lines(data@)),
                ),
                Err(e) => *final(self) == *old(self) && (program_of_lines::<6>(text_lines(sample@))
                    == Err::<(Seq<Opcode<6>>, Reg<6>), Error>(e) || program_of_lines::<6>(
                    text_lines(data@),
                ) == Err::<(Seq<Opcode<6>>, Reg<6>), Error>(e)),
            },
    {
        let sample = match Program::<6>::parse(sample) {
            Ok(p) => p,
            Err(e) => {
                return Err(e);
            },
        };
        let data = match Program::<6>::parse(data) {
            Ok(p) => p,
            Err(e) => {
                return Err(e);
            },
        };
        self.sample = Some(sample);
        self.data = Some(data);
        Ok(())
    }

    /// Register zero of the example and of the input after each has run
    /// for at most `limit` steps; nothing for a program that was not read
    /// or has not halted by then.
    pub fn part1(&self, limit: u64) -> (r: (Option<u64>, Option<u64>))
        ensures
            self.sample() matches Some(p) ==> r.0 == (if p.halted(p.run(zeroed(), limit as nat)) {
                Some(p.run(zeroed(), limit as nat)[0])
            } else {
                None
            }),
            self.sample() is None ==> r.0 is None,
            self.data() matches Some(p) ==> r.1 == (if p.halted(p.run(zeroed(), limit as nat)) {
                Some(p.run(zeroed(), limit as nat)[0])
            } else {
                None
            }),
            self.data() is None ==> r.1 is None,
    {
        let first = match &self.sample {
            Some(p) => part1(p, limit),
            None => None,
        };
        let second = match &self.data {
            Some(p) => part1(p, limit),
            None => None,
        };
        (first, second)
    }
}

} // verus!
