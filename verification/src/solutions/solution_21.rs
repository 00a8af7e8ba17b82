//! A program that halts when register zero equals a value that it
//! computes over and over: find the first such value and the last one
//! before they repeat.

use crate::error::Error;
use crate::vm::cycle::{cycle_of, first_visit};
use crate::vm::instruction::Opcode;
use crate::vm::parse::{program_agrees, program_of_lines};
use crate::vm::program::Program;
use crate::vm::register::{Cpu, Reg};
use crate::util::text::text_lines;
use vstd::prelude::*;

verus! {

/// The position of the comparison of the computed value with register
/// zero.
pub const CHECKPOINT: u64 = 28;

/// The register that holds the computed value.
pub const OBSERVED: usize = 3;

/// Six registers at zero.
pub open spec fn zeroed() -> Seq<u64> {
    Seq::new(6, |i: int| 0u64)
}

/// The register that is watched.
pub open spec fn observed() -> Reg<6> {
    Reg::<6>::at(OBSERVED as int)
}

/// The value that the program holds ready when it first reaches the
/// comparison, if it does so within `limit` steps.
pub fn part1(p: &Program<6>, limit: u64) -> (r: Option<u64>)
    ensures
        match r {
            Some(v) => exists|steps: nat|
                steps <= limit && #[trigger] first_visit(
                    p.ops(),
                    p.ip_reg(),
                    zeroed(),
                    CHECKPOINT,
                    steps,
                ) && v == p.run(zeroed(), steps)[OBSERVED as int],
            None => forall|m: nat|
                m <= limit ==> p.ip_at(#[trigger] p.run(zeroed(), m)) != CHECKPOINT,
        },
{
    let mut cpu = Cpu::<6>::new();
    let steps = p.run_until(&mut cpu, CHECKPOINT, limit);
    if p.ip(&cpu) == CHECKPOINT {
        match Reg::<6>::from_index(OBSERVED) {
            Ok(r3) => {
                proof {
                    Reg::<6>::lemma_at_index(OBSERVED as int);
                    assert(first_visit(p.ops(), p.ip_reg(), zeroed(), CHECKPOINT, steps as nat));
                }
                Some(cpu.get_reg(r3))
            },
            Err(_) => None,
        }
    } else {
        assert forall|m: nat| m <= limit implies p.ip_at(#[trigger] p.run(zeroed(), m))
            != CHECKPOINT by {
            if m == steps {
            }
        }
        None
    }
}

/// The last new value that the program holds ready at the comparison
/// before a value comes a second time, if that happens within `limit`
/// steps.
pub fn part2(p: &Program<6>, limit: u64) -> (r: Option<u64>)
    ensures
        r == (match cycle_of(p.observations(zeroed(), CHECKPOINT, observed(), limit as nat)) {
            Some((first, last)) => Some(last),
            None => None,
        }),
{
    let mut cpu = Cpu::<6>::new();
    match Reg::<6>::from_index(OBSERVED) {
        Ok(r3) => {
            match p.find_cycle(&mut cpu, CHECKPOINT, r3, limit) {
                Some((_, last)) => Some(last),
                None => None,
            }
        },
        Err(_) => None,
    }
}

/// The program of the puzzle.
#[derive(Debug)]
pub struct Solution21 {
    pub data: Option<Program<6>>,
}

impl Solution21 {
    /// The program, once read.
    pub closed spec fn data(self) -> Option<Program<6>> {
        self.data
    }

    /// A solution without input.
    pub fn new() -> (s: Self)
        ensures
            s.data() is None,
    {
        Solution21 { data: None }
    }

    /// Reads the program. On an error the solution keeps what it had.
    pub fn init(&mut self, data: &str) -> (r: Result<(), Error>)
        ensures
            match r {
                Ok(()) => final(self).data() is Some && program_agrees(
                    Ok(final(self).data().unwrap()),
                    program_of_lines::<6>(text_lines(data@)),
                ),
                Err(e) => *final(self) == *old(self) && program_of_lines::<6>(text_lines(data@))
                    == Err::<(Seq<Opcode<6>>, Reg<6>), Error>(e),
            },
    {
        match Program::<6>::parse(data) {
            Ok(p) => {
                self.data = Some(p);
                Ok(())
            },
            Err(e) => Err(e),
        }
    }

    /// The last new value at the comparison before the values repeat;
    /// nothing where no program was read or no value came twice within
    /// `limit` steps.
    pub fn part2(&self, limit: u64) -> (r: Option<u64>)
        ensures
            self.data() matches Some(p) ==> r == (match cycle_of(
                p.observations(zeroed(), CHECKPOINT, observed(), limit as nat),
            ) {
                Some((first, last)) => Some(last),
                None => None,
            }),
            self.data() is None ==> r is None,
    {
        match &self.data {
            Some(p) => part2(p, limit),
            None => None,
        }
    }
}

} // verus!
