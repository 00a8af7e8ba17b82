//! The cycle detector: the values that a register takes at a checkpoint,
//! up to the first value that comes a second time.

use crate::vm::instruction::Opcode;
use crate::vm::program::{ip_at, run, Program};
use crate::vm::register::{Cpu, Reg};
use vstd::prelude::*;

verus! {

/// Whether position `i` of `values` holds the first repeated value: the
/// values before it are all different, and one of them is `values[i]`.
pub open spec fn is_first_repeat(values: Seq<u64>, i: int) -> bool {
    &&& 0 <= i < values.len()
    &&& values.subrange(0, i).no_duplicates()
    &&& values.subrange(0, i).contains(values[i])
}

/// The first value of the sequence and the last new value before the first
/// repeat; nothing where no value comes twice.
pub open spec fn cycle_of(values: Seq<u64>) -> Option<(u64, u64)> {
    if exists|i: int| is_first_repeat(values, i) {
        let i = choose|i: int| is_first_repeat(values, i);
        Some((values[0], values[i - 1]))
    } else {
        None
    }
}

/// A sequence has at most one first repeat.
pub proof fn lemma_first_repeat_unique(values: Seq<u64>, i: int, j: int)
    requires
        is_first_repeat(values, i),
        is_first_repeat(values, j),
    ensures
        i == j,
{
    if i < j {
        let before = values.subrange(0, j);
        let k = choose|k: int| 0 <= k < i && values.subrange(0, i)[k] == values[i];
        assert(before[k] == before[i]);
    } else if j < i {
        let before = values.subrange(0, i);
        let k = choose|k: int| 0 <= k < j && values.subrange(0, j)[k] == values[j];
        assert(before[k] == before[j]);
    }
}

/// The first repeat of a sequence is the first repeat of every sequence
/// that begins with it.
pub proof fn lemma_first_repeat_extends(short: Seq<u64>, long: Seq<u64>, i: int)
    requires
        is_first_repeat(short, i),
        short.len() <= long.len(),
        long.subrange(0, short.len() as int) == short,
    ensures
        is_first_repeat(long, i),
        cycle_of(long) == Some((short[0], short[i - 1])),
{
    assert(long.subrange(0, i) =~= short.subrange(0, i));
    assert(long[i] == short[i]);
    let k = choose|k: int| 0 <= k < i && short.subrange(0, i)[k] == short[i];
    assert(i >= 1);
    assert(long[0] == short[0]);
    assert(long[i - 1] == short[i - 1]);
    assert(long.subrange(0, i).contains(long[i]));
    assert(is_first_repeat(long, i));
    let chosen = choose|c: int| is_first_repeat(long, c);
    lemma_first_repeat_unique(long, i, chosen);
}

/// Where all values differ there is no cycle.
pub proof fn lemma_no_repeat(values: Seq<u64>)
    requires
        values.no_duplicates(),
    ensures
        cycle_of(values) is None,
{
    assert forall|i: int| !is_first_repeat(values, i) by {
        if is_first_repeat(values, i) {
            let k = choose|k: int| 0 <= k < i && values.subrange(0, i)[k] == values[i];
            assert(values[k] == values[i]);
        }
    }
}

/// The values seen so far, in the order of their discovery.
#[derive(Debug)]
pub struct CycleDetector {
    seen: Vec<u64>,
}

impl View for CycleDetector {
    type V = Seq<u64>;

    closed spec fn view(&self) -> Seq<u64> {
        self.seen@
    }
}

impl CycleDetector {
    /// No value is recorded twice.
    pub open spec fn wf(self) -> bool {
        self@.no_duplicates()
    }

    /// A detector that has seen nothing.
    pub fn new() -> (d: Self)
        ensures
            d@ == Seq::<u64>::empty(),
            d.wf(),
    {
        CycleDetector { seen: Vec::new() }
    }

    /// Whether `val` has been seen.
    pub fn contains(&self, val: u64) -> (b: bool)
        ensures
            b == self@.contains(val),
    {
        let mut i: usize = 0;
        while i < self.seen.len()
            invariant
                i <= self.seen@.len(),
                forall|j: int| 0 <= j < i ==> self.seen@[j] != val,
            decreases self.seen@.len() - i,
        {
            if self.seen[i] == val {
                return true;
            }
            i += 1;
        }
        false
    }

    /// The first value seen.
    pub fn first(&self) -> (v: Option<u64>)
        ensures
            v == (if self@.len() > 0 {
                Some(self@[0])
            } else {
                None
            }),
    {
        if self.seen.len() > 0 {
            Some(self.seen[0])
        } else {
            None
        }
    }

    /// The value seen last.
    pub fn last(&self) -> (v: Option<u64>)
        ensures
            v == (if self@.len() > 0 {
                Some(self@.last())
            } else {
                None
            }),
    {
        if self.seen.len() > 0 {
            Some(self.seen[self.seen.len() - 1])
        } else {
            None
        }
    }

    /// Takes note of `val`. A new value is recorded and nothing is
    /// returned. A value seen before ends the search: the detector stays
    /// as it is and returns the last new value.
    pub fn observe(&mut self, val: u64) -> (r: Option<u64>)
        requires
            old(self).wf(),
        ensures
            final(self).wf(),
            old(self)@.contains(val) ==> r == Some(old(self)@.last()) && final(self)@ == old(self)@,
            !old(self)@.contains(val) ==> r is None && final(self)@ == old(self)@.push(val),
    {
        if self.contains(val) {
            self.last()
        } else {
            proof {
                let after = self.seen@.push(val);
                assert forall|i: int, j: int|
                    0 <= i < after.len() && 0 <= j < after.len() && i != j implies after[i]
                    != after[j] by {
                    if i < self.seen@.len() && j < self.seen@.len() {
                        assert(self.seen@[i] != self.seen@[j]);
                    }
                }
            }
            self.seen.push(val);
            None
        }
    }
}

/// The first value of `values` and the last new value before the first
/// repeat.
pub fn scan_cycle(values: &[u64]) -> (r: Option<(u64, u64)>)
    ensures
        r == cycle_of(values@),
{
    let mut detector = CycleDetector::new();
    let mut i: usize = 0;
    while i < values.len()
        invariant
            i <= values@.len(),
            detector@ == values@.subrange(0, i as int),
            detector@.no_duplicates(),
        decreases values@.len() - i,
    {
        let ghost before = detector@;
        match detector.observe(values[i]) {
            Some(last) => {
                let first = detector.first();
                proof {
                    assert(is_first_repeat(values@, i as int));
                    assert(values@.subrange(0, values@.len() as int) =~= values@);
                    lemma_first_repeat_extends(values@, values@, i as int);
                    assert(before[i - 1] == values@[i - 1]);
                    assert(before[0] == values@[0]);
                }
                return Some((first.unwrap(), last));
            },
            None => {
                assert(before.push(values@[i as int]) =~= values@.subrange(0, i + 1));
            },
        }
        i += 1;
    }
    proof {
        assert(values@.subrange(0, i as int) =~= values@);
        lemma_no_repeat(values@);
    }
    None
}

/// The values of the register `observed` at the visits of the position
/// `checkpoint` during the first `steps` steps from `regs`, each read
/// before the instruction at the checkpoint runs.
pub open spec fn observations<const N: usize>(
    ops: Seq<Opcode<N>>,
    ip: Reg<N>,
    regs: Seq<u64>,
    checkpoint: u64,
    observed: Reg<N>,
    steps: nat,
) -> Seq<u64>
    decreases steps,
{
    if steps == 0 {
        Seq::empty()
    } else {
        let before = observations(ops, ip, regs, checkpoint, observed, (steps - 1) as nat);
        let state = run(ops, ip, regs, (steps - 1) as nat);
        if ip_at(ip, state) == checkpoint {
            before.push(state[observed.index()])
        } else {
            before
        }
    }
}

/// The observations of fewer steps are the beginning of those of more
/// steps.
pub proof fn lemma_observations_extend<const N: usize>(
    ops: Seq<Opcode<N>>,
    ip: Reg<N>,
    regs: Seq<u64>,
    checkpoint: u64,
    observed: Reg<N>,
    fewer: nat,
    more: nat,
)
    requires
        fewer <= more,
    ensures
        observations(ops, ip, regs, checkpoint, observed, fewer).len() <= observations(
            ops,
            ip,
            regs,
            checkpoint,
            observed,
            more,
        ).len(),
        observations(ops, ip, regs, checkpoint, observed, more).subrange(
            0,
            observations(ops, ip, regs, checkpoint, observed, fewer).len() as int,
        ) == observations(ops, ip, regs, checkpoint, observed, fewer),
    decreases more,
{
    let short = observations(ops, ip, regs, checkpoint, observed, fewer);
    let long = observations(ops, ip, regs, checkpoint, observed, more);
    if fewer == more {
        assert(long.subrange(0, short.len() as int) =~= short);
    } else {
        lemma_observations_extend(ops, ip, regs, checkpoint, observed, fewer, (more - 1) as nat);
        let middle = observations(ops, ip, regs, checkpoint, observed, (more - 1) as nat);
        assert(long.subrange(0, short.len() as int) =~= middle.subrange(0, short.len() as int));
    }
}

/// Whether the machine first stands at `checkpoint` after exactly `steps`
/// steps from `regs`.
pub open spec fn first_visit<const N: usize>(
    ops: Seq<Opcode<N>>,
    ip: Reg<N>,
    regs: Seq<u64>,
    checkpoint: u64,
    steps: nat,
) -> bool {
    &&& ip_at(ip, run(ops, ip, regs, steps)) == checkpoint
    &&& forall|m: nat| m < steps ==> ip_at(ip, #[trigger] run(ops, ip, regs, m)) != checkpoint
}

impl<const N: usize> Program<N> {
    /// The values of the register `observed` at the visits of the
    /// position `checkpoint` during the first `steps` steps from `regs`.
    #[verifier::inline]
    pub open spec fn observations(
        self,
        regs: Seq<u64>,
        checkpoint: u64,
        observed: Reg<N>,
        steps: nat,
    ) -> Seq<u64> {
        observations(self.ops(), self.ip_reg(), regs, checkpoint, observed, steps)
    }

    /// Runs the program until the instruction pointer stands at
    /// `checkpoint`, for at most `limit` steps. Returns the number of
    /// steps taken.
    pub fn run_until(&self, cpu: &mut Cpu<N>, checkpoint: u64, limit: u64) -> (steps: u64)
        ensures
            steps <= limit,
            final(cpu)@ == self.run(old(cpu)@, steps as nat),
            forall|m: nat| m < steps ==> self.ip_at(#[trigger] self.run(old(cpu)@, m)) != checkpoint,
            steps < limit ==> self.ip_at(final(cpu)@) == checkpoint,
    {
        let mut steps: u64 = 0;
        while steps < limit && self.ip(cpu) != checkpoint
            invariant
                steps <= limit,
                cpu@ == self.run(old(cpu)@, steps as nat),
                forall|m: nat|
                    m < steps ==> self.ip_at(#[trigger] self.run(old(cpu)@, m)) != checkpoint,
            decreases limit - steps,
        {
            self.run_once(cpu);
            steps += 1;
        }
        steps
    }

    /// Runs the program for at most `limit` steps and watches the register
    /// `observed` whenever the instruction pointer stands at `checkpoint`.
    /// Stops at the first value that comes a second time, and returns the
    /// first value seen and the last new value seen before the repeat.
    pub fn find_cycle(&self, cpu: &mut Cpu<N>, checkpoint: u64, observed: Reg<N>, limit: u64) -> (r:
        Option<(u64, u64)>)
        ensures
            r == cycle_of(self.observations(old(cpu)@, checkpoint, observed, limit as nat)),
    {
        let mut detector = CycleDetector::new();
        let mut steps: u64 = 0;
        while steps < limit
            invariant
                steps <= limit,
                cpu@ == self.run(old(cpu)@, steps as nat),
                detector@ == self.observations(old(cpu)@, checkpoint, observed, steps as nat),
                detector@.no_duplicates(),
            decreases limit - steps,
        {
            if self.ip(cpu) == checkpoint {
                let val = cpu.get_reg(observed);
                let ghost before = detector@;
                match detector.observe(val) {
                    Some(last) => {
                        let first = detector.first();
                        proof {
                            let short = self.observations(
                                old(cpu)@,
                                checkpoint,
                                observed,
                                (steps + 1) as nat,
                            );
                            let long = self.observations(
                                old(cpu)@,
                                checkpoint,
                                observed,
                                limit as nat,
                            );
                            assert(short == before.push(val));
                            let i = before.len() as int;
                            assert(short.subrange(0, i) =~= before);
                            assert(is_first_repeat(short, i));
                            lemma_observations_extend(
                                self.ops(),
                                self.ip_reg(),
                                old(cpu)@,
                                checkpoint,
                                observed,
                                (steps + 1) as nat,
                                limit as nat,
                            );
                            lemma_first_repeat_extends(short, long, i);
                        }
                        return Some((first.unwrap(), last));
                    },
                    None => {},
                }
            }
            self.run_once(cpu);
            steps += 1;
        }
        proof {
            lemma_no_repeat(detector@);
        }
        None
    }
}

} // verus!
