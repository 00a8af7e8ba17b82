//! The program executor: a sequence of instructions run against a
//! register file, with one register bound to the instruction pointer.

use crate::vm::instruction::Opcode;
use crate::vm::register::{Cpu, Reg};
use vstd::prelude::*;

verus! {

/// The instruction pointer on the registers `regs`, where it is bound to
/// the register `ip`.
pub open spec fn ip_at<const N: usize>(ip: Reg<N>, regs: Seq<u64>) -> u64 {
    regs[ip.index()]
}

/// Whether the instruction pointer has left the program.
pub open spec fn halted<const N: usize>(ops: Seq<Opcode<N>>, ip: Reg<N>, regs: Seq<u64>) -> bool {
    ip_at(ip, regs) >= ops.len()
}

/// The registers after one instruction: the instruction at the pointer
/// runs, then the bound register, whatever the instruction left in it,
/// goes up by one.
pub open spec fn step<const N: usize>(ops: Seq<Opcode<N>>, ip: Reg<N>, regs: Seq<u64>) -> Seq<u64> {
    let after = ops[ip_at(ip, regs) as int].apply(regs);
    after.update(ip.index(), ip_at(ip, after).wrapping_add(1))
}

/// One step of the machine; a halted machine stays as it is.
pub open spec fn advance<const N: usize>(ops: Seq<Opcode<N>>, ip: Reg<N>, regs: Seq<u64>) -> Seq<
    u64,
> {
    if halted(ops, ip, regs) {
        regs
    } else {
        step(ops, ip, regs)
    }
}

/// The registers after at most `steps` steps from `regs`, fewer where the
/// machine halts before.
pub open spec fn run<const N: usize>(
    ops: Seq<Opcode<N>>,
    ip: Reg<N>,
    regs: Seq<u64>,
    steps: nat,
) -> Seq<u64>
    decreases steps,
{
    if steps == 0 {
        regs
    } else {
        advance(ops, ip, run(ops, ip, regs, (steps - 1) as nat))
    }
}

/// Once halted, the machine stays halted with the same registers.
pub proof fn lemma_halted_stays<const N: usize>(
    ops: Seq<Opcode<N>>,
    ip: Reg<N>,
    regs: Seq<u64>,
    at: nat,
    later: nat,
)
    requires
        halted(ops, ip, run(ops, ip, regs, at)),
        at <= later,
    ensures
        run(ops, ip, regs, later) == run(ops, ip, regs, at),
    decreases later,
{
    if later > at {
        lemma_halted_stays(ops, ip, regs, at, (later - 1) as nat);
    }
}

/// A program: its instructions and the register that is bound to the
/// instruction pointer.
#[derive(Clone, Debug)]
pub struct Program<const N: usize> {
    ops: Vec<Opcode<N>>,
    ip_reg: Reg<N>,
}

impl<const N: usize> Program<N> {
    /// The instructions of the program.
    pub closed spec fn ops(self) -> Seq<Opcode<N>> {
        self.ops@
    }

    /// The register bound to the instruction pointer.
    pub closed spec fn ip_reg(self) -> Reg<N> {
        self.ip_reg
    }

    /// The instruction pointer on the registers `regs`.
    #[verifier::inline]
    pub open spec fn ip_at(self, regs: Seq<u64>) -> u64 {
        ip_at(self.ip_reg(), regs)
    }

    /// Whether the instruction pointer has left the program.
    #[verifier::inline]
    pub open spec fn halted(self, regs: Seq<u64>) -> bool {
        halted(self.ops(), self.ip_reg(), regs)
    }

    /// One step of the machine; a halted machine stays as it is.
    #[verifier::inline]
    pub open spec fn advance(self, regs: Seq<u64>) -> Seq<u64> {
        advance(self.ops(), self.ip_reg(), regs)
    }

    /// The registers after at most `steps` steps from `regs`, fewer where
    /// the machine halts before.
    #[verifier::inline]
    pub open spec fn run(self, regs: Seq<u64>, steps: nat) -> Seq<u64> {
        run(self.ops(), self.ip_reg(), regs, steps)
    }

    /// A program with the given instructions and pointer register.
    pub fn new(ops: Vec<Opcode<N>>, ip_reg: Reg<N>) -> (p: Self)
        ensures
            p.ops() == ops@,
            p.ip_reg() == ip_reg,
    {
        Program { ops, ip_reg }
    }

    /// The number of instructions.
    pub fn len(&self) -> (n: usize)
        ensures
            n == self.ops().len(),
    {
        self.ops.len()
    }

    /// The instruction at `index`.
    pub fn get(&self, index: usize) -> (op: Option<Opcode<N>>)
        ensures
            op == (if index < self.ops().len() {
                Some(self.ops()[index as int])
            } else {
                None
            }),
    {
        if index < self.ops.len() {
            Some(self.ops[index])
        } else {
            None
        }
    }

    /// The register bound to the instruction pointer.
    pub fn pointer_register(&self) -> (r: Reg<N>)
        ensures
            r == self.ip_reg(),
    {
        self.ip_reg
    }

    /// The same program with the instruction at `index` replaced by `op`.
    /// An index outside the program changes nothing.
    pub fn patched(&self, index: usize, op: Opcode<N>) -> (p: Self)
        ensures
            p.ip_reg() == self.ip_reg(),
            p.ops() == (if index < self.ops().len() {
                self.ops().update(index as int, op)
            } else {
                self.ops()
            }),
    {
        let mut ops: Vec<Opcode<N>> = Vec::new();
        let mut i: usize = 0;
        while i < self.ops.len()
            invariant
                i <= self.ops@.len(),
                ops@.len() == i,
                forall|j: int|
                    0 <= j < i ==> #[trigger] ops@[j] == (if j == index {
                        op
                    } else {
                        self.ops@[j]
                    }),
            decreases self.ops@.len() - i,
        {
            if i == index {
                ops.push(op);
            } else {
                ops.push(self.ops[i]);
            }
            i += 1;
        }
        let p = Program { ops, ip_reg: self.ip_reg };
        proof {
            if index < self.ops().len() {
                assert(p.ops() =~= self.ops().update(index as int, op));
            } else {
                assert(p.ops() =~= self.ops());
            }
        }
        p
    }

    /// The instruction pointer.
    pub fn ip(&self, cpu: &Cpu<N>) -> (ip: u64)
        ensures
            ip == self.ip_at(cpu@),
    {
        cpu.get_reg(self.ip_reg)
    }

    /// Runs the instruction at the pointer and moves the pointer on.
    /// Returns `false`, and changes nothing, where the machine has halted.
    pub fn run_once(&self, cpu: &mut Cpu<N>) -> (ran: bool)
        ensures
            ran == !self.halted(old(cpu)@),
            final(cpu)@ == self.advance(old(cpu)@),
    {
        let ix = cpu.get_reg(self.ip_reg);
        if ix < self.ops.len() as u64 {
            let instr = &self.ops[ix as usize];
            instr.exec(cpu);
            let ix = cpu.get_reg(self.ip_reg);
            cpu.set_reg(self.ip_reg, ix.wrapping_add(1));
            true
        } else {
            false
        }
    }

    /// Runs the program until it halts, for at most `limit` steps.
    /// Returns whether it has halted.
    pub fn run_with_cpu(&self, cpu: &mut Cpu<N>, limit: u64) -> (halted: bool)
        ensures
            final(cpu)@ == self.run(old(cpu)@, limit as nat),
            halted == self.halted(final(cpu)@),
    {
        let mut done: u64 = 0;
        while done < limit
            invariant
                done <= limit,
                cpu@ == self.run(old(cpu)@, done as nat),
            decreases limit - done,
        {
            let ran = self.run_once(cpu);
            if !ran {
                proof {
                    lemma_halted_stays(self.ops(), self.ip_reg(), old(cpu)@, done as nat, limit as nat);
                }
                return true;
            }
            done += 1;
        }
        self.ip(cpu) >= self.ops.len() as u64
    }
}

/// The registers after the instructions `ops` have run one after the
/// other, each once, without an instruction pointer.
pub open spec fn run_straight<const N: usize>(ops: Seq<Opcode<N>>, regs: Seq<u64>) -> Seq<u64>
    decreases ops.len(),
{
    if ops.len() == 0 {
        regs
    } else {
        ops.last().apply(run_straight(ops.drop_last(), regs))
    }
}

/// Runs the instructions one after the other, each once.
pub fn exec_straight<const N: usize>(ops: &Vec<Opcode<N>>, cpu: &mut Cpu<N>)
    ensures
        final(cpu)@ == run_straight(ops@, old(cpu)@),
{
    let mut i: usize = 0;
    assert(ops@.subrange(0, 0) =~= Seq::empty());
    while i < ops.len()
        invariant
            i <= ops@.len(),
            cpu@ == run_straight(ops@.subrange(0, i as int), old(cpu)@),
        decreases ops@.len() - i,
    {
        proof {
            let next = ops@.subrange(0, i + 1);
            assert(next.drop_last() =~= ops@.subrange(0, i as int));
            assert(next.last() == ops@[i as int]);
        }
        ops[i].exec(cpu);
        i += 1;
    }
    assert(ops@.subrange(0, i as int) =~= ops@);
}

} // verus!
