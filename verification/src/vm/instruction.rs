//! The instruction set: sixteen kinds, their typed instructions and what
//! each of them computes.

use crate::vm::register::{Cpu, Reg};
use vstd::prelude::*;

verus! {

/// The sixteen instruction kinds, in the order of the identity numbering.
#[derive(Clone, Copy, Debug, PartialEq, Eq, Structural)]
pub enum Kind {
    Addr,
    Addi,
    Mulr,
    Muli,
    Banr,
    Bani,
    Borr,
    Bori,
    Setr,
    Seti,
    Gtir,
    Gtri,
    Gtrr,
    Eqir,
    Eqri,
    Eqrr,
}

/// One if the comparison holds, else zero.
pub open spec fn flag(b: bool) -> u64 {
    if b {
        1
    } else {
        0
    }
}

impl Kind {
    /// The number of the kind under the identity numbering.
    pub open spec fn number(self) -> u64 {
        match self {
            Kind::Addr => 0,
            Kind::Addi => 1,
            Kind::Mulr => 2,
            Kind::Muli => 3,
            Kind::Banr => 4,
            Kind::Bani => 5,
            Kind::Borr => 6,
            Kind::Bori => 7,
            Kind::Setr => 8,
            Kind::Seti => 9,
            Kind::Gtir => 10,
            Kind::Gtri => 11,
            Kind::Gtrr => 12,
            Kind::Eqir => 13,
            Kind::Eqri => 14,
            Kind::Eqrr => 15,
        }
    }

    /// The kind with the given number, if there is one.
    pub open spec fn of_number(n: u64) -> Option<Kind> {
        if n == 0 {
            Some(Kind::Addr)
        } else if n == 1 {
            Some(Kind::Addi)
        } else if n == 2 {
            Some(Kind::Mulr)
        } else if n == 3 {
            Some(Kind::Muli)
        } else if n == 4 {
            Some(Kind::Banr)
        } else if n == 5 {
            Some(Kind::Bani)
        } else if n == 6 {
            Some(Kind::Borr)
        } else if n == 7 {
            Some(Kind::Bori)
        } else if n == 8 {
            Some(Kind::Setr)
        } else if n == 9 {
            Some(Kind::Seti)
        } else if n == 10 {
            Some(Kind::Gtir)
        } else if n == 11 {
            Some(Kind::Gtri)
        } else if n == 12 {
            Some(Kind::Gtrr)
        } else if n == 13 {
            Some(Kind::Eqir)
        } else if n == 14 {
            Some(Kind::Eqri)
        } else if n == 15 {
            Some(Kind::Eqrr)
        } else {
            None
        }
    }

    /// Whether operand A names a register (else it is an immediate value).
    pub open spec fn a_is_reg(self) -> bool {
        !(self is Seti || self is Gtir || self is Eqir)
    }

    /// Whether operand B names a register. The two assignments have no
    /// operand B at all.
    pub open spec fn b_is_reg(self) -> bool {
        self is Addr || self is Mulr || self is Banr || self is Borr || self is Gtir
            || self is Gtrr || self is Eqir || self is Eqrr
    }

    /// Whether the kind reads operand B at all.
    pub open spec fn has_b(self) -> bool {
        !(self is Setr || self is Seti)
    }

    /// What the kind makes of its two operand values, once registers have
    /// been looked up. Sums and products wrap around at 64 bits.
    pub open spec fn eval(self, x: u64, y: u64) -> u64 {
        match self {
            Kind::Addr | Kind::Addi => x.wrapping_add(y),
            Kind::Mulr | Kind::Muli => x.wrapping_mul(y),
            Kind::Banr | Kind::Bani => x & y,
            Kind::Borr | Kind::Bori => x | y,
            Kind::Setr | Kind::Seti => x,
            Kind::Gtir | Kind::Gtri | Kind::Gtrr => flag(x > y),
            Kind::Eqir | Kind::Eqri | Kind::Eqrr => flag(x == y),
        }
    }

    /// Numbering a kind and looking the number up again gives the kind back.
    pub proof fn lemma_number_roundtrip(self)
        ensures
            self.number() < 16,
            Kind::of_number(self.number()) == Some(self),
    {
    }

    /// Every number below sixteen names a kind, and no other number does.
    pub proof fn lemma_of_number(n: u64)
        ensures
            n < 16 <==> Kind::of_number(n) is Some,
            Kind::of_number(n) matches Some(k) ==> k.number() == n,
    {
    }

    /// How many kinds there are.
    pub fn count() -> (n: usize)
        ensures
            n == 16,
    {
        16
    }

    /// The number of the kind under the identity numbering.
    pub fn to_number(&self) -> (n: u64)
        ensures
            n == self.number(),
    {
        match self {
            Kind::Addr => 0,
            Kind::Addi => 1,
            Kind::Mulr => 2,
            Kind::Muli => 3,
            Kind::Banr => 4,
            Kind::Bani => 5,
            Kind::Borr => 6,
            Kind::Bori => 7,
            Kind::Setr => 8,
            Kind::Seti => 9,
            Kind::Gtir => 10,
            Kind::Gtri => 11,
            Kind::Gtrr => 12,
            Kind::Eqir => 13,
            Kind::Eqri => 14,
            Kind::Eqrr => 15,
        }
    }

    /// The kind that the identity numbering gives to `n`, where `n` is below sixteen.
    pub fn from_number(n: u64) -> (k: Option<Kind>)
        ensures
            k == Kind::of_number(n),
    {
        match n {
            0 => Some(Kind::Addr),
            1 => Some(Kind::Addi),
            2 => Some(Kind::Mulr),
            3 => Some(Kind::Muli),
            4 => Some(Kind::Banr),
            5 => Some(Kind::Bani),
            6 => Some(Kind::Borr),
            7 => Some(Kind::Bori),
            8 => Some(Kind::Setr),
            9 => Some(Kind::Seti),
            10 => Some(Kind::Gtir),
            11 => Some(Kind::Gtri),
            12 => Some(Kind::Gtrr),
            13 => Some(Kind::Eqir),
            14 => Some(Kind::Eqri),
            15 => Some(Kind::Eqrr),
            _ => None,
        }
    }
}

/// A decoded instruction: a kind together with its typed operands.
///
/// Operand C is always the register written to. Operands A and B are a
/// register or an immediate value, as the kind has it.
#[allow(inconsistent_fields)]
#[derive(Clone, Copy, Debug, PartialEq, Eq)]
pub enum Opcode<const N: usize> {
    Addr { a: Reg<N>, b: Reg<N>, c: Reg<N> },
    Addi { a: Reg<N>, b: u64, c: Reg<N> },
    Mulr { a: Reg<N>, b: Reg<N>, c: Reg<N> },
    Muli { a: Reg<N>, b: u64, c: Reg<N> },
    Banr { a: Reg<N>, b: Reg<N>, c: Reg<N> },
    Bani { a: Reg<N>, b: u64, c: Reg<N> },
    Borr { a: Reg<N>, b: Reg<N>, c: Reg<N> },
    Bori { a: Reg<N>, b: u64, c: Reg<N> },
    Setr { a: Reg<N>, c: Reg<N> },
    Seti { a: u64, c: Reg<N> },
    Gtir { a: u64, b: Reg<N>, c: Reg<N> },
    Gtri { a: Reg<N>, b: u64, c: Reg<N> },
    Gtrr { a: Reg<N>, b: Reg<N>, c: Reg<N> },
    Eqir { a: u64, b: Reg<N>, c: Reg<N> },
    Eqri { a: Reg<N>, b: u64, c: Reg<N> },
    Eqrr { a: Reg<N>, b: Reg<N>, c: Reg<N> },
}

impl<const N: usize> Opcode<N> {
    /// The kind of the instruction.
    pub open spec fn kind(self) -> Kind {
        match self {
            Opcode::Addr { .. } => Kind::Addr,
            Opcode::Addi { .. } => Kind::Addi,
            Opcode::Mulr { .. } => Kind::Mulr,
            Opcode::Muli { .. } => Kind::Muli,
            Opcode::Banr { .. } => Kind::Banr,
            Opcode::Bani { .. } => Kind::Bani,
            Opcode::Borr { .. } => Kind::Borr,
            Opcode::Bori { .. } => Kind::Bori,
            Opcode::Setr { .. } => Kind::Setr,
            Opcode::Seti { .. } => Kind::Seti,
            Opcode::Gtir { .. } => Kind::Gtir,
            Opcode::Gtri { .. } => Kind::Gtri,
            Opcode::Gtrr { .. } => Kind::Gtrr,
            Opcode::Eqir { .. } => Kind::Eqir,
            Opcode::Eqri { .. } => Kind::Eqri,
            Opcode::Eqrr { .. } => Kind::Eqrr,
        }
    }

    /// The register that the instruction writes.
    pub open spec fn dest(self) -> Reg<N> {
        match self {
            Opcode::Addr { c, .. } => c,
            Opcode::Addi { c, .. } => c,
            Opcode::Mulr { c, .. } => c,
            Opcode::Muli { c, .. } => c,
            Opcode::Banr { c, .. } => c,
            Opcode::Bani { c, .. } => c,
            Opcode::Borr { c, .. } => c,
            Opcode::Bori { c, .. } => c,
            Opcode::Setr { c, .. } => c,
            Opcode::Seti { c, .. } => c,
            Opcode::Gtir { c, .. } => c,
            Opcode::Gtri { c, .. } => c,
            Opcode::Gtrr { c, .. } => c,
            Opcode::Eqir { c, .. } => c,
            Opcode::Eqri { c, .. } => c,
            Opcode::Eqrr { c, .. } => c,
        }
    }

    /// The value of operand A on the registers `regs`: the register's
    /// content, or the immediate value itself.
    pub open spec fn a_value(self, regs: Seq<u64>) -> u64 {
        match self {
            Opcode::Addr { a, .. } => regs[a.index()],
            Opcode::Addi { a, .. } => regs[a.index()],
            Opcode::Mulr { a, .. } => regs[a.index()],
            Opcode::Muli { a, .. } => regs[a.index()],
            Opcode::Banr { a, .. } => regs[a.index()],
            Opcode::Bani { a, .. } => regs[a.index()],
            Opcode::Borr { a, .. } => regs[a.index()],
            Opcode::Bori { a, .. } => regs[a.index()],
            Opcode::Setr { a, .. } => regs[a.index()],
            Opcode::Seti { a, .. } => a,
            Opcode::Gtir { a, .. } => a,
            Opcode::Gtri { a, .. } => regs[a.index()],
            Opcode::Gtrr { a, .. } => regs[a.index()],
            Opcode::Eqir { a, .. } => a,
            Opcode::Eqri { a, .. } => regs[a.index()],
            Opcode::Eqrr { a, .. } => regs[a.index()],
        }
    }

    /// The value of operand B on the registers `regs`. The two assignments
    /// have no operand B; for them this is zero.
    pub open spec fn b_value(self, regs: Seq<u64>) -> u64 {
        match self {
            Opcode::Addr { b, .. } => regs[b.index()],
            Opcode::Addi { b, .. } => b,
            Opcode::Mulr { b, .. } => regs[b.index()],
            Opcode::Muli { b, .. } => b,
            Opcode::Banr { b, .. } => regs[b.index()],
            Opcode::Bani { b, .. } => b,
            Opcode::Borr { b, .. } => regs[b.index()],
            Opcode::Bori { b, .. } => b,
            Opcode::Setr { .. } => 0,
            Opcode::Seti { .. } => 0,
            Opcode::Gtir { b, .. } => regs[b.index()],
            Opcode::Gtri { b, .. } => b,
            Opcode::Gtrr { b, .. } => regs[b.index()],
            Opcode::Eqir { b, .. } => regs[b.index()],
            Opcode::Eqri { b, .. } => b,
            Opcode::Eqrr { b, .. } => regs[b.index()],
        }
    }

    /// The value that the instruction writes when it runs on `regs`.
    pub open spec fn value(self, regs: Seq<u64>) -> u64 {
        self.kind().eval(self.a_value(regs), self.b_value(regs))
    }

    /// The registers after the instruction has run on `regs`: the
    /// destination holds the computed value, every other register is as
    /// before.
    pub open spec fn apply(self, regs: Seq<u64>) -> Seq<u64> {
        regs.update(self.dest().index(), self.value(regs))
    }

    /// How many kinds of instruction there are.
    pub fn count() -> (n: usize)
        ensures
            n == 16,
    {
        Kind::count()
    }

    /// Runs the instruction: writes its value to the destination register
    /// and leaves every other register alone.
    pub fn exec(&self, cpu: &mut Cpu<N>)
        ensures
            final(cpu)@ == self.apply(old(cpu)@),
    {
        match *self {
            Opcode::Addr { a, b, c } => {
                let a = cpu.get_reg(a);
                let b = cpu.get_reg(b);
                cpu.set_reg(c, a.wrapping_add(b));
            },
            Opcode::Addi { a, b, c } => {
                let a = cpu.get_reg(a);
                cpu.set_reg(c, a.wrapping_add(b));
            },
            Opcode::Mulr { a, b, c } => {
                let a = cpu.get_reg(a);
                let b = cpu.get_reg(b);
                cpu.set_reg(c, a.wrapping_mul(b));
            },
            Opcode::Muli { a, b, c } => {
                let a = cpu.get_reg(a);
                cpu.set_reg(c, a.wrapping_mul(b));
            },
            Opcode::Borr { a, b, c } => {
                let a = cpu.get_reg(a);
                let b = cpu.get_reg(b);
                cpu.set_reg(c, a | b);
            },
            Opcode::Bori { a, b, c } => {
                let a = cpu.get_reg(a);
                cpu.set_reg(c, a | b);
            },
            Opcode::Banr { a, b, c } => {
                let a = cpu.get_reg(a);
                let b = cpu.get_reg(b);
                cpu.set_reg(c, a & b);
            },
            Opcode::Bani { a, b, c } => {
                let a = cpu.get_reg(a);
                cpu.set_reg(c, a & b);
            },
            Opcode::Setr { a, c } => {
                let a = cpu.get_reg(a);
                cpu.set_reg(c, a);
            },
            Opcode::Seti { a, c } => {
                cpu.set_reg(c, a);
            },
            Opcode::Gtir { a, b, c } => {
                let b = cpu.get_reg(b);
                cpu.set_reg(c, if a > b { 1 } else { 0 });
            },
            Opcode::Gtri { a, b, c } => {
                let a = cpu.get_reg(a);
                cpu.set_reg(c, if a > b { 1 } else { 0 });
            },
            Opcode::Gtrr { a, b, c } => {
                let a = cpu.get_reg(a);
                let b = cpu.get_reg(b);
                cpu.set_reg(c, if a > b { 1 } else { 0 });
            },
            Opcode::Eqir { a, b, c } => {
                let b = cpu.get_reg(b);
                cpu.set_reg(c, if a == b { 1 } else { 0 });
            },
            Opcode::Eqri { a, b, c } => {
                let a = cpu.get_reg(a);
                cpu.set_reg(c, if a == b { 1 } else { 0 });
            },
            Opcode::Eqrr { a, b, c } => {
                let a = cpu.get_reg(a);
                let b = cpu.get_reg(b);
                cpu.set_reg(c, if a == b { 1 } else { 0 });
            },
        }
    }
}

} // verus!
