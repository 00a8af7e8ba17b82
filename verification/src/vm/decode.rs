//! The decoder: from a raw instruction and a numbering table to a typed
//! instruction.

use crate::vm::instruction::{Kind, Opcode};
use crate::vm::register::Reg;
use crate::error::{agrees, Error};
use vstd::prelude::*;
use vstd::string::*;

verus! {

/// A raw instruction: opcode number, then the operands A, B and C.
pub type Instruction = [u64; 4];

/// A table that gives each of the sixteen opcode numbers its kind.
#[derive(Clone, Copy, Debug, PartialEq, Eq)]
pub struct Numbering {
    table: [Kind; 16],
}

impl View for Numbering {
    type V = Seq<Kind>;

    closed spec fn view(&self) -> Seq<Kind> {
        self.table@
    }
}

/// The kind that the table `numbering` gives to `number`; numbers from
/// sixteen on are unmapped.
pub open spec fn lookup(numbering: Seq<Kind>, number: u64) -> Option<Kind> {
    if number < 16 {
        Some(numbering[number as int])
    } else {
        None
    }
}

/// The table in which every kind has its own number.
pub open spec fn identity_table() -> Seq<Kind> {
    Seq::new(16, |i: int| Kind::of_number(i as u64).unwrap())
}

impl Numbering {
    /// A table always has sixteen entries.
    pub broadcast proof fn lemma_len(self)
        ensures
            #[trigger] self@.len() == 16,
    {
    }

    /// The identity numbering.
    pub fn identity() -> (t: Self)
        ensures
            t@ == identity_table(),
    {
        let t = Numbering {
            table: [
                Kind::Addr,
                Kind::Addi,
                Kind::Mulr,
                Kind::Muli,
                Kind::Banr,
                Kind::Bani,
                Kind::Borr,
                Kind::Bori,
                Kind::Setr,
                Kind::Seti,
                Kind::Gtir,
                Kind::Gtri,
                Kind::Gtrr,
                Kind::Eqir,
                Kind::Eqri,
                Kind::Eqrr,
            ],
        };
        assert(t@ =~= identity_table());
        t
    }

    /// The table that gives number `i` the kind `table[i]`.
    pub fn from_kinds(table: [Kind; 16]) -> (t: Self)
        ensures
            t@ == table@,
    {
        Numbering { table }
    }

    /// The kinds of the numbers zero to fifteen, in this order.
    pub fn kinds(&self) -> (table: [Kind; 16])
        ensures
            table@ == self@,
    {
        self.table
    }

    /// The kind of `number`, if the table maps it.
    pub fn kind_of(&self, number: u64) -> (k: Option<Kind>)
        ensures
            k == lookup(self@, number),
    {
        if number < 16 {
            Some(self.table[number as usize])
        } else {
            None
        }
    }
}

impl Kind {
    /// The four-letter name of the kind in program text.
    pub open spec fn mnemonic(self) -> Seq<char> {
        match self {
            Kind::Addr => "addr"@,
            Kind::Addi => "addi"@,
            Kind::Mulr => "mulr"@,
            Kind::Muli => "muli"@,
            Kind::Banr => "banr"@,
            Kind::Bani => "bani"@,
            Kind::Borr => "borr"@,
            Kind::Bori => "bori"@,
            Kind::Setr => "setr"@,
            Kind::Seti => "seti"@,
            Kind::Gtir => "gtir"@,
            Kind::Gtri => "gtri"@,
            Kind::Gtrr => "gtrr"@,
            Kind::Eqir => "eqir"@,
            Kind::Eqri => "eqri"@,
            Kind::Eqrr => "eqrr"@,
        }
    }

    /// The kind that `name` is the mnemonic of, if it is one.
    pub open spec fn of_mnemonic(name: Seq<char>) -> Option<Kind> {
        if exists|k: Kind| k.mnemonic() == name {
            Some(choose|k: Kind| k.mnemonic() == name)
        } else {
            None
        }
    }

    /// The sixteen mnemonics are four letters each.
    pub proof fn lemma_mnemonic_chars(self)
        ensures
            self.mnemonic() =~= (match self {
                Kind::Addr => seq!['a', 'd', 'd', 'r'],
                Kind::Addi => seq!['a', 'd', 'd', 'i'],
                Kind::Mulr => seq!['m', 'u', 'l', 'r'],
                Kind::Muli => seq!['m', 'u', 'l', 'i'],
                Kind::Banr => seq!['b', 'a', 'n', 'r'],
                Kind::Bani => seq!['b', 'a', 'n', 'i'],
                Kind::Borr => seq!['b', 'o', 'r', 'r'],
                Kind::Bori => seq!['b', 'o', 'r', 'i'],
                Kind::Setr => seq!['s', 'e', 't', 'r'],
                Kind::Seti => seq!['s', 'e', 't', 'i'],
                Kind::Gtir => seq!['g', 't', 'i', 'r'],
                Kind::Gtri => seq!['g', 't', 'r', 'i'],
                Kind::Gtrr => seq!['g', 't', 'r', 'r'],
                Kind::Eqir => seq!['e', 'q', 'i', 'r'],
                Kind::Eqri => seq!['e', 'q', 'r', 'i'],
                Kind::Eqrr => seq!['e', 'q', 'r', 'r'],
            }),
    {
        reveal_strlit("addr");
        reveal_strlit("addi");
        reveal_strlit("mulr");
        reveal_strlit("muli");
        reveal_strlit("banr");
        reveal_strlit("bani");
        reveal_strlit("borr");
        reveal_strlit("bori");
        reveal_strlit("setr");
        reveal_strlit("seti");
        reveal_strlit("gtir");
        reveal_strlit("gtri");
        reveal_strlit("gtrr");
        reveal_strlit("eqir");
        reveal_strlit("eqri");
        reveal_strlit("eqrr");
    }

    /// No two kinds share a mnemonic, so a mnemonic names its kind.
    pub proof fn lemma_mnemonic_unique(self)
        ensures
            Kind::of_mnemonic(self.mnemonic()) == Some(self),
    {
        let name = self.mnemonic();
        assert forall|k: Kind| k.mnemonic() == name implies k == self by {
            k.lemma_mnemonic_chars();
            self.lemma_mnemonic_chars();
            let s = k.mnemonic();
            assert(s[0] == name[0] && s[1] == name[1] && s[2] == name[2] && s[3] == name[3]);
        }
    }

    /// Reads a mnemonic.
    pub fn from_mnemonic(name: &str) -> (k: Option<Kind>)
        ensures
            k == Kind::of_mnemonic(name@),
    {
        let found = if name.unicode_len() != 4 {
            None
        } else {
            let c0 = name.get_char(0);
            let c1 = name.get_char(1);
            let c2 = name.get_char(2);
            let c3 = name.get_char(3);
            match (c0, c1, c2, c3) {
                ('a', 'd', 'd', 'r') => Some(Kind::Addr),
                ('a', 'd', 'd', 'i') => Some(Kind::Addi),
                ('m', 'u', 'l', 'r') => Some(Kind::Mulr),
                ('m', 'u', 'l', 'i') => Some(Kind::Muli),
                ('b', 'a', 'n', 'r') => Some(Kind::Banr),
                ('b', 'a', 'n', 'i') => Some(Kind::Bani),
                ('b', 'o', 'r', 'r') => Some(Kind::Borr),
                ('b', 'o', 'r', 'i') => Some(Kind::Bori),
                ('s', 'e', 't', 'r') => Some(Kind::Setr),
                ('s', 'e', 't', 'i') => Some(Kind::Seti),
                ('g', 't', 'i', 'r') => Some(Kind::Gtir),
                ('g', 't', 'r', 'i') => Some(Kind::Gtri),
                ('g', 't', 'r', 'r') => Some(Kind::Gtrr),
                ('e', 'q', 'i', 'r') => Some(Kind::Eqir),
                ('e', 'q', 'r', 'i') => Some(Kind::Eqri),
                ('e', 'q', 'r', 'r') => Some(Kind::Eqrr),
                _ => None,
            }
        };
        proof {
            match found {
                Some(k) => {
                    k.lemma_mnemonic_chars();
                    assert(k.mnemonic() =~= name@);
                    k.lemma_mnemonic_unique();
                },
                None => {
                    assert forall|k: Kind| k.mnemonic() != name@ by {
                        k.lemma_mnemonic_chars();
                        let s = k.mnemonic();
                        if s == name@ {
                            assert(s[0] == name@[0] && s[1] == name@[1] && s[2] == name@[2]
                                && s[3] == name@[3]);
                        }
                    }
                },
            }
        }
        found
    }
}

impl<const N: usize> Opcode<N> {
    /// Whether the operands fit the kind: each operand that has to name a
    /// register, operand C among them, lies inside the register file.
    pub open spec fn operands_fit(kind: Kind, a: u64, b: u64, c: u64) -> bool {
        &&& kind.a_is_reg() ==> a < N
        &&& kind.b_is_reg() ==> b < N
        &&& c < N
    }

    /// The instruction of the given kind with the operands `a`, `b`, `c`,
    /// each read as a register or as an immediate value as the kind has
    /// it. Meaningful where `operands_fit` holds.
    pub open spec fn typed(kind: Kind, a: u64, b: u64, c: u64) -> Opcode<N> {
        let ra = Reg::<N>::at(a as int);
        let rb = Reg::<N>::at(b as int);
        let rc = Reg::<N>::at(c as int);
        match kind {
            Kind::Addr => Opcode::Addr { a: ra, b: rb, c: rc },
            Kind::Addi => Opcode::Addi { a: ra, b, c: rc },
            Kind::Mulr => Opcode::Mulr { a: ra, b: rb, c: rc },
            Kind::Muli => Opcode::Muli { a: ra, b, c: rc },
            Kind::Banr => Opcode::Banr { a: ra, b: rb, c: rc },
            Kind::Bani => Opcode::Bani { a: ra, b, c: rc },
            Kind::Borr => Opcode::Borr { a: ra, b: rb, c: rc },
            Kind::Bori => Opcode::Bori { a: ra, b, c: rc },
            Kind::Setr => Opcode::Setr { a: ra, c: rc },
            Kind::Seti => Opcode::Seti { a, c: rc },
            Kind::Gtir => Opcode::Gtir { a, b: rb, c: rc },
            Kind::Gtri => Opcode::Gtri { a: ra, b, c: rc },
            Kind::Gtrr => Opcode::Gtrr { a: ra, b: rb, c: rc },
            Kind::Eqir => Opcode::Eqir { a, b: rb, c: rc },
            Kind::Eqri => Opcode::Eqri { a: ra, b, c: rc },
            Kind::Eqrr => Opcode::Eqrr { a: ra, b: rb, c: rc },
        }
    }

    /// What building an instruction of a known kind gives.
    pub open spec fn build_spec(kind: Kind, a: u64, b: u64, c: u64) -> Result<Opcode<N>, Error> {
        if Self::operands_fit(kind, a, b, c) {
            Ok(Self::typed(kind, a, b, c))
        } else {
            Err(Error::InvalidRegister)
        }
    }

    /// What decoding gives: `InvalidOpcode` where the numbering does not
    /// map the opcode number, else `InvalidRegister` where an operand that
    /// has to name a register does not, else the typed instruction.
    pub open spec fn decode_spec(raw: Seq<u64>, numbering: Seq<Kind>) -> Result<Opcode<N>, Error> {
        match lookup(numbering, raw[0]) {
            None => Err(Error::InvalidOpcode),
            Some(kind) => Self::build_spec(kind, raw[1], raw[2], raw[3]),
        }
    }

    /// What reading an instruction by its mnemonic gives.
    pub open spec fn from_mnemonic_spec(name: Seq<char>, a: u64, b: u64, c: u64) -> Result<
        Opcode<N>,
        Error,
    > {
        match Kind::of_mnemonic(name) {
            None => Err(Error::InvalidOpcode),
            Some(kind) => Self::build_spec(kind, a, b, c),
        }
    }

    fn reg(v: u64) -> (r: Result<Reg<N>, Error>)
        ensures
            r == (if v < N {
                Ok(Reg::<N>::at(v as int))
            } else {
                Err(Error::InvalidRegister)
            }),
    {
        if v < N as u64 {
            Reg::from_index(v as usize)
        } else {
            Err(Error::InvalidRegister)
        }
    }

    /// The kind of the instruction.
    pub fn get_kind(&self) -> (k: Kind)
        ensures
            k == self.kind(),
    {
        match self {
            Opcode::Addr { .. } => Kind::Addr,
            Opcode::Addi { .. } => Kind::Addi,
            Opcode::Mulr { .. } => Kind::Mulr,
            Opcode::Muli { .. } => Kind::Muli,
            Opcode::Banr { .. } => Kind::Banr,
            Opcode::Bani { .. } => Kind::Bani,
            Opcode::Borr { .. } => Kind::Borr,
            Opcode::Bori { .. } => Kind::Bori,
            Opcode::Setr { .. } => Kind::Setr,
            Opcode::Seti { .. } => Kind::Seti,
            Opcode::Gtir { .. } => Kind::Gtir,
            Opcode::Gtri { .. } => Kind::Gtri,
            Opcode::Gtrr { .. } => Kind::Gtrr,
            Opcode::Eqir { .. } => Kind::Eqir,
            Opcode::Eqri { .. } => Kind::Eqri,
            Opcode::Eqrr { .. } => Kind::Eqrr,
        }
    }

    /// Builds the instruction of the given kind from raw operands,
    /// validating those that name registers.
    pub fn build(kind: Kind, a: u64, b: u64, c: u64) -> (r: Result<Opcode<N>, Error>)
        ensures
            r == Self::build_spec(kind, a, b, c),
    {
        let reg_a = Self::reg(a);
        let reg_b = Self::reg(b);
        let reg_c = Self::reg(c);
        match kind {
            Kind::Addr => Ok(Opcode::Addr { a: reg_a?, b: reg_b?, c: reg_c? }),
            Kind::Addi => Ok(Opcode::Addi { a: reg_a?, b, c: reg_c? }),
            Kind::Mulr => Ok(Opcode::Mulr { a: reg_a?, b: reg_b?, c: reg_c? }),
            Kind::Muli => Ok(Opcode::Muli { a: reg_a?, b, c: reg_c? }),
            Kind::Banr => Ok(Opcode::Banr { a: reg_a?, b: reg_b?, c: reg_c? }),
            Kind::Bani => Ok(Opcode::Bani { a: reg_a?, b, c: reg_c? }),
            Kind::Borr => Ok(Opcode::Borr { a: reg_a?, b: reg_b?, c: reg_c? }),
            Kind::Bori => Ok(Opcode::Bori { a: reg_a?, b, c: reg_c? }),
            Kind::Setr => Ok(Opcode::Setr { a: reg_a?, c: reg_c? }),
            Kind::Seti => Ok(Opcode::Seti { a, c: reg_c? }),
            Kind::Gtir => Ok(Opcode::Gtir { a, b: reg_b?, c: reg_c? }),
            Kind::Gtri => Ok(Opcode::Gtri { a: reg_a?, b, c: reg_c? }),
            Kind::Gtrr => Ok(Opcode::Gtrr { a: reg_a?, b: reg_b?, c: reg_c? }),
            Kind::Eqir => Ok(Opcode::Eqir { a, b: reg_b?, c: reg_c? }),
            Kind::Eqri => Ok(Opcode::Eqri { a: reg_a?, b, c: reg_c? }),
            Kind::Eqrr => Ok(Opcode::Eqrr { a: reg_a?, b: reg_b?, c: reg_c? }),
        }
    }

    /// Decodes a raw instruction under the given numbering.
    pub fn decode(raw: Instruction, numbering: &Numbering) -> (r: Result<Opcode<N>, Error>)
        ensures
            r == Self::decode_spec(raw@, numbering@),
    {
        match numbering.kind_of(raw[0]) {
            None => Err(Error::InvalidOpcode),
            Some(kind) => Self::build(kind, raw[1], raw[2], raw[3]),
        }
    }

    /// Decodes a raw instruction under the identity numbering.
    pub fn from_instr(instr: Instruction) -> (r: Result<Opcode<N>, Error>)
        ensures
            r == Self::decode_spec(instr@, identity_table()),
    {
        let numbering = Numbering::identity();
        Self::decode(instr, &numbering)
    }

    /// Builds the instruction that a mnemonic and three operands name.
    pub fn from_instr_str(instr: &str, a: u64, b: u64, c: u64) -> (r: Result<Opcode<N>, Error>)
        ensures
            r == Self::from_mnemonic_spec(instr@, a, b, c),
    {
        match Kind::from_mnemonic(instr) {
            None => Err(Error::InvalidOpcode),
            Some(kind) => Self::build(kind, a, b, c),
        }
    }
}

/// The typed instructions of a raw program under the given numbering, or
/// the error of the first raw instruction that does not decode.
pub open spec fn decode_all_spec<const N: usize>(prog: Seq<Seq<u64>>, numbering: Seq<Kind>) -> Result<
    Seq<Opcode<N>>,
    Error,
>
    decreases prog.len(),
{
    if prog.len() == 0 {
        Ok(Seq::empty())
    } else {
        match decode_all_spec::<N>(prog.drop_last(), numbering) {
            Err(e) => Err(e),
            Ok(ops) => match Opcode::<N>::decode_spec(prog.last(), numbering) {
                Err(e) => Err(e),
                Ok(op) => Ok(ops.push(op)),
            },
        }
    }
}

/// Decodes a raw program under the given numbering.
pub fn decode_all<const N: usize>(prog: &[Instruction], numbering: &Numbering) -> (r: Result<
    Vec<Opcode<N>>,
    Error,
>)
    ensures
        agrees(r, decode_all_spec::<N>(prog.deep_view(), numbering@)),
{
    let mut ops: Vec<Opcode<N>> = Vec::new();
    let mut i: usize = 0;
    let ghost raw = prog.deep_view();
    assert(raw.subrange(0, 0) =~= Seq::empty());
    while i < prog.len()
        invariant
            i <= prog@.len(),
            raw == prog.deep_view(),
            raw.len() == prog@.len(),
            decode_all_spec::<N>(raw.subrange(0, i as int), numbering@) == Ok::<
                Seq<Opcode<N>>,
                Error,
            >(ops@),
        decreases prog@.len() - i,
    {
        proof {
            let next = raw.subrange(0, i + 1);
            assert(next.drop_last() =~= raw.subrange(0, i as int));
            assert(next.last() == prog@[i as int]@);
        }
        match Opcode::<N>::decode(prog[i], numbering) {
            Ok(op) => {
                ops.push(op);
            },
            Err(e) => {
                proof {
                    lemma_decode_all_fails::<N>(raw, numbering@, i + 1);
                }
                return Err(e);
            },
        }
        i += 1;
    }
    assert(raw.subrange(0, i as int) =~= raw);
    Ok(ops)
}

/// Where the beginning of a raw program does not decode, the program does
/// not, and the error is the same.
pub proof fn lemma_decode_all_fails<const N: usize>(
    prog: Seq<Seq<u64>>,
    numbering: Seq<Kind>,
    k: int,
)
    requires
        0 <= k <= prog.len(),
        decode_all_spec::<N>(prog.subrange(0, k), numbering) is Err,
    ensures
        decode_all_spec::<N>(prog, numbering) == decode_all_spec::<N>(
            prog.subrange(0, k),
            numbering,
        ),
    decreases prog.len(),
{
    if k == prog.len() {
        assert(prog.subrange(0, k) =~= prog);
    } else {
        assert(prog.drop_last().subrange(0, k) =~= prog.subrange(0, k));
        lemma_decode_all_fails::<N>(prog.drop_last(), numbering, k);
    }
}

} // verus!
