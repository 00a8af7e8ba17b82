//! Register indices and the register file.

use crate::error::Error;
use vstd::prelude::*;

verus! {

/// The index of a register in a file of `N` registers.
///
/// A value of this type always names an existing register, so reading and
/// writing a register cannot fail.
#[derive(Clone, Copy, Debug, PartialEq, Eq)]
pub struct Reg<const N: usize> {
    ix: usize,
}

impl<const N: usize> Reg<N> {
    #[verifier::type_invariant]
    spec fn in_range(self) -> bool {
        self.ix < N
    }

    /// The position of the register in the file.
    pub closed spec fn index(self) -> int {
        self.ix as int
    }

    /// The register at position `i`.
    pub closed spec fn at(i: int) -> Self {
        Reg { ix: i as usize }
    }

    /// `at` and `index` are inverse to each other.
    pub broadcast proof fn lemma_at_index(i: int)
        requires
            0 <= i <= usize::MAX,
        ensures
            (#[trigger] Self::at(i)).index() == i,
    {
    }

    /// A register is determined by its position.
    pub broadcast proof fn lemma_index_at(r: Self)
        ensures
            Self::at(#[trigger] r.index()) == r,
    {
    }

    /// The position of the register in the file.
    pub fn to_index(&self) -> (ix: usize)
        ensures
            ix == self.index(),
            ix < N,
    {
        proof {
            use_type_invariant(self);
        }
        self.ix
    }

    /// Validates `ix` against the size of the register file.
    pub fn from_index(ix: usize) -> (r: Result<Self, Error>)
        ensures
            r == (if ix < N {
                Ok(Self::at(ix as int))
            } else {
                Err(Error::InvalidRegister)
            }),
    {
        if ix < N {
            Ok(Reg { ix })
        } else {
            Err(Error::InvalidRegister)
        }
    }
}

/// A register file of `N` unsigned 64-bit registers.
#[derive(Clone, Copy, Debug, PartialEq, Eq)]
pub struct Cpu<const N: usize> {
    register: [u64; N],
}

impl<const N: usize> View for Cpu<N> {
    type V = Seq<u64>;

    closed spec fn view(&self) -> Seq<u64> {
        self.register@
    }
}

impl<const N: usize> Cpu<N> {
    /// The file always holds exactly `N` registers.
    pub broadcast proof fn lemma_len(self)
        ensures
            #[trigger] self@.len() == N,
    {
    }

    /// A register file with every register at zero.
    pub fn new() -> (cpu: Self)
        ensures
            cpu@ == Seq::new(N as nat, |i: int| 0u64),
    {
        let cpu = Cpu { register: [0u64;N] };
        assert(cpu@ =~= Seq::new(N as nat, |i: int| 0u64));
        cpu
    }

    /// A register file that holds the snapshot `cap`.
    pub fn from_capture(cap: [u64; N]) -> (cpu: Self)
        ensures
            cpu@ == cap@,
    {
        Cpu { register: cap }
    }

    /// A snapshot of all registers.
    pub fn capture(&self) -> (cap: [u64; N])
        ensures
            cap@ == self@,
    {
        self.register
    }

    /// The value of register `r`.
    pub fn get_reg(&self, r: Reg<N>) -> (v: u64)
        ensures
            0 <= r.index() < N,
            v == self@[r.index()],
    {
        self.register[r.to_index()]
    }

    /// Writes `val` to register `r` and leaves the other registers as they are.
    pub fn set_reg(&mut self, r: Reg<N>, val: u64)
        ensures
            0 <= r.index() < N,
            final(self)@ == old(self)@.update(r.index(), val),
    {
        self.register[r.to_index()] = val;
    }
}

} // verus!
