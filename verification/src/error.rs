//! The error type of the crate.

use vstd::prelude::*;

verus! {

/// What can go wrong while reading input, decoding instructions or
/// deducing a numbering.
#[derive(Clone, Copy, Debug, PartialEq, Eq, Structural)]
pub enum Error {
    /// The opcode number or mnemonic names no instruction kind.
    InvalidOpcode,
    /// An operand that has to name a register lies outside the register file.
    InvalidRegister,
    /// The text handed in is not well-formed input of the puzzle.
    MalformedInput,
    /// The samples do not determine a kind for every opcode number.
    AmbiguousMapping,
    /// A cart has left the track, or stands on a road that it cannot take.
    OffTrack,
    /// The search has found nothing.
    NotFound,
    /// A walk has left the grid.
    OutOfGrid,
    /// A number has grown beyond what the machine can hold.
    Overflow,
    /// Water has met a square that cannot lie at the level of a floor.
    InvalidTile,
}

/// Whether the outcome `r` is the one that `expected` describes: the same
/// error, or a value whose view is the expected one.
pub open spec fn agrees<T: View>(r: Result<T, Error>, expected: Result<T::V, Error>) -> bool {
    match r {
        Ok(value) => expected == Ok::<T::V, Error>(value@),
        Err(e) => expected == Err::<T::V, Error>(e),
    }
}

/// As `agrees`, for a value that is compared by its deep view.
pub open spec fn agrees_deep<T: DeepView>(r: Result<T, Error>, expected: Result<T::V, Error>) -> bool {
    match r {
        Ok(value) => expected == Ok::<T::V, Error>(value.deep_view()),
        Err(e) => expected == Err::<T::V, Error>(e),
    }
}

} // verus!
