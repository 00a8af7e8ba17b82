//! Laws of the register machine that hold for all inputs.

use crate::vm::decode::{identity_table, lookup, Numbering};
use crate::vm::infer::{
    candidate_table, consistent, eliminate, first_unit, infer_spec, is_inferred, is_unit,
    lemma_open_count_all, lemma_open_count_update, lemma_open_count_zero, numbers_in_range,
    open_count, open_table, resolve_spec, strike, Sample,
};
use crate::vm::instruction::{Kind, Opcode};
use crate::vm::kind_set::lemma_kind_sets_finite;
use crate::vm::register::Reg;
use crate::error::Error;
use vstd::prelude::*;

verus! {

/// Whether no kind occurs twice in the table.
pub open spec fn injective(table: Seq<Kind>) -> bool {
    forall|m: int, n: int|
        0 <= m < table.len() && 0 <= n < table.len() && m != n ==> table[m] != table[n]
}

/// The candidate sets that leave each number only the kind that `table`
/// gives it.
pub open spec fn singletons(table: Seq<Kind>) -> Seq<Set<Kind>> {
    Seq::new(table.len(), |n: int| set![table[n]])
}

/// What `first_unit` finds is the least open number with one candidate.
pub proof fn lemma_first_unit(cands: Seq<Set<Kind>>, table: Seq<Option<Kind>>, from: int)
    requires
        0 <= from,
    ensures
        match first_unit(cands, table, from) {
            Some(n) => from <= n < 16 && is_unit(cands, table, n) && forall|m: int|
                from <= m < n ==> !is_unit(cands, table, m),
            None => forall|m: int| from <= m < 16 ==> !is_unit(cands, table, m),
        },
    decreases 16 - from,
{
    if from < 16 && !is_unit(cands, table, from) {
        lemma_first_unit(cands, table, from + 1);
    }
}

/// Candidate sets only shrink: a round of elimination adds no kind to
/// the candidates of any number.
pub proof fn lemma_strike_shrinks(cands: Seq<Set<Kind>>, n: int, k: Kind, m: int)
    requires
        0 <= m < cands.len(),
    ensures
        strike(cands, n, k).len() == cands.len(),
        strike(cands, n, k)[m].subset_of(cands[m]),
{
}

/// The kind that a round of elimination fixes for a number stays among
/// the candidates of that number, and leaves the candidates of every
/// other number; no other kind leaves any number.
pub proof fn lemma_strike_keeps(cands: Seq<Set<Kind>>, n: int, k: Kind, m: int, j: Kind)
    requires
        0 <= m < cands.len(),
    ensures
        strike(cands, n, k)[m].contains(j) <==> cands[m].contains(j) && (m == n || j != k),
{
}

/// Whether a state of elimination is in keeping with the candidate sets
/// `orig` that it began with.
spec fn in_keeping(
    orig: Seq<Set<Kind>>,
    cands: Seq<Set<Kind>>,
    table: Seq<Option<Kind>>,
    rounds: nat,
) -> bool {
    &&& orig.len() == 16
    &&& cands.len() == 16
    &&& table.len() == 16
    &&& open_count(table) == rounds
    &&& forall|n: int| 0 <= n < 16 && table[n] is Some ==> orig[n].contains(table[n].unwrap())
    &&& forall|n: int, k: Kind|
        0 <= n < 16 && table[n] is None && cands[n].contains(k) ==> orig[n].contains(k)
    &&& forall|n: int, m: int|
        0 <= n < 16 && 0 <= m < 16 && table[n] is None && table[m] is Some ==> !cands[n].contains(
            table[m].unwrap(),
        )
    &&& forall|n: int, m: int|
        0 <= n < 16 && 0 <= m < 16 && n != m && table[n] is Some && table[m] is Some ==> table[n]
            != table[m]
}

proof fn lemma_eliminate_sound(
    orig: Seq<Set<Kind>>,
    cands: Seq<Set<Kind>>,
    table: Seq<Option<Kind>>,
    rounds: nat,
)
    requires
        in_keeping(orig, cands, table, rounds),
    ensures
        eliminate(cands, table, rounds) matches Ok(t) ==> t.len() == 16 && injective(t) && forall|
            n: int,
        |
            0 <= n < 16 ==> orig[n].contains(#[trigger] t[n]),
    decreases rounds,
{
    if rounds == 0 {
        lemma_open_count_zero(table);
    } else {
        lemma_first_unit(cands, table, 0);
        match first_unit(cands, table, 0) {
            None => {},
            Some(n) => {
                let k = cands[n].choose();
                lemma_kind_sets_finite(cands[n]);
                assert(cands[n].contains(k));
                lemma_open_count_update(table, n, k);
                let cands2 = strike(cands, n, k);
                let table2 = table.update(n, Some(k));
                assert(in_keeping(orig, cands2, table2, (rounds - 1) as nat));
                lemma_eliminate_sound(orig, cands2, table2, (rounds - 1) as nat);
            },
        }
    }
}

/// Elimination is sound: a numbering that it derives gives each opcode
/// number one of that number's candidates, and gives no kind to two
/// numbers.
pub proof fn lemma_resolve_sound(cands: Seq<Set<Kind>>)
    requires
        cands.len() == 16,
    ensures
        resolve_spec(cands) matches Ok(t) ==> t.len() == 16 && injective(t) && forall|n: int|
            0 <= n < 16 ==> cands[n].contains(#[trigger] t[n]),
{
    lemma_open_count_all(16);
    assert(in_keeping(cands, cands, open_table(), 16));
    lemma_eliminate_sound(cands, cands, open_table(), 16);
}

/// The table in which the numbers below `done` have their kind from
/// `table` and the others are open.
spec fn resolved_below(table: Seq<Kind>, done: int) -> Seq<Option<Kind>> {
    Seq::new(
        16,
        |n: int|
            if n < done {
                Some(table[n])
            } else {
                None
            },
    )
}

proof fn lemma_eliminate_singletons(table: Seq<Kind>, done: int)
    requires
        table.len() == 16,
        injective(table),
        0 <= done <= 16,
    ensures
        eliminate(singletons(table), resolved_below(table, done), (16 - done) as nat) == Ok::<
            Seq<Kind>,
            Error,
        >(table),
    decreases 16 - done,
{
    let cands = singletons(table);
    let partial = resolved_below(table, done);
    if done == 16 {
        assert(Seq::new(16, |n: int| partial[n].unwrap()) =~= table);
    } else {
        lemma_first_unit(cands, partial, 0);
        assert(cands[done] =~= set![table[done]]);
        assert(cands[done].len() == 1);
        assert(is_unit(cands, partial, done));
        assert(first_unit(cands, partial, 0) == Some(done));
        let k = cands[done].choose();
        assert(cands[done].contains(table[done]));
        assert(cands[done].contains(k));
        assert(k == table[done]);
        assert(strike(cands, done, k) =~= cands) by {
            assert forall|m: int| 0 <= m < 16 implies strike(cands, done, k)[m] == cands[m] by {
                if m != done {
                    assert(table[m] != table[done]);
                    assert(cands[m].remove(k) =~= cands[m]);
                }
            }
        }
        assert(partial.update(done, Some(k)) =~= resolved_below(table, done + 1));
        lemma_eliminate_singletons(table, done + 1);
    }
}

/// A numbering is a fixed point of elimination: from the candidate sets
/// that leave each number only its own kind, elimination derives the same
/// numbering again.
pub proof fn lemma_resolve_fixed_point(table: Seq<Kind>)
    requires
        table.len() == 16,
        injective(table),
    ensures
        resolve_spec(singletons(table)) == Ok::<Seq<Kind>, Error>(table),
{
    assert(resolved_below(table, 0) =~= open_table());
    lemma_eliminate_singletons(table, 0);
}

/// Elimination is idempotent: run on the outcome of an earlier run, it
/// derives the numbering of that run.
pub proof fn lemma_resolve_idempotent(cands: Seq<Set<Kind>>)
    requires
        cands.len() == 16,
    ensures
        resolve_spec(cands) matches Ok(t) ==> resolve_spec(singletons(t)) == resolve_spec(cands),
{
    lemma_resolve_sound(cands);
    if let Ok(t) = resolve_spec(cands) {
        lemma_resolve_fixed_point(t);
    }
}

/// Inference is a function of the samples: two runs on the same samples
/// end alike, with the same numbering or with the same error.
pub proof fn lemma_infer_deterministic<const N: usize>(
    samples: Seq<Sample<N>>,
    first: Result<Numbering, Error>,
    second: Result<Numbering, Error>,
)
    requires
        is_inferred(samples, first),
        is_inferred(samples, second),
    ensures
        first is Ok <==> second is Ok,
        first is Ok ==> first.unwrap()@ == second.unwrap()@,
        first is Err ==> first == second,
{
}

/// An inferred numbering gives every opcode number a kind of its own, and
/// that kind is consistent with every sample that bears the number.
pub proof fn lemma_infer_sound<const N: usize>(samples: Seq<Sample<N>>)
    ensures
        infer_spec(samples) matches Ok(t) ==> t.len() == 16 && injective(t) && forall|i: int|
            0 <= i < samples.len() ==> consistent(
                #[trigger] samples[i],
                t[samples[i].instr@[0] as int],
            ),
{
    if numbers_in_range(samples) {
        let cands = candidate_table(samples);
        lemma_resolve_sound(cands);
        if let Ok(t) = resolve_spec(cands) {
            assert forall|i: int| 0 <= i < samples.len() implies consistent(
                #[trigger] samples[i],
                t[samples[i].instr@[0] as int],
            ) by {
                let n = samples[i].instr@[0];
                assert(cands[n as int].contains(t[n as int]));
            }
        }
    }
}

/// Decoding a raw instruction under the identity numbering gives the
/// typed instruction of the kind that the opcode number names, built from
/// the same operands; so running either leaves the same registers.
pub proof fn lemma_decode_identity<const N: usize>(
    kind: Kind,
    a: u64,
    b: u64,
    c: u64,
    regs: Seq<u64>,
)
    ensures
        Opcode::<N>::decode_spec(seq![kind.number(), a, b, c], identity_table()) == Opcode::<
            N,
        >::build_spec(kind, a, b, c),
        Opcode::<N>::operands_fit(kind, a, b, c) ==> Opcode::<N>::decode_spec(
            seq![kind.number(), a, b, c],
            identity_table(),
        ) == Ok::<Opcode<N>, Error>(Opcode::<N>::typed(kind, a, b, c)),
        Opcode::<N>::operands_fit(kind, a, b, c) ==> Opcode::<N>::decode_spec(
            seq![kind.number(), a, b, c],
            identity_table(),
        ).unwrap().apply(regs) == Opcode::<N>::typed(kind, a, b, c).apply(regs),
{
    kind.lemma_number_roundtrip();
    assert(lookup(identity_table(), kind.number()) == Some(kind));
}

/// A typed instruction built from raw operands is of the kind asked for,
/// writes register C, and reads each operand as a register or as an
/// immediate value as the kind has it.
pub proof fn lemma_typed_instruction<const N: usize>(
    kind: Kind,
    a: u64,
    b: u64,
    c: u64,
    regs: Seq<u64>,
)
    requires
        Opcode::<N>::operands_fit(kind, a, b, c),
        regs.len() == N,
    ensures
        Opcode::<N>::typed(kind, a, b, c).kind() == kind,
        Opcode::<N>::typed(kind, a, b, c).dest().index() == c,
        Opcode::<N>::typed(kind, a, b, c).a_value(regs) == (if kind.a_is_reg() {
            regs[a as int]
        } else {
            a
        }),
        Opcode::<N>::typed(kind, a, b, c).b_value(regs) == (if kind.b_is_reg() {
            regs[b as int]
        } else if kind.has_b() {
            b
        } else {
            0
        }),
{
    if a < N {
        Reg::<N>::lemma_at_index(a as int);
    }
    if b < N {
        Reg::<N>::lemma_at_index(b as int);
    }
    Reg::<N>::lemma_at_index(c as int);
}

} // verus!
