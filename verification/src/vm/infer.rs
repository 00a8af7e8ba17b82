//! Opcode inference: which kind does each opcode number stand for, given
//! samples of registers before and after an instruction ran?

use crate::vm::decode::{Instruction, Numbering};
use crate::vm::instruction::{Kind, Opcode};
use crate::vm::kind_set::KindSet;
use crate::vm::register::Cpu;
use crate::error::Error;
use vstd::prelude::*;

verus! {

/// One observation: the registers before an instruction, the raw
/// instruction, and the registers after it.
#[derive(Clone, Copy, Debug, PartialEq, Eq)]
pub struct Sample<const N: usize> {
    pub before: [u64; N],
    pub instr: Instruction,
    pub after: [u64; N],
}

/// Whether the sample could have been produced by an instruction of kind
/// `k`: the operands of the sample fit the kind, and the instruction turns
/// `before` into `after`.
pub open spec fn consistent<const N: usize>(s: Sample<N>, k: Kind) -> bool {
    match Opcode::<N>::build_spec(k, s.instr@[1], s.instr@[2], s.instr@[3]) {
        Ok(op) => op.apply(s.before@) == s.after@,
        Err(_) => false,
    }
}

/// The kinds that a single sample is consistent with.
pub open spec fn matching_kinds<const N: usize>(s: Sample<N>) -> Set<Kind> {
    Set::new(|k: Kind| consistent(s, k))
}

/// How many of the samples are consistent with three kinds or more.
pub open spec fn count_three_or_more<const N: usize>(samples: Seq<Sample<N>>) -> nat
    decreases samples.len(),
{
    if samples.len() == 0 {
        0
    } else {
        count_three_or_more(samples.drop_last()) + (if matching_kinds(samples.last()).len() >= 3 {
            1nat
        } else {
            0nat
        })
    }
}

/// The candidates of an opcode number: the kinds that are consistent with
/// every sample that bears the number.
pub open spec fn candidates<const N: usize>(samples: Seq<Sample<N>>, number: u64) -> Set<Kind> {
    Set::new(
        |k: Kind|
            forall|i: int|
                0 <= i < samples.len() && samples[i].instr@[0] == number ==> consistent(
                    #[trigger] samples[i],
                    k,
                ),
    )
}

/// The candidates of the numbers zero to fifteen.
pub open spec fn candidate_table<const N: usize>(samples: Seq<Sample<N>>) -> Seq<Set<Kind>> {
    Seq::new(16, |n: int| candidates(samples, n as u64))
}

/// Whether every sample bears an opcode number below sixteen.
pub open spec fn numbers_in_range<const N: usize>(samples: Seq<Sample<N>>) -> bool {
    forall|i: int| 0 <= i < samples.len() ==> (#[trigger] samples[i]).instr@[0] < 16
}

/// Whether number `n` is still open and has exactly one candidate left.
pub open spec fn is_unit(cands: Seq<Set<Kind>>, table: Seq<Option<Kind>>, n: int) -> bool {
    table[n] is None && cands[n].len() == 1
}

/// The least number from `from` on that is still open and has exactly one
/// candidate left.
pub open spec fn first_unit(cands: Seq<Set<Kind>>, table: Seq<Option<Kind>>, from: int) -> Option<
    int,
>
    decreases 16 - from,
{
    if from >= 16 {
        None
    } else if is_unit(cands, table, from) {
        Some(from)
    } else {
        first_unit(cands, table, from + 1)
    }
}

/// The candidate sets after kind `k` has been given to number `n`: `k`
/// leaves the set of every other number.
pub open spec fn strike(cands: Seq<Set<Kind>>, n: int, k: Kind) -> Seq<Set<Kind>> {
    Seq::new(
        cands.len(),
        |m: int|
            if m == n {
                cands[m]
            } else {
                cands[m].remove(k)
            },
    )
}

/// Elimination for `rounds` more rounds. Each round takes the least open
/// number with a single candidate, fixes that candidate for it and strikes
/// the candidate from all other numbers. A round that finds no such number
/// fails.
pub open spec fn eliminate(cands: Seq<Set<Kind>>, table: Seq<Option<Kind>>, rounds: nat) -> Result<
    Seq<Kind>,
    Error,
>
    decreases rounds,
{
    if rounds == 0 {
        Ok(Seq::new(16, |n: int| table[n].unwrap()))
    } else {
        match first_unit(cands, table, 0) {
            None => Err(Error::AmbiguousMapping),
            Some(n) => {
                let k = cands[n].choose();
                eliminate(strike(cands, n, k), table.update(n, Some(k)), (rounds - 1) as nat)
            },
        }
    }
}

/// The table with every number still open.
pub open spec fn open_table() -> Seq<Option<Kind>> {
    Seq::new(16, |n: int| None::<Kind>)
}

/// The numbering that elimination derives from sixteen candidate sets, or
/// `AmbiguousMapping` where it stalls.
pub open spec fn resolve_spec(cands: Seq<Set<Kind>>) -> Result<Seq<Kind>, Error> {
    eliminate(cands, open_table(), 16)
}

/// The numbering that the samples determine: `InvalidOpcode` where a
/// sample bears a number from sixteen on, else what elimination makes of
/// the candidates.
pub open spec fn infer_spec<const N: usize>(samples: Seq<Sample<N>>) -> Result<Seq<Kind>, Error> {
    if numbers_in_range(samples) {
        resolve_spec(candidate_table(samples))
    } else {
        Err(Error::InvalidOpcode)
    }
}

/// Whether `r` is what inference returns for `samples`.
pub open spec fn is_inferred<const N: usize>(
    samples: Seq<Sample<N>>,
    r: Result<Numbering, Error>,
) -> bool {
    match r {
        Ok(t) => infer_spec(samples) == Ok::<Seq<Kind>, Error>(t@),
        Err(e) => infer_spec(samples) == Err::<Seq<Kind>, Error>(e),
    }
}

/// How many numbers of the table are still open.
pub open spec fn open_count(table: Seq<Option<Kind>>) -> nat
    decreases table.len(),
{
    if table.len() == 0 {
        0
    } else {
        open_count(table.drop_last()) + (if table.last() is None {
            1nat
        } else {
            0nat
        })
    }
}

/// Fixing the kind of an open number leaves one open number fewer.
pub proof fn lemma_open_count_update(table: Seq<Option<Kind>>, n: int, k: Kind)
    requires
        0 <= n < table.len(),
        table[n] is None,
    ensures
        open_count(table.update(n, Some(k))) + 1 == open_count(table),
    decreases table.len(),
{
    let after = table.update(n, Some(k));
    if n == table.len() - 1 {
        assert(after.drop_last() =~= table.drop_last());
    } else {
        lemma_open_count_update(table.drop_last(), n, k);
        assert(after.drop_last() =~= table.drop_last().update(n, Some(k)));
    }
}

/// Where no number is counted as open, every number has its kind.
pub proof fn lemma_open_count_zero(table: Seq<Option<Kind>>)
    requires
        open_count(table) == 0,
    ensures
        forall|n: int| 0 <= n < table.len() ==> (#[trigger] table[n]) is Some,
    decreases table.len(),
{
    if table.len() > 0 {
        lemma_open_count_zero(table.drop_last());
        assert forall|n: int| 0 <= n < table.len() implies (#[trigger] table[n]) is Some by {
            if n < table.len() - 1 {
                assert(table.drop_last()[n] == table[n]);
            }
        }
    }
}

/// In a table without entries every number is open.
pub proof fn lemma_open_count_all(len: nat)
    ensures
        open_count(Seq::new(len, |n: int| None::<Kind>)) == len,
    decreases len,
{
    if len > 0 {
        lemma_open_count_all((len - 1) as nat);
        assert(Seq::new(len, |n: int| None::<Kind>).drop_last() =~= Seq::new(
            (len - 1) as nat,
            |n: int| None::<Kind>,
        ));
    }
}

/// The views of the members of `sets`.
pub open spec fn set_views(sets: Seq<KindSet>) -> Seq<Set<Kind>> {
    Seq::new(sets.len(), |n: int| sets[n]@)
}

fn same_registers<const N: usize>(a: &[u64; N], b: &[u64; N]) -> (same: bool)
    ensures
        same == (a@ == b@),
{
    let mut i: usize = 0;
    while i < N
        invariant
            i <= N,
            forall|j: int| 0 <= j < i ==> a@[j] == b@[j],
        decreases N - i,
    {
        if a[i] != b[i] {
            return false;
        }
        i += 1;
    }
    assert(a@ =~= b@);
    true
}

impl<const N: usize> Sample<N> {
    /// Whether the sample is consistent with kind `k`.
    pub fn matches(&self, k: Kind) -> (b: bool)
        ensures
            b == consistent(*self, k),
    {
        match Opcode::<N>::build(k, self.instr[1], self.instr[2], self.instr[3]) {
            Ok(op) => {
                let mut cpu = Cpu::from_capture(self.before);
                op.exec(&mut cpu);
                let got = cpu.capture();
                same_registers(&got, &self.after)
            },
            Err(_) => false,
        }
    }

    /// The kinds that the sample is consistent with.
    pub fn options(&self) -> (set: KindSet)
        ensures
            set@ == matching_kinds(*self),
    {
        let mut set = KindSet::empty();
        let mut i: u64 = 0;
        while i < 16
            invariant
                i <= 16,
                forall|k: Kind| set@.contains(k) == (k.number() < i && consistent(*self, k)),
            decreases 16 - i,
        {
            proof {
                Kind::lemma_of_number(i);
            }
            let k = Kind::from_number(i).unwrap();
            if self.matches(k) {
                set.insert(k);
            }
            proof {
                assert forall|j: Kind| j.number() == i implies j == k by {
                    j.lemma_number_roundtrip();
                }
            }
            i += 1;
        }
        proof {
            assert forall|k: Kind| set@.contains(k) == matching_kinds(*self).contains(k) by {
                k.lemma_number_roundtrip();
            }
            assert(set@ =~= matching_kinds(*self));
        }
        set
    }
}

/// For each sample its opcode number and the kinds it is consistent with.
pub fn op_options<const N: usize>(samples: &[Sample<N>]) -> (result: Vec<(u64, KindSet)>)
    ensures
        result@.len() == samples@.len(),
        forall|i: int|
            0 <= i < samples@.len() ==> (#[trigger] result@[i]).0 == samples@[i].instr@[0]
                && result@[i].1@ == matching_kinds(samples@[i]),
{
    let mut result: Vec<(u64, KindSet)> = Vec::new();
    let mut i: usize = 0;
    while i < samples.len()
        invariant
            i <= samples@.len(),
            result@.len() == i,
            forall|j: int|
                0 <= j < i ==> (#[trigger] result@[j]).0 == samples@[j].instr@[0] && result@[j].1@
                    == matching_kinds(samples@[j]),
        decreases samples@.len() - i,
    {
        let s = &samples[i];
        let set = s.options();
        result.push((s.instr[0], set));
        i += 1;
    }
    result
}

/// Counts the samples that are consistent with three kinds or more.
pub fn count_ambiguous<const N: usize>(samples: &[Sample<N>]) -> (count: usize)
    ensures
        count == count_three_or_more(samples@),
{
    let opts = op_options(samples);
    let mut count: usize = 0;
    let mut i: usize = 0;
    assert(samples@.subrange(0, 0) =~= Seq::empty());
    while i < opts.len()
        invariant
            i <= opts@.len(),
            opts@.len() == samples@.len(),
            forall|j: int|
                0 <= j < opts@.len() ==> (#[trigger] opts@[j]).1@ == matching_kinds(samples@[j]),
            count == count_three_or_more(samples@.subrange(0, i as int)),
            count <= i,
        decreases opts@.len() - i,
    {
        proof {
            let next = samples@.subrange(0, i + 1);
            assert(next.drop_last() =~= samples@.subrange(0, i as int));
            assert(next.last() == samples@[i as int]);
        }
        if opts[i].1.len() >= 3 {
            count += 1;
        }
        i += 1;
    }
    assert(samples@.subrange(0, i as int) =~= samples@);
    count
}

/// The candidate sets of the sixteen opcode numbers.
#[derive(Clone, Copy, Debug, PartialEq, Eq)]
pub struct OpcodeCandidates {
    sets: [KindSet; 16],
}

impl View for OpcodeCandidates {
    type V = Seq<Set<Kind>>;

    closed spec fn view(&self) -> Seq<Set<Kind>> {
        set_views(self.sets@)
    }
}

impl OpcodeCandidates {
    /// There is one candidate set for each of the sixteen numbers.
    pub broadcast proof fn lemma_len(self)
        ensures
            #[trigger] self@.len() == 16,
    {
    }

    /// Candidate sets given one by one.
    pub fn from_sets(sets: [KindSet; 16]) -> (c: Self)
        ensures
            c@ == set_views(sets@),
    {
        OpcodeCandidates { sets }
    }

    /// The candidate set of `number`, where the number is below sixteen.
    pub fn get(&self, number: usize) -> (set: Option<KindSet>)
        ensures
            match set {
                Some(kinds) => number < 16 && kinds@ == self@[number as int],
                None => number >= 16,
            },
    {
        if number < 16 {
            Some(self.sets[number])
        } else {
            None
        }
    }

    /// Intersects, for each opcode number, the kinds that its samples are
    /// consistent with. A number without samples keeps all sixteen kinds.
    pub fn from_samples<const N: usize>(samples: &[Sample<N>]) -> (r: Result<Self, Error>)
        ensures
            match r {
                Ok(c) => numbers_in_range(samples@) && c@ == candidate_table(samples@),
                Err(e) => !numbers_in_range(samples@) && e == Error::InvalidOpcode,
            },
    {
        let opts = op_options(samples);
        let mut sets: [KindSet; 16] = [KindSet::full();16];
        let mut i: usize = 0;
        while i < opts.len()
            invariant
                i <= opts@.len(),
                opts@.len() == samples@.len(),
                forall|j: int|
                    0 <= j < opts@.len() ==> (#[trigger] opts@[j]).0 == samples@[j].instr@[0]
                        && opts@[j].1@ == matching_kinds(samples@[j]),
                forall|j: int| 0 <= j < i ==> (#[trigger] samples@[j]).instr@[0] < 16,
                forall|n: int|
                    0 <= n < 16 ==> (#[trigger] sets@[n])@ == candidates(
                        samples@.subrange(0, i as int),
                        n as u64,
                    ),
            decreases opts@.len() - i,
        {
            let number = opts[i].0;
            if number >= 16 {
                assert(samples@[i as int].instr@[0] >= 16);
                return Err(Error::InvalidOpcode);
            }
            let mut set = sets[number as usize];
            set.intersect(&opts[i].1);
            sets[number as usize] = set;
            proof {
                let before = samples@.subrange(0, i as int);
                let after = samples@.subrange(0, i + 1);
                let s = samples@[i as int];
                assert forall|n: int| 0 <= n < 16 implies (#[trigger] sets@[n])@ == candidates(
                    after,
                    n as u64,
                ) by {
                    let want = candidates(after, n as u64);
                    let had = candidates(before, n as u64);
                    assert forall|k: Kind| sets@[n]@.contains(k) == want.contains(k) by {
                        if want.contains(k) {
                            assert forall|j: int|
                                0 <= j < before.len() && before[j].instr@[0] == n as u64
                                    implies consistent(#[trigger] before[j], k) by {
                                assert(after[j] == before[j]);
                            }
                            if n == number {
                                assert(after[i as int] == s);
                            }
                        }
                        if had.contains(k) && (n == number ==> consistent(s, k)) {
                            assert forall|j: int|
                                0 <= j < after.len() && after[j].instr@[0] == n as u64
                                    implies consistent(#[trigger] after[j], k) by {
                                if j < i {
                                    assert(after[j] == before[j]);
                                }
                            }
                        }
                    }
                    assert(sets@[n]@ =~= want);
                }
            }
            i += 1;
        }
        let c = OpcodeCandidates { sets };
        proof {
            assert(samples@.subrange(0, i as int) =~= samples@);
            assert(c@ =~= candidate_table(samples@));
        }
        Ok(c)
    }

    /// Resolves the numbering by elimination.
    pub fn resolve(&self) -> (r: Result<Numbering, Error>)
        ensures
            match r {
                Ok(t) => resolve_spec(self@) == Ok::<Seq<Kind>, Error>(t@),
                Err(e) => resolve_spec(self@) == Err::<Seq<Kind>, Error>(e),
            },
    {
        let mut sets: [KindSet; 16] = self.sets;
        let mut table: [Option<Kind>; 16] = [None;16];
        let mut round: usize = 0;
        proof {
            lemma_open_count_all(16);
            assert(table@ =~= open_table());
        }
        while round < 16
            invariant
                round <= 16,
                resolve_spec(self@) == eliminate(set_views(sets@), table@, (16 - round) as nat),
                open_count(table@) == 16 - round,
            decreases 16 - round,
        {
            let ghost cands = set_views(sets@);
            let mut n: usize = 0;
            let mut found: Option<(usize, Kind)> = None;
            while n < 16
                invariant_except_break
                    found is None,
                    first_unit(cands, table@, 0) == first_unit(cands, table@, n as int),
                invariant
                    n <= 16,
                    cands == set_views(sets@),
                ensures
                    match found {
                        None => first_unit(cands, table@, 0) is None,
                        Some((m, k)) => m < 16 && first_unit(cands, table@, 0) == Some(m as int)
                            && cands[m as int] == set![k] && table@[m as int] is None,
                    },
                decreases 16 - n,
            {
                if table[n].is_none() {
                    let only = sets[n].the_only();
                    if let Some(k) = only {
                        found = Some((n, k));
                        break ;
                    }
                }
                n += 1;
            }
            match found {
                None => {
                    return Err(Error::AmbiguousMapping);
                },
                Some((m, k)) => {
                    proof {
                        assert(cands[m as int].contains(k));
                        assert(cands[m as int].contains(cands[m as int].choose()));
                        assert(cands[m as int].choose() == k);
                        lemma_open_count_update(table@, m as int, k);
                    }
                    table[m] = Some(k);
                    let mut j: usize = 0;
                    while j < 16
                        invariant
                            j <= 16,
                            m < 16,
                            cands.len() == 16,
                            forall|i: int|
                                0 <= i < j ==> (#[trigger] sets@[i])@ == strike(cands, m as int, k)[i],
                            forall|i: int| j <= i < 16 ==> (#[trigger] sets@[i])@ == cands[i],
                        decreases 16 - j,
                    {
                        if j != m {
                            let mut set = sets[j];
                            set.remove(k);
                            sets[j] = set;
                        }
                        j += 1;
                    }
                    assert(set_views(sets@) =~= strike(cands, m as int, k));
                },
            }
            round += 1;
        }
        proof {
            lemma_open_count_zero(table@);
        }
        let mut kinds: [Kind; 16] = [Kind::Addr;16];
        let mut i: usize = 0;
        while i < 16
            invariant
                i <= 16,
                forall|n: int| 0 <= n < 16 ==> (#[trigger] table@[n]) is Some,
                forall|n: int| 0 <= n < i ==> (#[trigger] kinds@[n]) == table@[n].unwrap(),
            decreases 16 - i,
        {
            match table[i] {
                Some(k) => {
                    kinds[i] = k;
                },
                None => {},
            }
            i += 1;
        }
        let t = Numbering::from_kinds(kinds);
        proof {
            assert(t@ =~= Seq::new(16, |n: int| table@[n].unwrap()));
        }
        Ok(t)
    }
}

/// Deduces the numbering from the samples.
pub fn infer<const N: usize>(samples: &[Sample<N>]) -> (r: Result<Numbering, Error>)
    ensures
        is_inferred(samples@, r),
{
    match OpcodeCandidates::from_samples(samples) {
        Ok(c) => c.resolve(),
        Err(e) => Err(e),
    }
}

} // verus!
