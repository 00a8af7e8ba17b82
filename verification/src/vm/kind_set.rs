//! Sets of instruction kinds.

use crate::vm::instruction::Kind;
use vstd::prelude::*;

verus! {

/// A set of instruction kinds.
#[derive(Clone, Copy, Debug, PartialEq, Eq)]
pub struct KindSet {
    member: [bool; 16],
}

impl View for KindSet {
    type V = Set<Kind>;

    closed spec fn view(&self) -> Set<Kind> {
        Set::new(|k: Kind| self.member@[k.number() as int])
    }
}

/// The set of all sixteen kinds.
pub open spec fn all_kinds() -> Set<Kind> {
    Set::new(|k: Kind| true)
}

/// The kinds of `s` whose number is below `bound`.
pub open spec fn kinds_below(s: Set<Kind>, bound: int) -> Set<Kind> {
    Set::new(|k: Kind| s.contains(k) && k.number() < bound)
}

/// The kinds of a set with numbers below `bound` are finitely many, at
/// most `bound` of them.
pub proof fn lemma_kinds_below(s: Set<Kind>, bound: int)
    requires
        0 <= bound <= 16,
    ensures
        kinds_below(s, bound).finite(),
        kinds_below(s, bound).len() <= bound,
        bound == 16 ==> kinds_below(s, bound) == s,
        bound < 16 ==> kinds_below(s, bound + 1) == (if s.contains(
            Kind::of_number(bound as u64).unwrap(),
        ) {
            kinds_below(s, bound).insert(Kind::of_number(bound as u64).unwrap())
        } else {
            kinds_below(s, bound)
        }),
        bound < 16 ==> !kinds_below(s, bound).contains(Kind::of_number(bound as u64).unwrap()),
    decreases bound,
{
    if bound == 0 {
        assert(kinds_below(s, 0) =~= Set::empty());
    } else {
        lemma_kinds_below(s, bound - 1);
        let k = Kind::of_number((bound - 1) as u64).unwrap();
        Kind::lemma_of_number((bound - 1) as u64);
        assert forall|j: Kind| j.number() == bound - 1 implies j == k by {
            j.lemma_number_roundtrip();
        }
        if s.contains(k) {
            assert(kinds_below(s, bound) =~= kinds_below(s, bound - 1).insert(k));
        } else {
            assert(kinds_below(s, bound) =~= kinds_below(s, bound - 1));
        }
    }
    if bound == 16 {
        assert forall|j: Kind| j.number() < 16 by {
            j.lemma_number_roundtrip();
        }
        assert(kinds_below(s, bound) =~= s);
    } else {
        let k = Kind::of_number(bound as u64).unwrap();
        Kind::lemma_of_number(bound as u64);
        assert forall|j: Kind| j.number() == bound implies j == k by {
            j.lemma_number_roundtrip();
        }
        if s.contains(k) {
            assert(kinds_below(s, bound + 1) =~= kinds_below(s, bound).insert(k));
        } else {
            assert(kinds_below(s, bound + 1) =~= kinds_below(s, bound));
        }
    }
}

/// Every set of kinds is finite and has at most sixteen members.
pub proof fn lemma_kind_sets_finite(s: Set<Kind>)
    ensures
        s.finite(),
        s.len() <= 16,
{
    lemma_kinds_below(s, 16);
}

impl KindSet {
    /// The set without members.
    pub fn empty() -> (s: Self)
        ensures
            s@ == Set::<Kind>::empty(),
    {
        let s = KindSet { member: [false;16] };
        assert(s@ =~= Set::<Kind>::empty()) by {
            assert forall|k: Kind| !s@.contains(k) by {
                k.lemma_number_roundtrip();
            }
        }
        s
    }

    /// The set of all kinds.
    pub fn full() -> (s: Self)
        ensures
            s@ == all_kinds(),
    {
        let s = KindSet { member: [true;16] };
        assert(s@ =~= all_kinds()) by {
            assert forall|k: Kind| s@.contains(k) by {
                k.lemma_number_roundtrip();
            }
        }
        s
    }

    /// Whether the kind is in the set.
    pub fn contains(&self, k: Kind) -> (b: bool)
        ensures
            b == self@.contains(k),
    {
        proof {
            k.lemma_number_roundtrip();
        }
        self.member[k.to_number() as usize]
    }

    /// Puts the kind into the set.
    pub fn insert(&mut self, k: Kind)
        ensures
            final(self)@ == old(self)@.insert(k),
    {
        proof {
            k.lemma_number_roundtrip();
        }
        self.member[k.to_number() as usize] = true;
        proof {
            assert forall|j: Kind| self@.contains(j) == old(self)@.insert(k).contains(j) by {
                j.lemma_number_roundtrip();
            }
            assert(self@ =~= old(self)@.insert(k));
        }
    }

    /// Takes the kind out of the set.
    pub fn remove(&mut self, k: Kind)
        ensures
            final(self)@ == old(self)@.remove(k),
    {
        proof {
            k.lemma_number_roundtrip();
        }
        self.member[k.to_number() as usize] = false;
        proof {
            assert forall|j: Kind| self@.contains(j) == old(self)@.remove(k).contains(j) by {
                j.lemma_number_roundtrip();
            }
            assert(self@ =~= old(self)@.remove(k));
        }
    }

    /// Keeps the members that `other` holds too.
    pub fn intersect(&mut self, other: &KindSet)
        ensures
            final(self)@ == old(self)@.intersect(other@),
    {
        let ghost before = self.member@;
        let mut i: usize = 0;
        while i < 16
            invariant
                i <= 16,
                before == old(self).member@,
                forall|j: int|
                    0 <= j < i ==> #[trigger] self.member@[j] == (before[j] && other.member@[j]),
                forall|j: int| i <= j < 16 ==> #[trigger] self.member@[j] == before[j],
            decreases 16 - i,
        {
            if !other.member[i] {
                self.member[i] = false;
            }
            i += 1;
        }
        proof {
            assert forall|k: Kind|
                self@.contains(k) == old(self)@.intersect(other@).contains(k) by {
                k.lemma_number_roundtrip();
            }
            assert(self@ =~= old(self)@.intersect(other@));
        }
    }

    /// The number of members.
    pub fn len(&self) -> (n: usize)
        ensures
            n == self@.len(),
            n <= 16,
    {
        let mut n: usize = 0;
        let mut i: usize = 0;
        proof {
            lemma_kinds_below(self@, 0);
        }
        while i < 16
            invariant
                i <= 16,
                n == kinds_below(self@, i as int).len(),
                n <= i,
            decreases 16 - i,
        {
            proof {
                lemma_kinds_below(self@, i as int);
                Kind::lemma_of_number(i as u64);
            }
            if self.member[i] {
                n += 1;
            }
            i += 1;
        }
        proof {
            lemma_kinds_below(self@, 16);
        }
        n
    }

    /// The member of the set, where it has exactly one.
    pub fn the_only(&self) -> (k: Option<Kind>)
        ensures
            k matches Some(m) ==> self@ == set![m],
            k is Some <==> self@.len() == 1,
    {
        if self.len() != 1 {
            return None;
        }
        let mut i: u64 = 0;
        proof {
            lemma_kinds_below(self@, 0);
        }
        while i < 16
            invariant
                i <= 16,
                self@.len() == 1,
                kinds_below(self@, i as int).len() == 0,
            decreases 16 - i,
        {
            proof {
                lemma_kinds_below(self@, i as int);
                Kind::lemma_of_number(i);
            }
            if self.member[i as usize] {
                let found = Kind::from_number(i);
                proof {
                    let m = found.unwrap();
                    lemma_kind_sets_finite(self@);
                    assert(self@.contains(m));
                    assert(self@.remove(m).len() == 0);
                    assert(self@.remove(m) =~= Set::empty());
                    assert(self@ =~= set![m]);
                }
                return found;
            }
            i += 1;
        }
        proof {
            lemma_kinds_below(self@, 16);
        }
        None
    }
}

} // verus!
