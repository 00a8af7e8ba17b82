//! A polymer whose units react with their neighbours: a letter and the
//! same letter in the other case destroy each other.

use vstd::prelude::*;

verus! {

/// Whether the byte is a lower-case letter.
pub open spec fn lower(a: u8) -> bool {
    97 <= a <= 122
}

/// The byte in upper case.
pub open spec fn upper(a: u8) -> u8 {
    if lower(a) {
        (a - 32) as u8
    } else {
        a
    }
}

/// The byte in lower case.
pub open spec fn to_lower(a: u8) -> u8 {
    if 65 <= a <= 90 {
        (a + 32) as u8
    } else {
        a
    }
}

/// Whether two units react: the same letter, one in lower and one in upper
/// case.
pub open spec fn collides(a: u8, b: u8) -> bool {
    lower(a) != lower(b) && upper(a) == upper(b)
}

/// What is left of a polymer once it has reacted: unit by unit, a unit
/// that reacts with the last one left takes it away, any other stays.
pub open spec fn reacted(s: Seq<u8>) -> Seq<u8>
    decreases s.len(),
{
    if s.len() == 0 {
        Seq::empty()
    } else {
        let before = reacted(s.drop_last());
        if before.len() > 0 && collides(before.last(), s.last()) {
            before.drop_last()
        } else {
            before.push(s.last())
        }
    }
}

/// The polymer without the units of the letter `c`, in either case.
pub open spec fn without(s: Seq<u8>, c: u8) -> Seq<u8>
    decreases s.len(),
{
    if s.len() == 0 {
        Seq::empty()
    } else if to_lower(s.last()) == c {
        without(s.drop_last(), c)
    } else {
        without(s.drop_last(), c).push(s.last())
    }
}

/// The least length that is left when all units of one letter from `a`
/// to the letter before `letter` are taken out before the reaction.
pub open spec fn least_left(s: Seq<u8>, letter: u8) -> Option<nat>
    decreases letter,
{
    if letter <= 97 {
        None
    } else {
        let c = (letter - 1) as u8;
        let here = reacted(without(s, c)).len();
        match least_left(s, c) {
            Some(m) => if m <= here {
                Some(m)
            } else {
                Some(here)
            },
            None => Some(here),
        }
    }
}

/// What is left after the reaction reacts no further: no two neighbours
/// in it react, and it is no longer than the polymer was.
pub proof fn lemma_reacted_is_stable(s: Seq<u8>)
    ensures
        forall|i: int|
            0 <= i < reacted(s).len() - 1 ==> !collides(#[trigger] reacted(s)[i], reacted(s)[i + 1]),
        reacted(s).len() <= s.len(),
    decreases s.len(),
{
    if s.len() > 0 {
        lemma_reacted_is_stable(s.drop_last());
        let before = reacted(s.drop_last());
        let after = reacted(s);
        assert forall|i: int| 0 <= i < after.len() - 1 implies !collides(
            #[trigger] after[i],
            after[i + 1],
        ) by {
            if before.len() > 0 && collides(before.last(), s.last()) {
                assert(after[i] == before[i] && after[i + 1] == before[i + 1]);
            } else if i + 1 < before.len() {
                assert(after[i] == before[i] && after[i + 1] == before[i + 1]);
            }
        }
    }
}

/// Whether two units react.
pub fn is_collision(a: u8, b: u8) -> (r: bool)
    ensures
        r == collides(a, b),
{
    let la = a >= 97 && a <= 122;
    let lb = b >= 97 && b <= 122;
    if la != lb {
        let ua = if la {
            a - 32
        } else {
            a
        };
        let ub = if lb {
            b - 32
        } else {
            b
        };
        return ua == ub;
    }
    false
}

fn lower_case(a: u8) -> (r: u8)
    ensures
        r == to_lower(a),
{
    if a >= 65 && a <= 90 {
        a + 32
    } else {
        a
    }
}

fn react_without(s: &[u8], skip: Option<u8>) -> (n: usize)
    ensures
        n == (match skip {
            Some(c) => reacted(without(s@, c)).len(),
            None => reacted(s@).len(),
        }),
{
    let mut v: Vec<u8> = Vec::new();
    let mut i: usize = 0;
    let ghost mut kept: Seq<u8> = Seq::empty();
    assert(s@.subrange(0, 0) =~= Seq::<u8>::empty());
    while i < s.len()
        invariant
            i <= s@.len(),
            kept == (match skip {
                Some(c) => without(s@.subrange(0, i as int), c),
                None => s@.subrange(0, i as int),
            }),
            v@ == reacted(kept),
        decreases s@.len() - i,
    {
        let c = s[i];
        proof {
            let next = s@.subrange(0, i + 1);
            assert(next.drop_last() =~= s@.subrange(0, i as int));
            assert(next.last() == c);
        }
        let skipped = match skip {
            Some(letter) => lower_case(c) == letter,
            None => false,
        };
        if !skipped {
            proof {
                let grown = kept.push(c);
                assert(grown.drop_last() =~= kept);
                kept = grown;
            }
            if v.len() > 0 && is_collision(v[v.len() - 1], c) {
                v.pop();
            } else {
                v.push(c);
            }
        }
        i += 1;
    }
    assert(s@.subrange(0, i as int) =~= s@);
    v.len()
}

/// How many units are left once the polymer has reacted.
pub fn react_poly(s: &[u8]) -> (n: usize)
    ensures
        n == reacted(s@).len(),
{
    react_without(s, None)
}

/// How many units are left once the polymer has reacted.
pub fn part1(s: &[u8]) -> (n: usize)
    ensures
        n == reacted(s@).len(),
{
    react_poly(s)
}

/// How many units are left at best when all units of one letter are
/// taken out before the reaction.
pub fn part2(s: &[u8]) -> (n: usize)
    ensures
        least_left(s@, 123) == Some(n as nat),
{
    let mut best = react_without(s, Some(97));
    let mut c: u8 = 98;
    assert(least_left(s@, 98) == Some(best as nat)) by {
        assert(least_left(s@, 97) is None);
    }
    while c <= 122
        invariant
            98 <= c <= 123,
            least_left(s@, c) == Some(best as nat),
        decreases 123 - c,
    {
        let here = react_without(s, Some(c));
        if here < best {
            best = here;
        }
        c += 1;
    }
    best
}

} // verus!
