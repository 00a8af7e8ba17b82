//! Nanobots in space: how many lie in range of the strongest?

use crate::error::Error;
use crate::util::pattern::{captures, captures_of, signed, signed_of, size, size_of};
use crate::util::file::{decimal, decimal_signed, digits_of, signed_digits};
use crate::util::text::{chars_of, lines, scan_tag, tag_at, text_lines};
use vstd::string::*;
use vstd::prelude::*;

verus! {

/// A nanobot: its position and the radius of its signal.
#[derive(Debug, Clone, Copy, PartialEq, Eq, Structural)]
pub struct NanoBot {
    x: i64,
    y: i64,
    z: i64,
    r: usize,
}

/// The nanobots of the puzzle.
#[derive(Debug)]
pub struct Data {
    nano_bots: Vec<NanoBot>,
}

/// The distance between two coordinates.
pub open spec fn gap(p: i64, q: i64) -> nat {
    if p >= q {
        (p - q) as nat
    } else {
        (q - p) as nat
    }
}

fn gap_of(p: i64, q: i64) -> (d: u128)
    ensures
        d == gap(p, q),
        d <= 0xffff_ffff_ffff_ffff,
{
    if p >= q {
        (p as i128 - q as i128) as u128
    } else {
        (q as i128 - p as i128) as u128
    }
}

impl NanoBot {
    /// Where the nanobot is, and how far its signal reaches.
    pub closed spec fn parts(self) -> (i64, i64, i64, usize) {
        (self.x, self.y, self.z, self.r)
    }

    /// The radius of the signal.
    pub open spec fn radius(self) -> nat {
        self.parts().3 as nat
    }

    /// The Manhattan distance to `other`.
    pub open spec fn distance(self, other: NanoBot) -> nat {
        gap(self.parts().0, other.parts().0) + gap(self.parts().1, other.parts().1) + gap(
            self.parts().2,
            other.parts().2,
        )
    }

    /// Whether `other` lies within the signal of this nanobot.
    pub open spec fn reaches(self, other: NanoBot) -> bool {
        self.distance(other) <= self.radius()
    }

    /// A nanobot at the given place whose signal reaches `r` far.
    pub fn new(x: i64, y: i64, z: i64, r: usize) -> (bot: NanoBot)
        ensures
            bot.parts() == (x, y, z, r),
    {
        NanoBot { x, y, z, r }
    }

    fn wide_dist(&self, other: &NanoBot) -> (d: u128)
        ensures
            d == self.distance(*other),
    {
        gap_of(self.x, other.x) + gap_of(self.y, other.y) + gap_of(self.z, other.z)
    }

    /// The Manhattan distance to `other`.
    pub fn dist(&self, other: &NanoBot) -> (d: usize)
        requires
            self.distance(*other) <= usize::MAX,
        ensures
            d == self.distance(*other),
    {
        self.wide_dist(other) as usize
    }

    /// Whether `other` lies within the signal of this nanobot.
    pub fn is_in_range(&self, other: &NanoBot) -> (b: bool)
        ensures
            b == self.reaches(*other),
    {
        self.wide_dist(other) <= self.r as u128
    }
}

/// The place of the strongest nanobot: of those with the widest signal the
/// last.
pub open spec fn strongest(bots: Seq<NanoBot>) -> int
    decreases bots.len(),
{
    if bots.len() <= 1 {
        0
    } else {
        let before = strongest(bots.drop_last());
        if bots.last().radius() >= bots[before].radius() {
            bots.len() - 1
        } else {
            before
        }
    }
}

/// How many of the nanobots lie within the signal of `from`.
pub open spec fn reached(from: NanoBot, bots: Seq<NanoBot>) -> nat
    decreases bots.len(),
{
    if bots.len() == 0 {
        0
    } else {
        reached(from, bots.drop_last()) + (if from.reaches(bots.last()) {
            1nat
        } else {
            0nat
        })
    }
}

/// The strongest nanobot is one of the nanobots, and none has a wider
/// signal.
pub proof fn lemma_strongest(bots: Seq<NanoBot>)
    requires
        bots.len() > 0,
    ensures
        0 <= strongest(bots) < bots.len(),
        forall|i: int|
            0 <= i < bots.len() ==> (#[trigger] bots[i]).radius() <= bots[strongest(bots)].radius(),
    decreases bots.len(),
{
    if bots.len() > 1 {
        lemma_strongest(bots.drop_last());
        let before = strongest(bots.drop_last());
        assert(bots.drop_last()[before] == bots[before]);
        assert forall|i: int| 0 <= i < bots.len() implies (#[trigger] bots[i]).radius() <= bots[strongest(
            bots,
        )].radius() by {
            if i < bots.len() - 1 {
                assert(bots.drop_last()[i] == bots[i]);
            }
        }
    }
}

impl Data {
    /// The nanobots.
    pub closed spec fn bots(self) -> Seq<NanoBot> {
        self.nano_bots@
    }

    /// The swarm of the given nanobots.
    pub fn new(nano_bots: Vec<NanoBot>) -> (d: Data)
        ensures
            d.bots() == nano_bots@,
    {
        Data { nano_bots }
    }
}

/// How many nanobots lie in range of the strongest one; nothing where
/// there are no nanobots.
pub fn part1(d: &Data) -> (r: Option<usize>)
    ensures
        r == (if d.bots().len() == 0 {
            None
        } else {
            Some(reached(d.bots()[strongest(d.bots())], d.bots()) as usize)
        }),
        d.bots().len() > 0 ==> reached(d.bots()[strongest(d.bots())], d.bots()) <= d.bots().len(),
{
    let n = d.nano_bots.len();
    if n == 0 {
        return None;
    }
    let ghost bots = d.nano_bots@;
    let mut best: usize = 0;
    let mut i: usize = 1;
    assert(bots.subrange(0, 1).drop_last() =~= Seq::<NanoBot>::empty());
    while i < n
        invariant
            1 <= i <= n,
            n == bots.len(),
            bots == d.nano_bots@,
            best < i,
            best == strongest(bots.subrange(0, i as int)),
        decreases n - i,
    {
        proof {
            let next = bots.subrange(0, i + 1);
            assert(next.drop_last() =~= bots.subrange(0, i as int));
            assert(next.last() == bots[i as int]);
            assert(next[best as int] == bots[best as int]);
        }
        if d.nano_bots[i].r >= d.nano_bots[best].r {
            best = i;
        }
        i += 1;
    }
    assert(bots.subrange(0, n as int) =~= bots);
    let from = d.nano_bots[best];
    let mut count: usize = 0;
    let mut i: usize = 0;
    assert(bots.subrange(0, 0) =~= Seq::<NanoBot>::empty());
    while i < n
        invariant
            i <= n,
            n == bots.len(),
            bots == d.nano_bots@,
            count == reached(from, bots.subrange(0, i as int)),
            count <= i,
        decreases n - i,
    {
        proof {
            let next = bots.subrange(0, i + 1);
            assert(next.drop_last() =~= bots.subrange(0, i as int));
            assert(next.last() == bots[i as int]);
        }
        if from.is_in_range(&d.nano_bots[i]) {
            count += 1;
        }
        i += 1;
    }
    assert(bots.subrange(0, n as int) =~= bots);
    Some(count)
}

/// The regular expression of a line such as `pos=<0,0,0>, r=4`.
pub open spec fn bot_pattern() -> Seq<char> {
    r"^(pos=<)(-?\d*)(,)(-?\d*)(,)(-?\d*)(>,\sr=)(\d*)$"@
}

/// The nanobot that the capture groups of a line write: the position in
/// the groups two, four and six, the radius in group eight.
pub open spec fn bot_of_groups(groups: Option<Seq<Option<Seq<char>>>>) -> Result<
    (i64, i64, i64, usize),
    Error,
> {
    match groups {
        Some(g) => match (signed_of(g, 2), signed_of(g, 4), signed_of(g, 6), size_of(g, 8)) {
            (Some(x), Some(y), Some(z), Some(r)) => Ok((x, y, z, r)),
            _ => Err(Error::MalformedInput),
        },
        None => Err(Error::MalformedInput),
    }
}

/// The nanobot that a line writes.
pub open spec fn bot_of_line(line: Seq<char>) -> Result<(i64, i64, i64, usize), Error> {
    bot_of_groups(captures_of(bot_pattern(), line))
}

/// The nanobots that the lines write, one each.
pub open spec fn bots_of_lines(lines: Seq<Seq<char>>) -> Result<Seq<(i64, i64, i64, usize)>, Error> {
    if forall|i: int| 0 <= i < lines.len() ==> bot_of_line(#[trigger] lines[i]) is Ok {
        Ok(Seq::new(lines.len(), |i: int| bot_of_line(lines[i]).unwrap()))
    } else {
        Err(Error::MalformedInput)
    }
}

/// Whether the outcome of reading nanobots is the expected one.
pub open spec fn bots_agree(r: Result<Data, Error>, expected: Result<Seq<(i64, i64, i64, usize)>, Error>) -> bool {
    match r {
        Ok(d) => expected == Ok::<Seq<(i64, i64, i64, usize)>, Error>(
            Seq::new(d.bots().len(), |i: int| d.bots()[i].parts()),
        ),
        Err(e) => expected == Err::<Seq<(i64, i64, i64, usize)>, Error>(e),
    }
}

impl NanoBot {
    /// Reads a nanobot out of the capture groups of its line.
    pub fn from_groups(groups: &Option<Vec<Option<String>>>) -> (r: Result<NanoBot, Error>)
        ensures
            match r {
                Ok(bot) => bot_of_groups(groups.deep_view()) == Ok::<(i64, i64, i64, usize), Error>(
                    bot.parts(),
                ),
                Err(e) => bot_of_groups(groups.deep_view()) == Err::<(i64, i64, i64, usize), Error>(
                    e,
                ),
            },
    {
        match groups {
            None => Err(Error::MalformedInput),
            Some(g) => match (signed(g, 2), signed(g, 4), signed(g, 6), size(g, 8)) {
                (Some(x), Some(y), Some(z), Some(r)) => Ok(NanoBot { x, y, z, r }),
                _ => Err(Error::MalformedInput),
            },
        }
    }

    /// Reads a line such as `pos=<1,-2,3>, r=4`.
    pub fn parse(s: &str) -> (r: Result<NanoBot, Error>)
        ensures
            match r {
                Ok(bot) => bot_of_line(s@) == Ok::<(i64, i64, i64, usize), Error>(bot.parts()),
                Err(e) => bot_of_line(s@) == Err::<(i64, i64, i64, usize), Error>(e),
            },
    {
        let groups = captures(r"^(pos=<)(-?\d*)(,)(-?\d*)(,)(-?\d*)(>,\sr=)(\d*)$", s);
        NanoBot::from_groups(&groups)
    }
}

impl Data {
    /// Reads one nanobot from each line.
    pub fn from_lines(lines: &Vec<String>) -> (r: Result<Data, Error>)
        ensures
            bots_agree(r, bots_of_lines(lines.deep_view())),
    {
        let mut bots: Vec<NanoBot> = Vec::new();
        let mut i: usize = 0;
        while i < lines.len()
            invariant
                i <= lines@.len(),
                bots@.len() == i,
                forall|j: int| 0 <= j < i ==> bot_of_line(#[trigger] lines.deep_view()[j]) is Ok,
                forall|j: int|
                    0 <= j < i ==> (#[trigger] bots@[j]).parts() == bot_of_line(
                        lines.deep_view()[j],
                    ).unwrap(),
            decreases lines@.len() - i,
        {
            assert(lines.deep_view()[i as int] == lines@[i as int]@);
            match NanoBot::parse(lines[i].as_str()) {
                Ok(bot) => {
                    bots.push(bot);
                },
                Err(_) => {
                    return Err(Error::MalformedInput);
                },
            }
            i += 1;
        }
        let d = Data { nano_bots: bots };
        proof {
            let want = Seq::new(
                lines.deep_view().len(),
                |i: int| bot_of_line(lines.deep_view()[i]).unwrap(),
            );
            assert(Seq::new(d.bots().len(), |i: int| d.bots()[i].parts()) =~= want);
        }
        Ok(d)
    }

    /// Reads the nanobots of the puzzle, one on each line.
    pub fn parse(s: &str) -> (r: Result<Data, Error>)
        ensures
            bots_agree(r, bots_of_lines(text_lines(s@))),
    {
        let all = lines(s);
        Data::from_lines(&all)
    }
}

/// The input of the puzzle and its example.
#[derive(Debug)]
pub struct Solution23 {
    data: Data,
    sample: Data,
}

impl Solution23 {
    /// The nanobots of the input.
    pub closed spec fn data(self) -> Seq<NanoBot> {
        self.data.bots()
    }

    /// The nanobots of the example.
    pub closed spec fn sample(self) -> Seq<NanoBot> {
        self.sample.bots()
    }

    /// A solution without nanobots.
    pub fn new() -> (s: Self)
        ensures
            s.data() == Seq::<NanoBot>::empty(),
            s.sample() == Seq::<NanoBot>::empty(),
    {
        Solution23 { data: Data::new(Vec::new()), sample: Data::new(Vec::new()) }
    }

    /// Reads the input and the example. On an error the solution keeps
    /// what it had.
    pub fn init(&mut self, data: &str, sample: &str) -> (r: Result<(), Error>)
        ensures
            match r {
                Ok(()) => bots_of_lines(text_lines(data@)) == Ok::<
                    Seq<(i64, i64, i64, usize)>,
                    Error,
                >(Seq::new(final(self).data().len(), |i: int| final(self).data()[i].parts()))
                    && bots_of_lines(text_lines(sample@)) == Ok::<
                    Seq<(i64, i64, i64, usize)>,
                    Error,
                >(Seq::new(final(self).sample().len(), |i: int| final(self).sample()[i].parts())),
                Err(e) => e == Error::MalformedInput && *final(self) == *old(self) && (bots_of_lines(
                    text_lines(data@),
                ) is Err || bots_of_lines(text_lines(sample@)) is Err),
            },
    {
        let data = match Data::parse(data) {
            Ok(d) => d,
            Err(e) => {
                return Err(e);
            },
        };
        let sample = match Data::parse(sample) {
            Ok(d) => d,
            Err(e) => {
                return Err(e);
            },
        };
        self.data = data;
        self.sample = sample;
        Ok(())
    }

    /// How many nanobots lie in range of the strongest one, in the example
    /// and in the input.
    pub fn part1(&self) -> (r: (Option<usize>, Option<usize>))
        ensures
            r.0 == (if self.sample().len() == 0 {
                None
            } else {
                Some(reached(self.sample()[strongest(self.sample())], self.sample()) as usize)
            }),
            r.1 == (if self.data().len() == 0 {
                None
            } else {
                Some(reached(self.data()[strongest(self.data())], self.data()) as usize)
            }),
    {
        (part1(&self.sample), part1(&self.data))
    }
}

/// The line of the solver script that counts a nanobot where its signal
/// reaches the point that the solver looks for.
pub open spec fn bot_line(bot: NanoBot) -> Seq<char> {
    "(if (<= (dist x "@ + signed_digits(bot.parts().0 as int) + " y "@ + signed_digits(
        bot.parts().1 as int,
    ) + " z "@ + signed_digits(bot.parts().2 as int) + ") "@ + digits_of(bot.parts().3 as nat)
        + ") 1 0)\n"@
}

/// The lines of the nanobots, one after the other.
pub open spec fn bot_lines(bots: Seq<NanoBot>) -> Seq<char>
    decreases bots.len(),
{
    if bots.len() == 0 {
        Seq::empty()
    } else {
        bot_lines(bots.drop_last()) + bot_line(bots.last())
    }
}

/// The mark in a template of the script at which the lines of the
/// nanobots go in.
pub open spec fn mark() -> Seq<char> {
    "+++"@
}

/// The first place from `from` on at which the mark stands.
pub open spec fn mark_from(template: Seq<char>, from: int) -> Option<int>
    decreases template.len() - from,
{
    if from < 0 || from >= template.len() {
        None
    } else if tag_at(template, from, mark()) is Some {
        Some(from)
    } else {
        mark_from(template, from + 1)
    }
}

/// The script for the solver: the template with the lines of the
/// nanobots in place of its first mark and of the character behind the
/// mark. Nothing where the template has no mark or ends with it.
pub open spec fn script_of(template: Seq<char>, bots: Seq<NanoBot>) -> Option<Seq<char>> {
    match mark_from(template, 0) {
        Some(at) => if 0 <= at && at + 4 <= template.len() {
            Some(
                template.subrange(0, at) + bot_lines(bots) + template.subrange(
                    at + 4,
                    template.len() as int,
                ),
            )
        } else {
            None
        },
        None => None,
    }
}

impl NanoBot {
    /// The line of the solver script for the nanobot.
    pub fn line(&self) -> (text: String)
        ensures
            text@ == bot_line(*self),
    {
        let mut text = String::from_str("(if (<= (dist x ");
        text.append(decimal_signed(self.x).as_str());
        text.append(" y ");
        text.append(decimal_signed(self.y).as_str());
        text.append(" z ");
        text.append(decimal_signed(self.z).as_str());
        text.append(") ");
        text.append(decimal(self.r).as_str());
        text.append(") 1 0)\n");
        text
    }
}

/// The place of the first mark of the template.
fn find_mark(template: &Vec<char>) -> (at: Option<usize>)
    ensures
        match at {
            Some(i) => mark_from(template@, 0) == Some(i as int) && i + 3 <= template@.len(),
            None => mark_from(template@, 0) is None,
        },
{
    let mut i: usize = 0;
    while i < template.len()
        invariant
            i <= template@.len(),
            mark_from(template@, 0) == mark_from(template@, i as int),
        decreases template@.len() - i,
    {
        if scan_tag(template, i, "+++").is_some() {
            proof {
                reveal_strlit("+++");
            }
            return Some(i);
        }
        i += 1;
    }
    None
}

/// The script for the solver that looks for the point in reach of the
/// most nanobots: the template with a line for each nanobot in place of
/// its mark.
pub fn part2(d: &Data, template: &str) -> (script: Option<String>)
    ensures
        match script {
            Some(text) => script_of(template@, d.bots()) == Some(text@),
            None => script_of(template@, d.bots()) is None,
        },
{
    let chars = chars_of(template);
    let at = match find_mark(&chars) {
        Some(at) => at,
        None => {
            return None;
        },
    };
    let n = template.unicode_len();
    if n - at < 4 {
        return None;
    }
    let mut text = String::from_str(template.substring_char(0, at));
    let mut i: usize = 0;
    assert(d.bots().take(0) =~= Seq::<NanoBot>::empty());
    while i < d.nano_bots.len()
        invariant
            i <= d.bots().len(),
            d.bots() == d.nano_bots@,
            text@ == template@.subrange(0, at as int) + bot_lines(d.bots().take(i as int)),
        decreases d.bots().len() - i,
    {
        proof {
            assert(d.bots().take(i + 1).drop_last() =~= d.bots().take(i as int));
        }
        text.append(d.nano_bots[i].line().as_str());
        proof {
            assert(text@ =~= template@.subrange(0, at as int) + bot_lines(d.bots().take(i + 1)));
        }
        i += 1;
    }
    assert(d.bots().take(i as int) =~= d.bots());
    text.append(template.substring_char(at + 4, n));
    Some(text)
}

impl Solution23 {
    /// The solver scripts for the example and for the input.
    pub fn part2(&self, template: &str) -> (r: (Option<String>, Option<String>))
        ensures
            match r.0 {
                Some(text) => script_of(template@, self.sample()) == Some(text@),
                None => script_of(template@, self.sample()) is None,
            },
            match r.1 {
                Some(text) => script_of(template@, self.data()) == Some(text@),
                None => script_of(template@, self.data()) is None,
            },
    {
        (part2(&self.sample, template), part2(&self.data, template))
    }
}

} // verus!
