//! Sixteen opcodes with unknown numbers: count the ambiguous samples, then
//! deduce the numbering and run the program.

use crate::util::pattern::{captures, captures_of, number, number_of};
use crate::util::text::{
    decimal_u64, lines, parse_u64, split_whitespace, text_lines, whitespace_tokens,
};
use crate::vm::decode::{decode_all, decode_all_spec, Instruction};
use crate::vm::infer::{count_ambiguous, count_three_or_more, infer, infer_spec, Sample};
use crate::vm::program::{exec_straight, run_straight};
use crate::vm::register::{Cpu, Reg};
use crate::error::{agrees, agrees_deep, Error};
use vstd::prelude::*;
use vstd::slice::slice_subrange;
use vstd::string::*;

verus! {

/// A snapshot of the four registers.
pub type Capture = [u64; 4];

/// The regular expression of a `Before:` or `After:` line.
pub open spec fn capture_pattern() -> Seq<char> {
    r"^((Before|After):\s*\[)(\d)(, )(\d)(, )(\d)(, )(\d)(\])$"@
}

/// The four numbers of a line of four tokens.
pub open spec fn instruction_of_tokens(tokens: Seq<Seq<char>>) -> Result<Seq<u64>, Error> {
    if tokens.len() == 4 && (forall|i: int| 0 <= i < 4 ==> decimal_u64(#[trigger] tokens[i]) is Some) {
        Ok(Seq::new(4, |i: int| decimal_u64(tokens[i]).unwrap()))
    } else {
        Err(Error::MalformedInput)
    }
}

/// The raw instruction that a line writes.
pub open spec fn instruction_of_line(line: Seq<char>) -> Result<Seq<u64>, Error> {
    instruction_of_tokens(whitespace_tokens(line))
}

/// The four registers that the capture groups of a snapshot line write:
/// the groups three, five, seven and nine.
pub open spec fn capture_of_groups(groups: Option<Seq<Option<Seq<char>>>>) -> Result<
    Seq<u64>,
    Error,
> {
    match groups {
        Some(g) => if forall|i: int| 0 <= i < 4 ==> (#[trigger] number_of(g, 3 + 2 * i)) is Some {
            Ok(Seq::new(4, |i: int| number_of(g, 3 + 2 * i).unwrap()))
        } else {
            Err(Error::MalformedInput)
        },
        None => Err(Error::MalformedInput),
    }
}

/// The registers that a snapshot line writes.
pub open spec fn capture_of_line(line: Seq<char>) -> Result<Seq<u64>, Error> {
    capture_of_groups(captures_of(capture_pattern(), line))
}

/// The raw instructions that the lines write, one each.
pub open spec fn program_of_lines(lines: Seq<Seq<char>>) -> Result<Seq<Seq<u64>>, Error> {
    if forall|i: int| 0 <= i < lines.len() ==> instruction_of_line(#[trigger] lines[i]) is Ok {
        Ok(Seq::new(lines.len(), |i: int| instruction_of_line(lines[i]).unwrap()))
    } else {
        Err(Error::MalformedInput)
    }
}

/// The view of a sample: registers before, raw instruction, registers
/// after.
pub open spec fn sample_view(s: Sample<4>) -> (Seq<u64>, Seq<u64>, Seq<u64>) {
    (s.before@, s.instr@, s.after@)
}

/// The sample that three lines write.
pub open spec fn sample_of_lines(first: Seq<char>, second: Seq<char>, third: Seq<char>) -> Result<
    (Seq<u64>, Seq<u64>, Seq<u64>),
    Error,
> {
    match (capture_of_line(first), instruction_of_line(second), capture_of_line(third)) {
        (Ok(before), Ok(instr), Ok(after)) => Ok((before, instr, after)),
        _ => Err(Error::MalformedInput),
    }
}

/// The samples that the lines from `from` on write: records of three
/// lines, with one line between two records that is skipped unread.
pub open spec fn samples_of_lines(lines: Seq<Seq<char>>, from: int) -> Result<
    Seq<(Seq<u64>, Seq<u64>, Seq<u64>)>,
    Error,
>
    decreases lines.len() + 4 - from,
{
    if from < 0 || from >= lines.len() {
        Ok(Seq::empty())
    } else if from + 2 >= lines.len() {
        Err(Error::MalformedInput)
    } else {
        let rest = samples_of_lines(lines, from + 4);
        match sample_of_lines(lines[from], lines[from + 1], lines[from + 2]) {
            Ok(sample) => match rest {
                Ok(rest) => Ok(seq![sample] + rest),
                Err(_) => Err(Error::MalformedInput),
            },
            Err(_) => Err(Error::MalformedInput),
        }
    }
}

/// Reads four tokens as a raw instruction.
pub fn instruction_from_tokens(tokens: &Vec<String>) -> (r: Result<Instruction, Error>)
    ensures
        agrees(r, instruction_of_tokens(tokens.deep_view())),
{
    if tokens.len() != 4 {
        return Err(Error::MalformedInput);
    }
    let mut instr: Instruction = [0u64;4];
    let mut i: usize = 0;
    while i < 4
        invariant
            i <= 4,
            tokens@.len() == 4,
            forall|j: int| 0 <= j < i ==> decimal_u64(#[trigger] tokens.deep_view()[j]) is Some,
            forall|j: int| 0 <= j < i ==> instr@[j] == decimal_u64(tokens.deep_view()[j]).unwrap(),
        decreases 4 - i,
    {
        assert(tokens.deep_view()[i as int] == tokens@[i as int]@);
        match parse_u64(tokens[i].as_str()) {
            Some(v) => {
                instr[i] = v;
            },
            None => {
                return Err(Error::MalformedInput);
            },
        }
        i += 1;
    }
    assert(instr@ =~= Seq::new(4, |i: int| decimal_u64(tokens.deep_view()[i]).unwrap()));
    Ok(instr)
}

/// Reads a line of four unsigned numbers as a raw instruction.
pub fn parse_instruction(s: &str) -> (r: Result<Instruction, Error>)
    ensures
        agrees(r, instruction_of_line(s@)),
{
    let tokens = split_whitespace(s);
    instruction_from_tokens(&tokens)
}

/// Reads the registers out of the capture groups of a snapshot line.
pub fn capture_from_groups(groups: &Option<Vec<Option<String>>>) -> (r: Result<Capture, Error>)
    ensures
        agrees(r, capture_of_groups(groups.deep_view())),
{
    match groups {
        None => Err(Error::MalformedInput),
        Some(g) => {
            let mut cap: Capture = [0u64;4];
            let mut i: usize = 0;
            while i < 4
                invariant
                    i <= 4,
                    groups.deep_view() == Some(g.deep_view()),
                    forall|j: int|
                        0 <= j < i ==> (#[trigger] number_of(g.deep_view(), 3 + 2 * j)) is Some,
                    forall|j: int|
                        0 <= j < i ==> cap@[j] == number_of(g.deep_view(), 3 + 2 * j).unwrap(),
                decreases 4 - i,
            {
                match number(g, 3 + i * 2) {
                    Some(v) => {
                        cap[i] = v;
                    },
                    None => {
                        assert(number_of(g.deep_view(), 3 + 2 * (i as int)) is None);
                        return Err(Error::MalformedInput);
                    },
                }
                i += 1;
            }
            assert(cap@ =~= Seq::new(4, |i: int| number_of(g.deep_view(), 3 + 2 * i).unwrap()));
            Ok(cap)
        },
    }
}

/// Reads a line such as `Before: [3, 2, 1, 1]`.
pub fn parse_capture(s: &str) -> (r: Result<Capture, Error>)
    ensures
        agrees(r, capture_of_line(s@)),
{
    let groups = captures(r"^((Before|After):\s*\[)(\d)(, )(\d)(, )(\d)(, )(\d)(\])$", s);
    capture_from_groups(&groups)
}

/// Reads each line of the text as a raw instruction.
pub fn program_from_lines(lines: &[String]) -> (r: Result<Vec<Instruction>, Error>)
    ensures
        agrees_deep(r, program_of_lines(lines.deep_view())),
{
    let mut prog: Vec<Instruction> = Vec::new();
    let mut i: usize = 0;
    while i < lines.len()
        invariant
            i <= lines@.len(),
            prog@.len() == i,
            forall|j: int| 0 <= j < i ==> instruction_of_line(#[trigger] lines.deep_view()[j]) is Ok,
            forall|j: int|
                0 <= j < i ==> (#[trigger] prog@[j])@ == instruction_of_line(
                    lines.deep_view()[j],
                ).unwrap(),
        decreases lines@.len() - i,
    {
        assert(lines.deep_view()[i as int] == lines@[i as int]@);
        match parse_instruction(lines[i].as_str()) {
            Ok(instr) => {
                prog.push(instr);
            },
            Err(_) => {
                return Err(Error::MalformedInput);
            },
        }
        i += 1;
    }
    proof {
        let expected = Seq::new(
            lines.deep_view().len(),
            |i: int| instruction_of_line(lines.deep_view()[i]).unwrap(),
        );
        assert forall|j: int| 0 <= j < prog@.len() implies prog.deep_view()[j] == expected[j] by {
            assert(prog.deep_view()[j] == prog@[j].deep_view());
            assert(prog@[j].deep_view() =~= prog@[j]@);
        }
        assert(prog.deep_view() =~= expected);
    }
    Ok(prog)
}

/// Reads a program of raw instructions, one on each line.
pub fn parse_program(s: &str) -> (r: Result<Vec<Instruction>, Error>)
    ensures
        agrees_deep(r, program_of_lines(text_lines(s@))),
{
    let all = lines(s);
    program_from_lines(all.as_slice())
}

/// The views of the samples.
pub open spec fn sample_views(samples: Seq<Sample<4>>) -> Seq<(Seq<u64>, Seq<u64>, Seq<u64>)> {
    Seq::new(samples.len(), |i: int| sample_view(samples[i]))
}

/// Whether the outcome of reading samples is the expected one.
pub open spec fn samples_agree(
    r: Result<Vec<Sample<4>>, Error>,
    expected: Result<Seq<(Seq<u64>, Seq<u64>, Seq<u64>)>, Error>,
) -> bool {
    match r {
        Ok(samples) => expected == Ok::<Seq<(Seq<u64>, Seq<u64>, Seq<u64>)>, Error>(
            sample_views(samples@),
        ),
        Err(e) => expected == Err::<Seq<(Seq<u64>, Seq<u64>, Seq<u64>)>, Error>(e),
    }
}

/// Where the samples from some line on cannot be read, those from four
/// lines before it cannot be read either.
proof fn lemma_samples_fail(lines: Seq<Seq<char>>, upto: int)
    requires
        0 <= upto,
        upto % 4 == 0,
        samples_of_lines(lines, upto) is Err,
    ensures
        samples_of_lines(lines, 0) == Err::<Seq<(Seq<u64>, Seq<u64>, Seq<u64>)>, Error>(
            Error::MalformedInput,
        ),
    decreases upto,
{
    if upto > 0 {
        assert(samples_of_lines(lines, upto - 4) is Err);
        lemma_samples_fail(lines, upto - 4);
    }
}

/// Reads the samples out of the lines of the text.
pub fn samples_from_lines(lines: &[String]) -> (r: Result<Vec<Sample<4>>, Error>)
    ensures
        samples_agree(r, samples_of_lines(lines.deep_view(), 0)),
{
    let mut samples: Vec<Sample<4>> = Vec::new();
    let mut i: usize = 0;
    let ghost text = lines.deep_view();
    while i < lines.len()
        invariant
            text == lines.deep_view(),
            i % 4 == 0,
            match samples_of_lines(text, i as int) {
                Ok(rest) => samples_of_lines(text, 0) == Ok::<
                    Seq<(Seq<u64>, Seq<u64>, Seq<u64>)>,
                    Error,
                >(sample_views(samples@) + rest),
                Err(_) => samples_of_lines(text, 0) == Err::<
                    Seq<(Seq<u64>, Seq<u64>, Seq<u64>)>,
                    Error,
                >(Error::MalformedInput),
            },
        decreases lines@.len() + 4 - i,
    {
        if lines.len() - i < 3 {
            return Err(Error::MalformedInput);
        }
        assert(text[i as int] == lines@[i as int]@);
        assert(text[i + 1] == lines@[i + 1]@);
        assert(text[i + 2] == lines@[i + 2]@);
        let before = parse_capture(lines[i].as_str());
        let instr = parse_instruction(lines[i + 1].as_str());
        let after = parse_capture(lines[i + 2].as_str());
        match (before, instr, after) {
            (Ok(before), Ok(instr), Ok(after)) => {
                let sample = Sample { before, instr, after };
                proof {
                    let rest = samples_of_lines(text, i + 4);
                    if rest is Err {
                        lemma_samples_fail(text, i + 4);
                    } else {
                        assert(sample_views(samples@.push(sample)) + rest.unwrap() =~= sample_views(
                            samples@,
                        ) + (seq![sample_view(sample)] + rest.unwrap()));
                    }
                }
                samples.push(sample);
            },
            _ => {
                return Err(Error::MalformedInput);
            },
        }
        if lines.len() - i < 4 {
            proof {
                assert(samples_of_lines(text, i + 4) == Ok::<
                    Seq<(Seq<u64>, Seq<u64>, Seq<u64>)>,
                    Error,
                >(Seq::empty()));
                assert(sample_views(samples@) + Seq::empty() =~= sample_views(samples@));
            }
            return Ok(samples);
        }
        i += 4;
    }
    proof {
        assert(sample_views(samples@) + Seq::empty() =~= sample_views(samples@));
    }
    Ok(samples)
}

/// Reads samples: records of a `Before:` line, an instruction line and an
/// `After:` line, with one line between two records.
pub fn parse_samples(s: &str) -> (r: Result<Vec<Sample<4>>, Error>)
    ensures
        samples_agree(r, samples_of_lines(text_lines(s@), 0)),
{
    let all = lines(s);
    samples_from_lines(all.as_slice())
}

/// Four registers at zero.
pub open spec fn zeroed() -> Seq<u64> {
    Seq::new(4, |i: int| 0u64)
}

/// Register zero after the program has run under the numbering that the
/// samples determine.
pub open spec fn part2_spec(samples: Seq<Sample<4>>, prog: Seq<Seq<u64>>) -> Result<u64, Error> {
    match infer_spec(samples) {
        Err(e) => Err(e),
        Ok(numbering) => match decode_all_spec::<4>(prog, numbering) {
            Err(e) => Err(e),
            Ok(ops) => Ok(run_straight(ops, zeroed())[0]),
        },
    }
}

/// How many samples are consistent with three kinds or more.
pub fn part1(samples: &[Sample<4>]) -> (count: usize)
    ensures
        count == count_three_or_more(samples@),
{
    count_ambiguous(samples)
}

/// Deduces the numbering from the samples, runs the program under it on
/// registers at zero, and returns what register zero holds at the end.
pub fn part2(samples: &[Sample<4>], p: &[Instruction]) -> (r: Result<u64, Error>)
    ensures
        r == part2_spec(samples@, p.deep_view()),
{
    let numbering = match infer(samples) {
        Ok(t) => t,
        Err(e) => {
            return Err(e);
        },
    };
    let prog = match decode_all::<4>(p, &numbering) {
        Ok(ops) => ops,
        Err(e) => {
            return Err(e);
        },
    };
    let mut cpu = Cpu::<4>::new();
    exec_straight(&prog, &mut cpu);
    let first = match Reg::<4>::from_index(0) {
        Ok(r) => r,
        Err(e) => {
            return Err(e);
        },
    };
    proof {
        Reg::<4>::lemma_at_index(0);
    }
    Ok(cpu.get_reg(first))
}

/// Whether three empty lines begin at line `k`, and none before.
pub open spec fn is_split(lines: Seq<Seq<char>>, k: int) -> bool {
    &&& 0 <= k && k + 2 < lines.len()
    &&& lines[k].len() == 0 && lines[k + 1].len() == 0 && lines[k + 2].len() == 0
    &&& forall|j: int|
        0 <= j < k ==> !(lines[j].len() == 0 && lines[j + 1].len() == 0 && (#[trigger] lines[j
            + 2]).len() == 0)
}

/// Whether the puzzle input cannot be read: no three empty lines part
/// the samples from the program, or one of the two parts is malformed.
pub open spec fn input_fails(lines: Seq<Seq<char>>) -> bool {
    forall|k: int|
        #[trigger] is_split(lines, k) ==> samples_of_lines(lines.subrange(0, k), 0) is Err
            || program_of_lines(lines.subrange(k + 3, lines.len() as int)) is Err
}

/// Three empty lines that are the first begin at one line only.
pub proof fn lemma_split_unique(lines: Seq<Seq<char>>, j: int, k: int)
    requires
        is_split(lines, j),
        is_split(lines, k),
    ensures
        j == k,
{
    if j < k {
        assert(!(lines[j].len() == 0 && lines[j + 1].len() == 0 && lines[j + 2].len() == 0));
    } else if k < j {
        assert(!(lines[k].len() == 0 && lines[k + 1].len() == 0 && lines[k + 2].len() == 0));
    }
}

/// The samples and the program of the puzzle input.
#[derive(Debug)]
pub struct Solution16 {
    samples: Vec<Sample<4>>,
    prog: Vec<Instruction>,
}

impl Solution16 {
    /// The samples read.
    pub closed spec fn samples(self) -> Seq<Sample<4>> {
        self.samples@
    }

    /// The program read.
    pub closed spec fn prog(self) -> Seq<Seq<u64>> {
        self.prog.deep_view()
    }

    /// A solution without input.
    pub fn new() -> (s: Self)
        ensures
            s.samples() == Seq::<Sample<4>>::empty(),
            s.prog() == Seq::<Seq<u64>>::empty(),
    {
        let s = Solution16 { samples: Vec::new(), prog: Vec::new() };
        assert(s.prog() =~= Seq::<Seq<u64>>::empty());
        s
    }

    /// A solution with the given samples and program.
    pub fn from_parts(samples: Vec<Sample<4>>, prog: Vec<Instruction>) -> (s: Self)
        ensures
            s.samples() == samples@,
            s.prog() == prog.deep_view(),
    {
        Solution16 { samples, prog }
    }

    /// Reads the puzzle input from its lines: the samples, three empty
    /// lines, the program. On an error the solution keeps what it had.
    pub fn init_from_lines(&mut self, lines: &Vec<String>) -> (r: Result<(), Error>)
        ensures
            match r {
                Ok(()) => exists|k: int|
                    is_split(lines.deep_view(), k) && samples_of_lines(
                        lines.deep_view().subrange(0, k),
                        0,
                    ) == Ok::<Seq<(Seq<u64>, Seq<u64>, Seq<u64>)>, Error>(
                        sample_views(final(self).samples()),
                    ) && program_of_lines(
                        lines.deep_view().subrange(k + 3, lines.deep_view().len() as int),
                    ) == Ok::<Seq<Seq<u64>>, Error>(final(self).prog()),
                Err(e) => e == Error::MalformedInput && *final(self) == *old(self) && input_fails(
                    lines.deep_view(),
                ),
            },
    {
        let ghost text = lines.deep_view();
        let mut k: usize = 0;
        let mut found = false;
        while lines.len() >= 3 && k < lines.len() - 2
            invariant_except_break
                !found,
            invariant
                text == lines.deep_view(),
                forall|j: int|
                    0 <= j < k ==> !(text[j].len() == 0 && text[j + 1].len() == 0 && (
                    #[trigger] text[j + 2]).len() == 0),
            ensures
                found ==> is_split(text, k as int),
                !found ==> forall|j: int| !is_split(text, j),
            decreases lines@.len() - k,
        {
            assert(text[k as int] == lines@[k as int]@);
            assert(text[k + 1] == lines@[k + 1]@);
            assert(text[k + 2] == lines@[k + 2]@);
            if lines[k].as_str().unicode_len() == 0 && lines[k + 1].as_str().unicode_len() == 0
                && lines[k + 2].as_str().unicode_len() == 0 {
                found = true;
                break ;
            }
            k += 1;
        }
        if !found {
            return Err(Error::MalformedInput);
        }
        let n = lines.len();
        assert(text.len() == n);
        let head = slice_subrange(lines.as_slice(), 0, k);
        let tail = slice_subrange(lines.as_slice(), k + 3, n);
        assert(head.deep_view() =~= text.subrange(0, k as int));
        assert(tail.deep_view() =~= text.subrange(k + 3, text.len() as int));
        let samples = match samples_from_lines(head) {
            Ok(v) => v,
            Err(e) => {
                proof {
                    assert forall|j: int| #[trigger] is_split(text, j) implies samples_of_lines(
                        text.subrange(0, j),
                        0,
                    ) is Err || program_of_lines(text.subrange(j + 3, text.len() as int)) is Err by {
                        lemma_split_unique(text, j, k as int);
                    }
                }
                return Err(e);
            },
        };
        let prog = match program_from_lines(tail) {
            Ok(v) => v,
            Err(e) => {
                proof {
                    assert forall|j: int| #[trigger] is_split(text, j) implies samples_of_lines(
                        text.subrange(0, j),
                        0,
                    ) is Err || program_of_lines(text.subrange(j + 3, text.len() as int)) is Err by {
                        lemma_split_unique(text, j, k as int);
                    }
                }
                return Err(e);
            },
        };
        self.samples = samples;
        self.prog = prog;
        Ok(())
    }

    /// Reads the puzzle input.
    pub fn init(&mut self, input: &str) -> (r: Result<(), Error>)
        ensures
            match r {
                Ok(()) => exists|k: int|
                    is_split(text_lines(input@), k) && samples_of_lines(
                        text_lines(input@).subrange(0, k),
                        0,
                    ) == Ok::<Seq<(Seq<u64>, Seq<u64>, Seq<u64>)>, Error>(
                        sample_views(final(self).samples()),
                    ) && program_of_lines(
                        text_lines(input@).subrange(k + 3, text_lines(input@).len() as int),
                    ) == Ok::<Seq<Seq<u64>>, Error>(final(self).prog()),
                Err(e) => e == Error::MalformedInput && *final(self) == *old(self) && input_fails(
                    text_lines(input@),
                ),
            },
    {
        let all = lines(input);
        self.init_from_lines(&all)
    }

    /// How many samples are consistent with three kinds or more.
    pub fn part1(&self) -> (count: usize)
        ensures
            count == count_three_or_more(self.samples()),
    {
        part1(self.samples.as_slice())
    }

    /// What register zero holds after the program has run under the
    /// numbering that the samples determine.
    pub fn part2(&self) -> (r: Result<u64, Error>)
        ensures
            r == part2_spec(self.samples(), self.prog()),
    {
        part2(self.samples.as_slice(), self.prog.as_slice())
    }
}

} // verus!
