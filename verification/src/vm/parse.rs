//! Reading programs: a line that binds the instruction pointer, then one
//! instruction on each line.

use crate::error::{agrees, Error};
use crate::util::text::{
    decimal_u64, lines, parse_u64, split_whitespace, text_lines, whitespace_tokens,
};
use crate::vm::instruction::Opcode;
use crate::vm::program::Program;
use crate::vm::register::Reg;
use vstd::prelude::*;
use vstd::string::*;

verus! {

/// The instruction that four tokens write: a mnemonic and three unsigned
/// numbers. Anything else is malformed; an unknown mnemonic and a register
/// outside the file have their own errors.
pub open spec fn opcode_of_tokens<const N: usize>(tokens: Seq<Seq<char>>) -> Result<
    Opcode<N>,
    Error,
> {
    if tokens.len() == 4 && decimal_u64(tokens[1]) is Some && decimal_u64(tokens[2]) is Some
        && decimal_u64(tokens[3]) is Some {
        Opcode::<N>::from_mnemonic_spec(
            tokens[0],
            decimal_u64(tokens[1]).unwrap(),
            decimal_u64(tokens[2]).unwrap(),
            decimal_u64(tokens[3]).unwrap(),
        )
    } else {
        Err(Error::MalformedInput)
    }
}

/// The instruction that a line writes.
pub open spec fn opcode_of_line<const N: usize>(line: Seq<char>) -> Result<Opcode<N>, Error> {
    opcode_of_tokens(whitespace_tokens(line))
}

/// The register that the two tokens `#ip` and a number bind.
pub open spec fn pointer_of_tokens<const N: usize>(tokens: Seq<Seq<char>>) -> Result<Reg<N>, Error> {
    if tokens.len() == 2 && tokens[0] == "#ip"@ && decimal_u64(tokens[1]) is Some {
        if decimal_u64(tokens[1]).unwrap() < N {
            Ok(Reg::<N>::at(decimal_u64(tokens[1]).unwrap() as int))
        } else {
            Err(Error::InvalidRegister)
        }
    } else {
        Err(Error::MalformedInput)
    }
}

/// The instructions that the lines write, or the error of the first line
/// that writes none.
pub open spec fn opcodes_of_lines<const N: usize>(lines: Seq<Seq<char>>) -> Result<
    Seq<Opcode<N>>,
    Error,
>
    decreases lines.len(),
{
    if lines.len() == 0 {
        Ok(Seq::empty())
    } else {
        match opcodes_of_lines::<N>(lines.drop_last()) {
            Err(e) => Err(e),
            Ok(ops) => match opcode_of_line::<N>(lines.last()) {
                Err(e) => Err(e),
                Ok(op) => Ok(ops.push(op)),
            },
        }
    }
}

/// The program that the lines write: the pointer register from the first
/// line, the instructions from the others.
pub open spec fn program_of_lines<const N: usize>(lines: Seq<Seq<char>>) -> Result<
    (Seq<Opcode<N>>, Reg<N>),
    Error,
> {
    if lines.len() == 0 {
        Err(Error::MalformedInput)
    } else {
        match pointer_of_tokens::<N>(whitespace_tokens(lines[0])) {
            Err(e) => Err(e),
            Ok(ip) => match opcodes_of_lines::<N>(lines.subrange(1, lines.len() as int)) {
                Err(e) => Err(e),
                Ok(ops) => Ok((ops, ip)),
            },
        }
    }
}

/// Whether the outcome of reading a program is the expected one.
pub open spec fn program_agrees<const N: usize>(
    r: Result<Program<N>, Error>,
    expected: Result<(Seq<Opcode<N>>, Reg<N>), Error>,
) -> bool {
    match r {
        Ok(p) => expected == Ok::<(Seq<Opcode<N>>, Reg<N>), Error>((p.ops(), p.ip_reg())),
        Err(e) => expected == Err::<(Seq<Opcode<N>>, Reg<N>), Error>(e),
    }
}

/// Where the first lines write no instructions, all the lines write none,
/// and the error is the same.
pub proof fn lemma_opcodes_fail<const N: usize>(lines: Seq<Seq<char>>, k: int)
    requires
        0 <= k <= lines.len(),
        opcodes_of_lines::<N>(lines.subrange(0, k)) is Err,
    ensures
        opcodes_of_lines::<N>(lines) == opcodes_of_lines::<N>(lines.subrange(0, k)),
    decreases lines.len(),
{
    if k == lines.len() {
        assert(lines.subrange(0, k) =~= lines);
    } else {
        assert(lines.drop_last().subrange(0, k) =~= lines.subrange(0, k));
        lemma_opcodes_fail::<N>(lines.drop_last(), k);
    }
}

fn is_pointer_keyword(token: &str) -> (b: bool)
    ensures
        b == (token@ == "#ip"@),
{
    proof {
        reveal_strlit("#ip");
    }
    if token.unicode_len() != 3 {
        return false;
    }
    let same = token.get_char(0) == '#' && token.get_char(1) == 'i' && token.get_char(2) == 'p';
    proof {
        if same {
            assert(token@ =~= "#ip"@);
        }
    }
    same
}

impl<const N: usize> Opcode<N> {
    /// Reads four tokens as an instruction.
    pub fn from_tokens(tokens: &Vec<String>) -> (r: Result<Opcode<N>, Error>)
        ensures
            r == opcode_of_tokens::<N>(tokens.deep_view()),
    {
        if tokens.len() != 4 {
            return Err(Error::MalformedInput);
        }
        assert(tokens.deep_view()[0] == tokens@[0]@);
        assert(tokens.deep_view()[1] == tokens@[1]@);
        assert(tokens.deep_view()[2] == tokens@[2]@);
        assert(tokens.deep_view()[3] == tokens@[3]@);
        let a = parse_u64(tokens[1].as_str());
        let b = parse_u64(tokens[2].as_str());
        let c = parse_u64(tokens[3].as_str());
        match (a, b, c) {
            (Some(a), Some(b), Some(c)) => Opcode::from_instr_str(tokens[0].as_str(), a, b, c),
            _ => Err(Error::MalformedInput),
        }
    }

    /// Reads a line such as `seti 5 0 1`.
    pub fn parse(line: &str) -> (r: Result<Opcode<N>, Error>)
        ensures
            r == opcode_of_line::<N>(line@),
    {
        let tokens = split_whitespace(line);
        Self::from_tokens(&tokens)
    }
}

impl<const N: usize> Program<N> {
    /// Reads the tokens of a line such as `#ip 3`.
    pub fn pointer_from_tokens(tokens: &Vec<String>) -> (r: Result<Reg<N>, Error>)
        ensures
            r == pointer_of_tokens::<N>(tokens.deep_view()),
    {
        if tokens.len() != 2 {
            return Err(Error::MalformedInput);
        }
        assert(tokens.deep_view()[0] == tokens@[0]@);
        assert(tokens.deep_view()[1] == tokens@[1]@);
        if !is_pointer_keyword(tokens[0].as_str()) {
            return Err(Error::MalformedInput);
        }
        match parse_u64(tokens[1].as_str()) {
            Some(n) => {
                if n < N as u64 {
                    Reg::<N>::from_index(n as usize)
                } else {
                    Err(Error::InvalidRegister)
                }
            },
            None => Err(Error::MalformedInput),
        }
    }

    /// Reads a program from its lines.
    pub fn from_lines(lines: &Vec<String>) -> (r: Result<Program<N>, Error>)
        ensures
            program_agrees(r, program_of_lines::<N>(lines.deep_view())),
    {
        if lines.len() == 0 {
            return Err(Error::MalformedInput);
        }
        assert(lines.deep_view()[0] == lines@[0]@);
        let head = split_whitespace(lines[0].as_str());
        let ip_reg = match Self::pointer_from_tokens(&head) {
            Ok(r) => r,
            Err(e) => {
                return Err(e);
            },
        };
        let ghost body = lines.deep_view().subrange(1, lines@.len() as int);
        let mut ops: Vec<Opcode<N>> = Vec::new();
        let mut i: usize = 1;
        assert(body.subrange(0, 0) =~= Seq::empty());
        while i < lines.len()
            invariant
                1 <= i <= lines@.len(),
                pointer_of_tokens::<N>(whitespace_tokens(lines.deep_view()[0])) == Ok::<
                    Reg<N>,
                    Error,
                >(ip_reg),
                body == lines.deep_view().subrange(1, lines@.len() as int),
                opcodes_of_lines::<N>(body.subrange(0, i - 1)) == Ok::<Seq<Opcode<N>>, Error>(ops@),
            decreases lines@.len() - i,
        {
            proof {
                let next = body.subrange(0, i as int);
                assert(next.drop_last() =~= body.subrange(0, i - 1));
                assert(next.last() == lines@[i as int]@);
            }
            match Opcode::<N>::parse(lines[i].as_str()) {
                Ok(op) => {
                    ops.push(op);
                },
                Err(e) => {
                    proof {
                        lemma_opcodes_fail::<N>(body, i as int);
                    }
                    return Err(e);
                },
            }
            i += 1;
        }
        assert(body.subrange(0, i - 1) =~= body);
        Ok(Program::new(ops, ip_reg))
    }

    /// Reads a program: a first line such as `#ip 3` that binds the
    /// instruction pointer to a register, then one instruction on each
    /// line.
    pub fn parse(text: &str) -> (r: Result<Program<N>, Error>)
        ensures
            program_agrees(r, program_of_lines::<N>(text_lines(text@))),
    {
        let all = lines(text);
        Self::from_lines(&all)
    }
}

impl<const N: usize> core::str::FromStr for Opcode<N> {
    type Err = Error;

    /// Reads a line such as `seti 5 0 1`.
    fn from_str(s: &str) -> (r: Result<Self, Error>)
        ensures
            r == opcode_of_line::<N>(s@),
    {
        Opcode::parse(s)
    }
}

impl<const N: usize> core::str::FromStr for Program<N> {
    type Err = Error;

    /// Reads a program: a first line such as `#ip 3`, then one
    /// instruction on each line.
    fn from_str(s: &str) -> (r: Result<Self, Error>)
        ensures
            program_agrees(r, program_of_lines::<N>(text_lines(s@))),
    {
        Program::parse(s)
    }
}

} // verus!
