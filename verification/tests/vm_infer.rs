use aoc::error::Error;
use aoc::solutions::solution_16::{
    capture_from_groups, instruction_from_tokens, parse_capture, parse_instruction, parse_program,
    parse_samples, part1, part2, Solution16,
};
use aoc::vm::decode::Numbering;
use aoc::vm::infer::{count_ambiguous, infer, op_options, OpcodeCandidates, Sample};
use aoc::vm::instruction::Kind;
use aoc::vm::kind_set::KindSet;

fn sample(before: [u64; 4], instr: [u64; 4], after: [u64; 4]) -> Sample<4> {
    Sample { before, instr, after }
}

fn kinds_of(set: &KindSet) -> Vec<Kind> {
    (0..16u64).map(|n| Kind::from_number(n).unwrap()).filter(|k| set.contains(*k)).collect()
}

/// One sample for each kind `k`, taken with operands and registers that
/// tell all sixteen kinds apart when read together, under the numbering
/// that gives number `n` the kind `perm[n]`.
fn telling_samples(perm: &[u64; 16]) -> Vec<Sample<4>> {
    let mut all = Vec::new();
    let numbering = {
        let mut kinds = [Kind::Addr; 16];
        for n in 0..16 {
            kinds[n] = Kind::from_number(perm[n]).unwrap();
        }
        Numbering::from_kinds(kinds)
    };
    let befores: [[u64; 4]; 4] = [[3, 2, 1, 1], [0, 5, 2, 7], [2, 0, 3, 1], [1, 1, 0, 2]];
    let operands: [[u64; 3]; 6] =
        [[2, 1, 3], [0, 3, 1], [1, 2, 0], [3, 0, 2], [2, 2, 1], [1, 3, 3]];
    for n in 0..16u64 {
        for before in befores.iter() {
            for abc in operands.iter() {
                let raw = [n, abc[0], abc[1], abc[2]];
                let op = aoc::vm::instruction::Opcode::<4>::decode(raw, &numbering).unwrap();
                let mut cpu = aoc::vm::register::Cpu::from_capture(*before);
                op.exec(&mut cpu);
                all.push(sample(*before, raw, cpu.capture()));
            }
        }
    }
    all
}

#[test]
fn sample_consistent_with_three_kinds() {
    // behaves like mulr, addi and seti
    let s = sample([3, 2, 1, 1], [9, 2, 1, 2], [3, 2, 2, 1]);
    let set = s.options();
    assert_eq!(kinds_of(&set), vec![Kind::Addi, Kind::Mulr, Kind::Seti]);
    assert_eq!(set.len(), 3);
    assert!(s.matches(Kind::Seti));
    assert!(!s.matches(Kind::Addr));
}

#[test]
fn three_samples_with_three_candidates_each() {
    let samples = vec![
        sample([3, 2, 1, 1], [9, 2, 1, 2], [3, 2, 2, 1]),
        sample([3, 2, 1, 1], [4, 2, 1, 2], [3, 2, 2, 1]),
        sample([3, 2, 1, 1], [11, 2, 1, 2], [3, 2, 2, 1]),
    ];
    for s in samples.iter() {
        assert_eq!(s.options().len(), 3);
    }
    assert_eq!(count_ambiguous(&samples), 3);
    assert_eq!(part1(&samples), 3);
}

#[test]
fn count_takes_only_samples_with_three_or_more() {
    let samples = vec![
        sample([3, 2, 1, 1], [9, 2, 1, 2], [3, 2, 2, 1]),
        // nothing gives 99
        sample([3, 2, 1, 1], [9, 2, 1, 2], [3, 2, 99, 1]),
        // only the multiplications give 4 * 5 = 20 in register 3
        sample([4, 5, 0, 0], [1, 0, 1, 3], [4, 5, 0, 20]),
    ];
    let opts = op_options(&samples);
    assert_eq!(opts.len(), 3);
    assert_eq!(opts[0].0, 9);
    assert_eq!(opts[1].0, 9);
    assert_eq!(opts[2].0, 1);
    assert_eq!(opts[0].1.len(), 3);
    assert_eq!(opts[1].1.len(), 0);
    assert_eq!(kinds_of(&opts[2].1), vec![Kind::Mulr]);
    assert_eq!(count_ambiguous(&samples), 1);
    assert_eq!(count_ambiguous::<4>(&[]), 0);
}

#[test]
fn candidates_are_intersected_per_number() {
    let samples = vec![
        sample([3, 2, 1, 1], [9, 2, 1, 2], [3, 2, 2, 1]),
        // of addi, mulr, seti only seti gives 2 here
        sample([0, 0, 0, 0], [9, 2, 1, 2], [0, 0, 2, 0]),
    ];
    let c = OpcodeCandidates::from_samples(&samples).unwrap();
    assert_eq!(kinds_of(&c.get(9).unwrap()), vec![Kind::Seti]);
    // a number without samples keeps every kind
    assert_eq!(c.get(0).unwrap().len(), 16);
    assert!(c.get(15).is_some());
    assert!(c.get(16).is_none());
}

#[test]
fn sample_with_number_out_of_range() {
    let samples = vec![sample([0, 0, 0, 0], [16, 0, 0, 0], [0, 0, 0, 0])];
    assert_eq!(OpcodeCandidates::from_samples(&samples), Err(Error::InvalidOpcode));
    assert_eq!(infer(&samples), Err(Error::InvalidOpcode));
}

#[test]
fn inference_finds_the_numbering() {
    let perm: [u64; 16] = [5, 3, 9, 0, 12, 15, 1, 7, 2, 14, 4, 6, 13, 8, 11, 10];
    let samples = telling_samples(&perm);
    let numbering = infer(&samples).unwrap();
    for n in 0..16u64 {
        assert_eq!(numbering.kind_of(n), Kind::from_number(perm[n as usize]));
    }
}

#[test]
fn inference_twice_gives_the_same_numbering() {
    let perm: [u64; 16] = [15, 14, 13, 12, 11, 10, 9, 8, 7, 6, 5, 4, 3, 2, 1, 0];
    let samples = telling_samples(&perm);
    let first = infer(&samples);
    let second = infer(&samples);
    assert!(first.is_ok());
    assert_eq!(first, second);
}

#[test]
fn elimination_on_its_own_result() {
    let perm: [u64; 16] = [5, 3, 9, 0, 12, 15, 1, 7, 2, 14, 4, 6, 13, 8, 11, 10];
    let samples = telling_samples(&perm);
    let numbering = OpcodeCandidates::from_samples(&samples).unwrap().resolve().unwrap();
    let mut sets = [KindSet::empty(); 16];
    for n in 0..16 {
        sets[n].insert(numbering.kind_of(n as u64).unwrap());
    }
    let again = OpcodeCandidates::from_sets(sets).resolve().unwrap();
    assert_eq!(again, numbering);
}

#[test]
fn elimination_needs_units() {
    // numbers 0 and 1 may both be addr or addi; the others are fixed
    let mut sets = [KindSet::empty(); 16];
    for n in 2..16 {
        sets[n].insert(Kind::from_number(n as u64).unwrap());
    }
    for n in 0..2 {
        sets[n].insert(Kind::Addr);
        sets[n].insert(Kind::Addi);
    }
    assert_eq!(OpcodeCandidates::from_sets(sets).resolve(), Err(Error::AmbiguousMapping));
    // no samples at all: every number may be anything
    assert_eq!(infer::<4>(&[]), Err(Error::AmbiguousMapping));
}

#[test]
fn elimination_strikes_fixed_kinds() {
    // number n may be any kind up to n: a chain that elimination unravels
    let mut sets = [KindSet::empty(); 16];
    for n in 0..16 {
        for k in 0..=n {
            sets[n].insert(Kind::from_number(k as u64).unwrap());
        }
    }
    let numbering = OpcodeCandidates::from_sets(sets).resolve().unwrap();
    assert_eq!(numbering, Numbering::identity());
}

#[test]
fn elimination_fails_on_a_clash() {
    // two numbers with the same single candidate
    let mut sets = [KindSet::full(); 16];
    sets[0] = KindSet::empty();
    sets[0].insert(Kind::Seti);
    sets[1] = KindSet::empty();
    sets[1].insert(Kind::Seti);
    assert_eq!(OpcodeCandidates::from_sets(sets).resolve(), Err(Error::AmbiguousMapping));
}

#[test]
fn kind_set_operations() {
    let mut a = KindSet::empty();
    assert_eq!(a.len(), 0);
    assert_eq!(a.the_only(), None);
    a.insert(Kind::Gtrr);
    assert_eq!(a.the_only(), Some(Kind::Gtrr));
    a.insert(Kind::Addr);
    a.insert(Kind::Addr);
    assert_eq!(a.len(), 2);
    assert_eq!(a.the_only(), None);
    let mut b = KindSet::full();
    assert_eq!(b.len(), 16);
    b.remove(Kind::Addr);
    assert_eq!(b.len(), 15);
    assert!(!b.contains(Kind::Addr));
    a.intersect(&b);
    assert_eq!(kinds_of(&a), vec![Kind::Gtrr]);
}

#[test]
fn program_runs_under_the_inferred_numbering() {
    let perm: [u64; 16] = [5, 3, 9, 0, 12, 15, 1, 7, 2, 14, 4, 6, 13, 8, 11, 10];
    let samples = telling_samples(&perm);
    // seti is number 2, addi is number 6, mulr is number 8
    let prog = vec![[2, 7, 0, 0], [6, 0, 3, 1], [8, 0, 1, 0]];
    assert_eq!(part2(&samples, &prog), Ok(70));
    // an empty program leaves register zero at zero
    assert_eq!(part2(&samples, &[]), Ok(0));
    assert_eq!(part2(&samples, &[[16, 0, 0, 0]]), Err(Error::InvalidOpcode));
    assert_eq!(part2(&samples, &[[2, 0, 0, 4]]), Err(Error::InvalidRegister));
    assert_eq!(part2(&[], &prog), Err(Error::AmbiguousMapping));
}

#[test]
fn instruction_lines() {
    assert_eq!(parse_instruction("9 2 1 2"), Ok([9, 2, 1, 2]));
    assert_eq!(parse_instruction("  9   2\t1 2 "), Ok([9, 2, 1, 2]));
    assert_eq!(parse_instruction("9 2 1"), Err(Error::MalformedInput));
    assert_eq!(parse_instruction("9 2 1 2 3"), Err(Error::MalformedInput));
    assert_eq!(parse_instruction("9 2 x 2"), Err(Error::MalformedInput));
    assert_eq!(parse_instruction("9 2 -1 2"), Err(Error::MalformedInput));
    assert_eq!(parse_instruction(""), Err(Error::MalformedInput));
    assert_eq!(
        parse_instruction("18446744073709551615 0 0 0"),
        Ok([18446744073709551615, 0, 0, 0])
    );
    assert_eq!(parse_instruction("18446744073709551616 0 0 0"), Err(Error::MalformedInput));
    let tokens: Vec<String> = vec!["1".into(), "+2".into(), "03".into(), "4".into()];
    assert_eq!(instruction_from_tokens(&tokens), Ok([1, 2, 3, 4]));
}

#[test]
fn snapshot_lines() {
    assert_eq!(parse_capture("Before: [3, 2, 1, 1]"), Ok([3, 2, 1, 1]));
    assert_eq!(parse_capture("After:  [3, 2, 2, 1]"), Ok([3, 2, 2, 1]));
    assert_eq!(parse_capture("Before: [3, 2, 1]"), Err(Error::MalformedInput));
    assert_eq!(parse_capture("Between: [3, 2, 1, 1]"), Err(Error::MalformedInput));
    assert_eq!(parse_capture("Before: [3, 2, 1, 10]"), Err(Error::MalformedInput));
    assert_eq!(parse_capture("9 2 1 2"), Err(Error::MalformedInput));
    assert_eq!(capture_from_groups(&None), Err(Error::MalformedInput));
    let short: Vec<Option<String>> = vec![Some("x".into()); 5];
    assert_eq!(capture_from_groups(&Some(short)), Err(Error::MalformedInput));
}

#[test]
fn program_text() {
    assert_eq!(parse_program("9 2 1 2\n0 1 2 3\n"), Ok(vec![[9, 2, 1, 2], [0, 1, 2, 3]]));
    assert_eq!(parse_program(""), Ok(vec![]));
    assert_eq!(parse_program("9 2 1 2\n\n0 1 2 3"), Err(Error::MalformedInput));
}

#[test]
fn sample_text() {
    let text = "Before: [3, 2, 1, 1]\n9 2 1 2\nAfter:  [3, 2, 2, 1]\n\nBefore: [0, 1, 2, 3]\n1 2 3 0\nAfter:  [5, 1, 2, 3]\n";
    let samples = parse_samples(text).unwrap();
    assert_eq!(
        samples,
        vec![
            sample([3, 2, 1, 1], [9, 2, 1, 2], [3, 2, 2, 1]),
            sample([0, 1, 2, 3], [1, 2, 3, 0], [5, 1, 2, 3]),
        ]
    );
    assert_eq!(parse_samples(""), Ok(vec![]));
    assert_eq!(parse_samples("Before: [3, 2, 1, 1]\n9 2 1 2\n"), Err(Error::MalformedInput));
    assert_eq!(
        parse_samples("Before: [3, 2, 1, 1]\n9 2 1 2\nAfter: [3, 2, 2, 1]\n\n\n"),
        Err(Error::MalformedInput)
    );
}

#[test]
fn whole_input_of_the_puzzle() {
    let text = "Before: [3, 2, 1, 1]\n9 2 1 2\nAfter:  [3, 2, 2, 1]\n\n\n\n9 2 1 2\n9 7 0 0\n";
    let mut s = Solution16::new();
    assert_eq!(s.init(text), Ok(()));
    assert_eq!(s.part1(), 1);
    assert_eq!(s.part2(), Err(Error::AmbiguousMapping));
    let mut t = Solution16::new();
    assert_eq!(t.init("9 2 1 2\n"), Err(Error::MalformedInput));
    assert_eq!(t.part1(), 0);
}

#[test]
fn solution_from_parts() {
    let perm: [u64; 16] = [5, 3, 9, 0, 12, 15, 1, 7, 2, 14, 4, 6, 13, 8, 11, 10];
    let s = Solution16::from_parts(telling_samples(&perm), vec![[2, 7, 0, 0], [6, 0, 3, 0]]);
    assert_eq!(s.part2(), Ok(10));
}
