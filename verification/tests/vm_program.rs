use aoc::error::Error;
use aoc::solutions::solution_19::{part1 as run_to_end, part2 as tuned, sum_fact, sum_fact19, Solution19};
use aoc::solutions::solution_21::{part1 as first_value, part2 as last_value, Solution21};
use aoc::vm::cycle::{scan_cycle, CycleDetector};
use aoc::vm::instruction::Opcode;
use aoc::vm::program::{exec_straight, Program};
use aoc::vm::register::{Cpu, Reg};

fn reg(ix: usize) -> Reg<6> {
    Reg::<6>::from_index(ix).unwrap()
}

const EXAMPLE: &str = "#ip 0\nseti 5 0 1\nseti 6 0 2\naddi 0 1 0\naddr 1 2 3\nsetr 1 0 0\nseti 8 0 4\nseti 9 0 5\n";

/// A loop that counts register 1 up and holds `7 * r1 % 5` ready in
/// register 3 at position 28, so that the values there go 0, 2, 4, 1, 3
/// and then repeat.
fn cycling_program() -> Program<6> {
    let mut text = String::from("#ip 2\n");
    // position 0: jump to 26
    text.push_str("seti 25 0 2\n");
    for _ in 1..26 {
        text.push_str("seti 0 0 4\n");
    }
    // 26: r3 = r1 * 7; 27: r3 = r3 & 7  (0, 7, 6, 5, 4, 3, 2, 1, 0, ...)
    text.push_str("muli 1 7 3\n");
    text.push_str("bani 3 7 3\n");
    // 28: the checkpoint: compare r3 with r0
    text.push_str("eqrr 3 0 4\n");
    // 29: r1 += 1; 30: jump back to 26
    text.push_str("addi 1 1 1\n");
    text.push_str("seti 25 0 2\n");
    text.parse().unwrap()
}

#[test]
fn two_instructions_then_out_of_bounds() {
    // set-immediate 0 -> r1; add r1 r1 -> r1; pointer bound to register 0
    let ops = vec![
        Opcode::<6>::Seti { a: 0, c: reg(1) },
        Opcode::<6>::Addr { a: reg(1), b: reg(1), c: reg(1) },
    ];
    let p = Program::new(ops, reg(0));
    let mut cpu = Cpu::<6>::new();
    assert!(p.run_once(&mut cpu));
    assert_eq!(p.ip(&cpu), 1);
    assert!(p.run_once(&mut cpu));
    assert_eq!(p.ip(&cpu), 2);
    assert!(!p.run_once(&mut cpu));
    assert_eq!(cpu.capture(), [2, 0, 0, 0, 0, 0]);

    let mut cpu = Cpu::<6>::new();
    assert!(p.run_with_cpu(&mut cpu, 100));
    assert_eq!(cpu.get_reg(reg(1)), 0);
    assert_eq!(p.ip(&cpu), 2);

    // two steps are needed, and two are enough
    let mut cpu = Cpu::<6>::new();
    assert!(!p.run_with_cpu(&mut cpu, 1));
    let mut cpu = Cpu::<6>::new();
    assert!(p.run_with_cpu(&mut cpu, 2));
}

#[test]
fn example_program_runs_to_the_end() {
    let p: Program<6> = EXAMPLE.parse().unwrap();
    assert_eq!(p.len(), 7);
    assert_eq!(p.pointer_register(), reg(0));
    let mut cpu = Cpu::<6>::new();
    assert!(p.run_with_cpu(&mut cpu, 1000));
    assert_eq!(cpu.capture(), [7, 5, 6, 0, 0, 9]);
    assert_eq!(p.run1(1000), Some(7));
    assert_eq!(run_to_end(&p, 1000), Some(7));
    // five instructions run before the pointer leaves the program
    assert_eq!(p.run1(4), None);
    assert_eq!(p.run1(5), Some(7));
}

#[test]
fn writing_the_pointer_jumps() {
    // seti 5 -> r0 jumps to position 6
    let p: Program<6> = "#ip 0\nseti 5 0 0\nseti 1 0 1\nseti 2 0 2\nseti 3 0 3\nseti 4 0 4\nseti 5 0 5\nseti 9 0 1\n".parse().unwrap();
    let mut cpu = Cpu::<6>::new();
    assert!(p.run_once(&mut cpu));
    assert_eq!(p.ip(&cpu), 6);
    assert!(p.run_with_cpu(&mut cpu, 10));
    assert_eq!(cpu.capture(), [7, 9, 0, 0, 0, 0]);
}

#[test]
fn a_program_that_never_halts() {
    let p: Program<6> = "#ip 0\nseti 0 0 1\nseti 0 0 0\n".parse().unwrap();
    let mut cpu = Cpu::<6>::new();
    assert!(!p.run_with_cpu(&mut cpu, 10_000));
    assert_eq!(p.run1(10_000), None);
}

#[test]
fn empty_program_has_halted() {
    let p = Program::<6>::new(vec![], reg(3));
    let mut cpu = Cpu::<6>::new();
    assert!(!p.run_once(&mut cpu));
    assert!(p.run_with_cpu(&mut cpu, 0));
    assert_eq!(cpu.capture(), [0; 6]);
    assert_eq!(p.get(0), None);
}

#[test]
fn patching_gives_a_new_program() {
    let p: Program<6> = EXAMPLE.parse().unwrap();
    let q = p.patched(1, Opcode::<6>::Seti { a: 1000, c: reg(0) });
    assert_eq!(p.get(1), Some(Opcode::<6>::Seti { a: 6, c: reg(2) }));
    assert_eq!(q.get(1), Some(Opcode::<6>::Seti { a: 1000, c: reg(0) }));
    assert_eq!(q.get(0), p.get(0));
    assert_eq!(q.len(), p.len());
    let r = p.patched(7, Opcode::<6>::Seti { a: 1000, c: reg(0) });
    assert_eq!(r.len(), 7);
    assert_eq!(r.get(6), p.get(6));
}

#[test]
fn cut_short_run_returns_register_four() {
    // with register 0 at 1: position 0 puts 41 into r4, position 1 would loop forever
    let p: Program<6> = "#ip 3\nseti 41 0 4\nseti 0 0 3\n".parse().unwrap();
    assert_eq!(p.run2(100), Some(41));
    assert_eq!(tuned(&p, 100), Some(41));
    assert_eq!(p.run1(100), None);
}

#[test]
fn straight_run_without_pointer() {
    let ops = vec![
        Opcode::<4>::Seti { a: 7, c: Reg::<4>::from_index(0).unwrap() },
        Opcode::<4>::Muli {
            a: Reg::<4>::from_index(0).unwrap(),
            b: 6,
            c: Reg::<4>::from_index(1).unwrap(),
        },
    ];
    let mut cpu = Cpu::<4>::new();
    exec_straight(&ops, &mut cpu);
    assert_eq!(cpu.capture(), [7, 42, 0, 0]);
}

#[test]
fn program_text_errors() {
    assert_eq!("".parse::<Program<6>>().err(), Some(Error::MalformedInput));
    assert_eq!("seti 5 0 1\n".parse::<Program<6>>().err(), Some(Error::MalformedInput));
    assert_eq!("#ip\nseti 5 0 1\n".parse::<Program<6>>().err(), Some(Error::MalformedInput));
    assert_eq!("#ip 6\nseti 5 0 1\n".parse::<Program<6>>().err(), Some(Error::InvalidRegister));
    assert_eq!("#ip 0\nseti 5 0\n".parse::<Program<6>>().err(), Some(Error::MalformedInput));
    assert_eq!("#ip 0\nseti 5 0 1 1\n".parse::<Program<6>>().err(), Some(Error::MalformedInput));
    assert_eq!("#ip 0\nseti 5 0 x\n".parse::<Program<6>>().err(), Some(Error::MalformedInput));
    assert_eq!("#ip 0\nsett 5 0 1\n".parse::<Program<6>>().err(), Some(Error::InvalidOpcode));
    assert_eq!("#ip 0\nseti 5 0 6\n".parse::<Program<6>>().err(), Some(Error::InvalidRegister));
    // the first bad line decides
    assert_eq!(
        "#ip 0\nseti 5 0 6\nsett 5 0 1\n".parse::<Program<6>>().err(),
        Some(Error::InvalidRegister)
    );
    assert_eq!(Program::<6>::parse("#ip 5\n").map(|p| p.len()), Ok(0));
    assert_eq!("addi 1 2 3".parse::<Opcode<6>>(), Ok(Opcode::<6>::Addi { a: reg(1), b: 2, c: reg(3) }));
    assert_eq!(Opcode::<6>::parse("addi 1 2"), Err(Error::MalformedInput));
}

#[test]
fn divisor_sums() {
    assert_eq!(sum_fact19(1), 1);
    assert_eq!(sum_fact19(6), 12);
    assert_eq!(sum_fact19(12), 28);
    assert_eq!(sum_fact19(0), 0);
    assert_eq!(sum_fact(6), 12);
    assert_eq!(sum_fact(12), 28);
    assert_eq!(sum_fact(7), 8);
    assert_eq!(sum_fact(10551282), 24117312);
    // below two the formula counts one too many
    assert_eq!(sum_fact(1), 2);
    assert_eq!(sum_fact(0), 1);
}

#[test]
fn solution_19_reads_both_programs() {
    let mut s = Solution19::new();
    assert_eq!(s.part1(100), (None, None));
    assert_eq!(s.init(EXAMPLE, "#ip 0\nseti 3 0 0\n"), Ok(()));
    assert_eq!(s.part1(100), (Some(7), Some(4)));
    assert_eq!(s.init(EXAMPLE, "#ip 9\n"), Err(Error::InvalidRegister));
    assert_eq!(s.part1(100), (Some(7), Some(4)));
}

#[test]
fn cycle_in_a_sequence_of_values() {
    // the first repeat is the second 5; the last new value before it is 3
    assert_eq!(scan_cycle(&[5, 3, 5, 7, 3]), Some((5, 3)));
    assert_eq!(scan_cycle(&[5, 3, 7, 3, 5]), Some((5, 7)));
    assert_eq!(scan_cycle(&[1, 2, 3, 4, 1]), Some((1, 4)));
    assert_eq!(scan_cycle(&[4, 4]), Some((4, 4)));
    assert_eq!(scan_cycle(&[1, 2, 3]), None);
    assert_eq!(scan_cycle(&[]), None);
}

#[test]
fn detector_keeps_discovery_order() {
    let mut d = CycleDetector::new();
    assert_eq!(d.first(), None);
    assert_eq!(d.last(), None);
    assert_eq!(d.observe(5), None);
    assert_eq!(d.observe(3), None);
    assert_eq!(d.first(), Some(5));
    assert_eq!(d.last(), Some(3));
    assert!(d.contains(5));
    assert!(!d.contains(7));
    assert_eq!(d.observe(5), Some(3));
    // a repeat is not recorded
    assert_eq!(d.last(), Some(3));
    assert_eq!(d.observe(7), None);
    assert_eq!(d.observe(3), Some(7));
}

#[test]
fn checkpoint_values_of_a_program() {
    let p = cycling_program();
    // values at the checkpoint: 0, 7, 6, 5, 4, 3, 2, 1, then 0 again
    assert_eq!(first_value(&p, 1000), Some(0));
    assert_eq!(last_value(&p, 1000), Some(1));
    let mut cpu = Cpu::<6>::new();
    assert_eq!(p.find_cycle(&mut cpu, 28, reg(3), 1000), Some((0, 1)));
    // the checkpoint is first reached after three steps
    let mut cpu = Cpu::<6>::new();
    assert_eq!(p.run_until(&mut cpu, 28, 1000), 3);
    assert_eq!(p.ip(&cpu), 28);
    assert_eq!(first_value(&p, 2), None);
    assert_eq!(first_value(&p, 3), Some(0));
    // too few steps to see a value twice
    assert_eq!(last_value(&p, 20), None);
}

#[test]
fn solution_21_reads_its_program() {
    let mut s = Solution21::new();
    assert_eq!(s.part2(1000), None);
    assert_eq!(s.init("#ip 1\nnope 1 2 3\n"), Err(Error::InvalidOpcode));
    assert_eq!(s.part2(1000), None);
}

#[test]
fn checkpoint_sequence_with_two_repeats() {
    // The values 5, 3, 5, 7, 3 at the checkpoint: what was seen first is 5,
    // and the last value that was new when it came is 7.
    let mut d = CycleDetector::new();
    let mut reports = Vec::new();
    for v in [5u64, 3, 5, 7, 3] {
        reports.push(d.observe(v));
    }
    assert_eq!(d.first(), Some(5));
    assert_eq!(d.last(), Some(7));
    // The first repeat, the second 5, is reported with the last new value
    // before it; the second repeat, the second 3, with the 7.
    assert_eq!(reports, vec![None, None, Some(3), None, Some(7)]);
    // A scan of the list stops at the first repeat.
    assert_eq!(scan_cycle(&[5, 3, 5, 7, 3]), Some((5, 3)));
}
