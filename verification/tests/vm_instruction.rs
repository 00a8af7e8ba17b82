use aoc::error::Error;
use aoc::vm::decode::{Instruction, Numbering};
use aoc::vm::instruction::{Kind, Opcode};
use aoc::vm::register::{Cpu, Reg};

fn reg(ix: usize) -> Reg<4> {
    Reg::<4>::from_index(ix).unwrap()
}

fn run(raw: Instruction, before: [u64; 4]) -> [u64; 4] {
    let op = Opcode::<4>::from_instr(raw).unwrap();
    let mut cpu = Cpu::from_capture(before);
    op.exec(&mut cpu);
    cpu.capture()
}

#[test]
fn register_index_is_validated() {
    assert_eq!(Reg::<4>::from_index(3).unwrap().to_index(), 3);
    assert_eq!(Reg::<4>::from_index(4), Err(Error::InvalidRegister));
    assert_eq!(Reg::<6>::from_index(5).unwrap().to_index(), 5);
    assert_eq!(Reg::<6>::from_index(6), Err(Error::InvalidRegister));
}

#[test]
fn new_register_file_is_zero() {
    assert_eq!(Cpu::<4>::new().capture(), [0, 0, 0, 0]);
    assert_eq!(Cpu::<6>::new().capture(), [0, 0, 0, 0, 0, 0]);
}

#[test]
fn set_reg_changes_one_register() {
    let mut cpu = Cpu::<4>::from_capture([1, 2, 3, 4]);
    cpu.set_reg(reg(2), 9);
    assert_eq!(cpu.capture(), [1, 2, 9, 4]);
    assert_eq!(cpu.get_reg(reg(2)), 9);
    assert_eq!(cpu.get_reg(reg(0)), 1);
}

#[test]
fn kinds_are_numbered_in_order() {
    assert_eq!(Kind::count(), 16);
    for n in 0..16u64 {
        let k = Kind::from_number(n).unwrap();
        assert_eq!(k.to_number(), n);
    }
    assert_eq!(Kind::from_number(16), None);
    assert_eq!(Kind::from_number(9), Some(Kind::Seti));
    assert_eq!(Kind::from_number(0), Some(Kind::Addr));
    assert_eq!(Kind::from_number(15), Some(Kind::Eqrr));
}

#[test]
fn add_register_and_immediate() {
    assert_eq!(run([0, 0, 1, 3], [3, 4, 0, 0]), [3, 4, 0, 7]);
    assert_eq!(run([1, 0, 10, 3], [3, 4, 0, 0]), [3, 4, 0, 13]);
}

#[test]
fn add_wraps_around() {
    assert_eq!(run([0, 0, 1, 2], [u64::MAX, 2, 0, 0]), [u64::MAX, 2, 1, 0]);
    assert_eq!(run([1, 0, 1, 0], [u64::MAX, 0, 0, 0]), [0, 0, 0, 0]);
}

#[test]
fn multiply_register_and_immediate() {
    assert_eq!(run([2, 0, 1, 3], [3, 4, 0, 0]), [3, 4, 0, 12]);
    assert_eq!(run([3, 1, 5, 2], [3, 4, 0, 0]), [3, 4, 20, 0]);
}

#[test]
fn multiply_wraps_around() {
    assert_eq!(run([2, 0, 1, 2], [1 << 63, 2, 5, 0]), [1 << 63, 2, 0, 0]);
    assert_eq!(run([3, 0, 3, 1], [u64::MAX, 0, 0, 0]), [u64::MAX, u64::MAX - 2, 0, 0]);
}

#[test]
fn bitwise_and() {
    assert_eq!(run([4, 0, 1, 2], [0b1100, 0b1010, 0, 0]), [0b1100, 0b1010, 0b1000, 0]);
    assert_eq!(run([5, 0, 6, 2], [0b1100, 0, 0, 0]), [0b1100, 0, 0b0100, 0]);
}

#[test]
fn bitwise_or() {
    assert_eq!(run([6, 0, 1, 2], [0b1100, 0b1010, 0, 0]), [0b1100, 0b1010, 0b1110, 0]);
    assert_eq!(run([7, 0, 3, 2], [0b1100, 0, 0, 0]), [0b1100, 0, 0b1111, 0]);
}

#[test]
fn assignment_ignores_operand_b() {
    assert_eq!(run([8, 1, 99, 3], [5, 6, 7, 8]), [5, 6, 7, 6]);
    assert_eq!(run([9, 42, 99, 0], [5, 6, 7, 8]), [42, 6, 7, 8]);
}

#[test]
fn greater_than_and_its_negation() {
    // immediate against register
    assert_eq!(run([10, 7, 1, 3], [0, 6, 0, 9]), [0, 6, 0, 1]);
    assert_eq!(run([10, 6, 1, 3], [0, 6, 0, 9]), [0, 6, 0, 0]);
    // register against immediate
    assert_eq!(run([11, 1, 5, 3], [0, 6, 0, 9]), [0, 6, 0, 1]);
    assert_eq!(run([11, 1, 6, 3], [0, 6, 0, 9]), [0, 6, 0, 0]);
    // register against register
    assert_eq!(run([12, 1, 0, 3], [5, 6, 0, 9]), [5, 6, 0, 1]);
    assert_eq!(run([12, 0, 1, 3], [5, 6, 0, 9]), [5, 6, 0, 0]);
}

#[test]
fn equal_to_and_its_negation() {
    assert_eq!(run([13, 6, 1, 3], [0, 6, 0, 9]), [0, 6, 0, 1]);
    assert_eq!(run([13, 7, 1, 3], [0, 6, 0, 9]), [0, 6, 0, 0]);
    assert_eq!(run([14, 1, 6, 3], [0, 6, 0, 9]), [0, 6, 0, 1]);
    assert_eq!(run([14, 1, 5, 3], [0, 6, 0, 9]), [0, 6, 0, 0]);
    assert_eq!(run([15, 0, 1, 3], [6, 6, 0, 9]), [6, 6, 0, 1]);
    assert_eq!(run([15, 0, 2, 3], [6, 6, 0, 9]), [6, 6, 0, 0]);
}

#[test]
fn every_kind_on_one_register_file() {
    let before = [7, 3, 12, 5];
    let expected: [u64; 16] = [
        7 + 3,   // addr r0 r1
        7 + 1,   // addi r0 1
        7 * 3,   // mulr
        7 * 1,   // muli
        7 & 3,   // banr
        7 & 1,   // bani
        7 | 3,   // borr
        7 | 1,   // bori
        7,       // setr r0
        0,       // seti 0
        0,       // gtir 0 > r1
        1,       // gtri r0 > 1
        1,       // gtrr r0 > r1
        0,       // eqir 0 == r1
        0,       // eqri r0 == 1
        0,       // eqrr r0 == r1
    ];
    for n in 0..16u64 {
        let after = run([n, 0, 1, 2], before);
        assert_eq!(after, [7, 3, expected[n as usize], 5], "kind {}", n);
    }
}

#[test]
fn decoding_matches_direct_construction() {
    let before = [3, 2, 1, 1];
    let decoded = Opcode::<4>::from_instr([2, 2, 1, 2]).unwrap();
    let direct = Opcode::<4>::Mulr { a: reg(2), b: reg(1), c: reg(2) };
    assert_eq!(decoded, direct);
    let mut one = Cpu::from_capture(before);
    let mut two = Cpu::from_capture(before);
    decoded.exec(&mut one);
    direct.exec(&mut two);
    assert_eq!(one.capture(), two.capture());
    assert_eq!(one.capture(), [3, 2, 2, 1]);

    let decoded = Opcode::<4>::from_instr([10, 9, 3, 0]).unwrap();
    assert_eq!(decoded, Opcode::<4>::Gtir { a: 9, b: reg(3), c: reg(0) });
    assert_eq!(decoded.get_kind(), Kind::Gtir);
}

#[test]
fn assign_immediate_under_a_numbering() {
    // number 9 means "assign immediate": operand A is the value 2, not register 2
    let numbering = Numbering::identity();
    assert_eq!(numbering.kind_of(9), Some(Kind::Seti));
    let op = Opcode::<4>::decode([9, 2, 1, 2], &numbering).unwrap();
    let mut cpu = Cpu::from_capture([3, 2, 1, 1]);
    op.exec(&mut cpu);
    assert_eq!(cpu.capture(), [3, 2, 2, 1]);
}

#[test]
fn numbering_decides_the_kind() {
    let mut kinds = Numbering::identity().kinds();
    kinds.swap(0, 9);
    let numbering = Numbering::from_kinds(kinds);
    assert_eq!(numbering.kind_of(0), Some(Kind::Seti));
    assert_eq!(numbering.kind_of(16), None);
    let op = Opcode::<4>::decode([0, 2, 1, 2], &numbering).unwrap();
    assert_eq!(op, Opcode::<4>::Seti { a: 2, c: reg(2) });
    assert_eq!(Opcode::<4>::decode([16, 0, 0, 0], &numbering), Err(Error::InvalidOpcode));
}

#[test]
fn decoding_rejects_bad_opcodes_and_registers() {
    assert_eq!(Opcode::<4>::from_instr([16, 0, 0, 0]), Err(Error::InvalidOpcode));
    // the opcode is looked at before the operands
    assert_eq!(Opcode::<4>::from_instr([16, 9, 9, 9]), Err(Error::InvalidOpcode));
    assert_eq!(Opcode::<4>::from_instr([0, 4, 0, 0]), Err(Error::InvalidRegister));
    assert_eq!(Opcode::<4>::from_instr([0, 0, 4, 0]), Err(Error::InvalidRegister));
    assert_eq!(Opcode::<4>::from_instr([0, 0, 0, 4]), Err(Error::InvalidRegister));
    // immediates may be anything
    assert!(Opcode::<4>::from_instr([1, 0, 400, 0]).is_ok());
    assert!(Opcode::<4>::from_instr([9, 400, 400, 0]).is_ok());
    assert!(Opcode::<4>::from_instr([8, 0, 400, 0]).is_ok());
    assert_eq!(Opcode::<4>::from_instr([8, 4, 0, 0]), Err(Error::InvalidRegister));
    // six registers admit more
    assert!(Opcode::<6>::from_instr([0, 5, 5, 5]).is_ok());
    assert_eq!(Opcode::<6>::from_instr([0, 6, 5, 5]), Err(Error::InvalidRegister));
}

#[test]
fn mnemonics_name_the_kinds() {
    let names = [
        "addr", "addi", "mulr", "muli", "banr", "bani", "borr", "bori", "setr", "seti", "gtir",
        "gtri", "gtrr", "eqir", "eqri", "eqrr",
    ];
    for (n, name) in names.iter().enumerate() {
        assert_eq!(Kind::from_mnemonic(name), Kind::from_number(n as u64));
    }
    assert_eq!(Kind::from_mnemonic("nope"), None);
    assert_eq!(Kind::from_mnemonic("add"), None);
    assert_eq!(Kind::from_mnemonic("addrr"), None);
    assert_eq!(Kind::from_mnemonic(""), None);
}

#[test]
fn instructions_from_mnemonics() {
    assert_eq!(
        Opcode::<6>::from_instr_str("seti", 5, 0, 1),
        Ok(Opcode::<6>::Seti { a: 5, c: Reg::<6>::from_index(1).unwrap() })
    );
    assert_eq!(Opcode::<6>::from_instr_str("jump", 5, 0, 1), Err(Error::InvalidOpcode));
    assert_eq!(Opcode::<6>::from_instr_str("addr", 6, 0, 1), Err(Error::InvalidRegister));
    assert_eq!(
        Opcode::<6>::build(Kind::Addi, 2, 7, 3),
        Ok(Opcode::<6>::Addi {
            a: Reg::<6>::from_index(2).unwrap(),
            b: 7,
            c: Reg::<6>::from_index(3).unwrap()
        })
    );
}
