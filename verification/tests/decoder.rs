use docking::DecodeError;
use docking::Instruction;
use docking::MaskBit;
use docking::Memory;
use docking::parse_instruction;
use docking::solve_part_1;
use docking::solve_part_2;
use docking::write_floating;

const INPUT_1: &str =
    "mask = XXXXXXXXXXXXXXXXXXXXXXXXXXXXX1XXXX0X\nmem[8] = 11\nmem[7] = 101\nmem[8] = 0";
const INPUT_2: &str = "mask = 000000000000000000000000000000X1001X\nmem[42] = 100\nmask = 00000000000000000000000000000000X0XX\nmem[26] = 1";

fn to_lines(input: &str) -> Vec<String> {
    input.lines().map(|l| l.to_string()).collect()
}

#[test]
fn it_calculates_the_correct_value_for_part_1() {
    let result = solve_part_1(&to_lines(INPUT_1)).unwrap();
    assert_eq!(165, result);
}

#[test]
fn it_calculates_the_correct_value_for_part_2() {
    let result = solve_part_2(&to_lines(INPUT_2)).unwrap();
    assert_eq!(208, result);
}

#[test]
fn parses_a_mask_line() {
    let line = "mask = XXXXXXXXXXXXXXXXXXXXXXXXXXXXX1XXXX0X";
    match parse_instruction(line) {
        Some(Instruction::Mask(p)) => {
            assert_eq!(36, p.bits.len());
            assert_eq!(MaskBit::One, p.bits[29]);
            assert_eq!(MaskBit::Zero, p.bits[34]);
            assert_eq!(MaskBit::Floating, p.bits[0]);
            assert_eq!(MaskBit::Floating, p.bits[35]);
        }
        _ => panic!("mask line not recognised"),
    }
}

#[test]
fn parses_a_memory_line() {
    match parse_instruction("mem[8] = 11") {
        Some(Instruction::Write { address, value }) => {
            assert_eq!(8, address);
            assert_eq!(11, value);
        }
        _ => panic!("memory line not recognised"),
    }
}

#[test]
fn part1_masks_pick_the_governed_bits() {
    match parse_instruction("mask = XXXXXXXXXXXXXXXXXXXXXXXXXXXXX1XXXX0X") {
        Some(Instruction::Mask(p)) => {
            // character 29 governs bit 6, character 34 governs bit 1
            assert_eq!((1u64 << 6, 1u64 << 1), p.part1_masks());
        }
        _ => panic!("mask line not recognised"),
    }
}

#[test]
fn part2_masks_pick_forced_and_floating_bits() {
    match parse_instruction("mask = 000000000000000000000000000000X1001X") {
        Some(Instruction::Mask(p)) => {
            let (true_mask, floating) = p.part2_masks();
            assert_eq!((1u64 << 4) | (1u64 << 1), true_mask);
            assert_eq!(vec![5u64, 0u64], floating);
        }
        _ => panic!("mask line not recognised"),
    }
}

#[test]
fn rejects_malformed_lines() {
    assert!(parse_instruction("foo = bar").is_none());
    assert!(parse_instruction("").is_none());
    assert!(parse_instruction("mask = X10").is_none());
    assert!(parse_instruction("mask = XXXXXXXXXXXXXXXXXXXXXXXXXXXXX1XXXX0Y").is_none());
    assert!(parse_instruction("mem[] = 5").is_none());
    assert!(parse_instruction("mem[8] = ").is_none());
    assert!(parse_instruction("mem[8]= 5").is_none());
    assert!(parse_instruction("mem[8] = 5x").is_none());
}

#[test]
fn rejects_numbers_that_do_not_fit() {
    assert!(parse_instruction("mem[8] = 99999999999999999999999999").is_none());
    assert!(parse_instruction("mem[99999999999999999999999999] = 8").is_none());
    // the largest representable value still parses
    match parse_instruction("mem[18446744073709551615] = 0") {
        Some(Instruction::Write { address, value }) => {
            assert_eq!(u64::MAX, address);
            assert_eq!(0, value);
        }
        _ => panic!("memory line not recognised"),
    }
}

#[test]
fn malformed_line_aborts_without_a_sum() {
    let lines = to_lines("mask = XXXXXXXXXXXXXXXXXXXXXXXXXXXXX1XXXX0X\nfoo = bar\nmem[8] = 11");
    assert_eq!(Err(DecodeError { line: 1 }), solve_part_1(&lines));
    assert_eq!(Err(DecodeError { line: 1 }), solve_part_2(&lines));
}

#[test]
fn part1_applies_the_value_mask() {
    // 11 | 0b100_0000 = 75, then & !0b10 clears bit 1: 73
    let lines = to_lines("mask = XXXXXXXXXXXXXXXXXXXXXXXXXXXXX1XXXX0X\nmem[8] = 11");
    assert_eq!(Ok(73), solve_part_1(&lines));
}

#[test]
fn part1_write_is_idempotent() {
    let once = to_lines("mask = XXXXXXXXXXXXXXXXXXXXXXXXXXXXX1XXXX0X\nmem[8] = 11");
    let twice = to_lines("mask = XXXXXXXXXXXXXXXXXXXXXXXXXXXXX1XXXX0X\nmem[8] = 11\nmem[8] = 11");
    assert_eq!(solve_part_1(&once), solve_part_1(&twice));
}

#[test]
fn part2_write_is_idempotent() {
    let once = to_lines("mask = 000000000000000000000000000000X1001X\nmem[42] = 100");
    let twice = to_lines("mask = 000000000000000000000000000000X1001X\nmem[42] = 100\nmem[42] = 100");
    assert_eq!(solve_part_2(&once), solve_part_2(&twice));
}

#[test]
fn part2_expands_a_write_into_all_combinations() {
    let lines = to_lines("mask = 000000000000000000000000000000X1001X\nmem[42] = 100");
    // floating bits 5 and 0 over base 42|18 = 58: addresses 26, 27, 58, 59
    assert_eq!(Ok(400), solve_part_2(&lines));
}

#[test]
fn floating_writes_hit_every_distinct_address() {
    let mut memory = Memory::new();
    // mask 00000000000000000000000000000000X0XX over address 26: bits 3, 1, 0 float
    write_floating(&mut memory, 26, &vec![3u64, 1u64, 0u64], 1);
    assert_eq!(8, memory.len());
    for address in [16u64, 17, 18, 19, 24, 25, 26, 27] {
        assert_eq!(Some(1), memory.get(address));
    }
}

#[test]
fn memory_overwrites_and_sums() {
    let mut memory = Memory::new();
    memory.write(8, 11);
    memory.write(7, 101);
    memory.write(8, 0);
    assert_eq!(2, memory.len());
    assert_eq!(Some(0), memory.get(8));
    assert_eq!(Some(101), memory.get(7));
    assert_eq!(None, memory.get(9));
    assert_eq!(101, memory.wrapped_sum());
}

#[test]
fn empty_input_sums_to_zero() {
    let lines: Vec<String> = Vec::new();
    assert_eq!(Ok(0), solve_part_1(&lines));
    assert_eq!(Ok(0), solve_part_2(&lines));
}

#[test]
fn write_without_a_mask_line_stores_the_raw_value() {
    let lines = to_lines("mem[5] = 42");
    assert_eq!(Ok(42), solve_part_1(&lines));
    assert_eq!(Ok(42), solve_part_2(&lines));
}
