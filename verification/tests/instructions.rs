//! Tests for instruction scanning and evaluation.

use advent::instructions::{calc_sum, parse_input, parse_input_with_toggles, Instruction};

const SAMPLE_1: &str = "xmul(2,4)%&mul[3,7]!@^do_not_mul(5,5)+mul(32,64]then(mul(11,8)mul(8,5))\n";
const SAMPLE_2: &str = "xmul(2,4)&mul[3,7]!^don't()_mul(5,5)+mul(32,64](mul(11,8)undo()?mul(8,5))";

#[test]
fn test_parse_input() {
    assert_eq!(
        parse_input(SAMPLE_1),
        vec![
            Instruction::Mul(2, 4),
            Instruction::Mul(5, 5),
            Instruction::Mul(11, 8),
            Instruction::Mul(8, 5),
        ]
    );
}

#[test]
fn main_test_parse_input() {
    assert_eq!(
        parse_input_with_toggles(SAMPLE_2),
        vec![
            Instruction::Mul(2, 4),
            Instruction::Dont,
            Instruction::Mul(5, 5),
            Instruction::Mul(11, 8),
            Instruction::Do,
            Instruction::Mul(8, 5),
        ]
    );
}

#[test]
fn test_calc_sum() {
    assert_eq!(calc_sum(parse_input(SAMPLE_1).as_slice()), 161);
}

#[test]
fn main_test_calc_sum() {
    assert_eq!(calc_sum(parse_input_with_toggles(SAMPLE_2).as_slice()), 48);
}

#[test]
fn test_eval() {
    assert_eq!(Instruction::Mul(3, 4).eval(true), (Some(12), true));
    assert_eq!(Instruction::Mul(3, 4).eval(false), (None, false));
    assert_eq!(Instruction::Do.eval(false), (None, true));
    assert_eq!(Instruction::Dont.eval(true), (None, false));
}

#[test]
fn test_parse_rejects_long_numbers() {
    assert_eq!(parse_input("mul(1234,5)"), vec![]);
    assert_eq!(parse_input("mul(123,5555)"), vec![]);
    assert_eq!(parse_input("mul(12,34)x"), vec![Instruction::Mul(12, 34)]);
}
