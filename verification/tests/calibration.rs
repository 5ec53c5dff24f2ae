//! Tests for calibration equations.

use advent::calibration::{dfs, next_round, total_sum, Eval, Op};

const TWO_OPS: [Op; 2] = [Op::Add, Op::Multiply];
const THREE_OPS: [Op; 3] = [Op::Add, Op::Multiply, Op::Concat];

#[test]
fn test_dfs() {
    assert!(dfs(10, &[10], &TWO_OPS));
    assert!(dfs(190, &[10, 19], &TWO_OPS));
    assert!(dfs(3267, &[81, 40, 27], &TWO_OPS));
}

#[test]
fn test_dfs_unsolvable() {
    assert!(!dfs(83, &[17, 5], &TWO_OPS));
    assert!(dfs(156, &[15, 6], &THREE_OPS));
    assert!(!dfs(156, &[15, 6], &TWO_OPS));
    assert!(!dfs(10, &[], &THREE_OPS));
}

#[test]
fn test_concat() {
    assert_eq!(Op::Concat.eval(12, 345), Some(12345));
    assert_eq!(Op::Concat.eval(10, 0), Some(100));
    assert_eq!(Op::Concat.eval(10, 10), Some(1010));
}

#[test]
fn test_next_round() {
    assert_eq!(next_round(0), Some(10));
    assert_eq!(next_round(9), Some(10));
    assert_eq!(next_round(10), Some(100));
    assert_eq!(next_round(999), Some(1000));
    assert_eq!(next_round(u64::MAX), None);
}

fn sample_input() -> Vec<(u64, Vec<u32>)> {
    vec![
        (190, vec![10, 19]),
        (3267, vec![81, 40, 27]),
        (83, vec![17, 5]),
        (156, vec![15, 6]),
        (7290, vec![6, 8, 6, 15]),
        (161011, vec![16, 10, 13]),
        (192, vec![17, 8, 14]),
        (21037, vec![9, 7, 18, 13]),
        (292, vec![11, 6, 16, 20]),
    ]
}

#[test]
fn main_test_total_sum() {
    assert_eq!(total_sum(sample_input().as_slice(), &TWO_OPS), 3749);
}

#[test]
fn test_total_sum() {
    assert_eq!(total_sum(sample_input().as_slice(), &THREE_OPS), 11387);
}
