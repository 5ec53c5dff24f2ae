//! Tests for report parsing and safety checks.

use advent::reports::{
    count_safe_reports, count_safe_reports_dampened, is_safe_report, parse_line, Direction,
};

#[test]
fn test_is_safe_report() {
    assert!(is_safe_report(&[7, 6, 4, 2, 1]));
    assert!(is_safe_report(&[1, 2, 3]));
    assert!(!is_safe_report(&[1, 2, 1]));
    assert!(is_safe_report(&[1, 2]));
    assert!(!is_safe_report(&[1]));
}

#[test]
fn test_parse_line() {
    assert_eq!(parse_line(""), vec![]);
    assert_eq!(parse_line("7 6 4 2 1"), vec![7, 6, 4, 2, 1]);
    assert_eq!(
        parse_line("11 12 15 18 19 18"),
        vec![11, 12, 15, 18, 19, 18]
    );
}

#[test]
fn test_eval_direction() {
    assert_eq!(
        Direction::try_from(&[7, 6, 4, 2, 1]),
        Some(Direction::Decreasing(&[6, 4, 2, 1]))
    );
    assert_eq!(Direction::try_from(&[]), None);
    assert_eq!(Direction::try_from(&[0]), None);
    assert_eq!(Direction::try_from(&[0, 7]), None);
    assert_eq!(Direction::try_from(&[0, 0]), None);
    assert_eq!(
        Direction::try_from(&[0, 3]),
        Some(Direction::Increasing(&[3]))
    );
}

#[test]
fn test_check_direction() {
    assert!(Direction::Increasing(&[]).check_direction());
    assert!(Direction::Decreasing(&[]).check_direction());
    assert!(Direction::Increasing(&[0]).check_direction());
    assert!(Direction::Decreasing(&[1]).check_direction());
    assert!(Direction::Decreasing(&[1, 0]).check_direction());
    assert!(!Direction::Increasing(&[1, 0]).check_direction());
    assert!(!Direction::Decreasing(&[0, 1]).check_direction());
    assert!(Direction::Increasing(&[0, 1]).check_direction());
    assert!(!Direction::Decreasing(&[0, 4]).check_direction());
    assert!(!Direction::Increasing(&[0, 4]).check_direction());
    assert!(!Direction::Decreasing(&[0, 0]).check_direction());
    assert!(!Direction::Increasing(&[0, 0]).check_direction());
    assert!(!Direction::Decreasing(&[0, 1, 0]).check_direction());
    assert!(!Direction::Increasing(&[0, 1, 0]).check_direction());
}

fn sample_rows() -> Vec<Vec<u32>> {
    vec![
        vec![7, 6, 4, 2, 1],
        vec![1, 2, 7, 8, 9],
        vec![9, 7, 6, 2, 1],
        vec![1, 3, 2, 4, 5],
        vec![8, 6, 4, 4, 1],
        vec![1, 3, 6, 7, 9],
    ]
}

#[test]
fn test_count_safe_reports() {
    assert_eq!(count_safe_reports(&sample_rows()), 2);
}

#[test]
fn main_test_count_safe_reports() {
    assert_eq!(count_safe_reports_dampened(&sample_rows()), 4);
}
