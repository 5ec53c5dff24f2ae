//! Tests for location-list parsing, distances and similarity.

use advent::lists::{parse_line, similarity_score, total_distance};

#[test]
fn main_test_parse_line() {
    assert_eq!(parse_line(""), None);
    assert_eq!(parse_line("3   4"), Some((3, 4)));
    assert_eq!(parse_line("35134   63205"), Some((35134, 63205)));
}

#[test]
fn lib_test_parse_line() {
    assert_eq!(parse_line(""), None);
    assert_eq!(parse_line("3   4"), Some((3, 4)));
    assert_eq!(parse_line("35134   63205"), Some((35134, 63205)));
}

#[test]
fn test_parse_line_rejects_bad_tokens() {
    assert_eq!(parse_line("3"), None);
    assert_eq!(parse_line("3 x"), None);
    assert_eq!(parse_line("99999999999 1"), None);
}

#[test]
fn test_total_distance() {
    let a = vec![3, 4, 2, 1, 3, 3];
    let b = vec![4, 3, 5, 3, 9, 3];
    assert_eq!(total_distance(a, b), 11);
}

#[test]
fn test_similarity_score() {
    let a = vec![3, 4, 2, 1, 3, 3];
    let b = vec![4, 3, 5, 3, 9, 3];
    assert_eq!(similarity_score(a, b), 31);
}
