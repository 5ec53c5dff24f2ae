//! Tests for input-file path construction.

use advent::paths::{input, test_input};

#[test]
fn test_input_paths() {
    assert_eq!(input("09", ""), "data/day09/input.txt");
    assert_eq!(input("01", "2"), "data/day01/input2.txt");
    assert_eq!(test_input("09", "1"), "test_data/day09/input1.txt");
}
