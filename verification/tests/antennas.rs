//! Tests for antinode computation and counting.

use advent::antennas::{antinodes, antinodes_count, antinodes_resonant, signed_overflowing_sub,
    Input};
use std::collections::HashSet;

#[test]
fn main_test_signed_overflowing_sub() {
    assert_eq!(signed_overflowing_sub(1, 2), -1);
    assert_eq!(signed_overflowing_sub(2, 1), 1);
}

#[test]
fn lib_test_signed_overflowing_sub() {
    assert_eq!(signed_overflowing_sub(1, 2), -1);
    assert_eq!(signed_overflowing_sub(2, 1), 1);
}

fn antinode_set(pair: [(usize, usize); 2], size: (usize, usize)) -> HashSet<(usize, usize)> {
    HashSet::from_iter(antinodes(pair, size))
}

#[test]
fn main_test_antinodes() {
    assert_eq!(
        antinode_set([(3, 4), (5, 5)], (10, 10)),
        HashSet::from([(1, 3), (7, 6)])
    );
    assert_eq!(
        antinode_set([(5, 5), (3, 4)], (10, 10)),
        HashSet::from([(1, 3), (7, 6)])
    );
    assert_eq!(
        antinode_set([(3, 4), (4, 8)], (10, 10)),
        HashSet::from([(2, 0)])
    );
    assert_eq!(
        antinode_set([(3, 4), (4, 0)], (10, 10)),
        HashSet::from([(2, 8)])
    );
    assert_eq!(
        antinode_set([(4, 3), (8, 4)], (10, 10)),
        HashSet::from([(0, 2)])
    );
    assert_eq!(
        antinode_set([(5, 5), (4, 8)], (10, 10)),
        HashSet::from([(6, 2)])
    );
    assert_eq!(
        antinode_set([(5, 5), (8, 4)], (10, 10)),
        HashSet::from([(2, 6)])
    );
}

#[test]
fn test_antinodes() {
    assert_eq!(
        HashSet::from_iter(antinodes_resonant([(0, 0), (1, 3)], (10, 10))),
        HashSet::from([(2, 6), (3, 9), (0, 0), (1, 3)])
    );
    assert_eq!(
        HashSet::from_iter(antinodes_resonant([(2, 1), (1, 3)], (10, 10))),
        HashSet::from([(0, 5), (2, 1), (1, 3)])
    );
    assert_eq!(
        HashSet::from_iter(antinodes_resonant([(0, 0), (2, 1)], (10, 10))),
        HashSet::from([(4, 2), (6, 3), (8, 4), (0, 0), (2, 1)])
    );
}

fn sample_input() -> Input {
    Input {
        antennas: vec![
            ('0', vec![(1, 8), (2, 5), (3, 7), (4, 4)]),
            ('A', vec![(5, 6), (8, 8), (9, 9)]),
        ],
        size: (12, 12),
    }
}

#[test]
fn main_test_antinodes_count() {
    let input = sample_input();
    assert_eq!(
        antinodes_count(&input, |pair, size| antinodes(pair, size).as_slice().to_vec()),
        14
    );
}

#[test]
fn test_antinodes_count() {
    let input = sample_input();
    assert_eq!(antinodes_count(&input, antinodes_resonant), 34);
}
