//! Tests for the word search.

use advent::word_search::{check_word, xmas_count, xmas_count_cross, CrossDirection, Direction};

fn all_directions() -> [Direction; 8] {
    [
        Direction::Left,
        Direction::Right,
        Direction::UpLeft,
        Direction::Up,
        Direction::UpRight,
        Direction::DownLeft,
        Direction::Down,
        Direction::DownRight,
    ]
}

#[test]
fn test_check_range() {
    for dir in all_directions() {
        for i in 0..10 {
            for j in 0..10 {
                assert!(
                    dir.check_range(0, (i, j), (10, 10)),
                    "false at (i, j) = ({i}, {j})"
                );
            }
        }
    }
}

fn sample_grid() -> Vec<Vec<char>> {
    vec![
        vec!['M', 'M', 'M', 'S', 'X', 'X', 'M', 'A', 'S', 'M'],
        vec!['M', 'S', 'A', 'M', 'X', 'M', 'S', 'M', 'S', 'A'],
        vec!['A', 'M', 'X', 'S', 'X', 'M', 'A', 'A', 'M', 'M'],
        vec!['M', 'S', 'A', 'M', 'A', 'S', 'M', 'S', 'M', 'X'],
        vec!['X', 'M', 'A', 'S', 'A', 'M', 'X', 'A', 'M', 'M'],
        vec!['X', 'X', 'A', 'M', 'M', 'X', 'X', 'A', 'M', 'A'],
        vec!['S', 'M', 'S', 'M', 'S', 'A', 'S', 'X', 'S', 'S'],
        vec!['S', 'A', 'X', 'A', 'M', 'A', 'S', 'A', 'A', 'A'],
        vec!['M', 'A', 'M', 'M', 'M', 'X', 'M', 'M', 'M', 'M'],
        vec!['M', 'X', 'M', 'X', 'A', 'X', 'M', 'A', 'S', 'X'],
    ]
}

#[test]
fn main_test_check_word() {
    let input = sample_grid();
    let line_size = 10;
    assert_eq!(input.len(), 10);
    let (i, j) = (0, 4);
    assert_eq!(input[i][j], 'X');
    assert!(Direction::DownRight.check_range(3, (i, j), (10, 10)));
    assert!(check_word(
        &Direction::DownRight,
        (input.as_slice(), line_size),
        (i, j)
    ));
}

#[test]
fn test_check_word() {
    let input = sample_grid();
    let (i, j) = (1, 2);
    assert_eq!(input[i][j], 'A');
    assert!(CrossDirection::UpRightToDownLeft.check_words(input.as_slice(), (i, j), 10));
}

#[test]
fn main_test_xmas_count() {
    let input = sample_grid();
    assert_eq!(xmas_count((input.as_slice(), 10)), 18);
}

#[test]
fn test_xmas_count() {
    let input = sample_grid();
    assert_eq!(xmas_count_cross((input.as_slice(), 10)), 9);
}
