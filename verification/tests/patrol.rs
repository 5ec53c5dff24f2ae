//! Tests for the guard patrol simulation.

use advent::patrol::{count_loops, is_loop, visited_points, Direction, Guard, ObstructionMap};

const I: bool = false;
const W: bool = true;

fn sample_map() -> ObstructionMap {
    ObstructionMap {
        map: vec![
            vec![I, I, I, I, W, I, I, I, I, I],
            vec![I, I, I, I, I, I, I, I, I, W],
            vec![I, I, I, I, I, I, I, I, I, I],
            vec![I, I, W, I, I, I, I, I, I, I],
            vec![I, I, I, I, I, I, I, W, I, I],
            vec![I, I, I, I, I, I, I, I, I, I],
            vec![I, W, I, I, I, I, I, I, I, I],
            vec![I, I, I, I, I, I, I, I, W, I],
            vec![W, I, I, I, I, I, I, I, I, I],
            vec![I, I, I, I, I, I, W, I, I, I],
        ],
        line_size: 10,
    }
}

#[test]
fn test_next_point() {
    assert_eq!(Direction::Up.next_point((0, 0), (10, 10)), None);
    assert_eq!(Direction::Left.next_point((0, 0), (10, 10)), None);
    assert_eq!(Direction::Down.next_point((0, 0), (10, 10)), Some((1, 0)));
    assert_eq!(Direction::Right.next_point((0, 0), (10, 10)), Some((0, 1)));
    assert_eq!(Direction::Up.next_point((9, 9), (10, 10)), Some((8, 9)));
    assert_eq!(Direction::Left.next_point((9, 9), (10, 10)), Some((9, 8)));
    assert_eq!(Direction::Down.next_point((9, 9), (10, 10)), None);
    assert_eq!(Direction::Right.next_point((9, 9), (10, 10)), None);
}

#[test]
fn test_count_visited_points() {
    let map = sample_map();
    assert_eq!(visited_points((&map, (6, 4))).len(), 41);
}

#[test]
fn test_guard_movement() {
    let map = sample_map();
    let mut guard = Guard::new((6, 4), &map);
    assert_eq!(guard.pos, (6, 4));
    assert_eq!(guard.direction, Direction::Up);
    assert!(guard.move_to_next_point());
    assert_eq!(guard.pos, (5, 4));
    guard.turn_clockwise();
    assert_eq!(guard.direction, Direction::Right);
}

#[test]
fn test_is_looking_at_obstacle() {
    let map = sample_map();
    let mut guard = Guard::new((1, 4), &map);
    assert!(guard.is_looking_at_obstacle());
    guard.turn_clockwise();
    assert!(!guard.is_looking_at_obstacle());
}

#[test]
fn test_is_loop() {
    let map = sample_map();
    assert!(!is_loop((&map, (6, 4))));

    let test_looping = |i: usize, j: usize| {
        let mut mod_map = map.clone();
        let line: &mut Vec<_> = &mut mod_map.map[i];
        line[j] = true;
        assert!(is_loop((&mod_map, (6, 4))));
    };

    test_looping(6, 3);
    test_looping(7, 6);
    test_looping(7, 7);
    test_looping(8, 1);
    test_looping(8, 3);
    test_looping(9, 7);
}

#[test]
fn test_count_loops() {
    assert_eq!(count_loops((sample_map(), (6, 4))), 6);
}
