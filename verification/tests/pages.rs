//! Tests for page-ordering checks and reordering.

use advent::pages::{fix_order, is_right_order, middle, sum_fix_order_middles,
    sum_right_order_middles, Input};
use std::collections::{HashMap, HashSet};

fn sample_rules() -> HashMap<u32, HashSet<u32>> {
    HashMap::from([
        (47, HashSet::from([53, 13, 61, 29])),
        (97, HashSet::from([13, 61, 47, 29, 53, 75])),
        (75, HashSet::from([29, 53, 47, 61, 13])),
        (61, HashSet::from([13, 53, 29])),
        (29, HashSet::from([13])),
        (53, HashSet::from([29, 13])),
    ])
}

fn sample_pages() -> Vec<Vec<u32>> {
    vec![
        vec![75, 47, 61, 53, 29],
        vec![97, 61, 53, 29, 13],
        vec![75, 29, 13],
        vec![75, 97, 47, 61, 53],
        vec![61, 13, 29],
        vec![97, 13, 75, 29, 47],
    ]
}

#[test]
fn test_middle() {
    assert_eq!(61, middle(&[75, 47, 61, 53, 29]));
}

#[test]
fn test_is_right_order() {
    let ordering_rules = sample_rules();
    let pages = sample_pages();
    assert!(is_right_order(pages[0].as_slice(), &ordering_rules));
    assert!(is_right_order(pages[1].as_slice(), &ordering_rules));
    assert!(is_right_order(pages[2].as_slice(), &ordering_rules));
    assert!(!is_right_order(pages[3].as_slice(), &ordering_rules));
    assert!(!is_right_order(pages[4].as_slice(), &ordering_rules));
    assert!(!is_right_order(pages[5].as_slice(), &ordering_rules));
}

#[test]
fn test_fix_order() {
    let ordering_rules = sample_rules();
    let tester = |mut pages: Vec<u32>, expected: Vec<u32>| {
        fix_order(&mut pages, &ordering_rules);
        assert_eq!(pages, expected);
    };
    tester(vec![75, 97, 47, 61, 53], vec![97, 75, 47, 61, 53]);
    tester(vec![], vec![]);
    tester(vec![61, 13, 29], vec![61, 29, 13]);
    tester(vec![97, 13, 75, 29, 47], vec![97, 75, 47, 29, 13]);
}

#[test]
fn test_sum_right_order_middles() {
    let input = Input { ordering_rules: sample_rules(), pages: sample_pages() };
    assert_eq!(sum_right_order_middles(input), 143);
}

#[test]
fn test_sum_fix_order_middles() {
    let input = Input { ordering_rules: sample_rules(), pages: sample_pages() };
    assert_eq!(sum_fix_order_middles(input), 123);
}
