//! Tests for the disk-image builder, compactors and checksum.

use advent::disk::{checksum, decode_disk_map, defrag};
use advent::free_space::{free_space_map, FreeSpaceMap, SpaceMapEntry};
use advent::whole_file::defrag_whole_files;

const SAMPLE: &str = "2333133121414131402";

#[test]
fn test_load_input() {
    let input = decode_disk_map("12345");
    assert_eq!(
        input,
        vec![
            Some(0),
            None,
            None,
            Some(1),
            Some(1),
            Some(1),
            None,
            None,
            None,
            None,
            Some(2),
            Some(2),
            Some(2),
            Some(2),
            Some(2)
        ]
    );
}

#[test]
fn test_checksum() {
    assert_eq!(
        checksum(&[
            //"0099811188827773336446555566.............."
            Some(0),
            Some(0),
            Some(9),
            Some(9),
            Some(8),
            Some(1),
            Some(1),
            Some(1),
            Some(8),
            Some(8),
            Some(8),
            Some(2),
            Some(7),
            Some(7),
            Some(7),
            Some(3),
            Some(3),
            Some(3),
            Some(6),
            Some(4),
            Some(4),
            Some(6),
            Some(5),
            Some(5),
            Some(5),
            Some(5),
            Some(6),
            Some(6),
            None,
            None,
            None,
            None,
            None,
            None,
            None,
            None,
            None,
            None,
            None,
            None,
            None,
            None
        ]),
        1928
    );
}

#[test]
fn test_defrag() {
    let mut disk_map = vec![None, Some(1), None, None, Some(2), None];
    defrag(&mut disk_map);
    assert_eq!(disk_map, vec![Some(2), Some(1), None, None, None, None]);

    let mut disk_map = decode_disk_map(SAMPLE);
    defrag(&mut disk_map);
    assert_eq!(
        disk_map,
        vec![
            //"0099811188827773336446555566.............."
            Some(0),
            Some(0),
            Some(9),
            Some(9),
            Some(8),
            Some(1),
            Some(1),
            Some(1),
            Some(8),
            Some(8),
            Some(8),
            Some(2),
            Some(7),
            Some(7),
            Some(7),
            Some(3),
            Some(3),
            Some(3),
            Some(6),
            Some(4),
            Some(4),
            Some(6),
            Some(5),
            Some(5),
            Some(5),
            Some(5),
            Some(6),
            Some(6),
            None,
            None,
            None,
            None,
            None,
            None,
            None,
            None,
            None,
            None,
            None,
            None,
            None,
            None
        ]
    );

    assert_eq!(checksum(disk_map.as_slice()), 1928);
}

#[test]
fn test_defrag_is_idempotent() {
    let mut disk_map = decode_disk_map(SAMPLE);
    defrag(&mut disk_map);
    let once = disk_map.clone();
    defrag(&mut disk_map);
    assert_eq!(disk_map, once);
}

#[test]
fn test_defrag_conserves_blocks() {
    let mut disk_map = decode_disk_map(SAMPLE);
    let mut before: Vec<Option<u32>> = disk_map.clone();
    defrag(&mut disk_map);
    let mut after = disk_map.clone();
    before.sort();
    after.sort();
    assert_eq!(before, after);
}

#[test]
fn test_defrag_leaves_free_blocks_trailing() {
    let mut disk_map = decode_disk_map(SAMPLE);
    defrag(&mut disk_map);
    let first_free = disk_map.iter().position(|b| b.is_none()).unwrap();
    assert!(disk_map[first_free..].iter().all(|b| b.is_none()));
}

#[test]
fn test_free_space_map() {
    let disk_map = decode_disk_map("12345");
    assert_eq!(
        free_space_map(disk_map.as_slice()).regions,
        vec![
            SpaceMapEntry { size: 2, pos: 1 },
            SpaceMapEntry { size: 4, pos: 6 }
        ]
    );

    let disk_map = decode_disk_map(SAMPLE);
    assert_eq!(
        free_space_map(disk_map.as_slice()).regions,
        vec![
            SpaceMapEntry { size: 3, pos: 2 },
            SpaceMapEntry { size: 3, pos: 8 },
            SpaceMapEntry { size: 3, pos: 12 },
            SpaceMapEntry { size: 1, pos: 18 },
            SpaceMapEntry { size: 1, pos: 21 },
            SpaceMapEntry { size: 1, pos: 26 },
            SpaceMapEntry { size: 1, pos: 31 },
            SpaceMapEntry { size: 1, pos: 35 }
        ]
    );
}

#[test]
fn test_first_fit_prefers_smallest_position() {
    // Two regions fit; the one starting earlier wins although it is larger.
    let fsm = FreeSpaceMap {
        regions: vec![
            SpaceMapEntry { size: 9, pos: 2 },
            SpaceMapEntry { size: 2, pos: 20 },
        ],
    };
    assert_eq!(fsm.first_fit(2, 100), Some(SpaceMapEntry { size: 9, pos: 2 }));
    // And the other way around: a small early region beats a big later one.
    let fsm = FreeSpaceMap {
        regions: vec![
            SpaceMapEntry { size: 2, pos: 2 },
            SpaceMapEntry { size: 9, pos: 20 },
        ],
    };
    assert_eq!(fsm.first_fit(2, 100), Some(SpaceMapEntry { size: 2, pos: 2 }));
    // The position limit excludes the early region.
    assert_eq!(fsm.first_fit(2, 2), None);
    // A size that only the later region can hold skips the earlier one.
    assert_eq!(fsm.first_fit(5, 100), Some(SpaceMapEntry { size: 9, pos: 20 }));
}

#[test]
fn test_insert_coalesces() {
    let mut fsm = FreeSpaceMap {
        regions: vec![
            SpaceMapEntry { size: 2, pos: 0 },
            SpaceMapEntry { size: 2, pos: 5 },
        ],
    };
    fsm.insert(SpaceMapEntry { size: 3, pos: 2 });
    assert_eq!(fsm.regions, vec![SpaceMapEntry { size: 7, pos: 0 }]);
}

#[test]
fn test_shrink_removes_or_trims() {
    let mut fsm = FreeSpaceMap {
        regions: vec![
            SpaceMapEntry { size: 3, pos: 2 },
            SpaceMapEntry { size: 4, pos: 8 },
        ],
    };
    fsm.shrink(SpaceMapEntry { size: 3, pos: 2 }, 3);
    assert_eq!(fsm.regions, vec![SpaceMapEntry { size: 4, pos: 8 }]);
    fsm.shrink(SpaceMapEntry { size: 4, pos: 8 }, 1);
    assert_eq!(fsm.regions, vec![SpaceMapEntry { size: 3, pos: 9 }]);
}

#[test]
fn test_defrag_whole_files() {
    let mut disk_map = decode_disk_map(SAMPLE);
    defrag_whole_files(&mut disk_map);
    // "00992111777.44.333....5555.6666.....8888.."
    let expected: Vec<Option<u32>> = "00992111777.44.333....5555.6666.....8888.."
        .chars()
        .map(|c| c.to_digit(10))
        .collect();
    assert_eq!(disk_map, expected);
    assert_eq!(checksum(disk_map.as_slice()), 2858);
}

#[test]
fn test_defrag_whole_files_no_rightward_moves() {
    let original = decode_disk_map(SAMPLE);
    let mut compacted = original.clone();
    defrag_whole_files(&mut compacted);
    for id in 0..10u32 {
        let old_start = original.iter().position(|b| *b == Some(id)).unwrap();
        let new_start = compacted.iter().position(|b| *b == Some(id)).unwrap();
        assert!(new_start <= old_start);
    }
}

#[test]
fn test_decode_stops_at_non_digit() {
    assert_eq!(decode_disk_map(""), Vec::<Option<u32>>::new());
    assert_eq!(decode_disk_map("2x3"), vec![Some(0), Some(0)]);
    assert_eq!(decode_disk_map("0305"), vec![None; 8]);
}
