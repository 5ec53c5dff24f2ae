//! Verified solvers for a collection of daily puzzles.  The core is a
//! block-addressable disk image: decoding its run-length encoding, compacting
//! it block by block or file by file against a free-space index, and
//! validating the result with a positional checksum.  Around it stand the
//! smaller daily computations: list distances, report safety, instruction
//! scanning, word search, page ordering, a guard patrol, calibration
//! equations, and antenna antinodes.

pub mod antennas;
pub mod calibration;
pub mod disk;
pub mod free_space;
pub mod instructions;
pub mod lists;
pub mod pages;
pub mod parse;
pub mod paths;
pub mod patrol;
pub mod reports;
pub mod whole_file;
pub mod word_search;
