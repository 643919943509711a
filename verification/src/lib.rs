//! This crate provides scans that walk a rectangle of arbitrary size in a
//! pseudo-Hilbert order, based on “A Pseudo-Hilbert Scan for
//! Arbitrarily-Sized Arrays” by Zhang, et al.
//!
//! ```text
//!   ,---, ,---,
//!   '-, '-' ,-'
//!   ,-' ,-, '-,
//!   '-, | '---'
//!   ,-' '-----,
//!   '-, ,-----'
//!   --' '------
//! ```
//!
//! A scan starts at the origin, moves to a rook-adjacent cell at every step,
//! and visits every cell of the rectangle once. The scan of a rectangle of
//! even width ends at the bottom right, which makes the scans suitable for
//! tiling.
//!
//! ```text
//! let mut scan = HilbertScan32::new([11, 42]);
//! while let Some([x, y]) = scan.next() {
//!     // 0 <= x < 11 and 0 <= y < 42
//! }
//! ```
//!
//! # Modules
//!
//! - [`scan`]: [`HilbertScanCore`], the scan of a rectangle, and what holds
//!   of the cells that it produces.
//! - [`arb`]: [`ArbHilbertScanCore`], which cuts a long rectangle into parts
//!   that are closer to square and scans them one after the other.
//! - [`model`]: the scan as a state machine on plain values, which defines
//!   the order of the cells.
//! - [`engine`]: the state machine as it runs, on level states kept in a
//!   vector, with the invariant that keeps it inside the rectangle.
//! - [`curve`]: the eight curve types and their lookup tables.
//! - [`split`]: how the side of a block is split in two.
//! - [`grid`]: cells, rectangles and walks.
//!
//! # The algorithm
//!
//! The rectangle is split into four blocks, each block into four again, and
//! so on, until the shorter side of the first block is 2 or 3 long. Every split cuts
//! a side into a near part and a far part, the far part a power of two. The
//! blocks of a level are visited in the order of a Hilbert curve; a block at
//! the last level, a leaf, is walked in a zigzag, or is split once more
//! where both its sides are at least 3.
//!
//! A zigzag must have an even number of rows to end on the side on which it
//! began. Where a side of the rectangle is odd, the first leaf is scanned
//! short of one row, the helper row, which is walked last. The last leaf of a
//! rectangle of even width and odd height is walked in rows from its top
//! left to its bottom right.
pub mod arb;
pub mod curve;
pub mod engine;
pub mod grid;
pub mod model;
pub mod scan;
pub mod split;

pub use crate::arb::ArbHilbertScanCore;
pub use crate::engine::{num_levels_for_size, LevelInfo, LevelState};
pub use crate::scan::HilbertScanCore;
pub use crate::split::{division_l1, log2_floor};

use vstd::prelude::*;

verus! {

/// `HilbertScanCore` on 32-bit coordinates.
pub type HilbertScan32 = HilbertScanCore;

/// `ArbHilbertScanCore` on 32-bit coordinates.
pub type ArbHilbertScan32 = ArbHilbertScanCore;

} // verus!
