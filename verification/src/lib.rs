//! A sparse, unbounded implementation of Conway's Game of Life.
//!
//! The live set is a set of `(i32, i32)` coordinates; one `tick` advances
//! it by the standard rules (birth on exactly 3 live neighbours, survival
//! on 2 or 3).  Two engines are provided behind one interface: a
//! sequential one, and one that stages each tick on a pool of worker
//! threads.  Both carry the same contract — after a tick the live set is
//! exactly `rules::next_generation` of what it was — so their results are
//! interchangeable for every worker count.
//!
//! Besides the engines the crate holds the binary cell interchange format
//! (`codec`), the text pattern importer (`pattern`), and proofs of the
//! classic behaviours of the rules: the block still life, the blinker,
//! the glider's translation, and the death of an isolated cell.

pub mod cell;
pub mod live_set;
pub mod rules;
pub mod state;
pub mod single;
pub mod parallel;
pub mod codec;
pub mod pattern;
