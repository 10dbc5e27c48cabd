//! An interactive maze puzzle for a small touch display.
//!
//! - [`maze`] holds the grid of cells and its neighbourhood queries,
//!   [`graph`] says what paths, cycles and perfect mazes are,
//!   [`generate`] carves a perfect maze by randomized depth-first search,
//!   and [`search`] holds the proof that it does.
//! - [`hx8369`] is the framebuffer: pixels, a dirty row range, and a flush
//!   in chunks that the panel can take.
//! - [`gt911`] turns polled samples of the touch controller into
//!   rate-limited, deduplicated pointer events.
//! - [`maze_painter`] draws the maze, [`hit_test`] resolves a tap to the
//!   nearest clickable cell, and [`play`] joins that cell to the solved
//!   region.
//! - [`geometry`] and [`shapes`] hold the plain values that are drawn, the
//!   surface they are drawn on, and the pixels of lines and circles.
//! - [`arith`] holds the arithmetic that the proofs share.

pub mod arith;
pub mod generate;
pub mod geometry;
pub mod graph;
pub mod gt911;
pub mod hx8369;
pub mod maze;
pub mod maze_painter;
pub mod play;
pub mod search;
pub mod shapes;
