//! Disk-usage treemaps: a weighted tree of files and directories, and a
//! squarified treemap layout of that tree.
//!
//! Rectangles have integer corners, in whatever unit the caller picks
//! (pixels, or a finer grid). Proportional positions are rounded down and
//! the last item of every row or strip ends exactly on its far edge, so the
//! boxes of a tree tile their bounds exactly and never overlap.
pub mod boxes;
pub mod color;
pub mod geometry;
pub mod metric;
pub mod scanning;
pub mod squarify;
