//! Ant-colony simulation over a hexagonal grid.
//!
//! Colonies of simple agents ("ants") each execute a tiny program in the
//! Formica instruction set against a shared hex-grid world holding food,
//! obstacles, nest territory and scent markers.  The crate provides the cube
//! coordinate system, the bounded hex grid, the two-pass Formica assembler and
//! the per-tick instruction interpreter, each with a verified contract.

pub mod ant;
pub mod formica;
pub mod grid;
pub mod world;
