//! Gear trains described in a small text language, and the rotation that a
//! driving input sends through them.
//!
//! - `lexer`, `grammar` and `parser` read a description into a `Gear` tree;
//! - `rotation` holds rotations as exact fractions and the meshing formula;
//! - `gears` turns a tree and collects what its counters show;
//! - `order` and `aggregate` group that by label, in label order;
//! - `animation` is one step of the animation and the advance of its drive;
//! - `laws` states what holds across calls.

pub mod lexer;
pub mod grammar;
pub mod parser;
pub mod rotation;
pub mod gears;
pub mod order;
pub mod aggregate;
pub mod animation;
pub mod laws;
