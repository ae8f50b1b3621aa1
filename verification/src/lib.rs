//! A viewer of distance-estimated 3D shapes and the front end of the shape
//! definition language: source positions, lexing, reports and their layout,
//! grid tables, surface nets, distance maps and input handling.
use vstd::prelude::*;

pub mod text;
pub mod pos;
pub mod filemap;
pub mod report;
pub mod token;
pub mod lexer;
pub mod grid;
pub mod surface_nets;
pub mod image;
pub mod math;
pub mod event;
pub mod fps;
pub mod dist_map;
pub mod layout;
pub mod load;

verus! {
} // verus!
