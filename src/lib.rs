use vstd::prelude::*;

pub mod color;
pub mod image;
pub mod draw;
pub mod geometry;
pub mod matrix;
pub mod gmath;
pub mod reflect;

verus! {

} // verus!
