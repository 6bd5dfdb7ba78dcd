//! Verified in-place numeric kernels over a shared buffer: a checked bump
//! arena, sorting routines, RGBA image filters, dense matrix operations, and
//! small scanning utilities for JSON text, integers and strings.
use vstd::prelude::*;

pub mod arena;
pub mod image;
pub mod json;
pub mod math;
pub mod matrix;
pub mod search;
pub mod sorting;
pub mod text;

verus! {

} // verus!
