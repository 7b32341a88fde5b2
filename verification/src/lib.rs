//! Verified core of a CGNS / VTKHDF mesh reader and writer.
use vstd::prelude::*;

pub mod base;
pub mod bc;
pub mod cells;
pub mod element_read;
pub mod element_write;
pub mod faces;
pub mod kinds;
pub mod legacy;
pub mod roundtrip;
pub mod text;
pub mod vtk;

verus! {
} // verus!
