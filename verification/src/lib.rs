//! JSON values with integers, floats held as bit patterns, strings,
//! arrays and insertion-ordered objects, and the operations of a jq
//! interpreter on them.
use vstd::prelude::*;

pub mod float;
pub mod integer;
pub mod val;
pub mod raw;
pub mod order;
pub mod sort;
pub mod contain;
pub mod ops;
pub mod render;
pub mod laws;
pub mod order_laws;
pub mod order_trans;
pub mod value_laws;

verus! {

} // verus!
