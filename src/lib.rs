use vstd::prelude::*;

pub mod batch;
pub mod bound;
pub mod error;
pub mod order;
pub mod scan;
pub mod version;
pub mod wire;

verus! {

} // verus!
