use vstd::prelude::*;

pub mod dedup;
pub mod interval;
pub mod persist;
pub mod scheduler;
pub mod size;
pub mod store;

verus! {

} // verus!
