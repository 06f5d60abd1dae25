use vstd::prelude::*;

pub mod allocators;
pub mod boot;
pub mod io;
pub mod devtree;
pub mod sbi;
pub mod sync;

verus! {

} // verus!
