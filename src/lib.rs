use vstd::prelude::*;

pub mod compact;
pub mod laws;
pub mod reading;
pub mod users;

verus! {

} // verus!
