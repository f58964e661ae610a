use vstd::prelude::*;

pub mod block;
pub mod frame;
pub mod parsing;

verus! {

} // verus!
