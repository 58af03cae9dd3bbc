use vstd::prelude::*;

pub mod error;
pub mod types;
pub mod csr;
pub mod solver;
pub mod traits;
pub mod config;
pub mod streams;
pub mod pipeline;

verus! {

} // verus!
