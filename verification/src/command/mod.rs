//! What the commands decide and print.
use vstd::prelude::*;

pub mod blocked;
pub mod clean;
pub mod control;
pub mod doctor;
pub mod format;
pub mod issues;
pub mod remote;
pub mod resolution;
pub mod resolve;
pub mod scope;
pub mod select;
pub mod settle;
pub mod status;
pub mod sync;

verus! {

} // verus!
