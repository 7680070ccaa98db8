//! Bidirectional file synchronization: the decisions, the formats and the
//! algorithms, with their contracts.
use vstd::prelude::*;

pub mod clock;
pub mod command;
pub mod digest;
pub mod globs;
pub mod message;
pub mod order;
pub mod ownership;
pub mod pager;
pub mod paths;
pub mod peering;
pub mod persist;
pub mod plan;
pub mod power;
pub mod progress;
pub mod protocol;
pub mod root;
pub mod rsync;
pub mod scan;
pub mod service;
pub mod text;
pub mod tree;

verus! {

} // verus!
