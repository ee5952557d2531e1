//! The troubleshooting assistant: its configuration, its conversation and what goes over the
//! wire.

use vstd::prelude::*;

pub mod config;
pub mod message;
pub mod provider;
pub mod skills;
pub mod tools;

verus! {

} // verus!
