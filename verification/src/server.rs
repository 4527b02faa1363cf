//! What the demonstration server computes.
use vstd::prelude::*;

pub mod accounts;
pub mod bench;
pub mod http;
pub mod measures;
pub mod objects;
pub mod requests;
pub mod verify;

verus! {

}
