//! A market-data receive path, from captured packets to orders on the wire.
//!
//! Packets arrive out of order, twice, or not at all; the book built from them
//! has to be the one the exchange published. Each layer is a module with a
//! mathematical model of its data, contracts that say exactly what every function
//! does to it, and proof functions named `law_*` for what holds across functions:
//! that any order of arrival builds the same book, that what is written reads
//! back, that every way of holding price levels agrees.
use vstd::prelude::*;

pub mod book;
pub mod bytes;
pub mod deep;
pub mod iextp;
pub mod pipeline;
pub mod server;
pub mod synth;
pub mod tally;
pub mod text;
pub mod tree;
pub mod views;

verus! {

}
