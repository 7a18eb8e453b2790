//! Incremental RhoDF closure of a store of encoded triples.
//!
//! The crate holds the closure engine (`rules`), the timestamped input driver
//! (`driver`), the bijective term dictionary (`bijective`, `encoder`,
//! `encoding_logic`), the plain-text formats of encoded and parsed triples
//! (`persist`, `parser`), the string-level model of the reasoning service
//! (`model`) and the command-line value types (`cli`).
use vstd::prelude::*;

pub mod triple;
pub mod rules;
pub mod driver;
pub mod bijective;
pub mod encoding_logic;
pub mod encoder;
pub mod model;
pub mod persist;
pub mod parser;
pub mod cli;
