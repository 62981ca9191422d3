//! Parsing, serialization and helpers for the Fluent Translation List (FTL) format.
pub mod arc_str;
pub mod ascii;
pub mod cli;
pub mod fallback;
pub mod localization;
pub mod ast;
pub mod model;
pub mod parser;
pub mod parser2;
pub mod pseudo;
pub mod round_trip;
pub mod search;
pub mod serializer;
pub mod testing;
pub mod text;

use vstd::prelude::*;

verus! {

} // verus!
