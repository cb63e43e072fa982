//! Metrics of Rust source code, read off a syntax tree: the functions that
//! implementation blocks give to each type, by visibility, and a cognitive
//! complexity score for each function.
//!
//! The library reads no file and parses no text. A caller hands it syntax
//! trees (`syntax::Node`), and, where a file declares modules whose bodies
//! are in other files, gives a `resolve::Resolver` what it asks for.

pub mod associated_method;
pub mod cognitive_complexity;
pub mod disk;
pub mod laws;
pub mod resolve;
pub mod syntax;
pub mod table;

pub use associated_method::{ItemCount, Tally, AMF};
pub use cognitive_complexity::CognitiveComplexity;
pub use table::{Overflow, Table};

use vstd::prelude::*;

verus! {

/// The two tables of one run, side by side.
pub struct AggregatedMetrics {
    /// The complexity scores, by function identifier.
    pub cc: Table<u64>,
    /// The member counts, by type identifier.
    pub amf: Table<ItemCount>,
}

impl AggregatedMetrics {
    /// Pairs the two tables. Nothing is computed again, and the tables stay
    /// apart: an identifier that names both a function and a type has its
    /// entry in each.
    pub fn combine(complexity: Table<u64>, members: Table<ItemCount>) -> (r: AggregatedMetrics)
        ensures
            r.cc == complexity,
            r.amf == members,
    {
        AggregatedMetrics { cc: complexity, amf: members }
    }
}

} // verus!
