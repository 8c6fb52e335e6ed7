//! A profiler-trace symbolication and aggregation engine: it decodes a
//! binary sampling-profiler trace, rebuilds each loaded object's mapping
//! from runtime addresses back to link-time symbol addresses, resolves every
//! distinct program counter by nearest-symbol-below lookup, and folds the
//! resolved stacks into counted flame-graph lines.
use vstd::prelude::*;

pub mod flamegraph;
pub mod parser;
pub mod symbols;
pub mod text;

verus! {

} // verus!
