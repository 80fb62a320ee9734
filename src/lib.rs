//! Module loading and type-checking coordination.
//!
//! The library holds the deterministic core of a module loader: the
//! name/id registry, the mapping from module names to source paths, the
//! scope seeded by a module's imports, the coordinator's state machine that
//! gates solving on solved dependencies, and the documentation model.
//! Reading files, running workers and the external parser, canonicalizer and
//! solver are left to the caller, which feeds their results in as events.
use vstd::prelude::*;

pub mod ast;
pub mod coordinator;
pub mod docs;
pub mod graph;
pub mod id_map;
pub mod imports;
pub mod load;
pub mod module_ids;
pub mod paths;

verus! {

} // verus!
