//! A schema-driven document database core: document values, schemas and
//! validation, a query language with its evaluator, the plugin chain, an
//! in-memory backend and the bookkeeping of an indexed object store.
use vstd::prelude::*;

pub mod error;
pub mod value;
pub mod schema;
pub mod query;
pub mod plugin;
pub mod memory;
pub mod database;
pub mod pool;
pub mod indexdb;

verus! {

} // verus!
