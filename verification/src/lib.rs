//! Generation ledger and diff-reconciliation engine of a declarative
//! package-state manager.

pub mod text;
pub mod order;
pub mod model;
pub mod diff;
pub mod reconcile;
pub mod names;
pub mod store;
pub mod workflow;
pub mod steps;
