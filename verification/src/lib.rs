//! A verified model of a clipboard paste store: pastes, tags, the ordered
//! many-to-many association between them, and a versioned migration runner.
//!
//! The store keeps three tables — pastes, tags, associations — under the
//! invariants `StoreV::wf` states: unique surrogate ids, unique non-empty tag
//! names, non-empty paste contents, at-most-once association pairs, unique
//! rank per paste, and referential integrity of every association row.
//! Every operation carries a contract that pins down the whole result state
//! via the spec-level transitions on `StoreV`.

pub mod assoc;
pub mod commands;
pub mod errors;
pub mod laws;
pub mod listing;
pub mod migrate;
pub mod pastes;
pub mod shell;
pub mod seq_facts;
pub mod store;
pub mod tags;
