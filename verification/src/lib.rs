//! An in-process inverted-index search engine over short structured
//! "memory" records: an entry store with four inverted indices kept in
//! lock-step, an add-or-replace mutation protocol, a fuzzy ranked search and
//! a strict boolean filter search, and whole-store snapshot replay.

pub mod laws;
pub mod query;
pub mod record;
pub mod engine;
pub mod index;
pub mod text;
