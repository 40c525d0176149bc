//! Attribution engine for a project's dependency graph: resolves declared
//! license expressions into normalized identifier lists, extracts copyright
//! notices from license-like files, aggregates per-package records, and plans
//! the retrieval of canonical license texts.

pub mod expression;
pub mod licenses;
pub mod metadata;
pub mod notices;
pub mod serialize;
pub mod text;
