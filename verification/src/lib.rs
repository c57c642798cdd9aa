//! Merging independently built documentation bundles into one
//! cross-referenced, deduplicated archive: the document AST model and
//! its traversals, the target-resolution symbol table with
//! disambiguated anchor ids, the namespace migration that keeps every
//! internal reference consistent after the merge, and the splice
//! writer's content-addressed asset deduplication.
pub mod analyzer;
pub mod bundle;
pub mod bundle_set;
pub mod nodes;
pub mod target_database;
pub mod text;
