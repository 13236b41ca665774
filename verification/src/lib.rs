//! Helpers for working with Neo4j from Rust: combining Cypher queries,
//! keeping the database indexes in step with an index script, collecting
//! query results into subgraphs, and the logic behind the `cypher!` and
//! `IntoBoltType` macros.

pub mod shasum;
pub mod cypher;
pub mod subgraphs;
pub mod queries;
pub mod index_file;
pub mod into_bolt;
