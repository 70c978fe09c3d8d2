//! Plans and executes updates of p2panda schemas.
//!
//! A user describes schemas in a schema file. The library compares them with the schemas that were
//! committed earlier, plans which schema and field definition documents have to be created or
//! updated, and turns that plan into the operations to publish, one at a time.
pub mod bridge;
pub mod calls;
pub mod commit;
pub mod current;
pub mod diff;
pub mod documents;
pub mod error;
pub mod executor;
pub mod graph;
pub mod laws;
pub mod operation;
pub mod panda;
pub mod plan;
pub mod planned;
pub mod previous;
pub mod progress;
pub mod published;
pub mod reading;
pub mod relations;
pub mod schema_file;
mod steps;
pub mod text;
pub mod update;
