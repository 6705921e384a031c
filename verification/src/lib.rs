//! An in-memory temporal property graph index.

pub mod bfs;
pub mod compact;
pub mod edge;
pub mod error;
pub mod ingest;
pub mod interner;
pub mod matcher;
pub mod model;
pub mod native;
pub mod snapshot;
pub mod topology;
pub mod traverse;
pub mod types;

pub use edge::{Direction, EdgeRecord};
pub use error::GraphError;
pub use interner::Interner;
pub use model::GraphModel;
pub use topology::GraphIndex;
pub use types::TypeInterner;
