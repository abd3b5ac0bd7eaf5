//! An embedded vector index: a layered proximity graph with greedy
//! best-first search, a facade that keeps the text payloads, and a
//! self-describing document form for persistence.
pub mod distance;
pub mod graph;
pub mod level;
pub mod entropy;
pub mod store;
pub mod laws;
pub mod persist;
pub mod chunking;
pub mod sources;

pub use level::level_for_draw;
pub use store::{QueryHit, StoreError, StoredEmbedding, VectorStore};
pub use persist::{NodeRecord, StoreDocument};
pub use chunking::{chunk_starts, CHUNK_LIMIT};
pub use sources::chunk_source_tag;
