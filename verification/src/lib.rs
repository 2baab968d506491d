//! A log-ingestion core: an append-only store of timestamped text entries
//! and the retrieval pipeline that filters, sorts and paginates a listed
//! snapshot. Every function here carries a contract; the embedding program
//! supplies transport, configuration and the durable backend's driver.

pub mod entry;
pub mod in_memory_store;
pub mod query;
pub mod store;
pub mod utils;

pub use entry::LogEntry;
pub use entry::LogQuery;
pub use in_memory_store::InMemoryStore;
pub use in_memory_store::StoreError;
pub use query::run_query;
pub use store::LogStore;
pub use utils::matches_after;
pub use utils::parse_utc;
