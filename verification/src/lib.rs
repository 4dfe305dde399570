//! A log-structured key-value store: record codec, key directory, log
//! replay, engine decisions and the wire protocol, each with its contract.

pub mod bytes;
pub mod client;
pub mod engine;
pub mod entry;
pub mod error;
pub mod frame;
pub mod keydir;
pub mod laws;
pub mod log;
pub mod model;
pub mod names;
pub mod order;
pub mod persistence;
pub mod protocol;
pub mod recovery;
pub mod replay;
pub mod server;
pub mod store;
pub mod thread_pool;

pub use engine::KvsEngine;
pub use entry::Entry;
pub use error::EngineError;
pub use keydir::LogPointer;
pub use store::KvStore;
pub use thread_pool::ThreadPool;
