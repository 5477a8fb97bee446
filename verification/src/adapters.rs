//! Implementations of the domain's interfaces.
pub mod file_persist;
pub mod memory_store;

pub use file_persist::FilePersister;
pub use memory_store::InMemoryStore;
