//! The domain: identities, callback records, and the interface through which
//! records are stored.
pub mod model;
pub mod ports;
pub mod tables;

pub use model::{CallbackRecord, Identity, IdentityError};
pub use ports::{CallbackStore, StoreError};
pub use tables::{IdentitySet, RecordMap};
