//! The HTTP layer's logic: authentication, errors, request handling and
//! metrics rendering.
pub mod auth;
pub mod calendar;
pub mod errors;
pub mod handlers;
pub mod metrics_format;
pub mod router;

pub use auth::AuthMiddleware;
pub use errors::ApiError;
pub use handlers::{callback, metrics, metrics_single};
