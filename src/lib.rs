//! An in-memory key/value cache with per-entry expiration, a randomized
//! purge loop, and the framed request/response protocol that drives it.

pub mod text;
pub mod expiry;
pub mod value;
pub mod parser;
pub mod entry;
pub mod cache;
pub mod handler;

pub use cache::{Cache, CacheError, PurgeStats};
pub use entry::Entry;
pub use expiry::{Expiry, ExpiryFormat};
pub use handler::{Command, handle_read_only, handle_read_only_at, handle_request, handle_request_at};
pub use parser::{ParseError, Parser};
pub use value::{CommandError, Value};
