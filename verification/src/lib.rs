//! Block headers fetched over DNS, with the caches that turn a per-height
//! header lookup into a source of chain tip and cumulative work, and the
//! plain containers in which values are handed to callers.

pub mod block;
pub mod c_types;
pub mod caches;
pub mod chaininterface;
pub mod chainwork;
pub mod codec;
pub mod dns_headers;
pub mod errors;
pub mod logger;
pub mod msgs;
pub mod search;
pub mod source;
pub mod uint256;

pub use crate::block::{BlockHeaderData, BlockSourceRespErr};
