//! A recursive DNS resolver library: wire-format codec, bounded response
//! cache with FIFO eviction and expiry, and the decision logic of the
//! iterative resolver and the query handler.

pub mod byte_buffer;
pub mod cache;
pub mod header;
pub mod qname;
pub mod query_type;
pub mod packet;
pub mod question;
pub mod record;
pub mod resolver;
pub mod result_code;
pub mod sync_cache;

pub use byte_buffer::ByteBuffer;
