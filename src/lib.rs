//! An in-memory key/value cache that speaks the memcached text protocol.
//!
//! `lru` holds the weighted, expiration-aware LRU engine; `store` applies
//! parsed commands to it; `parser` reads commands (and sizes with a unit) from
//! bytes; `server` turns responses into bytes and drives one connection step
//! by step. `bytes` and `numeric` hold the byte-string and decimal helpers.
pub mod bytes;
pub mod lru;
pub mod numeric;
pub mod parser;
pub mod server;
pub mod store;
