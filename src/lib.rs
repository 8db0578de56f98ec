//! A small RESP-style key-value server core: a frame decoder, an
//! expiry-aware store and the command dispatcher that joins them.
pub mod decimal;
pub mod dispatch;
pub mod encode;
pub mod resp_parser;
pub mod store;
mod text;

pub use store::ValueWithExpiry;
