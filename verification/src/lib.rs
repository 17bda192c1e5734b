//! A line-oriented key-value store: the wire codec, the store engine that
//! serializes all mutation, and the per-connection protocol step, each with
//! a verified contract.

pub mod codec;
pub mod frame;
pub mod protocol;
pub mod store;
pub mod util;
