//! The DVI personality of an adapter: its frame codec and session handler.
pub mod codec;
pub mod framing;
pub mod handler;
pub mod periodic;
pub mod setup;
