//! Codec layer for a federated messaging client: encodes an optional event
//! filter as a JSON text blob suitable for a URL query parameter, renders
//! bounded pagination limits, and assembles complete outbound requests with a
//! deterministically ordered query string.

pub mod bounded;
pub mod codec;
pub mod errors;
pub mod filter;
pub mod request;
mod text;
