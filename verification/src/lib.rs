//! A bridge between two request/response messaging fabrics.
//!
//! The crate has two parts: an encoder that turns an arbitrary logical
//! endpoint name into a bounded, checksummed, wire-safe service identifier,
//! and the decision core of a request-serve loop that forwards each inbound
//! request to a remote endpoint and replies to the original caller.

pub mod bridge;
pub mod encoder;
