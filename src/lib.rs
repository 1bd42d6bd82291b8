//! Streaming JSONPath execution over padded JSON byte buffers.
//!
//! The input is classified in 64-byte blocks: first into bytes that lie within
//! string literals, then into structural events, and the query executor walks a
//! compiled automaton over those events, reporting matching byte offsets.
use vstd::prelude::*;

pub mod error;
pub mod input;
pub mod classification;
pub mod engine;
pub mod query;
pub mod result;
