//! Query execution over classified input.
use vstd::prelude::*;

pub mod depth;
pub mod main;
pub mod tail_skipping;
pub mod walk;
