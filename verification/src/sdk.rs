//! Public handles built on the relay core.

pub mod consumer;
