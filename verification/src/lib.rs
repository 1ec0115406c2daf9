//! Subscription and feedback-routing core of a publish/subscribe relay.
//!
//! The crate tracks, per logical channel, which local consumers and which
//! upstream sources are bound together, delivers published payloads to local
//! consumers through bounded queues, and aggregates consumer feedback into a
//! single consolidated signal per (channel, source) pairing.
//!
//! All state lives in three tables — [`relay::logic::PubsubRelayLogic`],
//! [`relay::source_binding::SourceBinding`] and [`relay::local::LocalRelay`] —
//! and a [`sdk::consumer::Consumer`] handle ties one local subscription's
//! lifecycle to all three. The tables are plain verified data structures;
//! callers that share them between tasks wrap them in their own locks and
//! perform any blocking outside this crate.

pub mod relay;
pub mod sdk;
