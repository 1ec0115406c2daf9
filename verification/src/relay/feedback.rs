//! Feedback samples: what a consumer reports about one (channel, source)
//! pairing, and who reported it.

use vstd::prelude::*;
use crate::relay::{ChannelIdentify, LocalSubId};

verus! {

/// Reference to a subscriber on a remote node, opaque to this core.
pub type RemoteSubId = u64;

/// Who produced a feedback sample: a consumer in this process or a remote
/// subscriber reached over the network.
#[derive(Clone, Copy, Debug, PartialEq, Eq, Structural, Hash)]
pub enum FeedbackConsumerId {
    Local(LocalSubId),
    Remote(RemoteSubId),
}

/// Payload of one feedback sample. Samples of every kind carry a numeric
/// measurement (an observed rate, a congestion level); samples for the same
/// kind are combined across subscribers by taking the maximum, the rule for
/// congestion-style signals.
#[derive(Clone, Copy, Debug, PartialEq, Eq, Structural, Hash)]
pub enum FeedbackType {
    Number(u64),
}

impl FeedbackType {
    /// The numeric measurement the sample carries.
    pub open spec fn value(self) -> u64 {
        match self {
            FeedbackType::Number(v) => v,
        }
    }
}

/// One feedback sample: a measurement from one consumer about one
/// (channel, source) pairing. `id` tags the kind of measurement; samples are
/// only ever combined with samples of the same kind.
#[derive(Clone, Copy, Debug, PartialEq, Eq, Structural, Hash)]
pub struct Feedback {
    pub channel: ChannelIdentify,
    pub id: u8,
    pub feedback_type: FeedbackType,
}

} // verus!
