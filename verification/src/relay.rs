//! The relay core: identifiers, feedback types and the three shared tables.

pub mod feedback;
pub mod laws;
pub mod local;
pub mod logic;
pub mod source_binding;

use vstd::prelude::*;

verus! {

/// Identifier of a logical pub/sub topic.
pub type ChannelUuid = u64;

/// Identifier of an upstream publisher or relay node feeding a channel.
pub type SourceUuid = u64;

/// Identifier, unique within this node, of one local consumer instance.
pub type LocalSubId = u64;

/// One (channel, upstream source) pairing: the unit of subscription in the
/// relay logic. Two values are equal iff both fields are equal.
#[derive(Clone, Copy, Debug, PartialEq, Eq, Structural, Hash)]
pub struct ChannelIdentify {
    pub channel: ChannelUuid,
    pub source: SourceUuid,
}

impl ChannelIdentify {
    pub fn new(channel: ChannelUuid, source: SourceUuid) -> (r: ChannelIdentify)
        ensures
            r.channel == channel,
            r.source == source,
    {
        ChannelIdentify { channel, source }
    }
}

} // verus!
