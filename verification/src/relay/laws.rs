//! Laws of the relay core: proofs that tie the tables' contracts together.

use vstd::prelude::*;
use crate::relay::{ChannelIdentify, ChannelUuid, LocalSubId, SourceUuid};
use crate::relay::feedback::FeedbackConsumerId;
use crate::relay::logic::is_aggregate;
use crate::relay::source_binding::drop_channel_sources;
use crate::sdk::consumer::{samples_reduced, subs_extended, subs_reduced};

verus! {

/// The subscribers a registry relation holds for one pairing.
pub open spec fn subscribers_of(
    s: Set<(ChannelIdentify, FeedbackConsumerId)>,
    ch: ChannelIdentify,
) -> Set<FeedbackConsumerId> {
    Set::new(|c: FeedbackConsumerId| s.contains((ch, c)))
}

/// A registry relation after one subscriber is registered for each of a
/// sequence of pairings on one channel, one registration at a time.
pub open spec fn insert_all(
    s: Set<(ChannelIdentify, FeedbackConsumerId)>,
    ch: ChannelIdentify,
    cs: Seq<FeedbackConsumerId>,
) -> Set<(ChannelIdentify, FeedbackConsumerId)>
    decreases cs.len(),
{
    if cs.len() == 0 {
        s
    } else {
        insert_all(s, ch, cs.drop_last()).insert((ch, cs.last()))
    }
}

/// Registration symmetry: a subscribe of a consumer nowhere registered,
/// followed by its matching unsubscribe, leaves the relay logic's registry
/// and samples and the source binding table exactly as they were. Together
/// with the tables' own contracts — a repeated registration or removal of
/// the same consumer answers nothing and changes nothing — any balanced
/// sequence of subscribe/unsubscribe calls on one (channel, consumer) pair
/// ends in the state it began in.
pub proof fn lemma_registration_symmetry(
    lsubs: Set<(ChannelIdentify, FeedbackConsumerId)>,
    lsubs_mid: Set<(ChannelIdentify, FeedbackConsumerId)>,
    lsubs_end: Set<(ChannelIdentify, FeedbackConsumerId)>,
    lsamp: Map<(ChannelIdentify, FeedbackConsumerId, u8), u64>,
    lsamp_end: Map<(ChannelIdentify, FeedbackConsumerId, u8), u64>,
    bsubs: Set<(ChannelUuid, LocalSubId)>,
    bsrc: Set<(ChannelUuid, SourceUuid)>,
    channel: ChannelUuid,
    sub: LocalSubId,
)
    requires
        // the consumer starts unregistered everywhere
        !bsubs.contains((channel, sub)),
        forall|p: (ChannelIdentify, FeedbackConsumerId)| #[trigger]
            lsubs.contains(p) ==> !(p.1 == FeedbackConsumerId::Local(sub) && p.0.channel
                == channel),
        forall|k: (ChannelIdentify, FeedbackConsumerId, u8)| #[trigger]
            lsamp.dom().contains(k) ==> !(k.1 == FeedbackConsumerId::Local(sub) && k.0.channel
                == channel),
        // what Consumer::new promises of the relay logic
        subs_extended(lsubs, lsubs_mid, channel, sub, bsrc),
        // what Consumer::close promises of the relay logic
        subs_reduced(lsubs_mid, lsubs_end, channel, sub, bsrc),
        samples_reduced(lsamp, lsamp_end, channel, sub, bsrc),
    ensures
        lsubs_end == lsubs,
        lsamp_end == lsamp,
        // what the source binding table promises across the same pair of calls
        bsubs.insert((channel, sub)).remove((channel, sub)) == bsubs,
        (forall|x: LocalSubId| x != sub ==> !(#[trigger] bsubs.contains((channel, x)))) && (
        forall|p: (ChannelUuid, SourceUuid)| #[trigger]
            bsrc.contains(p) ==> exists|x: LocalSubId| bsubs.contains((p.0, x)))
            ==> drop_channel_sources(bsrc, channel) == bsrc,
{
    assert forall|p: (ChannelIdentify, FeedbackConsumerId)|
        lsubs_end.contains(p) <==> lsubs.contains(p) by {
        assert(lsubs_mid.contains(p) <==> lsubs.contains(p) || (p.1 == FeedbackConsumerId::Local(
            sub,
        ) && p.0.channel == channel && bsrc.contains((channel, p.0.source))));
    }
    assert(lsubs_end =~= lsubs);
    assert forall|k: (ChannelIdentify, FeedbackConsumerId, u8)|
        lsamp_end.dom().contains(k) <==> lsamp.dom().contains(k) by {}
    assert(lsamp_end =~= lsamp);
    assert(bsubs.insert((channel, sub)).remove((channel, sub)) =~= bsubs);
    if (forall|x: LocalSubId| x != sub ==> !(#[trigger] bsubs.contains((channel, x)))) && (
    forall|p: (ChannelUuid, SourceUuid)| #[trigger]
        bsrc.contains(p) ==> exists|x: LocalSubId| bsubs.contains((p.0, x))) {
        assert forall|p: (ChannelUuid, SourceUuid)| #[trigger] bsrc.contains(p) implies p.0
            != channel by {
            let xw = choose|x: LocalSubId| bsubs.contains((p.0, x));
            if p.0 == channel {
                if xw == sub {
                    assert(!bsubs.contains((channel, sub)));
                } else {
                    assert(!bsubs.contains((channel, xw)));
                }
            }
        }
        assert(drop_channel_sources(bsrc, channel) =~= bsrc);
    }
}

/// At-most-once upstream bind, fan-out side: registering a sequence of
/// distinct, previously unregistered subscribers for one pairing grows the
/// pairing's subscriber set by exactly one entry per subscriber — to exactly
/// N entries for N fresh consumers over an empty start. The fan-in side — a
/// source newly bound is announced at most once per zero-to-one transition —
/// is the source binding table's own contract: its registration and
/// source-announcement calls answer a source set exactly once per consumer
/// lifecycle and exactly once per source while it stays bound.
pub proof fn lemma_at_most_once_bind(
    s: Set<(ChannelIdentify, FeedbackConsumerId)>,
    ch: ChannelIdentify,
    cs: Seq<FeedbackConsumerId>,
)
    requires
        subscribers_of(s, ch).finite(),
        cs.no_duplicates(),
        forall|j: int| 0 <= j < cs.len() ==> !s.contains((ch, #[trigger] cs[j])),
    ensures
        subscribers_of(insert_all(s, ch, cs), ch) == subscribers_of(s, ch).union(cs.to_set()),
        subscribers_of(insert_all(s, ch, cs), ch).finite(),
        subscribers_of(insert_all(s, ch, cs), ch).len() == subscribers_of(s, ch).len() + cs.len(),
    decreases cs.len(),
{
    if cs.len() == 0 {
        assert(cs.to_set() =~= Set::<FeedbackConsumerId>::empty());
        assert(subscribers_of(insert_all(s, ch, cs), ch) =~= subscribers_of(s, ch).union(
            cs.to_set(),
        ));
    } else {
        let head = cs.drop_last();
        let last = cs.last();
        lemma_at_most_once_bind(s, ch, head);
        let mid = subscribers_of(insert_all(s, ch, head), ch);
        assert(subscribers_of(insert_all(s, ch, cs), ch) =~= mid.insert(last));
        assert(!mid.contains(last)) by {
            if head.to_set().contains(last) {
                let jw = choose|jw: int| 0 <= jw < head.len() && head[jw] == last;
                assert(cs[jw] == cs[cs.len() - 1]);
            }
            assert(!s.contains((ch, cs[cs.len() - 1])));
        }
        assert(cs.to_set() =~= head.to_set().insert(last)) by {
            assert forall|c: FeedbackConsumerId|
                cs.to_set().contains(c) <==> head.to_set().contains(c) || c == last by {
                if cs.contains(c) {
                    let jw = choose|jw: int| 0 <= jw < cs.len() && cs[jw] == c;
                    if jw < cs.len() - 1 {
                        assert(head[jw] == c);
                        assert(head.contains(c));
                    }
                }
                if head.contains(c) {
                    let jw = choose|jw: int| 0 <= jw < head.len() && head[jw] == c;
                    assert(cs[jw] == c);
                    assert(cs.contains(c));
                }
                if c == last {
                    assert(cs[cs.len() - 1] == c);
                    assert(cs.contains(c));
                }
            }
        }
        assert(mid.insert(last) =~= subscribers_of(s, ch).union(cs.to_set()));
    }
}

/// The subscriber vector the registry answers with enumerates the pairing's
/// subscriber set, so that set is finite, with exactly one member per vector
/// element — the bridge from the registry's query to the growth law above.
pub proof fn lemma_subscriber_set_enumerated(
    s: Set<(ChannelIdentify, FeedbackConsumerId)>,
    ch: ChannelIdentify,
    v: Seq<FeedbackConsumerId>,
)
    requires
        v.no_duplicates(),
        forall|c: FeedbackConsumerId|
            #![trigger v.contains(c)]
            #![trigger s.contains((ch, c))]
            v.contains(c) <==> s.contains((ch, c)),
    ensures
        subscribers_of(s, ch) == v.to_set(),
        subscribers_of(s, ch).finite(),
        subscribers_of(s, ch).len() == v.len(),
{
    broadcast use vstd::seq_lib::seq_to_set_is_finite;

    assert(subscribers_of(s, ch) =~= v.to_set());
    v.unique_seq_to_set();
}

/// Feedback aggregation is deterministic: the consolidated value is a
/// function of the recorded samples alone — any two values that both satisfy
/// the aggregate characterisation for the same samples, pairing and kind are
/// equal.
pub proof fn lemma_feedback_aggregation_deterministic(
    sm: Map<(ChannelIdentify, FeedbackConsumerId, u8), u64>,
    channel: ChannelIdentify,
    kind: u8,
    v1: u64,
    v2: u64,
)
    requires
        is_aggregate(sm, channel, kind, v1),
        is_aggregate(sm, channel, kind, v2),
    ensures
        v1 == v2,
{
    let c1 = choose|c: FeedbackConsumerId|
        sm.dom().contains((channel, c, kind)) && sm[(channel, c, kind)] == v1;
    let c2 = choose|c: FeedbackConsumerId|
        sm.dom().contains((channel, c, kind)) && sm[(channel, c, kind)] == v2;
    assert(sm[(channel, c1, kind)] <= v2);
    assert(sm[(channel, c2, kind)] <= v1);
}

/// Recording the same samples in any order leaves the same samples map —
/// recording commutes for distinct submitters or kinds — so, with the
/// determinism above, submitting one multiset of samples in any order yields
/// the same consolidated result.
pub proof fn lemma_feedback_order_irrelevant(
    sm: Map<(ChannelIdentify, FeedbackConsumerId, u8), u64>,
    k1: (ChannelIdentify, FeedbackConsumerId, u8),
    v1: u64,
    k2: (ChannelIdentify, FeedbackConsumerId, u8),
    v2: u64,
)
    requires
        k1 != k2,
    ensures
        sm.insert(k1, v1).insert(k2, v2) == sm.insert(k2, v2).insert(k1, v1),
{
    assert(sm.insert(k1, v1).insert(k2, v2) =~= sm.insert(k2, v2).insert(k1, v1));
}

} // verus!
