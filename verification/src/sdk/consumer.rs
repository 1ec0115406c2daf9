//! Handle of one local subscription: ties a consumer's lifecycle to the
//! relay logic, the local relay and the source binding table.

use vstd::prelude::*;
use crate::relay::{ChannelIdentify, ChannelUuid, LocalSubId, SourceUuid};
use crate::relay::feedback::{Feedback, FeedbackConsumerId, FeedbackType};
use crate::relay::local::{LocalRelay, QueueModel, RecvOutcome};
use crate::relay::logic::{drop_samples_of, is_aggregate, PubsubRelayLogic};
use crate::relay::source_binding::SourceBinding;

verus! {

/// The registry relation after one local consumer is registered for every
/// bound source of its channel.
pub open spec fn subs_extended(
    base: Set<(ChannelIdentify, FeedbackConsumerId)>,
    now: Set<(ChannelIdentify, FeedbackConsumerId)>,
    channel: ChannelUuid,
    sub: LocalSubId,
    sources: Set<(ChannelUuid, SourceUuid)>,
) -> bool {
    forall|p: (ChannelIdentify, FeedbackConsumerId)|
        #![trigger now.contains(p)]
        now.contains(p) <==> base.contains(p) || (p.1 == FeedbackConsumerId::Local(sub)
            && p.0.channel == channel && sources.contains((channel, p.0.source)))
}

/// The registry relation after one local consumer is unregistered from every
/// bound source of its channel.
pub open spec fn subs_reduced(
    base: Set<(ChannelIdentify, FeedbackConsumerId)>,
    now: Set<(ChannelIdentify, FeedbackConsumerId)>,
    channel: ChannelUuid,
    sub: LocalSubId,
    sources: Set<(ChannelUuid, SourceUuid)>,
) -> bool {
    forall|p: (ChannelIdentify, FeedbackConsumerId)|
        #![trigger now.contains(p)]
        now.contains(p) <==> base.contains(p) && !(p.1 == FeedbackConsumerId::Local(sub)
            && p.0.channel == channel && sources.contains((channel, p.0.source)))
}

/// The samples map after one local consumer's samples are dropped for every
/// bound source of its channel.
pub open spec fn samples_reduced(
    base: Map<(ChannelIdentify, FeedbackConsumerId, u8), u64>,
    now: Map<(ChannelIdentify, FeedbackConsumerId, u8), u64>,
    channel: ChannelUuid,
    sub: LocalSubId,
    sources: Set<(ChannelUuid, SourceUuid)>,
) -> bool {
    &&& forall|k: (ChannelIdentify, FeedbackConsumerId, u8)|
        #![trigger now.dom().contains(k)]
        now.dom().contains(k) <==> base.dom().contains(k) && !(k.1 == FeedbackConsumerId::Local(
            sub,
        ) && k.0.channel == channel && sources.contains((channel, k.0.source)))
    &&& forall|k: (ChannelIdentify, FeedbackConsumerId, u8)|
        #![trigger now.dom().contains(k)]
        now.dom().contains(k) ==> now[k] == base[k]
}

/// Which keys of the samples map a feedback emission writes: the emitting
/// consumer's key, with the emitted kind, at every pairing of the channel
/// with a bound source for which the consumer is registered.
pub open spec fn recorded_key(
    k: (ChannelIdentify, FeedbackConsumerId, u8),
    subs: Set<(ChannelIdentify, FeedbackConsumerId)>,
    channel: ChannelUuid,
    sub: LocalSubId,
    kind: u8,
    sources: Set<(ChannelUuid, SourceUuid)>,
) -> bool {
    &&& k.0.channel == channel
    &&& sources.contains((channel, k.0.source))
    &&& k.1 == FeedbackConsumerId::Local(sub)
    &&& k.2 == kind
    &&& subs.contains((k.0, FeedbackConsumerId::Local(sub)))
}

/// The samples map after one feedback emission: exactly the recorded keys
/// are written, all with the emitted measurement; every other key is kept.
pub open spec fn samples_recorded(
    base: Map<(ChannelIdentify, FeedbackConsumerId, u8), u64>,
    now: Map<(ChannelIdentify, FeedbackConsumerId, u8), u64>,
    subs: Set<(ChannelIdentify, FeedbackConsumerId)>,
    channel: ChannelUuid,
    sub: LocalSubId,
    kind: u8,
    value: u64,
    sources: Set<(ChannelUuid, SourceUuid)>,
) -> bool {
    &&& forall|k: (ChannelIdentify, FeedbackConsumerId, u8)|
        #![trigger now.dom().contains(k)]
        now.dom().contains(k) <==> base.dom().contains(k) || recorded_key(
            k,
            subs,
            channel,
            sub,
            kind,
            sources,
        )
    &&& forall|k: (ChannelIdentify, FeedbackConsumerId, u8)|
        #![trigger now.dom().contains(k)]
        now.dom().contains(k) ==> now[k] == if recorded_key(k, subs, channel, sub, kind, sources) {
            value
        } else {
            base[k]
        }
}

/// The feedback inbox of the channel's local publisher after one feedback
/// emission: the old inbox is kept, and what follows it is one consolidated
/// sample per pairing of the channel with a bound source the emitting
/// consumer is registered for — each the aggregate the relay logic computed,
/// each pairing at most and at least once.
pub open spec fn inbox_extended(
    oldq: Seq<Feedback>,
    newq: Seq<Feedback>,
    samples: Map<(ChannelIdentify, FeedbackConsumerId, u8), u64>,
    subs: Set<(ChannelIdentify, FeedbackConsumerId)>,
    channel: ChannelUuid,
    sub: LocalSubId,
    kind: u8,
    sources: Set<(ChannelUuid, SourceUuid)>,
) -> bool {
    &&& newq.len() >= oldq.len()
    &&& forall|j: int| #![trigger newq[j]] 0 <= j < oldq.len() ==> newq[j] == oldq[j]
    &&& forall|j: int|
        #![trigger newq[j]]
        oldq.len() <= j < newq.len() ==> newq[j].channel.channel == channel && sources.contains(
            (channel, newq[j].channel.source),
        ) && subs.contains((newq[j].channel, FeedbackConsumerId::Local(sub))) && newq[j].id == kind
            && newq[j].feedback_type is Number && is_aggregate(
            samples,
            newq[j].channel,
            kind,
            newq[j].feedback_type.value(),
        )
    &&& forall|j1: int, j2: int|
        oldq.len() <= j1 < j2 < newq.len() ==> (#[trigger] newq[j1]).channel != (
        #[trigger] newq[j2]).channel
    &&& forall|s: SourceUuid|
        #![trigger sources.contains((channel, s))]
        sources.contains((channel, s)) && subs.contains(
            (ChannelIdentify { channel, source: s }, FeedbackConsumerId::Local(sub)),
        ) ==> exists|j: int|
            oldq.len() <= j < newq.len() && (#[trigger] newq[j]).channel == ChannelIdentify {
                channel,
                source: s,
            }
}

/// One local subscription. Constructing it registers the consumer in all
/// three shared tables; [`Consumer::close`] unwinds the registration in
/// reverse order. The caller owns the identifier: it must be unique among
/// live consumers.
pub struct Consumer {
    pub sub_uuid: LocalSubId,
    pub channel: ChannelUuid,
}

/// `is_aggregate` only reads the keys of its own pairing, so recording a
/// sample for another pairing preserves it.
proof fn lemma_aggregate_insert_other(
    m: Map<(ChannelIdentify, FeedbackConsumerId, u8), u64>,
    ci: ChannelIdentify,
    kind: u8,
    v: u64,
    k: (ChannelIdentify, FeedbackConsumerId, u8),
    x: u64,
)
    requires
        is_aggregate(m, ci, kind, v),
        k.0 != ci,
    ensures
        is_aggregate(m.insert(k, x), ci, kind, v),
{
    let m2 = m.insert(k, x);
    let cw = choose|c: FeedbackConsumerId|
        m.dom().contains((ci, c, kind)) && m[(ci, c, kind)] == v;
    assert(m2.dom().contains((ci, cw, kind)) && m2[(ci, cw, kind)] == v);
    assert forall|c: FeedbackConsumerId| m2.dom().contains((ci, c, kind)) implies m2[(ci, c, kind)]
        <= v by {
        assert((ci, c, kind) != k);
        assert(m.dom().contains((ci, c, kind)));
    }
}

impl Consumer {
    /// Registers a new consumer: its delivery queue in the local relay, its
    /// interest in the source binding table, and — for each source already
    /// feeding the channel — its subscription in the relay logic.
    pub fn new(
        sub_uuid: LocalSubId,
        channel: ChannelUuid,
        logic: &mut PubsubRelayLogic,
        local: &mut LocalRelay,
        source_binding: &mut SourceBinding,
        max_queue_size: usize,
    ) -> (r: Consumer)
        requires
            old(logic).wf(),
            old(local).wf(),
            old(source_binding).wf(),
        ensures
            final(logic).wf(),
            final(local).wf(),
            final(source_binding).wf(),
            r.sub_uuid == sub_uuid,
            r.channel == channel,
            final(local).queues() == old(local).queues().insert(
                sub_uuid,
                QueueModel {
                    channel,
                    items: Seq::<Seq<u8>>::empty(),
                    cap: max_queue_size as nat,
                    closed: false,
                },
            ),
            final(local).inboxes() == old(local).inboxes(),
            final(source_binding).sources() == old(source_binding).sources(),
            final(logic).samples() == old(logic).samples(),
            if old(source_binding).subs().contains((channel, sub_uuid)) {
                final(source_binding).subs() == old(source_binding).subs() && final(logic).subs()
                    == old(logic).subs()
            } else {
                final(source_binding).subs() == old(source_binding).subs().insert(
                    (channel, sub_uuid),
                ) && subs_extended(
                    old(logic).subs(),
                    final(logic).subs(),
                    channel,
                    sub_uuid,
                    old(source_binding).sources(),
                )
            },
    {
        local.on_local_sub(sub_uuid, channel, max_queue_size);
        match source_binding.on_local_sub(channel, sub_uuid) {
            Some(sources) => {
                let ghost base = logic.subs();
                let ghost srcset = old(source_binding).sources();
                let n = sources.len();
                let mut i: usize = 0;
                while i < n
                    invariant
                        i <= n,
                        n == sources@.len(),
                        sources@.no_duplicates(),
                        forall|s: SourceUuid|
                            #![trigger sources@.contains(s)]
                            sources@.contains(s) <==> srcset.contains((channel, s)),
                        logic.wf(),
                        logic.samples() == old(logic).samples(),
                        subs_prefix(base, logic.subs(), channel, sub_uuid, sources@.take(i as int)),
                    decreases n - i,
                {
                    let ghost pre = logic.subs();
                    let source = sources[i];
                    let ci = ChannelIdentify::new(channel, source);
                    logic.on_local_sub(ci, sub_uuid);
                    proof {
                        let ii = i as int;
                        assert(subs_prefix(
                            base,
                            logic.subs(),
                            channel,
                            sub_uuid,
                            sources@.take(ii + 1),
                        )) by {
                            assert forall|p: (ChannelIdentify, FeedbackConsumerId)|
                                #![trigger logic.subs().contains(p)]
                                logic.subs().contains(p) <==> base.contains(p) || (p.1
                                == FeedbackConsumerId::Local(sub_uuid) && p.0.channel == channel
                                && sources@.take(ii + 1).contains(p.0.source)) by {
                                let taken = sources@.take(ii + 1);
                                assert(logic.subs() == pre.insert(
                                    (ci, FeedbackConsumerId::Local(sub_uuid)),
                                ));
                                if p == (ci, FeedbackConsumerId::Local(sub_uuid)) {
                                    assert(taken[ii] == source);
                                    assert(taken.contains(source));
                                } else {
                                    if taken.contains(p.0.source) {
                                        let jw = choose|jw: int|
                                            0 <= jw < taken.len() && taken[jw] == p.0.source;
                                        if jw < ii {
                                            assert(sources@.take(ii)[jw] == p.0.source);
                                            assert(sources@.take(ii).contains(p.0.source));
                                        } else {
                                            assert(p.0.source == source);
                                        }
                                    }
                                    if sources@.take(ii).contains(p.0.source) {
                                        let jw = choose|jw: int|
                                            0 <= jw < sources@.take(ii).len() && sources@.take(
                                                ii,
                                            )[jw] == p.0.source;
                                        assert(taken[jw] == p.0.source);
                                        assert(taken.contains(p.0.source));
                                    }
                                }
                            }
                        }
                    }
                    i = i + 1;
                }
                proof {
                    assert(sources@.take(n as int) =~= sources@);
                    assert(subs_extended(base, logic.subs(), channel, sub_uuid, srcset)) by {
                        assert forall|p: (ChannelIdentify, FeedbackConsumerId)|
                            #![trigger logic.subs().contains(p)]
                            logic.subs().contains(p) <==> base.contains(p) || (p.1
                            == FeedbackConsumerId::Local(sub_uuid) && p.0.channel == channel
                            && srcset.contains((channel, p.0.source))) by {
                            assert(sources@.contains(p.0.source) <==> srcset.contains(
                                (channel, p.0.source),
                            ));
                        }
                    }
                }
                Consumer { sub_uuid, channel }
            },
            None => Consumer { sub_uuid, channel },
        }
    }

    /// Emits one feedback sample about this consumer's channel: for each
    /// source currently feeding the channel, the sample is recorded in the
    /// relay logic under the (channel, source) pairing, and the consolidated
    /// sample the logic answers with is handed to the channel's local
    /// publisher. A no-op wherever the consumer is not registered — feedback
    /// after teardown is silently dropped.
    pub fn feedback(
        &self,
        id: u8,
        feedback_type: FeedbackType,
        logic: &mut PubsubRelayLogic,
        local: &mut LocalRelay,
        source_binding: &SourceBinding,
    )
        requires
            old(logic).wf(),
            old(local).wf(),
            source_binding.wf(),
        ensures
            final(logic).wf(),
            final(local).wf(),
            final(logic).subs() == old(logic).subs(),
            final(local).queues() == old(local).queues(),
            samples_recorded(
                old(logic).samples(),
                final(logic).samples(),
                old(logic).subs(),
                self.channel,
                self.sub_uuid,
                id,
                feedback_type.value(),
                source_binding.sources(),
            ),
            final(local).inboxes().dom() == old(local).inboxes().dom(),
            forall|ch: ChannelUuid|
                #![trigger final(local).inboxes()[ch]]
                old(local).inboxes().dom().contains(ch) && ch != self.channel
                    ==> final(local).inboxes()[ch] == old(local).inboxes()[ch],
            old(local).inboxes().dom().contains(self.channel) ==> inbox_extended(
                old(local).inboxes()[self.channel],
                final(local).inboxes()[self.channel],
                final(logic).samples(),
                old(logic).subs(),
                self.channel,
                self.sub_uuid,
                id,
                source_binding.sources(),
            ),
            !old(local).inboxes().dom().contains(self.channel) ==> final(local).inboxes() == old(
                local,
            ).inboxes(),
    {
        let channel = self.channel;
        let sub_uuid = self.sub_uuid;
        let sources = source_binding.sources_for(channel);
        let value = match feedback_type {
            FeedbackType::Number(v) => v,
        };
        let ghost srcset = source_binding.sources();
        let ghost subs0 = old(logic).subs();
        let ghost sbase = old(logic).samples();
        let ghost q0 = if old(local).inboxes().dom().contains(channel) {
            old(local).inboxes()[channel]
        } else {
            Seq::<Feedback>::empty()
        };
        let n = sources.len();
        let mut i: usize = 0;
        while i < n
            invariant
                i <= n,
                n == sources@.len(),
                sources@.no_duplicates(),
                forall|s: SourceUuid|
                    #![trigger sources@.contains(s)]
                    sources@.contains(s) <==> srcset.contains((channel, s)),
                value == feedback_type.value(),
                logic.wf(),
                local.wf(),
                logic.subs() == subs0,
                local.queues() == old(local).queues(),
                local.inboxes().dom() == old(local).inboxes().dom(),
                forall|ch: ChannelUuid|
                    #![trigger local.inboxes()[ch]]
                    old(local).inboxes().dom().contains(ch) && ch != channel ==> local.inboxes()[ch]
                        == old(local).inboxes()[ch],
                samples_rec_prefix(
                    sbase,
                    logic.samples(),
                    subs0,
                    channel,
                    sub_uuid,
                    id,
                    value,
                    sources@.take(i as int),
                ),
                old(local).inboxes().dom().contains(channel) ==> inbox_prefix(
                    q0,
                    local.inboxes()[channel],
                    logic.samples(),
                    subs0,
                    channel,
                    sub_uuid,
                    id,
                    sources@.take(i as int),
                ),
                !old(local).inboxes().dom().contains(channel) ==> local.inboxes() == old(
                    local,
                ).inboxes(),
            decreases n - i,
        {
            let ghost spre = logic.samples();
            let ghost qpre = if local.inboxes().dom().contains(channel) {
                local.inboxes()[channel]
            } else {
                Seq::<Feedback>::empty()
            };
            let source = sources[i];
            let ci = ChannelIdentify::new(channel, source);
            let fb = Feedback { channel: ci, id, feedback_type };
            let outcome = logic.on_feedback(ci, FeedbackConsumerId::Local(sub_uuid), fb);
            proof {
                let ii = i as int;
                let taken = sources@.take(ii + 1);
                assert forall|s: SourceUuid|
                    #![trigger taken.contains(s)]
                    taken.contains(s) <==> sources@.take(ii).contains(s) || s == source by {
                    if taken.contains(s) {
                        let jw = choose|jw: int| 0 <= jw < taken.len() && taken[jw] == s;
                        if jw < ii {
                            assert(sources@.take(ii)[jw] == s);
                            assert(sources@.take(ii).contains(s));
                        }
                    }
                    if sources@.take(ii).contains(s) {
                        let jw = choose|jw: int|
                            0 <= jw < sources@.take(ii).len() && sources@.take(ii)[jw] == s;
                        assert(taken[jw] == s);
                    }
                    if s == source {
                        assert(taken[ii] == s);
                    }
                }
                assert(!sources@.take(ii).contains(source)) by {
                    if sources@.take(ii).contains(source) {
                        let jw = choose|jw: int|
                            0 <= jw < sources@.take(ii).len() && sources@.take(ii)[jw] == source;
                        assert(sources@[jw] == sources@[ii]);
                    }
                }
            }
            match outcome {
                Some(out) => {
                    local.feedback(channel, out);
                    proof {
                        let ii = i as int;
                        let taken = sources@.take(ii + 1);
                        let key = (ci, FeedbackConsumerId::Local(sub_uuid), id);
                        assert(logic.samples() == spre.insert(key, value));
                        assert(samples_rec_prefix(
                            sbase,
                            logic.samples(),
                            subs0,
                            channel,
                            sub_uuid,
                            id,
                            value,
                            taken,
                        )) by {
                            assert forall|k: (ChannelIdentify, FeedbackConsumerId, u8)|
                                #![trigger logic.samples().dom().contains(k)]
                                logic.samples().dom().contains(k) <==> sbase.dom().contains(k)
                                || recorded_key_seq(k, subs0, channel, sub_uuid, id, taken) by {}
                            assert forall|k: (ChannelIdentify, FeedbackConsumerId, u8)|
                                #![trigger logic.samples().dom().contains(k)]
                                logic.samples().dom().contains(k) implies logic.samples()[k] == (
                            if recorded_key_seq(k, subs0, channel, sub_uuid, id, taken) {
                                value
                            } else {
                                sbase[k]
                            }) by {
                                if k != key && recorded_key_seq(
                                    k,
                                    subs0,
                                    channel,
                                    sub_uuid,
                                    id,
                                    taken,
                                ) {
                                    assert(k.0.source != source);
                                    assert(recorded_key_seq(
                                        k,
                                        subs0,
                                        channel,
                                        sub_uuid,
                                        id,
                                        sources@.take(ii),
                                    ));
                                }
                            }
                        }
                        if old(local).inboxes().dom().contains(channel) {
                            assert(local.inboxes()[channel] == qpre.push(out));
                            assert(inbox_prefix(
                                q0,
                                local.inboxes()[channel],
                                logic.samples(),
                                subs0,
                                channel,
                                sub_uuid,
                                id,
                                taken,
                            )) by {
                                let nq = local.inboxes()[channel];
                                assert forall|j: int|
                                    #![trigger nq[j]]
                                    q0.len() <= j < nq.len() implies nq[j].channel.channel
                                    == channel && taken.contains(nq[j].channel.source)
                                    && subs0.contains(
                                    (nq[j].channel, FeedbackConsumerId::Local(sub_uuid)),
                                ) && nq[j].id == id && nq[j].feedback_type is Number
                                    && is_aggregate(
                                    logic.samples(),
                                    nq[j].channel,
                                    id,
                                    nq[j].feedback_type.value(),
                                ) by {
                                    if j < nq.len() - 1 {
                                        assert(nq[j] == qpre[j]);
                                        assert(nq[j].channel.source != source);
                                        lemma_aggregate_insert_other(
                                            spre,
                                            nq[j].channel,
                                            id,
                                            nq[j].feedback_type.value(),
                                            key,
                                            value,
                                        );
                                    } else {
                                        assert(nq[j] == out);
                                        assert(taken.contains(source));
                                    }
                                }
                                assert forall|j1: int, j2: int|
                                    q0.len() <= j1 < j2 < nq.len() implies (
                                #[trigger] nq[j1]).channel != (#[trigger] nq[j2]).channel by {
                                    if j2 == nq.len() - 1 {
                                        assert(nq[j1] == qpre[j1]);
                                        assert(nq[j1].channel.source != source);
                                    }
                                }
                                assert forall|s: SourceUuid|
                                    #![trigger taken.contains(s)]
                                    taken.contains(s) && subs0.contains(
                                        (
                                            ChannelIdentify { channel, source: s },
                                            FeedbackConsumerId::Local(sub_uuid),
                                        ),
                                    ) implies exists|j: int|
                                    q0.len() <= j < nq.len() && (#[trigger] nq[j]).channel
                                        == ChannelIdentify { channel, source: s } by {
                                    if s == source {
                                        assert(nq[nq.len() - 1].channel == ChannelIdentify {
                                            channel,
                                            source: s,
                                        });
                                    } else {
                                        let jw = choose|jw: int|
                                            q0.len() <= jw < qpre.len() && (#[trigger] qpre[jw]).channel
                                                == ChannelIdentify { channel, source: s };
                                        assert(nq[jw].channel == ChannelIdentify {
                                            channel,
                                            source: s,
                                        });
                                    }
                                }
                            }
                        }
                    }
                },
                None => {
                    proof {
                        let ii = i as int;
                        let taken = sources@.take(ii + 1);
                        assert(!subs0.contains((ci, FeedbackConsumerId::Local(sub_uuid))));
                        assert(samples_rec_prefix(
                            sbase,
                            logic.samples(),
                            subs0,
                            channel,
                            sub_uuid,
                            id,
                            value,
                            taken,
                        )) by {
                            assert forall|k: (ChannelIdentify, FeedbackConsumerId, u8)|
                                #![trigger logic.samples().dom().contains(k)]
                                logic.samples().dom().contains(k) <==> sbase.dom().contains(k)
                                || recorded_key_seq(k, subs0, channel, sub_uuid, id, taken) by {
                                if recorded_key_seq(k, subs0, channel, sub_uuid, id, taken)
                                    && !recorded_key_seq(
                                    k,
                                    subs0,
                                    channel,
                                    sub_uuid,
                                    id,
                                    sources@.take(ii),
                                ) {
                                    assert(k.0 == ci);
                                    assert(false);
                                }
                            }
                        }
                        if old(local).inboxes().dom().contains(channel) {
                            assert(inbox_prefix(
                                q0,
                                local.inboxes()[channel],
                                logic.samples(),
                                subs0,
                                channel,
                                sub_uuid,
                                id,
                                taken,
                            )) by {
                                let nq = local.inboxes()[channel];
                                assert forall|s: SourceUuid|
                                    #![trigger taken.contains(s)]
                                    taken.contains(s) && subs0.contains(
                                        (
                                            ChannelIdentify { channel, source: s },
                                            FeedbackConsumerId::Local(sub_uuid),
                                        ),
                                    ) implies exists|j: int|
                                    q0.len() <= j < nq.len() && (#[trigger] nq[j]).channel
                                        == ChannelIdentify { channel, source: s } by {
                                    assert(s != source);
                                    let jw = choose|jw: int|
                                        q0.len() <= jw < nq.len() && (#[trigger] nq[jw]).channel
                                            == ChannelIdentify { channel, source: s };
                                }
                            }
                        }
                    }
                },
            }
            i = i + 1;
        }
        proof {
            assert(sources@.take(n as int) =~= sources@);
            assert(samples_recorded(
                sbase,
                logic.samples(),
                subs0,
                channel,
                sub_uuid,
                id,
                value,
                srcset,
            )) by {
                assert forall|k: (ChannelIdentify, FeedbackConsumerId, u8)|
                    #![trigger logic.samples().dom().contains(k)]
                    recorded_key_seq(k, subs0, channel, sub_uuid, id, sources@) == recorded_key(
                        k,
                        subs0,
                        channel,
                        sub_uuid,
                        id,
                        srcset,
                    ) by {
                    assert(sources@.contains(k.0.source) <==> srcset.contains(
                        (channel, k.0.source),
                    ));
                }
            }
            if old(local).inboxes().dom().contains(channel) {
                assert(inbox_extended(
                    q0,
                    local.inboxes()[channel],
                    logic.samples(),
                    subs0,
                    channel,
                    sub_uuid,
                    id,
                    srcset,
                )) by {
                    let nq = local.inboxes()[channel];
                    assert forall|j: int|
                        #![trigger nq[j]]
                        q0.len() <= j < nq.len() implies srcset.contains(
                        (channel, nq[j].channel.source),
                    ) by {
                        assert(sources@.contains(nq[j].channel.source));
                    }
                    assert forall|s: SourceUuid|
                        #![trigger srcset.contains((channel, s))]
                        srcset.contains((channel, s)) && subs0.contains(
                            (
                                ChannelIdentify { channel, source: s },
                                FeedbackConsumerId::Local(sub_uuid),
                            ),
                        ) implies exists|j: int|
                        q0.len() <= j < nq.len() && (#[trigger] nq[j]).channel == ChannelIdentify {
                            channel,
                            source: s,
                        } by {
                        assert(sources@.contains(s));
                    }
                }
            }
        }
    }

    /// One non-blocking receive attempt on this consumer's queue. A caller
    /// that may wait does so outside and tries again on
    /// [`RecvOutcome::Empty`]; after [`Consumer::close`] the attempt never
    /// answers `Empty`, so no receiver is left waiting.
    pub fn recv(&self, local: &mut LocalRelay) -> (r: RecvOutcome)
        requires
            old(local).wf(),
        ensures
            final(local).wf(),
            final(local).inboxes() == old(local).inboxes(),
            match r {
                RecvOutcome::Payload(p) => {
                    &&& old(local).queues().dom().contains(self.sub_uuid)
                    &&& old(local).queues()[self.sub_uuid].items.len() > 0
                    &&& p@ == old(local).queues()[self.sub_uuid].items[0]
                    &&& final(local).queues() == old(local).queues().insert(
                        self.sub_uuid,
                        crate::relay::local::popped_model(old(local).queues()[self.sub_uuid]),
                    )
                },
                RecvOutcome::Empty => {
                    &&& old(local).queues().dom().contains(self.sub_uuid)
                    &&& !old(local).queues()[self.sub_uuid].closed
                    &&& old(local).queues()[self.sub_uuid].items.len() == 0
                    &&& final(local).queues() == old(local).queues()
                },
                RecvOutcome::Closed => {
                    if old(local).queues().dom().contains(self.sub_uuid) {
                        &&& old(local).queues()[self.sub_uuid].closed
                        &&& old(local).queues()[self.sub_uuid].items.len() == 0
                        &&& final(local).queues() == old(local).queues().remove(self.sub_uuid)
                    } else {
                        final(local).queues() == old(local).queues()
                    }
                },
            },
    {
        local.try_recv(self.sub_uuid)
    }

    /// Releases the subscription: closes the delivery queue, withdraws the
    /// interest from the source binding table, and — for each source the
    /// table answers with — tears the consumer's pairing down in the relay
    /// logic. The reverse of [`Consumer::new`], and the explicit form of the
    /// drop-driven cleanup a scoped wrapper guarantees on every exit path.
    pub fn close(
        self,
        logic: &mut PubsubRelayLogic,
        local: &mut LocalRelay,
        source_binding: &mut SourceBinding,
    )
        requires
            old(logic).wf(),
            old(local).wf(),
            old(source_binding).wf(),
        ensures
            final(logic).wf(),
            final(local).wf(),
            final(source_binding).wf(),
            final(local).inboxes() == old(local).inboxes(),
            final(local).queues() == if old(local).queues().dom().contains(self.sub_uuid) {
                old(local).queues().insert(
                    self.sub_uuid,
                    crate::relay::local::closed_model(old(local).queues()[self.sub_uuid]),
                )
            } else {
                old(local).queues()
            },
            if old(source_binding).subs().contains((self.channel, self.sub_uuid)) {
                &&& final(source_binding).subs() == old(source_binding).subs().remove(
                    (self.channel, self.sub_uuid),
                )
                &&& final(source_binding).sources() == if exists|x: LocalSubId|
                    x != self.sub_uuid && old(source_binding).subs().contains((self.channel, x)) {
                    old(source_binding).sources()
                } else {
                    crate::relay::source_binding::drop_channel_sources(
                        old(source_binding).sources(),
                        self.channel,
                    )
                }
                &&& subs_reduced(
                    old(logic).subs(),
                    final(logic).subs(),
                    self.channel,
                    self.sub_uuid,
                    old(source_binding).sources(),
                )
                &&& samples_reduced(
                    old(logic).samples(),
                    final(logic).samples(),
                    self.channel,
                    self.sub_uuid,
                    old(source_binding).sources(),
                )
            } else {
                &&& final(source_binding).subs() == old(source_binding).subs()
                &&& final(source_binding).sources() == old(source_binding).sources()
                &&& final(logic).subs() == old(logic).subs()
                &&& final(logic).samples() == old(logic).samples()
            },
    {
        local.on_local_unsub(self.sub_uuid);
        match source_binding.on_local_unsub(self.channel, self.sub_uuid) {
            Some(sources) => {
                let ghost base = logic.subs();
                let ghost sbase = logic.samples();
                let ghost srcset = old(source_binding).sources();
                let channel = self.channel;
                let sub_uuid = self.sub_uuid;
                let n = sources.len();
                let mut i: usize = 0;
                while i < n
                    invariant
                        i <= n,
                        n == sources@.len(),
                        sources@.no_duplicates(),
                        forall|s: SourceUuid|
                            #![trigger sources@.contains(s)]
                            sources@.contains(s) <==> srcset.contains((channel, s)),
                        logic.wf(),
                        subs_unprefix(
                            base,
                            logic.subs(),
                            channel,
                            sub_uuid,
                            sources@.take(i as int),
                        ),
                        samples_unprefix(
                            sbase,
                            logic.samples(),
                            channel,
                            sub_uuid,
                            sources@.take(i as int),
                        ),
                    decreases n - i,
                {
                    let ghost pre = logic.subs();
                    let ghost spre = logic.samples();
                    let source = sources[i];
                    let ci = ChannelIdentify::new(channel, source);
                    logic.on_local_unsub(ci, sub_uuid);
                    proof {
                        let ii = i as int;
                        let taken = sources@.take(ii + 1);
                        assert forall|s: SourceUuid|
                            #![trigger taken.contains(s)]
                            taken.contains(s) <==> sources@.take(ii).contains(s) || s
                                == source by {
                            if taken.contains(s) {
                                let jw = choose|jw: int|
                                    0 <= jw < taken.len() && taken[jw] == s;
                                if jw < ii {
                                    assert(sources@.take(ii)[jw] == s);
                                    assert(sources@.take(ii).contains(s));
                                }
                            }
                            if sources@.take(ii).contains(s) {
                                let jw = choose|jw: int|
                                    0 <= jw < sources@.take(ii).len() && sources@.take(ii)[jw]
                                        == s;
                                assert(taken[jw] == s);
                            }
                            if s == source {
                                assert(taken[ii] == s);
                            }
                        }
                        assert(subs_unprefix(base, logic.subs(), channel, sub_uuid, taken)) by {
                            assert forall|p: (ChannelIdentify, FeedbackConsumerId)|
                                #![trigger logic.subs().contains(p)]
                                logic.subs().contains(p) <==> base.contains(p) && !(p.1
                                == FeedbackConsumerId::Local(sub_uuid) && p.0.channel == channel
                                && taken.contains(p.0.source)) by {
                                assert(logic.subs() == pre.remove(
                                    (ci, FeedbackConsumerId::Local(sub_uuid)),
                                ));
                            }
                        }
                        assert(samples_unprefix(
                            sbase,
                            logic.samples(),
                            channel,
                            sub_uuid,
                            taken,
                        )) by {
                            assert(logic.samples() == drop_samples_of(
                                spre,
                                ci,
                                FeedbackConsumerId::Local(sub_uuid),
                            ));
                            assert forall|k: (ChannelIdentify, FeedbackConsumerId, u8)|
                                #![trigger logic.samples().dom().contains(k)]
                                logic.samples().dom().contains(k) <==> sbase.dom().contains(k)
                                && !(k.1 == FeedbackConsumerId::Local(sub_uuid) && k.0.channel
                                == channel && taken.contains(k.0.source)) by {}
                            assert forall|k: (ChannelIdentify, FeedbackConsumerId, u8)|
                                #![trigger logic.samples().dom().contains(k)]
                                logic.samples().dom().contains(k) implies logic.samples()[k]
                                == sbase[k] by {}
                        }
                    }
                    i = i + 1;
                }
                proof {
                    assert(sources@.take(n as int) =~= sources@);
                    assert(subs_reduced(base, logic.subs(), channel, sub_uuid, srcset)) by {
                        assert forall|p: (ChannelIdentify, FeedbackConsumerId)|
                            #![trigger logic.subs().contains(p)]
                            logic.subs().contains(p) <==> base.contains(p) && !(p.1
                            == FeedbackConsumerId::Local(sub_uuid) && p.0.channel == channel
                            && srcset.contains((channel, p.0.source))) by {
                            assert(sources@.contains(p.0.source) <==> srcset.contains(
                                (channel, p.0.source),
                            ));
                        }
                    }
                    assert(samples_reduced(sbase, logic.samples(), channel, sub_uuid, srcset)) by {
                        assert forall|k: (ChannelIdentify, FeedbackConsumerId, u8)|
                            #![trigger logic.samples().dom().contains(k)]
                            logic.samples().dom().contains(k) <==> sbase.dom().contains(k) && !(k.1
                            == FeedbackConsumerId::Local(sub_uuid) && k.0.channel == channel
                            && srcset.contains((channel, k.0.source))) by {
                            assert(sources@.contains(k.0.source) <==> srcset.contains(
                                (channel, k.0.source),
                            ));
                        }
                    }
                }
            },
            None => {},
        }
    }
}

/// Which keys of the samples map the sources handled so far have written.
spec fn recorded_key_seq(
    k: (ChannelIdentify, FeedbackConsumerId, u8),
    subs: Set<(ChannelIdentify, FeedbackConsumerId)>,
    channel: ChannelUuid,
    sub: LocalSubId,
    kind: u8,
    srcs: Seq<SourceUuid>,
) -> bool {
    &&& k.0.channel == channel
    &&& srcs.contains(k.0.source)
    &&& k.1 == FeedbackConsumerId::Local(sub)
    &&& k.2 == kind
    &&& subs.contains((k.0, FeedbackConsumerId::Local(sub)))
}

/// Mid-emission bookkeeping: exactly the keys of the sources handled so far
/// are written.
spec fn samples_rec_prefix(
    base: Map<(ChannelIdentify, FeedbackConsumerId, u8), u64>,
    now: Map<(ChannelIdentify, FeedbackConsumerId, u8), u64>,
    subs: Set<(ChannelIdentify, FeedbackConsumerId)>,
    channel: ChannelUuid,
    sub: LocalSubId,
    kind: u8,
    value: u64,
    srcs: Seq<SourceUuid>,
) -> bool {
    &&& forall|k: (ChannelIdentify, FeedbackConsumerId, u8)|
        #![trigger now.dom().contains(k)]
        now.dom().contains(k) <==> base.dom().contains(k) || recorded_key_seq(
            k,
            subs,
            channel,
            sub,
            kind,
            srcs,
        )
    &&& forall|k: (ChannelIdentify, FeedbackConsumerId, u8)|
        #![trigger now.dom().contains(k)]
        now.dom().contains(k) ==> now[k] == if recorded_key_seq(k, subs, channel, sub, kind, srcs) {
            value
        } else {
            base[k]
        }
}

/// Mid-emission bookkeeping: the publisher inbox grew by one consolidated
/// sample per source handled so far that the consumer is registered for.
spec fn inbox_prefix(
    oldq: Seq<Feedback>,
    newq: Seq<Feedback>,
    samples: Map<(ChannelIdentify, FeedbackConsumerId, u8), u64>,
    subs: Set<(ChannelIdentify, FeedbackConsumerId)>,
    channel: ChannelUuid,
    sub: LocalSubId,
    kind: u8,
    srcs: Seq<SourceUuid>,
) -> bool {
    &&& newq.len() >= oldq.len()
    &&& forall|j: int| #![trigger newq[j]] 0 <= j < oldq.len() ==> newq[j] == oldq[j]
    &&& forall|j: int|
        #![trigger newq[j]]
        oldq.len() <= j < newq.len() ==> newq[j].channel.channel == channel && srcs.contains(
            newq[j].channel.source,
        ) && subs.contains((newq[j].channel, FeedbackConsumerId::Local(sub))) && newq[j].id == kind
            && newq[j].feedback_type is Number && is_aggregate(
            samples,
            newq[j].channel,
            kind,
            newq[j].feedback_type.value(),
        )
    &&& forall|j1: int, j2: int|
        oldq.len() <= j1 < j2 < newq.len() ==> (#[trigger] newq[j1]).channel != (
        #[trigger] newq[j2]).channel
    &&& forall|s: SourceUuid|
        #![trigger srcs.contains(s)]
        srcs.contains(s) && subs.contains(
            (ChannelIdentify { channel, source: s }, FeedbackConsumerId::Local(sub)),
        ) ==> exists|j: int|
            oldq.len() <= j < newq.len() && (#[trigger] newq[j]).channel == ChannelIdentify {
                channel,
                source: s,
            }
}

/// Mid-registration bookkeeping: the consumer is subscribed for exactly the
/// sources handled so far.
spec fn subs_prefix(
    base: Set<(ChannelIdentify, FeedbackConsumerId)>,
    now: Set<(ChannelIdentify, FeedbackConsumerId)>,
    channel: ChannelUuid,
    sub: LocalSubId,
    srcs: Seq<SourceUuid>,
) -> bool {
    forall|p: (ChannelIdentify, FeedbackConsumerId)|
        #![trigger now.contains(p)]
        now.contains(p) <==> base.contains(p) || (p.1 == FeedbackConsumerId::Local(sub)
            && p.0.channel == channel && srcs.contains(p.0.source))
}

/// Mid-teardown bookkeeping: the consumer is unsubscribed for exactly the
/// sources handled so far.
spec fn subs_unprefix(
    base: Set<(ChannelIdentify, FeedbackConsumerId)>,
    now: Set<(ChannelIdentify, FeedbackConsumerId)>,
    channel: ChannelUuid,
    sub: LocalSubId,
    srcs: Seq<SourceUuid>,
) -> bool {
    forall|p: (ChannelIdentify, FeedbackConsumerId)|
        #![trigger now.contains(p)]
        now.contains(p) <==> base.contains(p) && !(p.1 == FeedbackConsumerId::Local(sub)
            && p.0.channel == channel && srcs.contains(p.0.source))
}

/// Mid-teardown bookkeeping: the consumer's samples are dropped for exactly
/// the sources handled so far.
spec fn samples_unprefix(
    base: Map<(ChannelIdentify, FeedbackConsumerId, u8), u64>,
    now: Map<(ChannelIdentify, FeedbackConsumerId, u8), u64>,
    channel: ChannelUuid,
    sub: LocalSubId,
    srcs: Seq<SourceUuid>,
) -> bool {
    &&& forall|k: (ChannelIdentify, FeedbackConsumerId, u8)|
        #![trigger now.dom().contains(k)]
        now.dom().contains(k) <==> base.dom().contains(k) && !(k.1 == FeedbackConsumerId::Local(
            sub,
        ) && k.0.channel == channel && srcs.contains(k.0.source))
    &&& forall|k: (ChannelIdentify, FeedbackConsumerId, u8)|
        #![trigger now.dom().contains(k)]
        now.dom().contains(k) ==> now[k] == base[k]
}

} // verus!
