//! Authoritative registry mapping each (channel, source) pairing to its
//! subscribers, local and remote, and the feedback aggregator.

use vstd::prelude::*;
use crate::relay::ChannelIdentify;
use crate::relay::LocalSubId;
use crate::relay::feedback::{Feedback, FeedbackConsumerId, FeedbackType, RemoteSubId};

verus! {

/// The latest sample one subscriber submitted for one pairing and kind.
#[derive(Clone, Copy)]
struct Sample {
    consumer: FeedbackConsumerId,
    kind: u8,
    value: u64,
}

/// Registry entry for one pairing: its subscribers and their latest samples.
struct LogicEntry {
    channel: ChannelIdentify,
    subs: Vec<FeedbackConsumerId>,
    samples: Vec<Sample>,
}

/// Subscriber registry and feedback aggregator, keyed by pairing.
///
/// An entry exists only while the pairing has at least one subscriber; the
/// entry disappears with its last subscriber. Each subscriber's latest sample
/// per feedback kind is retained, and every recorded sample is answered with
/// the consolidated view over all currently registered subscribers: the
/// maximum of their latest samples of that kind.
pub struct PubsubRelayLogic {
    entries: Vec<LogicEntry>,
}

spec fn entry_wf(e: LogicEntry) -> bool {
    &&& e.subs@.no_duplicates()
    &&& e.subs@.len() > 0
    &&& forall|j1: int, j2: int|
        0 <= j1 < j2 < e.samples@.len() ==> !((#[trigger] e.samples@[j1]).consumer == (
        #[trigger] e.samples@[j2]).consumer && e.samples@[j1].kind == e.samples@[j2].kind)
    &&& forall|j: int|
        0 <= j < e.samples@.len() ==> e.subs@.contains((#[trigger] e.samples@[j]).consumer)
}

spec fn entries_wf(s: Seq<LogicEntry>) -> bool {
    &&& forall|i: int, j: int|
        0 <= i < j < s.len() ==> (#[trigger] s[i]).channel != (#[trigger] s[j]).channel
    &&& forall|i: int| 0 <= i < s.len() ==> entry_wf(#[trigger] s[i])
}

spec fn subs_rel(s: Seq<LogicEntry>) -> Set<(ChannelIdentify, FeedbackConsumerId)> {
    Set::new(
        |p: (ChannelIdentify, FeedbackConsumerId)|
            exists|i: int|
                0 <= i < s.len() && (#[trigger] s[i]).channel == p.0 && s[i].subs@.contains(p.1),
    )
}

spec fn entry_has_sample(e: LogicEntry, c: FeedbackConsumerId, kind: u8) -> bool {
    exists|j: int|
        0 <= j < e.samples@.len() && (#[trigger] e.samples@[j]).consumer == c
            && e.samples@[j].kind == kind
}

spec fn entry_sample_idx(e: LogicEntry, c: FeedbackConsumerId, kind: u8) -> int {
    choose|j: int|
        0 <= j < e.samples@.len() && (#[trigger] e.samples@[j]).consumer == c
            && e.samples@[j].kind == kind
}

spec fn entry_idx(s: Seq<LogicEntry>, ch: ChannelIdentify) -> int {
    choose|i: int| 0 <= i < s.len() && (#[trigger] s[i]).channel == ch
}

spec fn sample_rel(s: Seq<LogicEntry>) -> Map<(ChannelIdentify, FeedbackConsumerId, u8), u64> {
    Map::new(
        |k: (ChannelIdentify, FeedbackConsumerId, u8)|
            exists|i: int|
                0 <= i < s.len() && (#[trigger] s[i]).channel == k.0 && entry_has_sample(
                    s[i],
                    k.1,
                    k.2,
                ),
        |k: (ChannelIdentify, FeedbackConsumerId, u8)|
            {
                let e = s[entry_idx(s, k.0)];
                e.samples@[entry_sample_idx(e, k.1, k.2)].value
            },
    )
}

/// The samples map after one subscriber's samples for one pairing are dropped.
pub open spec fn drop_samples_of(
    sm: Map<(ChannelIdentify, FeedbackConsumerId, u8), u64>,
    channel: ChannelIdentify,
    consumer: FeedbackConsumerId,
) -> Map<(ChannelIdentify, FeedbackConsumerId, u8), u64> {
    Map::new(
        |k: (ChannelIdentify, FeedbackConsumerId, u8)|
            sm.dom().contains(k) && !(k.0 == channel && k.1 == consumer),
        |k: (ChannelIdentify, FeedbackConsumerId, u8)| sm[k],
    )
}

/// `v` is the consolidated view of the samples recorded for `channel` with
/// kind `kind`: it is one of them, and none exceeds it.
pub open spec fn is_aggregate(
    sm: Map<(ChannelIdentify, FeedbackConsumerId, u8), u64>,
    channel: ChannelIdentify,
    kind: u8,
    v: u64,
) -> bool {
    &&& exists|c: FeedbackConsumerId|
        sm.dom().contains((channel, c, kind)) && sm[(channel, c, kind)] == v
    &&& forall|c: FeedbackConsumerId|
        sm.dom().contains((channel, c, kind)) ==> sm[(channel, c, kind)] <= v
}

proof fn lemma_entry_idx_unique(s: Seq<LogicEntry>, i: int)
    requires
        entries_wf(s),
        0 <= i < s.len(),
    ensures
        entry_idx(s, s[i].channel) == i,
{
    let ch = s[i].channel;
    assert(0 <= i < s.len() && s[i].channel == ch);
    let i2 = entry_idx(s, ch);
    if i2 != i {
        if i2 < i {
            assert(s[i2].channel != s[i].channel);
        } else {
            assert(s[i].channel != s[i2].channel);
        }
    }
}

proof fn lemma_sample_idx_unique(e: LogicEntry, j: int)
    requires
        entry_wf(e),
        0 <= j < e.samples@.len(),
    ensures
        entry_sample_idx(e, e.samples@[j].consumer, e.samples@[j].kind) == j,
{
    let c = e.samples@[j].consumer;
    let kind = e.samples@[j].kind;
    assert(0 <= j < e.samples@.len() && e.samples@[j].consumer == c && e.samples@[j].kind == kind);
    let j2 = entry_sample_idx(e, c, kind);
    if j2 != j {
        if j2 < j {
            assert(!(e.samples@[j2].consumer == e.samples@[j].consumer && e.samples@[j2].kind
                == e.samples@[j].kind));
        } else {
            assert(!(e.samples@[j].consumer == e.samples@[j2].consumer && e.samples@[j].kind
                == e.samples@[j2].kind));
        }
    }
}

/// Looking a recorded sample up in the samples map yields that sample's value.
proof fn lemma_sample_rel_at(s: Seq<LogicEntry>, i: int, j: int)
    requires
        entries_wf(s),
        0 <= i < s.len(),
        0 <= j < s[i].samples@.len(),
    ensures
        sample_rel(s).dom().contains(
            (s[i].channel, s[i].samples@[j].consumer, s[i].samples@[j].kind),
        ),
        sample_rel(s)[(s[i].channel, s[i].samples@[j].consumer, s[i].samples@[j].kind)]
            == s[i].samples@[j].value,
{
    let k = (s[i].channel, s[i].samples@[j].consumer, s[i].samples@[j].kind);
    assert(entry_has_sample(s[i], k.1, k.2));
    lemma_entry_idx_unique(s, i);
    lemma_sample_idx_unique(s[i], j);
}

/// A key in the samples map is backed by a recorded sample at the unique
/// entry and sample indices the map's value is read from.
proof fn lemma_sample_rel_dom(s: Seq<LogicEntry>, k: (ChannelIdentify, FeedbackConsumerId, u8))
    requires
        entries_wf(s),
        sample_rel(s).dom().contains(k),
    ensures
        0 <= entry_idx(s, k.0) < s.len(),
        s[entry_idx(s, k.0)].channel == k.0,
        entry_has_sample(s[entry_idx(s, k.0)], k.1, k.2),
        ({
            let e = s[entry_idx(s, k.0)];
            let j = entry_sample_idx(e, k.1, k.2);
            &&& 0 <= j < e.samples@.len()
            &&& e.samples@[j].consumer == k.1
            &&& e.samples@[j].kind == k.2
            &&& e.samples@[j].value == sample_rel(s)[k]
        }),
{
    let iw = choose|i: int|
        0 <= i < s.len() && (#[trigger] s[i]).channel == k.0 && entry_has_sample(s[i], k.1, k.2);
    lemma_entry_idx_unique(s, iw);
}

impl PubsubRelayLogic {
    pub fn new() -> (r: PubsubRelayLogic)
        ensures
            r.wf(),
            r.subs() == Set::<(ChannelIdentify, FeedbackConsumerId)>::empty(),
            r.samples() == Map::<(ChannelIdentify, FeedbackConsumerId, u8), u64>::empty(),
    {
        let r = PubsubRelayLogic { entries: Vec::new() };
        proof {
            assert(r.subs() =~= Set::<(ChannelIdentify, FeedbackConsumerId)>::empty());
            assert(r.samples() =~= Map::<(ChannelIdentify, FeedbackConsumerId, u8), u64>::empty());
        }
        r
    }

    /// The registry as a relation: which subscriber is bound to which pairing.
    pub closed spec fn subs(self) -> Set<(ChannelIdentify, FeedbackConsumerId)> {
        subs_rel(self.entries@)
    }

    /// Each subscriber's latest sample per (pairing, kind).
    pub closed spec fn samples(self) -> Map<(ChannelIdentify, FeedbackConsumerId, u8), u64> {
        sample_rel(self.entries@)
    }

    pub closed spec fn wf(self) -> bool {
        entries_wf(self.entries@)
    }

    fn find_entry(&self, channel: ChannelIdentify) -> (r: Option<usize>)
        ensures
            match r {
                Some(i) => i < self.entries@.len() && self.entries@[i as int].channel == channel,
                None => forall|i: int|
                    0 <= i < self.entries@.len() ==> (#[trigger] self.entries@[i]).channel
                        != channel,
            },
    {
        let n = self.entries.len();
        for i in 0..n
            invariant
                n == self.entries@.len(),
                forall|k: int| 0 <= k < i ==> (#[trigger] self.entries@[k]).channel != channel,
        {
            if self.entries[i].channel == channel {
                return Some(i);
            }
        }
        None
    }

    /// Adds `consumer` to the registry entry for `channel`, creating the
    /// entry if absent; idempotent if already present.
    pub fn on_sub(&mut self, channel: ChannelIdentify, consumer: FeedbackConsumerId)
        requires
            old(self).wf(),
        ensures
            final(self).wf(),
            final(self).subs() == old(self).subs().insert((channel, consumer)),
            final(self).samples() == old(self).samples(),
    {
        let ghost os = self.entries@;
        let ghost pr = (channel, consumer);
        match self.find_entry(channel) {
            None => {
                let mut subs: Vec<FeedbackConsumerId> = Vec::new();
                subs.push(consumer);
                let e = LogicEntry { channel, subs, samples: Vec::new() };
                self.entries.push(e);
                proof {
                    let ns = self.entries@;
                    let ln = os.len() as int;
                    assert forall|p: (ChannelIdentify, FeedbackConsumerId)|
                        subs_rel(ns).contains(p) implies subs_rel(os).insert(pr).contains(p) by {
                        let i = choose|i: int|
                            0 <= i < ns.len() && (#[trigger] ns[i]).channel == p.0
                                && ns[i].subs@.contains(p.1);
                        if i < ln {
                            assert(os[i].channel == p.0 && os[i].subs@.contains(p.1));
                        } else {
                            assert(ns[i].subs@[0] == consumer);
                            assert(p == pr);
                        }
                    }
                    assert forall|p: (ChannelIdentify, FeedbackConsumerId)|
                        subs_rel(os).insert(pr).contains(p) implies subs_rel(ns).contains(p) by {
                        if p == pr {
                            assert(ns[ln].channel == p.0);
                            assert(ns[ln].subs@[0] == p.1);
                            assert(ns[ln].subs@.contains(p.1));
                        } else {
                            let i = choose|i: int|
                                0 <= i < os.len() && (#[trigger] os[i]).channel == p.0
                                    && os[i].subs@.contains(p.1);
                            assert(ns[i].channel == p.0 && ns[i].subs@.contains(p.1));
                        }
                    }
                    assert(subs_rel(ns) =~= subs_rel(os).insert(pr));
                    assert forall|k: (ChannelIdentify, FeedbackConsumerId, u8)|
                        sample_rel(ns).dom().contains(k) implies sample_rel(os).dom().contains(k)
                        && sample_rel(ns)[k] == sample_rel(os)[k] by {
                        lemma_sample_rel_dom(ns, k);
                        let i = entry_idx(ns, k.0);
                        assert(i < ln);
                        assert(os[i] == ns[i]);
                        let e = ns[i];
                        let j = entry_sample_idx(e, k.1, k.2);
                        lemma_sample_rel_at(os, i, j);
                    }
                    assert forall|k: (ChannelIdentify, FeedbackConsumerId, u8)|
                        sample_rel(os).dom().contains(k) implies sample_rel(ns).dom().contains(
                        k,
                    ) by {
                        lemma_sample_rel_dom(os, k);
                        let i = entry_idx(os, k.0);
                        assert(ns[i] == os[i]);
                        assert(ns[i].channel == k.0 && entry_has_sample(ns[i], k.1, k.2));
                    }
                    assert(sample_rel(ns) =~= sample_rel(os));
                }
            },
            Some(i) => {
                if contains_consumer(&self.entries[i].subs, consumer) {
                    proof {
                        assert(subs_rel(os).contains(pr));
                        assert(subs_rel(os).insert(pr) =~= subs_rel(os));
                    }
                } else {
                    let mut e = self.entries.remove(i);
                    e.subs.push(consumer);
                    self.entries.insert(i, e);
                    proof {
                        let ns = self.entries@;
                        let ii = i as int;
                        assert(ns =~= os.update(ii, ns[ii]));
                        assert(ns[ii].samples@ == os[ii].samples@);
                        assert(ns[ii].subs@ == os[ii].subs@.push(consumer));
                        assert forall|p: (ChannelIdentify, FeedbackConsumerId)|
                            subs_rel(ns).contains(p) implies subs_rel(os).insert(pr).contains(
                            p,
                        ) by {
                            let iw = choose|iw: int|
                                0 <= iw < ns.len() && (#[trigger] ns[iw]).channel == p.0
                                    && ns[iw].subs@.contains(p.1);
                            if iw != ii {
                                assert(os[iw].channel == p.0 && os[iw].subs@.contains(p.1));
                            } else {
                                if p.1 == consumer {
                                    assert(p == pr);
                                } else {
                                    assert(os[ii].subs@.contains(p.1));
                                }
                            }
                        }
                        assert forall|p: (ChannelIdentify, FeedbackConsumerId)|
                            subs_rel(os).insert(pr).contains(p) implies subs_rel(ns).contains(
                            p,
                        ) by {
                            if p == pr {
                                assert(ns[ii].subs@[os[ii].subs@.len() as int] == consumer);
                                assert(ns[ii].channel == p.0 && ns[ii].subs@.contains(p.1));
                            } else {
                                let iw = choose|iw: int|
                                    0 <= iw < os.len() && (#[trigger] os[iw]).channel == p.0
                                        && os[iw].subs@.contains(p.1);
                                if iw == ii {
                                    let jw = choose|jw: int|
                                        0 <= jw < os[ii].subs@.len() && os[ii].subs@[jw] == p.1;
                                    assert(ns[ii].subs@[jw] == p.1);
                                    assert(ns[ii].subs@.contains(p.1));
                                } else {
                                    assert(ns[iw].channel == p.0 && ns[iw].subs@.contains(p.1));
                                }
                            }
                        }
                        assert(subs_rel(ns) =~= subs_rel(os).insert(pr));
                        assert forall|x: FeedbackConsumerId| os[ii].subs@.contains(
                            x,
                        ) implies ns[ii].subs@.contains(x) by {
                            let jw = choose|jw: int|
                                0 <= jw < os[ii].subs@.len() && os[ii].subs@[jw] == x;
                            assert(ns[ii].subs@[jw] == x);
                        }
                        assert(entry_wf(ns[ii])) by {
                            assert forall|j1: int, j2: int|
                                0 <= j1 < j2 < ns[ii].subs@.len() implies ns[ii].subs@[j1]
                                != ns[ii].subs@[j2] by {
                                if j2 == ns[ii].subs@.len() - 1 {
                                    assert(ns[ii].subs@[j1] == os[ii].subs@[j1]);
                                    if os[ii].subs@[j1] == consumer {
                                        assert(os[ii].subs@.contains(consumer));
                                    }
                                }
                            }
                        }
                        lemma_sample_rel_same_samples(os, ns);
                    }
                }
            },
        }
    }

    /// Removes `consumer` from the entry for `channel`, with its recorded
    /// samples; removes the entry itself when it loses its last subscriber.
    /// A no-op if the pairing or the subscriber is unknown.
    pub fn on_unsub(&mut self, channel: ChannelIdentify, consumer: FeedbackConsumerId)
        requires
            old(self).wf(),
        ensures
            final(self).wf(),
            final(self).subs() == old(self).subs().remove((channel, consumer)),
            final(self).samples() == drop_samples_of(old(self).samples(), channel, consumer),
    {
        let ghost os = self.entries@;
        let ghost pr = (channel, consumer);
        match self.find_entry(channel) {
            None => {
                proof {
                    assert(!subs_rel(os).contains(pr));
                    assert(subs_rel(os).remove(pr) =~= subs_rel(os));
                    assert forall|k: (ChannelIdentify, FeedbackConsumerId, u8)|
                        sample_rel(os).dom().contains(k) implies !(k.0 == channel && k.1
                        == consumer) by {
                        lemma_sample_rel_dom(os, k);
                    }
                    assert(drop_samples_of(sample_rel(os), channel, consumer) =~= sample_rel(os));
                }
            },
            Some(i) => {
                match index_of_consumer(&self.entries[i].subs, consumer) {
                    None => {
                        proof {
                            let ii = i as int;
                            assert forall|p: (ChannelIdentify, FeedbackConsumerId)|
                                subs_rel(os).contains(p) implies p != pr by {
                                let iw = choose|iw: int|
                                    0 <= iw < os.len() && (#[trigger] os[iw]).channel == p.0
                                        && os[iw].subs@.contains(p.1);
                                if p == pr {
                                    lemma_entry_idx_unique(os, iw);
                                    lemma_entry_idx_unique(os, ii);
                                }
                            }
                            assert(subs_rel(os).remove(pr) =~= subs_rel(os));
                            assert forall|k: (ChannelIdentify, FeedbackConsumerId, u8)|
                                sample_rel(os).dom().contains(k) implies !(k.0 == channel && k.1
                                == consumer) by {
                                lemma_sample_rel_dom(os, k);
                                let iw = entry_idx(os, k.0);
                                if k.0 == channel && k.1 == consumer {
                                    lemma_entry_idx_unique(os, ii);
                                    let e = os[iw];
                                    let j = entry_sample_idx(e, k.1, k.2);
                                    assert(e.subs@.contains(e.samples@[j].consumer));
                                }
                            }
                            assert(drop_samples_of(sample_rel(os), channel, consumer)
                                =~= sample_rel(os));
                        }
                    },
                    Some(pos) => {
                        if self.entries[i].subs.len() == 1 {
                            let _ = self.entries.remove(i);
                            proof {
                                let ns = self.entries@;
                                let ii = i as int;
                                lemma_subs_rel_entry_removed(os, ns, ii, consumer);
                                lemma_sample_rel_entry_removed(os, ns, ii, channel, consumer);
                            }
                        } else {
                            let mut e = self.entries.remove(i);
                            let _ = e.subs.remove(pos);
                            let kept = retain_other_consumers(&e.samples, consumer);
                            e.samples = kept;
                            self.entries.insert(i, e);
                            proof {
                                let ns = self.entries@;
                                let ii = i as int;
                                assert(ns =~= os.update(ii, ns[ii]));
                                lemma_subs_rel_sub_removed(os, ns, ii, pos as int, consumer);
                                lemma_sample_rel_samples_filtered(os, ns, ii, channel, consumer);
                            }
                        }
                    },
                }
            },
        }
    }

    /// Adds a consumer of this process to the entry for `channel`.
    pub fn on_local_sub(&mut self, channel: ChannelIdentify, uuid: LocalSubId)
        requires
            old(self).wf(),
        ensures
            final(self).wf(),
            final(self).subs() == old(self).subs().insert((channel, FeedbackConsumerId::Local(uuid))),
            final(self).samples() == old(self).samples(),
    {
        self.on_sub(channel, FeedbackConsumerId::Local(uuid));
    }

    /// Removes a consumer of this process from the entry for `channel`.
    pub fn on_local_unsub(&mut self, channel: ChannelIdentify, uuid: LocalSubId)
        requires
            old(self).wf(),
        ensures
            final(self).wf(),
            final(self).subs() == old(self).subs().remove((channel, FeedbackConsumerId::Local(uuid))),
            final(self).samples() == drop_samples_of(
                old(self).samples(),
                channel,
                FeedbackConsumerId::Local(uuid),
            ),
    {
        self.on_unsub(channel, FeedbackConsumerId::Local(uuid));
    }

    /// Adds a subscriber reached over the network to the entry for `channel`.
    pub fn on_remote_sub(&mut self, channel: ChannelIdentify, remote: RemoteSubId)
        requires
            old(self).wf(),
        ensures
            final(self).wf(),
            final(self).subs() == old(self).subs().insert((channel, FeedbackConsumerId::Remote(remote))),
            final(self).samples() == old(self).samples(),
    {
        self.on_sub(channel, FeedbackConsumerId::Remote(remote));
    }

    /// Removes a subscriber reached over the network from the entry for
    /// `channel`.
    pub fn on_remote_unsub(&mut self, channel: ChannelIdentify, remote: RemoteSubId)
        requires
            old(self).wf(),
        ensures
            final(self).wf(),
            final(self).subs() == old(self).subs().remove((channel, FeedbackConsumerId::Remote(remote))),
            final(self).samples() == drop_samples_of(
                old(self).samples(),
                channel,
                FeedbackConsumerId::Remote(remote),
            ),
    {
        self.on_unsub(channel, FeedbackConsumerId::Remote(remote));
    }

    /// Records `consumer`'s feedback sample for `channel` and answers with
    /// the consolidated sample over all subscribers currently registered for
    /// the pairing: the maximum recorded sample of the same kind. Feedback
    /// for an unknown pairing, or from a subscriber not registered for it, is
    /// silently discarded.
    pub fn on_feedback(
        &mut self,
        channel: ChannelIdentify,
        consumer: FeedbackConsumerId,
        fb: Feedback,
    ) -> (r: Option<Feedback>)
        requires
            old(self).wf(),
        ensures
            final(self).wf(),
            final(self).subs() == old(self).subs(),
            match r {
                None => !old(self).subs().contains((channel, consumer)) && final(self).samples()
                    == old(self).samples(),
                Some(out) => {
                    &&& old(self).subs().contains((channel, consumer))
                    &&& final(self).samples() == old(self).samples().insert(
                        (channel, consumer, fb.id),
                        fb.feedback_type.value(),
                    )
                    &&& out.channel == channel
                    &&& out.id == fb.id
                    &&& out.feedback_type is Number
                    &&& is_aggregate(
                        final(self).samples(),
                        channel,
                        fb.id,
                        out.feedback_type.value(),
                    )
                },
            },
    {
        let value = match fb.feedback_type {
            FeedbackType::Number(v) => v,
        };
        let ghost os = self.entries@;
        let ghost key = (channel, consumer, fb.id);
        match self.find_entry(channel) {
            None => {
                proof {
                    if subs_rel(os).contains((channel, consumer)) {
                        let iw = choose|iw: int|
                            0 <= iw < os.len() && (#[trigger] os[iw]).channel == channel
                                && os[iw].subs@.contains(consumer);
                        assert(os[iw].channel != channel);
                    }
                }
                None
            },
            Some(i) => {
                let ghost ii = i as int;
                if !contains_consumer(&self.entries[i].subs, consumer) {
                    proof {
                        if subs_rel(os).contains((channel, consumer)) {
                            let iw = choose|iw: int|
                                0 <= iw < os.len() && (#[trigger] os[iw]).channel == channel
                                    && os[iw].subs@.contains(consumer);
                            lemma_entry_idx_unique(os, iw);
                            lemma_entry_idx_unique(os, ii);
                        }
                    }
                    None
                } else {
                    let mut e = self.entries.remove(i);
                    let ghost oldsmp = e.samples@;
                    match find_sample(&e.samples, consumer, fb.id) {
                        Some(j) => {
                            let mut smp = e.samples.remove(j);
                            smp.value = value;
                            e.samples.insert(j, smp);
                            proof {
                                let jj = j as int;
                                assert(e.samples@ =~= oldsmp.update(jj, e.samples@[jj]));
                                assert(e.samples@[jj].consumer == consumer && e.samples@[jj].kind
                                    == fb.id && e.samples@[jj].value == value);
                                assert forall|jx: int|
                                    0 <= jx < e.samples@.len() && (
                                #[trigger] e.samples@[jx]).consumer == consumer
                                    && e.samples@[jx].kind == fb.id implies e.samples@[jx].value
                                    == value by {
                                    if jx != jj {
                                        assert(e.samples@[jx] == oldsmp[jx]);
                                        if jx < jj {
                                            assert(!(oldsmp[jx].consumer == oldsmp[jj].consumer
                                                && oldsmp[jx].kind == oldsmp[jj].kind));
                                        } else {
                                            assert(!(oldsmp[jj].consumer == oldsmp[jx].consumer
                                                && oldsmp[jj].kind == oldsmp[jx].kind));
                                        }
                                    }
                                }
                                assert(samples_keys_distinct(e.samples@)) by {
                                    assert forall|j1: int, j2: int|
                                        0 <= j1 < j2 < e.samples@.len() implies !((
                                    #[trigger] e.samples@[j1]).consumer == (
                                    #[trigger] e.samples@[j2]).consumer && e.samples@[j1].kind
                                        == e.samples@[j2].kind) by {
                                        assert(e.samples@[j1].consumer == oldsmp[j1].consumer
                                            && e.samples@[j1].kind == oldsmp[j1].kind);
                                        assert(e.samples@[j2].consumer == oldsmp[j2].consumer
                                            && e.samples@[j2].kind == oldsmp[j2].kind);
                                    }
                                }
                                assert forall|jx: int|
                                    0 <= jx < oldsmp.len() && !((#[trigger] oldsmp[jx]).consumer
                                        == consumer && oldsmp[jx].kind
                                        == fb.id) implies e.samples@.contains(oldsmp[jx]) by {
                                    assert(jx != jj);
                                    assert(e.samples@[jx] == oldsmp[jx]);
                                }
                            }
                        },
                        None => {
                            e.samples.push(Sample { consumer, kind: fb.id, value });
                            proof {
                                assert(samples_keys_distinct(e.samples@)) by {
                                    assert forall|j1: int, j2: int|
                                        0 <= j1 < j2 < e.samples@.len() implies !((
                                    #[trigger] e.samples@[j1]).consumer == (
                                    #[trigger] e.samples@[j2]).consumer && e.samples@[j1].kind
                                        == e.samples@[j2].kind) by {
                                        if j2 == e.samples@.len() - 1 {
                                            assert(e.samples@[j1] == oldsmp[j1]);
                                        }
                                    }
                                }
                                assert forall|jx: int|
                                    0 <= jx < e.samples@.len() && (
                                #[trigger] e.samples@[jx]).consumer == consumer
                                    && e.samples@[jx].kind == fb.id implies e.samples@[jx].value
                                    == value by {
                                    if jx < e.samples@.len() - 1 {
                                        assert(e.samples@[jx] == oldsmp[jx]);
                                    }
                                }
                                assert forall|jx: int|
                                    0 <= jx < oldsmp.len() implies e.samples@.contains(
                                    oldsmp[jx],
                                ) by {
                                    assert(e.samples@[jx] == oldsmp[jx]);
                                }
                            }
                        },
                    }
                    proof {
                        assert(entry_has_sample(e, consumer, fb.id)) by {
                            if oldsmp.len() == e.samples@.len() {
                                let jw = choose|jw: int|
                                    0 <= jw < oldsmp.len() && (#[trigger] oldsmp[jw]).consumer
                                        == consumer && oldsmp[jw].kind == fb.id;
                                assert(e.samples@[jw].consumer == consumer && e.samples@[jw].kind
                                    == fb.id);
                            } else {
                                assert(e.samples@[e.samples@.len() - 1].consumer == consumer);
                            }
                        }
                    }
                    // Consolidate: the maximum recorded sample of this kind.
                    let mut best: u64 = value;
                    let ghost jbest = entry_sample_idx(e, consumer, fb.id);
                    proof {
                        assert(0 <= jbest < e.samples@.len() && e.samples@[jbest].consumer
                            == consumer && e.samples@[jbest].kind == fb.id);
                        assert(e.samples@[jbest].value == value);
                    }
                    let n = e.samples.len();
                    for j2 in 0..n
                        invariant
                            n == e.samples@.len(),
                            exists|jj: int|
                                0 <= jj < e.samples@.len() && (#[trigger] e.samples@[jj]).kind
                                    == fb.id && e.samples@[jj].value == best,
                            forall|jj: int|
                                0 <= jj < j2 && (#[trigger] e.samples@[jj]).kind == fb.id
                                    ==> e.samples@[jj].value <= best,
                    {
                        if e.samples[j2].kind == fb.id && e.samples[j2].value > best {
                            best = e.samples[j2].value;
                        }
                    }
                    self.entries.insert(i, e);
                    proof {
                        let ns = self.entries@;
                        assert(ns =~= os.update(ii, ns[ii]));
                        assert(ns[ii].subs@ == os[ii].subs@);
                        assert(entry_wf(ns[ii])) by {
                            if oldsmp.len() == ns[ii].samples@.len() {
                                assert forall|j: int|
                                    0 <= j < ns[ii].samples@.len() implies ns[ii].subs@.contains(
                                    (#[trigger] ns[ii].samples@[j]).consumer,
                                ) by {
                                    assert(ns[ii].samples@[j].consumer == oldsmp[j].consumer);
                                }
                            }
                        }
                        assert(entries_wf(ns));
                        lemma_subs_rel_same_subs(os, ns);
                        lemma_sample_rel_recorded(os, ns, ii, key, value);
                        assert(subs_rel(os).contains((channel, consumer))) by {
                            assert(os[ii].channel == channel && os[ii].subs@.contains(consumer));
                        }
                        // The loop's maximum is the aggregate over the samples map.
                        assert forall|c: FeedbackConsumerId|
                            sample_rel(ns).dom().contains(
                                (channel, c, fb.id),
                            ) implies sample_rel(ns)[(channel, c, fb.id)] <= best by {
                            lemma_sample_rel_dom(ns, (channel, c, fb.id));
                            lemma_entry_idx_unique(ns, ii);
                        }
                        let jw = choose|jj: int|
                            0 <= jj < ns[ii].samples@.len() && (#[trigger] ns[ii].samples@[jj]).kind
                                == fb.id && ns[ii].samples@[jj].value == best;
                        lemma_sample_rel_at(ns, ii, jw);
                    }
                    Some(Feedback { channel, id: fb.id, feedback_type: FeedbackType::Number(best) })
                }
            },
        }
    }

    /// The subscribers currently registered for `channel`, each once, in no
    /// particular order.
    pub fn subscribers(&self, channel: ChannelIdentify) -> (r: Vec<FeedbackConsumerId>)
        requires
            self.wf(),
        ensures
            r@.no_duplicates(),
            forall|c: FeedbackConsumerId| r@.contains(c) <==> self.subs().contains((channel, c)),
    {
        match self.find_entry(channel) {
            None => {
                let r: Vec<FeedbackConsumerId> = Vec::new();
                proof {
                    let s = self.entries@;
                    assert forall|c: FeedbackConsumerId| !self.subs().contains((channel, c)) by {
                        if self.subs().contains((channel, c)) {
                            let iw = choose|iw: int|
                                0 <= iw < s.len() && (#[trigger] s[iw]).channel == channel
                                    && s[iw].subs@.contains(c);
                            assert(s[iw].channel != channel);
                        }
                    }
                }
                r
            },
            Some(i) => {
                let r = copy_consumers(&self.entries[i].subs);
                proof {
                    let s = self.entries@;
                    let ii = i as int;
                    assert forall|c: FeedbackConsumerId|
                        r@.contains(c) <==> self.subs().contains((channel, c)) by {
                        if r@.contains(c) {
                            assert(s[ii].channel == channel && s[ii].subs@.contains(c));
                        }
                        if self.subs().contains((channel, c)) {
                            let iw = choose|iw: int|
                                0 <= iw < s.len() && (#[trigger] s[iw]).channel == channel
                                    && s[iw].subs@.contains(c);
                            lemma_entry_idx_unique(s, iw);
                            lemma_entry_idx_unique(s, ii);
                        }
                    }
                }
                r
            },
        }
    }
}

fn contains_consumer(v: &Vec<FeedbackConsumerId>, c: FeedbackConsumerId) -> (r: bool)
    ensures
        r == v@.contains(c),
{
    let n = v.len();
    for i in 0..n
        invariant
            n == v@.len(),
            forall|k: int| 0 <= k < i ==> v@[k] != c,
    {
        if v[i] == c {
            return true;
        }
    }
    false
}

fn index_of_consumer(v: &Vec<FeedbackConsumerId>, c: FeedbackConsumerId) -> (r: Option<usize>)
    ensures
        match r {
            Some(j) => j < v@.len() && v@[j as int] == c,
            None => !v@.contains(c),
        },
{
    let n = v.len();
    for i in 0..n
        invariant
            n == v@.len(),
            forall|k: int| 0 <= k < i ==> v@[k] != c,
    {
        if v[i] == c {
            return Some(i);
        }
    }
    None
}

fn find_sample(v: &Vec<Sample>, c: FeedbackConsumerId, kind: u8) -> (r: Option<usize>)
    ensures
        match r {
            Some(j) => j < v@.len() && v@[j as int].consumer == c && v@[j as int].kind == kind,
            None => forall|j: int|
                0 <= j < v@.len() ==> !((#[trigger] v@[j]).consumer == c && v@[j].kind == kind),
        },
{
    let n = v.len();
    for i in 0..n
        invariant
            n == v@.len(),
            forall|k: int|
                0 <= k < i ==> !((#[trigger] v@[k]).consumer == c && v@[k].kind == kind),
    {
        if v[i].consumer == c && v[i].kind == kind {
            return Some(i);
        }
    }
    None
}

fn copy_consumers(v: &Vec<FeedbackConsumerId>) -> (r: Vec<FeedbackConsumerId>)
    ensures
        r@ == v@,
{
    let mut r: Vec<FeedbackConsumerId> = Vec::new();
    let n = v.len();
    for i in 0..n
        invariant
            n == v@.len(),
            r@ == v@.take(i as int),
    {
        r.push(v[i]);
        proof {
            assert(r@ =~= v@.take(i as int + 1));
        }
    }
    proof {
        assert(v@.take(n as int) =~= v@);
    }
    r
}

/// The samples kept when one consumer's samples are dropped from an entry.
fn retain_other_consumers(v: &Vec<Sample>, consumer: FeedbackConsumerId) -> (r: Vec<Sample>)
    requires
        samples_keys_distinct(v@),
    ensures
        forall|j2: int|
            0 <= j2 < r@.len() ==> (#[trigger] r@[j2]).consumer != consumer && v@.contains(r@[j2]),
        forall|j1: int|
            0 <= j1 < v@.len() && (#[trigger] v@[j1]).consumer != consumer ==> r@.contains(v@[j1]),
        samples_keys_distinct(r@),
{
    let mut r: Vec<Sample> = Vec::new();
    let n = v.len();
    for i in 0..n
        invariant
            n == v@.len(),
            samples_keys_distinct(v@),
            forall|j2: int|
                0 <= j2 < r@.len() ==> (#[trigger] r@[j2]).consumer != consumer && exists|j1: int|
                    0 <= j1 < i && v@[j1] == r@[j2],
            forall|j1: int|
                0 <= j1 < i && (#[trigger] v@[j1]).consumer != consumer ==> r@.contains(v@[j1]),
            samples_keys_distinct(r@),
    {
        if !(v[i].consumer == consumer) {
            let ghost r_old = r@;
            r.push(v[i]);
            proof {
                assert(v@[i as int] == r@[r@.len() - 1]);
                assert forall|j1: int, j2: int| 0 <= j1 < j2 < r@.len() implies !((
                #[trigger] r@[j1]).consumer == (#[trigger] r@[j2]).consumer && r@[j1].kind
                    == r@[j2].kind) by {
                    if j2 == r@.len() - 1 {
                        let w1 = choose|w1: int| 0 <= w1 < i && v@[w1] == r_old[j1];
                        assert(!(v@[w1].consumer == v@[i as int].consumer && v@[w1].kind
                            == v@[i as int].kind));
                    }
                }
                assert forall|j2: int| 0 <= j2 < r@.len() implies (#[trigger] r@[j2]).consumer
                    != consumer && exists|j1: int| 0 <= j1 < i + 1 && v@[j1] == r@[j2] by {
                    if j2 < r@.len() - 1 {
                        let w1 = choose|w1: int| 0 <= w1 < i && v@[w1] == r_old[j2];
                        assert(v@[w1] == r@[j2]);
                    } else {
                        assert(v@[i as int] == r@[j2]);
                    }
                }
                assert forall|j1: int|
                    0 <= j1 < i + 1 && (#[trigger] v@[j1]).consumer != consumer implies r@.contains(
                    v@[j1],
                ) by {
                    if j1 < i {
                        let w = choose|w: int| 0 <= w < r_old.len() && r_old[w] == v@[j1];
                        assert(r@[w] == v@[j1]);
                    } else {
                        assert(r@[r@.len() - 1] == v@[j1]);
                    }
                }
            }
        }
    }
    r
}

spec fn samples_keys_distinct(s: Seq<Sample>) -> bool {
    forall|j1: int, j2: int|
        0 <= j1 < j2 < s.len() ==> !((#[trigger] s[j1]).consumer == (#[trigger] s[j2]).consumer
            && s[j1].kind == s[j2].kind)
}

/// Entry contents outside the sample vectors are untouched, so the registry
/// relation is unchanged.
proof fn lemma_subs_rel_same_subs(os: Seq<LogicEntry>, ns: Seq<LogicEntry>)
    requires
        os.len() == ns.len(),
        forall|i: int|
            0 <= i < os.len() ==> (#[trigger] ns[i]).channel == os[i].channel && ns[i].subs@
                == os[i].subs@,
    ensures
        subs_rel(ns) == subs_rel(os),
{
    assert forall|p: (ChannelIdentify, FeedbackConsumerId)|
        subs_rel(ns).contains(p) implies subs_rel(os).contains(p) by {
        let iw = choose|iw: int|
            0 <= iw < ns.len() && (#[trigger] ns[iw]).channel == p.0 && ns[iw].subs@.contains(p.1);
        assert(os[iw].channel == p.0 && os[iw].subs@.contains(p.1));
    }
    assert forall|p: (ChannelIdentify, FeedbackConsumerId)|
        subs_rel(os).contains(p) implies subs_rel(ns).contains(p) by {
        let iw = choose|iw: int|
            0 <= iw < os.len() && (#[trigger] os[iw]).channel == p.0 && os[iw].subs@.contains(p.1);
        assert(ns[iw].channel == p.0 && ns[iw].subs@.contains(p.1));
    }
    assert(subs_rel(ns) =~= subs_rel(os));
}

/// Recording one subscriber's sample updates exactly that key of the samples
/// map.
proof fn lemma_sample_rel_recorded(
    os: Seq<LogicEntry>,
    ns: Seq<LogicEntry>,
    ii: int,
    key: (ChannelIdentify, FeedbackConsumerId, u8),
    value: u64,
)
    requires
        entries_wf(os),
        entries_wf(ns),
        0 <= ii < os.len(),
        ns.len() == os.len(),
        forall|i: int| 0 <= i < os.len() && i != ii ==> ns[i] == os[i],
        (#[trigger] ns[ii]).channel == key.0,
        os[ii].channel == key.0,
        entry_has_sample(ns[ii], key.1, key.2),
        forall|jx: int|
            0 <= jx < ns[ii].samples@.len() && (#[trigger] ns[ii].samples@[jx]).consumer == key.1
                && ns[ii].samples@[jx].kind == key.2 ==> ns[ii].samples@[jx].value == value,
        forall|jx: int|
            0 <= jx < ns[ii].samples@.len() ==> ((#[trigger] ns[ii].samples@[jx]).consumer == key.1
                && ns[ii].samples@[jx].kind == key.2) || os[ii].samples@.contains(
                ns[ii].samples@[jx],
            ),
        forall|jx: int|
            0 <= jx < os[ii].samples@.len() && !((#[trigger] os[ii].samples@[jx]).consumer == key.1
                && os[ii].samples@[jx].kind == key.2) ==> ns[ii].samples@.contains(
                os[ii].samples@[jx],
            ),
    ensures
        sample_rel(ns) == sample_rel(os).insert(key, value),
{
    assert forall|k: (ChannelIdentify, FeedbackConsumerId, u8)|
        sample_rel(ns).dom().contains(k) implies sample_rel(os).insert(key, value).dom().contains(
        k,
    ) && sample_rel(ns)[k] == sample_rel(os).insert(key, value)[k] by {
        lemma_sample_rel_dom(ns, k);
        let i = entry_idx(ns, k.0);
        let j = entry_sample_idx(ns[i], k.1, k.2);
        if i == ii {
            if k.1 == key.1 && k.2 == key.2 {
                assert(k == key);
                assert(sample_rel(ns)[k] == value);
            } else {
                assert(os[ii].samples@.contains(ns[ii].samples@[j]));
                let jw = choose|jw: int|
                    0 <= jw < os[ii].samples@.len() && os[ii].samples@[jw] == ns[ii].samples@[j];
                lemma_sample_rel_at(os, ii, jw);
            }
        } else {
            assert(ns[i] == os[i]);
            lemma_sample_rel_at(os, i, j);
            if k == key {
                lemma_entry_idx_unique(ns, ii);
            }
        }
    }
    assert forall|k: (ChannelIdentify, FeedbackConsumerId, u8)|
        sample_rel(os).insert(key, value).dom().contains(k) implies sample_rel(ns).dom().contains(
        k,
    ) by {
        if k == key {
            assert(ns[ii].channel == k.0 && entry_has_sample(ns[ii], k.1, k.2));
        } else {
            lemma_sample_rel_dom(os, k);
            let i = entry_idx(os, k.0);
            let j = entry_sample_idx(os[i], k.1, k.2);
            if i == ii {
                assert(!(os[ii].samples@[j].consumer == key.1 && os[ii].samples@[j].kind == key.2));
                assert(ns[ii].samples@.contains(os[ii].samples@[j]));
                let jw = choose|jw: int|
                    0 <= jw < ns[ii].samples@.len() && ns[ii].samples@[jw] == os[ii].samples@[j];
                assert(entry_has_sample(ns[ii], k.1, k.2));
            } else {
                assert(ns[i] == os[i]);
                assert(ns[i].channel == k.0 && entry_has_sample(ns[i], k.1, k.2));
            }
        }
    }
    assert(sample_rel(ns) =~= sample_rel(os).insert(key, value));
}

/// Entry contents outside the subscriber vectors are untouched, so the
/// samples map is unchanged.
proof fn lemma_sample_rel_same_samples(os: Seq<LogicEntry>, ns: Seq<LogicEntry>)
    requires
        entries_wf(os),
        os.len() == ns.len(),
        forall|i: int|
            0 <= i < os.len() ==> (#[trigger] ns[i]).channel == os[i].channel && ns[i].samples@
                == os[i].samples@,
        forall|i: int, j: int|
            0 <= i < j < ns.len() ==> (#[trigger] ns[i]).channel != (#[trigger] ns[j]).channel,
        forall|i: int| 0 <= i < ns.len() ==> entry_wf(#[trigger] ns[i]),
    ensures
        sample_rel(ns) == sample_rel(os),
{
    assert forall|k: (ChannelIdentify, FeedbackConsumerId, u8)|
        sample_rel(ns).dom().contains(k) implies sample_rel(os).dom().contains(k) && sample_rel(
        ns,
    )[k] == sample_rel(os)[k] by {
        lemma_sample_rel_dom(ns, k);
        let i = entry_idx(ns, k.0);
        let j = entry_sample_idx(ns[i], k.1, k.2);
        assert(os[i].samples@[j].consumer == k.1 && os[i].samples@[j].kind == k.2);
        lemma_sample_rel_at(os, i, j);
    }
    assert forall|k: (ChannelIdentify, FeedbackConsumerId, u8)|
        sample_rel(os).dom().contains(k) implies sample_rel(ns).dom().contains(k) by {
        lemma_sample_rel_dom(os, k);
        let i = entry_idx(os, k.0);
        let j = entry_sample_idx(os[i], k.1, k.2);
        assert(ns[i].channel == k.0);
        assert(ns[i].samples@[j].consumer == k.1 && ns[i].samples@[j].kind == k.2);
        assert(entry_has_sample(ns[i], k.1, k.2));
    }
    assert(sample_rel(ns) =~= sample_rel(os));
}

/// Removing an entry whose only subscriber is `consumer` removes exactly that
/// subscriber's pairs from the registry relation.
proof fn lemma_subs_rel_entry_removed(
    os: Seq<LogicEntry>,
    ns: Seq<LogicEntry>,
    ii: int,
    consumer: FeedbackConsumerId,
)
    requires
        entries_wf(os),
        0 <= ii < os.len(),
        os[ii].subs@.len() == 1,
        os[ii].subs@[0] == consumer,
        ns == os.remove(ii),
    ensures
        entries_wf(ns),
        subs_rel(ns) == subs_rel(os).remove((os[ii].channel, consumer)),
{
    let channel = os[ii].channel;
    let pr = (channel, consumer);
    assert forall|p: (ChannelIdentify, FeedbackConsumerId)| subs_rel(ns).contains(p) implies subs_rel(
        os,
    ).remove(pr).contains(p) by {
        let iw = choose|iw: int|
            0 <= iw < ns.len() && (#[trigger] ns[iw]).channel == p.0 && ns[iw].subs@.contains(p.1);
        let iold: int = if iw < ii {
            iw
        } else {
            iw + 1
        };
        assert(os[iold].channel == p.0 && os[iold].subs@.contains(p.1));
        if p == pr {
            if iold < ii {
                assert(os[iold].channel != os[ii].channel);
            } else {
                assert(os[ii].channel != os[iold].channel);
            }
        }
    }
    assert forall|p: (ChannelIdentify, FeedbackConsumerId)|
        subs_rel(os).remove(pr).contains(p) implies subs_rel(ns).contains(p) by {
        let iw = choose|iw: int|
            0 <= iw < os.len() && (#[trigger] os[iw]).channel == p.0 && os[iw].subs@.contains(p.1);
        if iw == ii {
            assert(p.1 == consumer && p.0 == channel);
        } else {
            let inew: int = if iw < ii {
                iw
            } else {
                iw - 1
            };
            assert(ns[inew].channel == p.0 && ns[inew].subs@.contains(p.1));
        }
    }
    assert(subs_rel(ns) =~= subs_rel(os).remove(pr));
}

/// Removing an entry whose only subscriber is `consumer` removes exactly that
/// subscriber's samples from the samples map.
proof fn lemma_sample_rel_entry_removed(
    os: Seq<LogicEntry>,
    ns: Seq<LogicEntry>,
    ii: int,
    channel: ChannelIdentify,
    consumer: FeedbackConsumerId,
)
    requires
        entries_wf(os),
        0 <= ii < os.len(),
        os[ii].channel == channel,
        os[ii].subs@.len() == 1,
        os[ii].subs@[0] == consumer,
        ns == os.remove(ii),
    ensures
        sample_rel(ns) == drop_samples_of(sample_rel(os), channel, consumer),
{
    assert(entries_wf(ns)) by {
        lemma_subs_rel_entry_removed(os, ns, ii, consumer);
    }
    assert forall|k: (ChannelIdentify, FeedbackConsumerId, u8)|
        sample_rel(ns).dom().contains(k) implies sample_rel(os).dom().contains(k) && !(k.0
        == channel && k.1 == consumer) && sample_rel(ns)[k] == sample_rel(os)[k] by {
        lemma_sample_rel_dom(ns, k);
        let i = entry_idx(ns, k.0);
        let j = entry_sample_idx(ns[i], k.1, k.2);
        let iold: int = if i < ii {
            i
        } else {
            i + 1
        };
        assert(os[iold] == ns[i]);
        lemma_sample_rel_at(os, iold, j);
        if k.0 == channel {
            if iold < ii {
                assert(os[iold].channel != os[ii].channel);
            } else {
                assert(os[ii].channel != os[iold].channel);
            }
        }
    }
    assert forall|k: (ChannelIdentify, FeedbackConsumerId, u8)|
        sample_rel(os).dom().contains(k) && !(k.0 == channel && k.1 == consumer) implies sample_rel(
        ns,
    ).dom().contains(k) by {
        lemma_sample_rel_dom(os, k);
        let i = entry_idx(os, k.0);
        let j = entry_sample_idx(os[i], k.1, k.2);
        if i == ii {
            assert(os[ii].subs@.contains(os[ii].samples@[j].consumer));
            assert(os[ii].samples@[j].consumer == consumer);
            assert(false);
        } else {
            let inew: int = if i < ii {
                i
            } else {
                i - 1
            };
            assert(ns[inew] == os[i]);
            assert(ns[inew].channel == k.0 && entry_has_sample(ns[inew], k.1, k.2));
        }
    }
    assert(sample_rel(ns) =~= drop_samples_of(sample_rel(os), channel, consumer));
}

/// Removing one subscriber, but not the last, from an entry removes exactly
/// that subscriber's pair from the registry relation.
proof fn lemma_subs_rel_sub_removed(
    os: Seq<LogicEntry>,
    ns: Seq<LogicEntry>,
    ii: int,
    pos: int,
    consumer: FeedbackConsumerId,
)
    requires
        entries_wf(os),
        0 <= ii < os.len(),
        ns.len() == os.len(),
        forall|i: int| 0 <= i < os.len() && i != ii ==> ns[i] == os[i],
        (#[trigger] ns[ii]).channel == os[ii].channel,
        0 <= pos < os[ii].subs@.len(),
        os[ii].subs@[pos] == consumer,
        ns[ii].subs@ == os[ii].subs@.remove(pos),
    ensures
        subs_rel(ns) == subs_rel(os).remove((os[ii].channel, consumer)),
        forall|i: int, j: int|
            0 <= i < j < ns.len() ==> (#[trigger] ns[i]).channel != (#[trigger] ns[j]).channel,
        ns[ii].subs@.no_duplicates(),
        forall|x: FeedbackConsumerId|
            ns[ii].subs@.contains(x) <==> os[ii].subs@.contains(x) && x != consumer,
{
    let channel = os[ii].channel;
    let pr = (channel, consumer);
    assert forall|x: FeedbackConsumerId|
        ns[ii].subs@.contains(x) <==> os[ii].subs@.contains(x) && x != consumer by {
        if ns[ii].subs@.contains(x) {
            let jw = choose|jw: int| 0 <= jw < ns[ii].subs@.len() && ns[ii].subs@[jw] == x;
            if jw < pos {
                assert(os[ii].subs@[jw] == x);
                if x == consumer {
                    assert(os[ii].subs@[jw] == os[ii].subs@[pos]);
                }
            } else {
                assert(os[ii].subs@[jw + 1] == x);
                if x == consumer {
                    assert(os[ii].subs@[jw + 1] == os[ii].subs@[pos]);
                }
            }
        }
        if os[ii].subs@.contains(x) && x != consumer {
            let jw = choose|jw: int| 0 <= jw < os[ii].subs@.len() && os[ii].subs@[jw] == x;
            if jw < pos {
                assert(ns[ii].subs@[jw] == x);
            } else {
                assert(jw != pos);
                assert(ns[ii].subs@[jw - 1] == x);
            }
            assert(ns[ii].subs@.contains(x));
        }
    }
    assert(ns[ii].subs@.no_duplicates()) by {
        assert forall|j1: int, j2: int|
            0 <= j1 < j2 < ns[ii].subs@.len() implies ns[ii].subs@[j1] != ns[ii].subs@[j2] by {
            let o1: int = if j1 < pos {
                j1
            } else {
                j1 + 1
            };
            let o2: int = if j2 < pos {
                j2
            } else {
                j2 + 1
            };
            assert(ns[ii].subs@[j1] == os[ii].subs@[o1]);
            assert(ns[ii].subs@[j2] == os[ii].subs@[o2]);
        }
    }
    assert forall|p: (ChannelIdentify, FeedbackConsumerId)| subs_rel(ns).contains(p) implies subs_rel(
        os,
    ).remove(pr).contains(p) by {
        let iw = choose|iw: int|
            0 <= iw < ns.len() && (#[trigger] ns[iw]).channel == p.0 && ns[iw].subs@.contains(p.1);
        if iw == ii {
            assert(os[ii].subs@.contains(p.1) && p.1 != consumer);
            assert(os[iw].channel == p.0 && os[iw].subs@.contains(p.1));
        } else {
            assert(os[iw].channel == p.0 && os[iw].subs@.contains(p.1));
            if p == pr {
                if iw < ii {
                    assert(os[iw].channel != os[ii].channel);
                } else {
                    assert(os[ii].channel != os[iw].channel);
                }
            }
        }
    }
    assert forall|p: (ChannelIdentify, FeedbackConsumerId)|
        subs_rel(os).remove(pr).contains(p) implies subs_rel(ns).contains(p) by {
        let iw = choose|iw: int|
            0 <= iw < os.len() && (#[trigger] os[iw]).channel == p.0 && os[iw].subs@.contains(p.1);
        if iw == ii {
            assert(p.1 != consumer);
            assert(ns[ii].subs@.contains(p.1));
            assert(ns[ii].channel == p.0);
        } else {
            assert(ns[iw].channel == p.0 && ns[iw].subs@.contains(p.1));
        }
    }
    assert(subs_rel(ns) =~= subs_rel(os).remove(pr));
}

/// Dropping one subscriber's samples from an entry removes exactly that
/// subscriber's keys for that pairing from the samples map.
proof fn lemma_sample_rel_samples_filtered(
    os: Seq<LogicEntry>,
    ns: Seq<LogicEntry>,
    ii: int,
    channel: ChannelIdentify,
    consumer: FeedbackConsumerId,
)
    requires
        entries_wf(os),
        0 <= ii < os.len(),
        ns.len() == os.len(),
        forall|i: int| 0 <= i < os.len() && i != ii ==> ns[i] == os[i],
        (#[trigger] ns[ii]).channel == channel,
        os[ii].channel == channel,
        forall|i: int, j: int|
            0 <= i < j < ns.len() ==> (#[trigger] ns[i]).channel != (#[trigger] ns[j]).channel,
        ns[ii].subs@.no_duplicates(),
        ns[ii].subs@.len() > 0,
        forall|x: FeedbackConsumerId|
            ns[ii].subs@.contains(x) <==> os[ii].subs@.contains(x) && x != consumer,
        forall|j2: int|
            0 <= j2 < ns[ii].samples@.len() ==> (#[trigger] ns[ii].samples@[j2]).consumer
                != consumer && os[ii].samples@.contains(ns[ii].samples@[j2]),
        forall|j1: int|
            0 <= j1 < os[ii].samples@.len() && (#[trigger] os[ii].samples@[j1]).consumer
                != consumer ==> ns[ii].samples@.contains(os[ii].samples@[j1]),
        samples_keys_distinct(ns[ii].samples@),
    ensures
        entries_wf(ns),
        sample_rel(ns) == drop_samples_of(sample_rel(os), channel, consumer),
{
    assert(entry_wf(ns[ii])) by {
        assert forall|j: int| 0 <= j < ns[ii].samples@.len() implies ns[ii].subs@.contains(
            (#[trigger] ns[ii].samples@[j]).consumer,
        ) by {
            let smp = ns[ii].samples@[j];
            let jw = choose|jw: int| 0 <= jw < os[ii].samples@.len() && os[ii].samples@[jw] == smp;
            assert(os[ii].subs@.contains(smp.consumer));
        }
    }
    assert forall|k: (ChannelIdentify, FeedbackConsumerId, u8)|
        sample_rel(ns).dom().contains(k) implies sample_rel(os).dom().contains(k) && !(k.0
        == channel && k.1 == consumer) && sample_rel(ns)[k] == sample_rel(os)[k] by {
        lemma_sample_rel_dom(ns, k);
        let i = entry_idx(ns, k.0);
        let j = entry_sample_idx(ns[i], k.1, k.2);
        if i == ii {
            let smp = ns[ii].samples@[j];
            let jw = choose|jw: int| 0 <= jw < os[ii].samples@.len() && os[ii].samples@[jw] == smp;
            lemma_sample_rel_at(os, ii, jw);
        } else {
            lemma_sample_rel_at(os, i, j);
            if k.0 == channel {
                lemma_entry_idx_unique(ns, ii);
            }
        }
    }
    assert forall|k: (ChannelIdentify, FeedbackConsumerId, u8)|
        sample_rel(os).dom().contains(k) && !(k.0 == channel && k.1 == consumer) implies sample_rel(
        ns,
    ).dom().contains(k) by {
        lemma_sample_rel_dom(os, k);
        let i = entry_idx(os, k.0);
        let j = entry_sample_idx(os[i], k.1, k.2);
        if i == ii {
            assert(os[ii].samples@[j].consumer != consumer);
            assert(ns[ii].samples@.contains(os[ii].samples@[j]));
            let jw = choose|jw: int|
                0 <= jw < ns[ii].samples@.len() && ns[ii].samples@[jw] == os[ii].samples@[j];
            assert(entry_has_sample(ns[ii], k.1, k.2));
        } else {
            assert(ns[i].channel == k.0 && entry_has_sample(ns[i], k.1, k.2));
        }
    }
    assert(sample_rel(ns) =~= drop_samples_of(sample_rel(os), channel, consumer));
}

} // verus!
