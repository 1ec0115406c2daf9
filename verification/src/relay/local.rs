//! Delivery of payload bytes to local consumers through bounded queues, and
//! delivery of consolidated feedback to local publishers.

use vstd::prelude::*;
use crate::relay::{ChannelUuid, LocalSubId};
use crate::relay::feedback::Feedback;

verus! {

/// Ghost model of one consumer's delivery queue.
#[verifier::ext_equal]
pub struct QueueModel {
    /// Channel the owning consumer subscribed to.
    pub channel: ChannelUuid,
    /// Buffered payloads, oldest first.
    pub items: Seq<Seq<u8>>,
    /// Fixed capacity chosen at construction.
    pub cap: nat,
    /// Whether the owning consumer has unsubscribed. A closed queue accepts
    /// no further payload; buffered payloads can still be drained.
    pub closed: bool,
}

/// What one non-blocking receive attempt found.
pub enum RecvOutcome {
    /// The oldest buffered payload.
    Payload(Vec<u8>),
    /// Nothing buffered yet; the queue is still open, so the caller may wait
    /// and try again.
    Empty,
    /// End of stream: the queue is closed — or gone — and drained.
    Closed,
}

/// One consumer's delivery queue.
struct QueueSlot {
    sub: LocalSubId,
    channel: ChannelUuid,
    items: Vec<Vec<u8>>,
    cap: usize,
    closed: bool,
}

/// A local publisher's inbox of consolidated feedback, oldest first.
struct PublisherSlot {
    channel: ChannelUuid,
    inbox: Vec<Feedback>,
}

/// Local delivery table: one bounded queue per registered consumer, one
/// feedback inbox per registered local publisher.
///
/// Payload delivery is non-blocking: a publish drops the payload for each
/// consumer whose queue is full and reports those consumers, so the caller
/// can either ignore the report (slow-consumer isolation, the default) or
/// hold the payload and retry it (publisher backpressure).
pub struct LocalRelay {
    slots: Vec<QueueSlot>,
    publishers: Vec<PublisherSlot>,
}

spec fn slot_model(s: QueueSlot) -> QueueModel {
    QueueModel {
        channel: s.channel,
        items: Seq::new(s.items@.len(), |j: int| s.items@[j]@),
        cap: s.cap as nat,
        closed: s.closed,
    }
}

spec fn qidx(s: Seq<QueueSlot>, sub: LocalSubId) -> int {
    choose|i: int| 0 <= i < s.len() && (#[trigger] s[i]).sub == sub
}

spec fn qmap(s: Seq<QueueSlot>) -> Map<LocalSubId, QueueModel> {
    Map::new(
        |sub: LocalSubId| exists|i: int| 0 <= i < s.len() && (#[trigger] s[i]).sub == sub,
        |sub: LocalSubId| slot_model(s[qidx(s, sub)]),
    )
}

spec fn pidx(s: Seq<PublisherSlot>, ch: ChannelUuid) -> int {
    choose|i: int| 0 <= i < s.len() && (#[trigger] s[i]).channel == ch
}

spec fn pmap(s: Seq<PublisherSlot>) -> Map<ChannelUuid, Seq<Feedback>> {
    Map::new(
        |ch: ChannelUuid| exists|i: int| 0 <= i < s.len() && (#[trigger] s[i]).channel == ch,
        |ch: ChannelUuid| s[pidx(s, ch)].inbox@,
    )
}

spec fn slots_wf(s: Seq<QueueSlot>) -> bool {
    &&& forall|i: int, j: int|
        0 <= i < j < s.len() ==> (#[trigger] s[i]).sub != (#[trigger] s[j]).sub
    &&& forall|i: int| 0 <= i < s.len() ==> (#[trigger] s[i]).items@.len() <= s[i].cap
}

spec fn pubs_wf(s: Seq<PublisherSlot>) -> bool {
    forall|i: int, j: int|
        0 <= i < j < s.len() ==> (#[trigger] s[i]).channel != (#[trigger] s[j]).channel
}

/// The model of a queue whose consumer has unsubscribed.
pub open spec fn closed_model(q: QueueModel) -> QueueModel {
    QueueModel { closed: true, ..q }
}

/// Whether a publish on `channel` enqueues into this queue.
pub open spec fn accepts(q: QueueModel, channel: ChannelUuid) -> bool {
    q.channel == channel && !q.closed && q.items.len() < q.cap
}

/// Whether a publish on `channel` is dropped at this queue for want of room.
pub open spec fn saturated(q: QueueModel, channel: ChannelUuid) -> bool {
    q.channel == channel && !q.closed && q.items.len() >= q.cap
}

/// The model of a queue after one payload is enqueued.
pub open spec fn delivered_model(q: QueueModel, payload: Seq<u8>) -> QueueModel {
    QueueModel { items: q.items.push(payload), ..q }
}

/// The model of a queue after its oldest payload is taken.
pub open spec fn popped_model(q: QueueModel) -> QueueModel {
    QueueModel { items: q.items.skip(1), ..q }
}

/// Mid-publish bookkeeping: every reported consumer owns a saturated queue
/// somewhere in the table.
spec fn dropped_from(os: Seq<QueueSlot>, dropped: Seq<LocalSubId>, channel: ChannelUuid) -> bool {
    forall|j: int|
        #![trigger dropped[j]]
        0 <= j < dropped.len() ==> exists|k: int|
            0 <= k < os.len() && (#[trigger] os[k]).sub == dropped[j] && saturated(
                slot_model(os[k]),
                channel,
            )
}

proof fn lemma_qidx_unique(s: Seq<QueueSlot>, i: int)
    requires
        slots_wf(s),
        0 <= i < s.len(),
    ensures
        qidx(s, s[i].sub) == i,
{
    let sub = s[i].sub;
    assert(0 <= i < s.len() && s[i].sub == sub);
    let i2 = qidx(s, sub);
    if i2 != i {
        if i2 < i {
            assert(s[i2].sub != s[i].sub);
        } else {
            assert(s[i].sub != s[i2].sub);
        }
    }
}

proof fn lemma_pidx_unique(s: Seq<PublisherSlot>, i: int)
    requires
        pubs_wf(s),
        0 <= i < s.len(),
    ensures
        pidx(s, s[i].channel) == i,
{
    let ch = s[i].channel;
    assert(0 <= i < s.len() && s[i].channel == ch);
    let i2 = pidx(s, ch);
    if i2 != i {
        if i2 < i {
            assert(s[i2].channel != s[i].channel);
        } else {
            assert(s[i].channel != s[i2].channel);
        }
    }
}

/// Appending a slot with a fresh identifier inserts its queue into the map.
proof fn lemma_qmap_push(os: Seq<QueueSlot>, ns: Seq<QueueSlot>)
    requires
        slots_wf(ns),
        ns.len() == os.len() + 1,
        forall|i: int| 0 <= i < os.len() ==> ns[i] == os[i],
    ensures
        qmap(ns) == qmap(os).insert(ns[ns.len() - 1].sub, slot_model(ns[ns.len() - 1])),
{
    let le = ns.len() - 1;
    let sub = ns[le].sub;
    assert forall|x: LocalSubId| #[trigger] qmap(ns).dom().contains(x) implies qmap(
        os,
    ).insert(sub, slot_model(ns[le])).dom().contains(x) && qmap(ns)[x] == qmap(os).insert(
        sub,
        slot_model(ns[le]),
    )[x] by {
        let iw = choose|iw: int| 0 <= iw < ns.len() && (#[trigger] ns[iw]).sub == x;
        lemma_qidx_unique(ns, iw);
        if iw < le {
            assert(os[iw].sub == x);
            lemma_qidx_unique(os, iw);
            assert(x != sub);
        }
    }
    assert forall|x: LocalSubId| #[trigger] qmap(os).insert(
        sub,
        slot_model(ns[le]),
    ).dom().contains(x) implies qmap(ns).dom().contains(x) by {
        if x == sub {
            assert(ns[le].sub == x);
        } else {
            let iw = choose|iw: int| 0 <= iw < os.len() && (#[trigger] os[iw]).sub == x;
            assert(ns[iw].sub == x);
        }
    }
    assert(qmap(ns) =~= qmap(os).insert(sub, slot_model(ns[le])));
}

/// Replacing the slot of one identifier overwrites its queue in the map.
proof fn lemma_qmap_update(os: Seq<QueueSlot>, ns: Seq<QueueSlot>, ii: int)
    requires
        slots_wf(os),
        0 <= ii < os.len(),
        ns.len() == os.len(),
        forall|i: int| 0 <= i < os.len() && i != ii ==> ns[i] == os[i],
        (#[trigger] ns[ii]).sub == os[ii].sub,
        slots_wf(ns),
    ensures
        qmap(ns) == qmap(os).insert(os[ii].sub, slot_model(ns[ii])),
{
    let sub = os[ii].sub;
    assert forall|x: LocalSubId| #[trigger] qmap(ns).dom().contains(x) implies qmap(
        os,
    ).insert(sub, slot_model(ns[ii])).dom().contains(x) && qmap(ns)[x] == qmap(os).insert(
        sub,
        slot_model(ns[ii]),
    )[x] by {
        let iw = choose|iw: int| 0 <= iw < ns.len() && (#[trigger] ns[iw]).sub == x;
        lemma_qidx_unique(ns, iw);
        if iw == ii {
            if x != sub {
                assert(false);
            }
        } else {
            assert(os[iw].sub == x);
            lemma_qidx_unique(os, iw);
            if x == sub {
                lemma_qidx_unique(os, ii);
            }
        }
    }
    assert forall|x: LocalSubId| #[trigger] qmap(os).insert(
        sub,
        slot_model(ns[ii]),
    ).dom().contains(x) implies qmap(ns).dom().contains(x) by {
        if x == sub {
            assert(ns[ii].sub == x);
        } else {
            let iw = choose|iw: int| 0 <= iw < os.len() && (#[trigger] os[iw]).sub == x;
            assert(ns[iw].sub == x);
        }
    }
    assert(qmap(ns) =~= qmap(os).insert(sub, slot_model(ns[ii])));
}

/// Removing the slot of one identifier removes its queue from the map.
proof fn lemma_qmap_remove(os: Seq<QueueSlot>, ns: Seq<QueueSlot>, ii: int)
    requires
        slots_wf(os),
        0 <= ii < os.len(),
        ns == os.remove(ii),
    ensures
        slots_wf(ns),
        qmap(ns) == qmap(os).remove(os[ii].sub),
{
    let sub = os[ii].sub;
    assert forall|i: int, j: int| 0 <= i < j < ns.len() implies (#[trigger] ns[i]).sub != (
    #[trigger] ns[j]).sub by {
        let o1: int = if i < ii {
            i
        } else {
            i + 1
        };
        let o2: int = if j < ii {
            j
        } else {
            j + 1
        };
        assert(ns[i] == os[o1] && ns[j] == os[o2]);
    }
    assert forall|i: int| 0 <= i < ns.len() implies (#[trigger] ns[i]).items@.len()
        <= ns[i].cap by {
        let o: int = if i < ii {
            i
        } else {
            i + 1
        };
        assert(ns[i] == os[o]);
    }
    assert forall|x: LocalSubId| #[trigger] qmap(ns).dom().contains(x) implies qmap(os).remove(
        sub,
    ).dom().contains(x) && qmap(ns)[x] == qmap(os).remove(sub)[x] by {
        let iw = choose|iw: int| 0 <= iw < ns.len() && (#[trigger] ns[iw]).sub == x;
        lemma_qidx_unique(ns, iw);
        let iold: int = if iw < ii {
            iw
        } else {
            iw + 1
        };
        assert(ns[iw] == os[iold]);
        lemma_qidx_unique(os, iold);
        if x == sub {
            lemma_qidx_unique(os, ii);
        }
    }
    assert forall|x: LocalSubId| #[trigger] qmap(os).remove(sub).dom().contains(x) implies qmap(
        ns,
    ).dom().contains(x) by {
        let iw = choose|iw: int| 0 <= iw < os.len() && (#[trigger] os[iw]).sub == x;
        if iw == ii {
            assert(false);
        }
        let inew: int = if iw < ii {
            iw
        } else {
            iw - 1
        };
        assert(ns[inew] == os[iw]);
    }
    assert(qmap(ns) =~= qmap(os).remove(sub));
}

/// Appending an inbox for a fresh channel inserts it into the map.
proof fn lemma_pmap_push(os: Seq<PublisherSlot>, ns: Seq<PublisherSlot>)
    requires
        pubs_wf(ns),
        ns.len() == os.len() + 1,
        forall|i: int| 0 <= i < os.len() ==> ns[i] == os[i],
    ensures
        pmap(ns) == pmap(os).insert(ns[ns.len() - 1].channel, ns[ns.len() - 1].inbox@),
{
    let le = ns.len() - 1;
    let ch = ns[le].channel;
    assert forall|x: ChannelUuid| #[trigger] pmap(ns).dom().contains(x) implies pmap(
        os,
    ).insert(ch, ns[le].inbox@).dom().contains(x) && pmap(ns)[x] == pmap(os).insert(
        ch,
        ns[le].inbox@,
    )[x] by {
        let iw = choose|iw: int| 0 <= iw < ns.len() && (#[trigger] ns[iw]).channel == x;
        lemma_pidx_unique(ns, iw);
        if iw < le {
            assert(os[iw].channel == x);
            lemma_pidx_unique(os, iw);
            assert(x != ch);
        }
    }
    assert forall|x: ChannelUuid| #[trigger] pmap(os).insert(
        ch,
        ns[le].inbox@,
    ).dom().contains(x) implies pmap(ns).dom().contains(x) by {
        if x == ch {
            assert(ns[le].channel == x);
        } else {
            let iw = choose|iw: int| 0 <= iw < os.len() && (#[trigger] os[iw]).channel == x;
            assert(ns[iw].channel == x);
        }
    }
    assert(pmap(ns) =~= pmap(os).insert(ch, ns[le].inbox@));
}

/// Replacing the inbox of one channel overwrites it in the map.
proof fn lemma_pmap_update(os: Seq<PublisherSlot>, ns: Seq<PublisherSlot>, ii: int)
    requires
        pubs_wf(os),
        0 <= ii < os.len(),
        ns.len() == os.len(),
        forall|i: int| 0 <= i < os.len() && i != ii ==> ns[i] == os[i],
        (#[trigger] ns[ii]).channel == os[ii].channel,
    ensures
        pubs_wf(ns),
        pmap(ns) == pmap(os).insert(os[ii].channel, ns[ii].inbox@),
{
    let ch = os[ii].channel;
    assert forall|i: int, j: int| 0 <= i < j < ns.len() implies (#[trigger] ns[i]).channel != (
    #[trigger] ns[j]).channel by {
        assert(ns[i].channel == os[i].channel && ns[j].channel == os[j].channel);
    }
    assert forall|x: ChannelUuid| #[trigger] pmap(ns).dom().contains(x) implies pmap(
        os,
    ).insert(ch, ns[ii].inbox@).dom().contains(x) && pmap(ns)[x] == pmap(os).insert(
        ch,
        ns[ii].inbox@,
    )[x] by {
        let iw = choose|iw: int| 0 <= iw < ns.len() && (#[trigger] ns[iw]).channel == x;
        lemma_pidx_unique(ns, iw);
        if iw == ii {
            assert(x == ch);
        } else {
            assert(os[iw].channel == x);
            lemma_pidx_unique(os, iw);
            if x == ch {
                lemma_pidx_unique(os, ii);
            }
        }
    }
    assert forall|x: ChannelUuid| #[trigger] pmap(os).insert(
        ch,
        ns[ii].inbox@,
    ).dom().contains(x) implies pmap(ns).dom().contains(x) by {
        if x == ch {
            assert(ns[ii].channel == x);
        } else {
            let iw = choose|iw: int| 0 <= iw < os.len() && (#[trigger] os[iw]).channel == x;
            assert(ns[iw].channel == x);
        }
    }
    assert(pmap(ns) =~= pmap(os).insert(ch, ns[ii].inbox@));
}

/// Removing the inbox of one channel removes it from the map.
proof fn lemma_pmap_remove(os: Seq<PublisherSlot>, ns: Seq<PublisherSlot>, ii: int)
    requires
        pubs_wf(os),
        0 <= ii < os.len(),
        ns == os.remove(ii),
    ensures
        pubs_wf(ns),
        pmap(ns) == pmap(os).remove(os[ii].channel),
{
    let ch = os[ii].channel;
    assert forall|i: int, j: int| 0 <= i < j < ns.len() implies (#[trigger] ns[i]).channel != (
    #[trigger] ns[j]).channel by {
        let o1: int = if i < ii {
            i
        } else {
            i + 1
        };
        let o2: int = if j < ii {
            j
        } else {
            j + 1
        };
        assert(ns[i] == os[o1] && ns[j] == os[o2]);
    }
    assert forall|x: ChannelUuid| #[trigger] pmap(ns).dom().contains(x) implies pmap(os).remove(
        ch,
    ).dom().contains(x) && pmap(ns)[x] == pmap(os).remove(ch)[x] by {
        let iw = choose|iw: int| 0 <= iw < ns.len() && (#[trigger] ns[iw]).channel == x;
        lemma_pidx_unique(ns, iw);
        let iold: int = if iw < ii {
            iw
        } else {
            iw + 1
        };
        assert(ns[iw] == os[iold]);
        lemma_pidx_unique(os, iold);
        if x == ch {
            lemma_pidx_unique(os, ii);
        }
    }
    assert forall|x: ChannelUuid| #[trigger] pmap(os).remove(ch).dom().contains(x) implies pmap(
        ns,
    ).dom().contains(x) by {
        let iw = choose|iw: int| 0 <= iw < os.len() && (#[trigger] os[iw]).channel == x;
        if iw == ii {
            assert(false);
        }
        let inew: int = if iw < ii {
            iw
        } else {
            iw - 1
        };
        assert(ns[inew] == os[iw]);
    }
    assert(pmap(ns) =~= pmap(os).remove(ch));
}

fn copy_bytes(v: &Vec<u8>) -> (r: Vec<u8>)
    ensures
        r@ == v@,
{
    let mut r: Vec<u8> = Vec::new();
    let n = v.len();
    for i in 0..n
        invariant
            n == v@.len(),
            r@ == v@.take(i as int),
    {
        r.push(v[i]);
        proof {
            assert(r@ =~= v@.take(i as int + 1));
        }
    }
    proof {
        assert(v@.take(n as int) =~= v@);
    }
    r
}

impl LocalRelay {
    pub fn new() -> (r: LocalRelay)
        ensures
            r.wf(),
            r.queues() == Map::<LocalSubId, QueueModel>::empty(),
            r.inboxes() == Map::<ChannelUuid, Seq<Feedback>>::empty(),
    {
        let r = LocalRelay { slots: Vec::new(), publishers: Vec::new() };
        proof {
            assert(r.queues() =~= Map::<LocalSubId, QueueModel>::empty());
            assert(r.inboxes() =~= Map::<ChannelUuid, Seq<Feedback>>::empty());
        }
        r
    }

    /// Every registered consumer's delivery queue.
    pub closed spec fn queues(self) -> Map<LocalSubId, QueueModel> {
        qmap(self.slots@)
    }

    /// Every registered local publisher's feedback inbox.
    pub closed spec fn inboxes(self) -> Map<ChannelUuid, Seq<Feedback>> {
        pmap(self.publishers@)
    }

    pub closed spec fn wf(self) -> bool {
        slots_wf(self.slots@) && pubs_wf(self.publishers@)
    }

    fn find_slot(&self, sub: LocalSubId) -> (r: Option<usize>)
        ensures
            match r {
                Some(i) => i < self.slots@.len() && self.slots@[i as int].sub == sub,
                None => forall|i: int|
                    0 <= i < self.slots@.len() ==> (#[trigger] self.slots@[i]).sub != sub,
            },
    {
        let n = self.slots.len();
        for i in 0..n
            invariant
                n == self.slots@.len(),
                forall|k: int| 0 <= k < i ==> (#[trigger] self.slots@[k]).sub != sub,
        {
            if self.slots[i].sub == sub {
                return Some(i);
            }
        }
        None
    }

    fn find_publisher(&self, channel: ChannelUuid) -> (r: Option<usize>)
        ensures
            match r {
                Some(i) => i < self.publishers@.len() && self.publishers@[i as int].channel
                    == channel,
                None => forall|i: int|
                    0 <= i < self.publishers@.len() ==> (#[trigger] self.publishers@[i]).channel
                        != channel,
            },
    {
        let n = self.publishers.len();
        for i in 0..n
            invariant
                n == self.publishers@.len(),
                forall|k: int| 0 <= k < i ==> (#[trigger] self.publishers@[k]).channel != channel,
        {
            if self.publishers[i].channel == channel {
                return Some(i);
            }
        }
        None
    }

    /// Registers the delivery queue of consumer `uuid` on `channel`, empty,
    /// open, with room for `max_queue_size` payloads. A queue registered
    /// earlier under the same identifier is discarded.
    pub fn on_local_sub(&mut self, uuid: LocalSubId, channel: ChannelUuid, max_queue_size: usize)
        requires
            old(self).wf(),
        ensures
            final(self).wf(),
            final(self).queues() == old(self).queues().insert(
                uuid,
                QueueModel {
                    channel,
                    items: Seq::<Seq<u8>>::empty(),
                    cap: max_queue_size as nat,
                    closed: false,
                },
            ),
            final(self).inboxes() == old(self).inboxes(),
    {
        let ghost os = self.slots@;
        let slot = QueueSlot { sub: uuid, channel, items: Vec::new(), cap: max_queue_size, closed: false };
        match self.find_slot(uuid) {
            Some(i) => {
                let _ = self.slots.remove(i);
                proof {
                    lemma_qmap_remove(os, self.slots@, i as int);
                }
                let ghost mid = self.slots@;
                self.slots.push(slot);
                proof {
                    let ns = self.slots@;
                    let le = ns.len() - 1;
                    assert(slots_wf(ns)) by {
                        assert forall|i1: int, j1: int|
                            0 <= i1 < j1 < ns.len() implies (#[trigger] ns[i1]).sub != (
                        #[trigger] ns[j1]).sub by {
                            if j1 == le {
                                assert(!qmap(mid).dom().contains(uuid));
                                assert(mid[i1].sub == ns[i1].sub);
                                if ns[i1].sub == uuid {
                                    assert(qmap(mid).dom().contains(uuid));
                                }
                            }
                        }
                    }
                    lemma_qmap_push(mid, ns);
                    assert(slot_model(ns[le]) =~= QueueModel {
                        channel,
                        items: Seq::<Seq<u8>>::empty(),
                        cap: max_queue_size as nat,
                        closed: false,
                    });
                    assert(final(self).queues() =~= old(self).queues().insert(
                        uuid,
                        QueueModel {
                            channel,
                            items: Seq::<Seq<u8>>::empty(),
                            cap: max_queue_size as nat,
                            closed: false,
                        },
                    ));
                }
            },
            None => {
                self.slots.push(slot);
                proof {
                    let ns = self.slots@;
                    let le = ns.len() - 1;
                    assert(slots_wf(ns)) by {
                        assert forall|i1: int, j1: int|
                            0 <= i1 < j1 < ns.len() implies (#[trigger] ns[i1]).sub != (
                        #[trigger] ns[j1]).sub by {
                            if j1 == le {
                                assert(os[i1].sub != uuid);
                            }
                        }
                    }
                    lemma_qmap_push(os, ns);
                    assert(slot_model(ns[le]) =~= QueueModel {
                        channel,
                        items: Seq::<Seq<u8>>::empty(),
                        cap: max_queue_size as nat,
                        closed: false,
                    });
                }
            },
        }
    }

    /// Removes consumer `uuid` from delivery: its queue is closed, so no
    /// later publish reaches it; already-buffered payloads stay drainable.
    pub fn on_local_unsub(&mut self, uuid: LocalSubId)
        requires
            old(self).wf(),
        ensures
            final(self).wf(),
            final(self).inboxes() == old(self).inboxes(),
            final(self).queues() == if old(self).queues().dom().contains(uuid) {
                old(self).queues().insert(uuid, closed_model(old(self).queues()[uuid]))
            } else {
                old(self).queues()
            },
    {
        let ghost os = self.slots@;
        match self.find_slot(uuid) {
            Some(i) => {
                let mut slot = self.slots.remove(i);
                slot.closed = true;
                self.slots.insert(i, slot);
                proof {
                    let ns = self.slots@;
                    let ii = i as int;
                    assert(ns =~= os.update(ii, ns[ii]));
                    assert(slots_wf(ns)) by {
                        assert forall|i1: int, j1: int|
                            0 <= i1 < j1 < ns.len() implies (#[trigger] ns[i1]).sub != (
                        #[trigger] ns[j1]).sub by {
                            assert(ns[i1].sub == os[i1].sub && ns[j1].sub == os[j1].sub);
                        }
                        assert forall|i1: int| 0 <= i1 < ns.len() implies (
                        #[trigger] ns[i1]).items@.len() <= ns[i1].cap by {
                            if i1 != ii {
                                assert(ns[i1] == os[i1]);
                            }
                        }
                    }
                    lemma_qmap_update(os, ns, ii);
                    lemma_qidx_unique(os, ii);
                    assert(qmap(os).dom().contains(uuid)) by {
                        assert(os[ii].sub == uuid);
                    }
                    assert(slot_model(ns[ii]) =~= closed_model(qmap(os)[uuid]));
                }
            },
            None => {
                proof {
                    if qmap(os).dom().contains(uuid) {
                        let iw = choose|iw: int|
                            0 <= iw < os.len() && (#[trigger] os[iw]).sub == uuid;
                        assert(os[iw].sub != uuid);
                    }
                }
            },
        }
    }

    /// Pushes `payload` into the open queue of every consumer subscribed to
    /// `channel` that has room, and reports the consumers whose full queue
    /// made the payload be dropped for them. Closed or absent queues are
    /// untouched, and a full queue is never an error.
    pub fn publish(&mut self, channel: ChannelUuid, payload: &Vec<u8>) -> (r: Vec<LocalSubId>)
        requires
            old(self).wf(),
        ensures
            final(self).wf(),
            final(self).inboxes() == old(self).inboxes(),
            final(self).queues().dom() == old(self).queues().dom(),
            forall|sub: LocalSubId| #[trigger]
                old(self).queues().dom().contains(sub) ==> final(self).queues()[sub] == if accepts(
                    old(self).queues()[sub],
                    channel,
                ) {
                    delivered_model(old(self).queues()[sub], payload@)
                } else {
                    old(self).queues()[sub]
                },
            forall|sub: LocalSubId|
                #![trigger r@.contains(sub)]
                #![trigger old(self).queues().dom().contains(sub)]
                r@.contains(sub) <==> old(self).queues().dom().contains(sub) && saturated(
                    old(self).queues()[sub],
                    channel,
                ),
            r@.no_duplicates(),
    {
        let ghost os = self.slots@;
        let mut dropped: Vec<LocalSubId> = Vec::new();
        let n = self.slots.len();
        let mut i: usize = 0;
        while i < n
            invariant
                i <= n,
                n == os.len(),
                slots_wf(os),
                self.slots@.len() == os.len(),
                slots_wf(self.slots@),
                self.publishers@ == old(self).publishers@,
                forall|k: int|
                    0 <= k < os.len() ==> (#[trigger] self.slots@[k]).sub == os[k].sub,
                forall|k: int| i <= k < os.len() ==> #[trigger] self.slots@[k] == os[k],
                forall|k: int|
                    0 <= k < i ==> slot_model(#[trigger] self.slots@[k]) == if accepts(
                        slot_model(os[k]),
                        channel,
                    ) {
                        delivered_model(slot_model(os[k]), payload@)
                    } else {
                        slot_model(os[k])
                    },
                dropped_from(os, dropped@, channel),
                forall|k: int|
                    0 <= k < i && saturated(slot_model(#[trigger] os[k]), channel)
                        ==> dropped@.contains(os[k].sub),
                forall|k: int, j: int|
                    #![trigger dropped@[j], os[k]]
                    i <= k < os.len() && 0 <= j < dropped@.len() ==> dropped@[j] != os[k].sub,
                dropped@.no_duplicates(),
            decreases n - i,
        {
            let ghost mid = self.slots@;
            let ghost dr_old = dropped@;
            if self.slots[i].channel == channel && !self.slots[i].closed {
                if self.slots[i].items.len() < self.slots[i].cap {
                    let mut slot = self.slots.remove(i);
                    slot.items.push(copy_bytes(payload));
                    self.slots.insert(i, slot);
                    proof {
                        let ns = self.slots@;
                        let ii = i as int;
                        assert(ns =~= mid.update(ii, ns[ii]));
                        assert(slot_model(ns[ii]) =~= delivered_model(slot_model(os[ii]), payload@));
                        assert(slots_wf(ns)) by {
                            assert forall|i1: int, j1: int|
                                0 <= i1 < j1 < ns.len() implies (#[trigger] ns[i1]).sub != (
                            #[trigger] ns[j1]).sub by {
                                assert(ns[i1].sub == mid[i1].sub && ns[j1].sub == mid[j1].sub);
                            }
                            assert forall|i1: int| 0 <= i1 < ns.len() implies (
                            #[trigger] ns[i1]).items@.len() <= ns[i1].cap by {
                                if i1 != ii {
                                    assert(ns[i1] == mid[i1]);
                                }
                            }
                        }
                        assert(!saturated(slot_model(os[ii]), channel));
                    }
                } else {
                    dropped.push(self.slots[i].sub);
                    proof {
                        let ii = i as int;
                        assert(saturated(slot_model(os[ii]), channel));
                        assert(dropped@[dropped@.len() - 1] == os[ii].sub);
                        assert(dropped_from(os, dropped@, channel)) by {
                            assert forall|j: int| #![trigger dropped@[j]] 0 <= j
                                < dropped@.len() implies exists|k: int|
                                0 <= k < os.len() && (#[trigger] os[k]).sub == dropped@[j]
                                    && saturated(slot_model(os[k]), channel) by {
                                if j < dropped@.len() - 1 {
                                    assert(dropped@[j] == dr_old[j]);
                                    let kw = choose|kw: int|
                                        0 <= kw < os.len() && (#[trigger] os[kw]).sub == dr_old[j]
                                            && saturated(slot_model(os[kw]), channel);
                                    assert(os[kw].sub == dropped@[j] && saturated(
                                        slot_model(os[kw]),
                                        channel,
                                    ));
                                } else {
                                    assert(os[ii].sub == dropped@[j]);
                                }
                            }
                        }
                        assert forall|k: int|
                            0 <= k < i + 1 && saturated(
                                slot_model(#[trigger] os[k]),
                                channel,
                            ) implies dropped@.contains(os[k].sub) by {
                            if k < i {
                                let jw = choose|jw: int|
                                    0 <= jw < dr_old.len() && dr_old[jw] == os[k].sub;
                                assert(dropped@[jw] == os[k].sub);
                            } else {
                                assert(dropped@[dropped@.len() - 1] == os[k].sub);
                            }
                        }
                        assert forall|k: int, j: int|
                            #![trigger dropped@[j], os[k]]
                            i + 1 <= k < os.len() && 0 <= j < dropped@.len() implies dropped@[j]
                            != os[k].sub by {
                            if j < dropped@.len() - 1 {
                                assert(dropped@[j] == dr_old[j]);
                                assert(dr_old[j] != os[k].sub);
                            } else {
                                assert(dropped@[j] == os[ii].sub);
                                assert(os[ii].sub != os[k].sub);
                            }
                        }
                        assert(dropped@.no_duplicates()) by {
                            assert forall|j1: int, j2: int|
                                0 <= j1 < j2 < dropped@.len() implies dropped@[j1]
                                != dropped@[j2] by {
                                if j2 == dropped@.len() - 1 {
                                    assert(dr_old[j1] != os[ii].sub);
                                }
                            }
                        }
                    }
                }
            } else {
                proof {
                    let ii = i as int;
                    assert(!accepts(slot_model(os[ii]), channel) && !saturated(
                        slot_model(os[ii]),
                        channel,
                    ));
                }
            }
            i = i + 1;
        }
        proof {
            let ns = self.slots@;
            assert(final(self).inboxes() == old(self).inboxes());
            assert forall|sub: LocalSubId| #[trigger] qmap(os).dom().contains(sub) implies qmap(
                ns,
            ).dom().contains(sub) && qmap(ns)[sub] == (if accepts(qmap(os)[sub], channel) {
                delivered_model(qmap(os)[sub], payload@)
            } else {
                qmap(os)[sub]
            }) by {
                let kw = choose|kw: int| 0 <= kw < os.len() && (#[trigger] os[kw]).sub == sub;
                lemma_qidx_unique(os, kw);
                assert(ns[kw].sub == sub);
                lemma_qidx_unique(ns, kw);
            }
            assert forall|sub: LocalSubId| #[trigger] qmap(ns).dom().contains(sub) implies qmap(
                os,
            ).dom().contains(sub) by {
                let kw = choose|kw: int| 0 <= kw < ns.len() && (#[trigger] ns[kw]).sub == sub;
                assert(os[kw].sub == sub);
            }
            assert(qmap(ns).dom() =~= qmap(os).dom());
            assert forall|sub: LocalSubId|
                #![trigger dropped@.contains(sub)]
                #![trigger qmap(os).dom().contains(sub)]
                dropped@.contains(sub) <==> qmap(os).dom().contains(sub) && saturated(
                    qmap(os)[sub],
                    channel,
                ) by {
                if dropped@.contains(sub) {
                    let jw = choose|jw: int| 0 <= jw < dropped@.len() && dropped@[jw] == sub;
                    let kw = choose|kw: int|
                        0 <= kw < os.len() && (#[trigger] os[kw]).sub == dropped@[jw] && saturated(
                            slot_model(os[kw]),
                            channel,
                        );
                    lemma_qidx_unique(os, kw);
                    assert(qmap(os).dom().contains(sub));
                }
                if qmap(os).dom().contains(sub) && saturated(qmap(os)[sub], channel) {
                    let kw = choose|kw: int| 0 <= kw < os.len() && (#[trigger] os[kw]).sub == sub;
                    lemma_qidx_unique(os, kw);
                    assert(dropped@.contains(os[kw].sub));
                }
            }
        }
        dropped
    }

    /// Registers a local publisher's feedback inbox for `channel`, empty. A
    /// publisher already registered for the channel keeps its inbox.
    pub fn on_local_pub(&mut self, channel: ChannelUuid)
        requires
            old(self).wf(),
        ensures
            final(self).wf(),
            final(self).queues() == old(self).queues(),
            final(self).inboxes() == if old(self).inboxes().dom().contains(channel) {
                old(self).inboxes()
            } else {
                old(self).inboxes().insert(channel, Seq::<Feedback>::empty())
            },
    {
        let ghost os = self.publishers@;
        match self.find_publisher(channel) {
            Some(_) => {
                proof {
                    let iw = choose|iw: int|
                        0 <= iw < os.len() && (#[trigger] os[iw]).channel == channel;
                }
            },
            None => {
                proof {
                    if pmap(os).dom().contains(channel) {
                        let iw = choose|iw: int|
                            0 <= iw < os.len() && (#[trigger] os[iw]).channel == channel;
                        assert(os[iw].channel != channel);
                    }
                }
                self.publishers.push(PublisherSlot { channel, inbox: Vec::new() });
                proof {
                    let ns = self.publishers@;
                    assert(pubs_wf(ns)) by {
                        assert forall|i1: int, j1: int|
                            0 <= i1 < j1 < ns.len() implies (#[trigger] ns[i1]).channel != (
                        #[trigger] ns[j1]).channel by {
                            if j1 == ns.len() - 1 {
                                assert(os[i1].channel != channel);
                            }
                        }
                    }
                    lemma_pmap_push(os, ns);
                    assert(ns[ns.len() - 1].inbox@ =~= Seq::<Feedback>::empty());
                }
            },
        }
    }

    /// Removes the local publisher of `channel`, with whatever feedback was
    /// still in its inbox.
    pub fn on_local_unpub(&mut self, channel: ChannelUuid)
        requires
            old(self).wf(),
        ensures
            final(self).wf(),
            final(self).queues() == old(self).queues(),
            final(self).inboxes() == old(self).inboxes().remove(channel),
    {
        let ghost os = self.publishers@;
        match self.find_publisher(channel) {
            Some(i) => {
                let _ = self.publishers.remove(i);
                proof {
                    lemma_pmap_remove(os, self.publishers@, i as int);
                }
            },
            None => {
                proof {
                    if pmap(os).dom().contains(channel) {
                        let iw = choose|iw: int|
                            0 <= iw < os.len() && (#[trigger] os[iw]).channel == channel;
                        assert(os[iw].channel != channel);
                    }
                    assert(pmap(os).remove(channel) =~= pmap(os));
                }
            },
        }
    }

    /// Hands a consolidated feedback sample to whatever local entity
    /// publishes on `channel`; a no-op when the channel has no local
    /// publisher.
    pub fn feedback(&mut self, channel: ChannelUuid, fb: Feedback)
        requires
            old(self).wf(),
        ensures
            final(self).wf(),
            final(self).queues() == old(self).queues(),
            final(self).inboxes() == if old(self).inboxes().dom().contains(channel) {
                old(self).inboxes().insert(channel, old(self).inboxes()[channel].push(fb))
            } else {
                old(self).inboxes()
            },
    {
        let ghost os = self.publishers@;
        match self.find_publisher(channel) {
            Some(i) => {
                let mut slot = self.publishers.remove(i);
                slot.inbox.push(fb);
                self.publishers.insert(i, slot);
                proof {
                    let ns = self.publishers@;
                    let ii = i as int;
                    assert(ns =~= os.update(ii, ns[ii]));
                    lemma_pmap_update(os, ns, ii);
                    lemma_pidx_unique(os, ii);
                    assert(pmap(os).dom().contains(channel)) by {
                        assert(os[ii].channel == channel);
                    }
                    assert(ns[ii].inbox@ == pmap(os)[channel].push(fb));
                }
            },
            None => {
                proof {
                    if pmap(os).dom().contains(channel) {
                        let iw = choose|iw: int|
                            0 <= iw < os.len() && (#[trigger] os[iw]).channel == channel;
                        assert(os[iw].channel != channel);
                    }
                }
            },
        }
    }

    /// Takes the oldest consolidated feedback delivered to the local
    /// publisher of `channel`, if any.
    pub fn pop_feedback(&mut self, channel: ChannelUuid) -> (r: Option<Feedback>)
        requires
            old(self).wf(),
        ensures
            final(self).wf(),
            final(self).queues() == old(self).queues(),
            match r {
                None => {
                    &&& final(self).inboxes() == old(self).inboxes()
                    &&& old(self).inboxes().dom().contains(channel) ==> old(
                        self,
                    ).inboxes()[channel].len() == 0
                },
                Some(fb) => {
                    &&& old(self).inboxes().dom().contains(channel)
                    &&& old(self).inboxes()[channel].len() > 0
                    &&& fb == old(self).inboxes()[channel][0]
                    &&& final(self).inboxes() == old(self).inboxes().insert(
                        channel,
                        old(self).inboxes()[channel].skip(1),
                    )
                },
            },
    {
        let ghost os = self.publishers@;
        match self.find_publisher(channel) {
            Some(i) => {
                proof {
                    lemma_pidx_unique(os, i as int);
                }
                if self.publishers[i].inbox.len() > 0 {
                    let mut slot = self.publishers.remove(i);
                    let fb = slot.inbox.remove(0);
                    self.publishers.insert(i, slot);
                    proof {
                        let ns = self.publishers@;
                        let ii = i as int;
                        assert(ns =~= os.update(ii, ns[ii]));
                        lemma_pmap_update(os, ns, ii);
                        assert(ns[ii].inbox@ =~= pmap(os)[channel].skip(1));
                    }
                    Some(fb)
                } else {
                    None
                }
            },
            None => {
                proof {
                    if pmap(os).dom().contains(channel) {
                        let iw = choose|iw: int|
                            0 <= iw < os.len() && (#[trigger] os[iw]).channel == channel;
                        assert(os[iw].channel != channel);
                    }
                }
                None
            },
        }
    }

    /// One non-blocking receive attempt on consumer `uuid`'s queue: the
    /// oldest buffered payload if one is there; otherwise end of stream once
    /// the queue is closed — a closed, drained queue is dismantled — or a
    /// hint to wait while it is still open. An attempt on an unknown
    /// identifier is end of stream.
    pub fn try_recv(&mut self, uuid: LocalSubId) -> (r: RecvOutcome)
        requires
            old(self).wf(),
        ensures
            final(self).wf(),
            final(self).inboxes() == old(self).inboxes(),
            match r {
                RecvOutcome::Payload(p) => {
                    &&& old(self).queues().dom().contains(uuid)
                    &&& old(self).queues()[uuid].items.len() > 0
                    &&& p@ == old(self).queues()[uuid].items[0]
                    &&& final(self).queues() == old(self).queues().insert(
                        uuid,
                        popped_model(old(self).queues()[uuid]),
                    )
                },
                RecvOutcome::Empty => {
                    &&& old(self).queues().dom().contains(uuid)
                    &&& !old(self).queues()[uuid].closed
                    &&& old(self).queues()[uuid].items.len() == 0
                    &&& final(self).queues() == old(self).queues()
                },
                RecvOutcome::Closed => {
                    if old(self).queues().dom().contains(uuid) {
                        &&& old(self).queues()[uuid].closed
                        &&& old(self).queues()[uuid].items.len() == 0
                        &&& final(self).queues() == old(self).queues().remove(uuid)
                    } else {
                        final(self).queues() == old(self).queues()
                    }
                },
            },
    {
        let ghost os = self.slots@;
        match self.find_slot(uuid) {
            None => {
                proof {
                    if qmap(os).dom().contains(uuid) {
                        let iw = choose|iw: int|
                            0 <= iw < os.len() && (#[trigger] os[iw]).sub == uuid;
                        assert(os[iw].sub != uuid);
                    }
                }
                RecvOutcome::Closed
            },
            Some(i) => {
                proof {
                    lemma_qidx_unique(os, i as int);
                    assert(qmap(os).dom().contains(uuid)) by {
                        assert(os[i as int].sub == uuid);
                    }
                }
                if self.slots[i].items.len() > 0 {
                    let mut slot = self.slots.remove(i);
                    let p = slot.items.remove(0);
                    self.slots.insert(i, slot);
                    proof {
                        let ns = self.slots@;
                        let ii = i as int;
                        assert(ns =~= os.update(ii, ns[ii]));
                        assert(slots_wf(ns)) by {
                            assert forall|i1: int, j1: int|
                                0 <= i1 < j1 < ns.len() implies (#[trigger] ns[i1]).sub != (
                            #[trigger] ns[j1]).sub by {
                                assert(ns[i1].sub == os[i1].sub && ns[j1].sub == os[j1].sub);
                            }
                            assert forall|i1: int| 0 <= i1 < ns.len() implies (
                            #[trigger] ns[i1]).items@.len() <= ns[i1].cap by {
                                if i1 != ii {
                                    assert(ns[i1] == os[i1]);
                                }
                            }
                        }
                        lemma_qmap_update(os, ns, ii);
                        assert(p@ == slot_model(os[ii]).items[0]);
                        assert(slot_model(ns[ii]) =~= popped_model(slot_model(os[ii])));
                    }
                    RecvOutcome::Payload(p)
                } else if self.slots[i].closed {
                    let _ = self.slots.remove(i);
                    proof {
                        lemma_qmap_remove(os, self.slots@, i as int);
                    }
                    RecvOutcome::Closed
                } else {
                    RecvOutcome::Empty
                }
            },
        }
    }
}

} // verus!
