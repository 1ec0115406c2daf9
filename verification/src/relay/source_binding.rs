//! Per-channel table of active upstream sources and interested local
//! consumers; decides when a local subscription requires (un)binding an
//! upstream source.

use vstd::prelude::*;
use crate::relay::{ChannelUuid, LocalSubId, SourceUuid};

verus! {

/// State of one channel: the upstream sources currently feeding it and the
/// local consumers interested in it.
struct ChannelEntry {
    channel: ChannelUuid,
    sources: Vec<SourceUuid>,
    subs: Vec<LocalSubId>,
}

/// Per-channel fan-in accounting.
///
/// A channel has an entry only while at least one local consumer is
/// interested in it; the sources bound to a channel vanish with its last
/// local consumer. Each registration and each removal of one consumer is
/// answered at most once with the channel's source set, so the per-source
/// bookkeeping the caller performs in the relay logic happens exactly once
/// per consumer lifecycle.
pub struct SourceBinding {
    channels: Vec<ChannelEntry>,
}

spec fn channel_entry_wf(e: ChannelEntry) -> bool {
    &&& e.subs@.no_duplicates()
    &&& e.subs@.len() > 0
    &&& e.sources@.no_duplicates()
}

spec fn channels_wf(s: Seq<ChannelEntry>) -> bool {
    &&& forall|i: int, j: int|
        0 <= i < j < s.len() ==> (#[trigger] s[i]).channel != (#[trigger] s[j]).channel
    &&& forall|i: int| 0 <= i < s.len() ==> channel_entry_wf(#[trigger] s[i])
}

spec fn pair_rel(s: Seq<ChannelEntry>, f: spec_fn(ChannelEntry) -> Seq<u64>) -> Set<
    (ChannelUuid, u64),
> {
    Set::new(
        |p: (ChannelUuid, u64)|
            exists|i: int|
                0 <= i < s.len() && (#[trigger] s[i]).channel == p.0 && f(s[i]).contains(p.1),
    )
}

spec fn entry_sources(e: ChannelEntry) -> Seq<u64> {
    e.sources@
}

spec fn entry_subs(e: ChannelEntry) -> Seq<u64> {
    e.subs@
}

/// The source relation after every source of one channel is dropped.
pub open spec fn drop_channel_sources(
    sources: Set<(ChannelUuid, SourceUuid)>,
    channel: ChannelUuid,
) -> Set<(ChannelUuid, SourceUuid)> {
    Set::new(|p: (ChannelUuid, SourceUuid)| sources.contains(p) && p.0 != channel)
}

proof fn lemma_push_contains(s: Seq<u64>, x: u64)
    ensures
        forall|y: u64| s.push(x).contains(y) <==> s.contains(y) || y == x,
{
    assert forall|y: u64| s.push(x).contains(y) <==> s.contains(y) || y == x by {
        if s.push(x).contains(y) {
            let j = choose|j: int| 0 <= j < s.push(x).len() && s.push(x)[j] == y;
            if j < s.len() {
                assert(s[j] == y);
            }
        }
        if s.contains(y) {
            let j = choose|j: int| 0 <= j < s.len() && s[j] == y;
            assert(s.push(x)[j] == y);
        }
        if y == x {
            assert(s.push(x)[s.len() as int] == y);
        }
    }
}

proof fn lemma_remove_contains(s: Seq<u64>, pos: int)
    requires
        s.no_duplicates(),
        0 <= pos < s.len(),
    ensures
        forall|y: u64| s.remove(pos).contains(y) <==> s.contains(y) && y != s[pos],
        s.remove(pos).no_duplicates(),
{
    let r = s.remove(pos);
    assert forall|y: u64| r.contains(y) <==> s.contains(y) && y != s[pos] by {
        if r.contains(y) {
            let j = choose|j: int| 0 <= j < r.len() && r[j] == y;
            if j < pos {
                assert(s[j] == y);
                if y == s[pos] {
                    assert(s[j] == s[pos]);
                }
            } else {
                assert(s[j + 1] == y);
                if y == s[pos] {
                    assert(s[j + 1] == s[pos]);
                }
            }
        }
        if s.contains(y) && y != s[pos] {
            let j = choose|j: int| 0 <= j < s.len() && s[j] == y;
            if j < pos {
                assert(r[j] == y);
            } else {
                assert(j != pos);
                assert(r[j - 1] == y);
            }
        }
    }
    assert forall|j1: int, j2: int| 0 <= j1 < j2 < r.len() implies r[j1] != r[j2] by {
        let o1: int = if j1 < pos {
            j1
        } else {
            j1 + 1
        };
        let o2: int = if j2 < pos {
            j2
        } else {
            j2 + 1
        };
        assert(r[j1] == s[o1] && r[j2] == s[o2]);
    }
}

/// Appending an entry extends a relation by that entry's pairs.
proof fn lemma_pair_rel_push_entry(
    os: Seq<ChannelEntry>,
    ns: Seq<ChannelEntry>,
    f: spec_fn(ChannelEntry) -> Seq<u64>,
)
    requires
        ns.len() == os.len() + 1,
        forall|i: int| 0 <= i < os.len() ==> ns[i] == os[i],
    ensures
        pair_rel(ns, f) == pair_rel(os, f).union(
            Set::new(
                |p: (ChannelUuid, u64)|
                    p.0 == ns[ns.len() - 1].channel && f(ns[ns.len() - 1]).contains(p.1),
            ),
        ),
{
    let e = ns[ns.len() - 1];
    assert forall|p: (ChannelUuid, u64)| pair_rel(ns, f).contains(p) implies pair_rel(
        os,
        f,
    ).contains(p) || (p.0 == e.channel && f(e).contains(p.1)) by {
        let iw = choose|iw: int|
            0 <= iw < ns.len() && (#[trigger] ns[iw]).channel == p.0 && f(ns[iw]).contains(p.1);
        if iw < os.len() {
            assert(os[iw].channel == p.0 && f(os[iw]).contains(p.1));
        }
    }
    assert forall|p: (ChannelUuid, u64)|
        pair_rel(os, f).contains(p) || (p.0 == e.channel && f(e).contains(p.1)) implies pair_rel(
        ns,
        f,
    ).contains(p) by {
        if pair_rel(os, f).contains(p) {
            let iw = choose|iw: int|
                0 <= iw < os.len() && (#[trigger] os[iw]).channel == p.0 && f(os[iw]).contains(p.1);
            assert(ns[iw].channel == p.0 && f(ns[iw]).contains(p.1));
        } else {
            assert(ns[ns.len() - 1].channel == p.0 && f(ns[ns.len() - 1]).contains(p.1));
        }
    }
    assert(pair_rel(ns, f) =~= pair_rel(os, f).union(
        Set::new(|p: (ChannelUuid, u64)| p.0 == e.channel && f(e).contains(p.1)),
    ));
}

/// A relation whose projection is untouched at every entry is unchanged.
proof fn lemma_pair_rel_same(
    os: Seq<ChannelEntry>,
    ns: Seq<ChannelEntry>,
    f: spec_fn(ChannelEntry) -> Seq<u64>,
)
    requires
        ns.len() == os.len(),
        forall|i: int|
            0 <= i < os.len() ==> (#[trigger] ns[i]).channel == os[i].channel && f(ns[i]) == f(
                os[i],
            ),
    ensures
        pair_rel(ns, f) == pair_rel(os, f),
{
    assert forall|p: (ChannelUuid, u64)| pair_rel(ns, f).contains(p) implies pair_rel(
        os,
        f,
    ).contains(p) by {
        let iw = choose|iw: int|
            0 <= iw < ns.len() && (#[trigger] ns[iw]).channel == p.0 && f(ns[iw]).contains(p.1);
        assert(os[iw].channel == p.0 && f(os[iw]).contains(p.1));
    }
    assert forall|p: (ChannelUuid, u64)| pair_rel(os, f).contains(p) implies pair_rel(
        ns,
        f,
    ).contains(p) by {
        let iw = choose|iw: int|
            0 <= iw < os.len() && (#[trigger] os[iw]).channel == p.0 && f(os[iw]).contains(p.1);
        assert(ns[iw].channel == p.0 && f(ns[iw]).contains(p.1));
    }
    assert(pair_rel(ns, f) =~= pair_rel(os, f));
}

/// Adding one element to one entry's projection inserts one pair.
proof fn lemma_pair_rel_elem_added(
    os: Seq<ChannelEntry>,
    ns: Seq<ChannelEntry>,
    ii: int,
    x: u64,
    f: spec_fn(ChannelEntry) -> Seq<u64>,
)
    requires
        forall|i: int, j: int|
            0 <= i < j < os.len() ==> (#[trigger] os[i]).channel != (#[trigger] os[j]).channel,
        0 <= ii < os.len(),
        ns.len() == os.len(),
        forall|i: int| 0 <= i < os.len() && i != ii ==> ns[i] == os[i],
        (#[trigger] ns[ii]).channel == os[ii].channel,
        forall|y: u64|
            #![trigger f(ns[ii]).contains(y)]
            #![trigger f(os[ii]).contains(y)]
            f(ns[ii]).contains(y) <==> f(os[ii]).contains(y) || y == x,
    ensures
        pair_rel(ns, f) == pair_rel(os, f).insert((os[ii].channel, x)),
{
    let pr = (os[ii].channel, x);
    assert forall|p: (ChannelUuid, u64)| pair_rel(ns, f).contains(p) implies pair_rel(
        os,
        f,
    ).insert(pr).contains(p) by {
        let iw = choose|iw: int|
            0 <= iw < ns.len() && (#[trigger] ns[iw]).channel == p.0 && f(ns[iw]).contains(p.1);
        if iw == ii {
            if p.1 != x {
                assert(os[ii].channel == p.0 && f(os[ii]).contains(p.1));
            }
        } else {
            assert(os[iw].channel == p.0 && f(os[iw]).contains(p.1));
        }
    }
    assert forall|p: (ChannelUuid, u64)| pair_rel(os, f).insert(pr).contains(p) implies pair_rel(
        ns,
        f,
    ).contains(p) by {
        if p == pr {
            assert(ns[ii].channel == p.0 && f(ns[ii]).contains(p.1));
        } else {
            let iw = choose|iw: int|
                0 <= iw < os.len() && (#[trigger] os[iw]).channel == p.0 && f(os[iw]).contains(p.1);
            assert(ns[iw].channel == p.0 && f(ns[iw]).contains(p.1));
        }
    }
    assert(pair_rel(ns, f) =~= pair_rel(os, f).insert(pr));
}

/// Dropping one element from one entry's projection removes one pair.
proof fn lemma_pair_rel_elem_removed(
    os: Seq<ChannelEntry>,
    ns: Seq<ChannelEntry>,
    ii: int,
    x: u64,
    f: spec_fn(ChannelEntry) -> Seq<u64>,
)
    requires
        forall|i: int, j: int|
            0 <= i < j < os.len() ==> (#[trigger] os[i]).channel != (#[trigger] os[j]).channel,
        0 <= ii < os.len(),
        ns.len() == os.len(),
        forall|i: int| 0 <= i < os.len() && i != ii ==> ns[i] == os[i],
        (#[trigger] ns[ii]).channel == os[ii].channel,
        forall|y: u64|
            #![trigger f(ns[ii]).contains(y)]
            #![trigger f(os[ii]).contains(y)]
            f(ns[ii]).contains(y) <==> f(os[ii]).contains(y) && y != x,
    ensures
        pair_rel(ns, f) == pair_rel(os, f).remove((os[ii].channel, x)),
{
    let pr = (os[ii].channel, x);
    assert forall|p: (ChannelUuid, u64)| pair_rel(ns, f).contains(p) implies pair_rel(
        os,
        f,
    ).remove(pr).contains(p) by {
        let iw = choose|iw: int|
            0 <= iw < ns.len() && (#[trigger] ns[iw]).channel == p.0 && f(ns[iw]).contains(p.1);
        if iw == ii {
            assert(os[ii].channel == p.0 && f(os[ii]).contains(p.1) && p.1 != x);
        } else {
            assert(os[iw].channel == p.0 && f(os[iw]).contains(p.1));
            if p == pr {
                if iw < ii {
                    assert(os[iw].channel != os[ii].channel);
                } else {
                    assert(os[ii].channel != os[iw].channel);
                }
            }
        }
    }
    assert forall|p: (ChannelUuid, u64)| pair_rel(os, f).remove(pr).contains(p) implies pair_rel(
        ns,
        f,
    ).contains(p) by {
        let iw = choose|iw: int|
            0 <= iw < os.len() && (#[trigger] os[iw]).channel == p.0 && f(os[iw]).contains(p.1);
        if iw == ii {
            assert(f(ns[ii]).contains(p.1));
            assert(ns[ii].channel == p.0);
        } else {
            assert(ns[iw].channel == p.0 && f(ns[iw]).contains(p.1));
        }
    }
    assert(pair_rel(ns, f) =~= pair_rel(os, f).remove(pr));
}

/// Removing an entry drops exactly its channel's pairs from a relation.
proof fn lemma_pair_rel_entry_removed(
    os: Seq<ChannelEntry>,
    ns: Seq<ChannelEntry>,
    ii: int,
    f: spec_fn(ChannelEntry) -> Seq<u64>,
)
    requires
        forall|i: int, j: int|
            0 <= i < j < os.len() ==> (#[trigger] os[i]).channel != (#[trigger] os[j]).channel,
        0 <= ii < os.len(),
        ns == os.remove(ii),
    ensures
        pair_rel(ns, f) == Set::new(
            |p: (ChannelUuid, u64)| pair_rel(os, f).contains(p) && p.0 != os[ii].channel,
        ),
{
    let channel = os[ii].channel;
    assert forall|p: (ChannelUuid, u64)| pair_rel(ns, f).contains(p) implies pair_rel(
        os,
        f,
    ).contains(p) && p.0 != channel by {
        let iw = choose|iw: int|
            0 <= iw < ns.len() && (#[trigger] ns[iw]).channel == p.0 && f(ns[iw]).contains(p.1);
        let iold: int = if iw < ii {
            iw
        } else {
            iw + 1
        };
        assert(os[iold].channel == p.0 && f(os[iold]).contains(p.1));
        if p.0 == channel {
            if iold < ii {
                assert(os[iold].channel != os[ii].channel);
            } else {
                assert(os[ii].channel != os[iold].channel);
            }
        }
    }
    assert forall|p: (ChannelUuid, u64)|
        pair_rel(os, f).contains(p) && p.0 != channel implies pair_rel(ns, f).contains(p) by {
        let iw = choose|iw: int|
            0 <= iw < os.len() && (#[trigger] os[iw]).channel == p.0 && f(os[iw]).contains(p.1);
        assert(iw != ii);
        let inew: int = if iw < ii {
            iw
        } else {
            iw - 1
        };
        assert(ns[inew].channel == p.0 && f(ns[inew]).contains(p.1));
    }
    assert(pair_rel(ns, f) =~= Set::new(
        |p: (ChannelUuid, u64)| pair_rel(os, f).contains(p) && p.0 != channel,
    ));
}

fn contains_u64(v: &Vec<u64>, x: u64) -> (r: bool)
    ensures
        r == v@.contains(x),
{
    let n = v.len();
    for i in 0..n
        invariant
            n == v@.len(),
            forall|k: int| 0 <= k < i ==> v@[k] != x,
    {
        if v[i] == x {
            return true;
        }
    }
    false
}

fn index_of_u64(v: &Vec<u64>, x: u64) -> (r: Option<usize>)
    ensures
        match r {
            Some(j) => j < v@.len() && v@[j as int] == x,
            None => !v@.contains(x),
        },
{
    let n = v.len();
    for i in 0..n
        invariant
            n == v@.len(),
            forall|k: int| 0 <= k < i ==> v@[k] != x,
    {
        if v[i] == x {
            return Some(i);
        }
    }
    None
}

fn copy_u64s(v: &Vec<u64>) -> (r: Vec<u64>)
    ensures
        r@ == v@,
{
    let mut r: Vec<u64> = Vec::new();
    let n = v.len();
    for i in 0..n
        invariant
            n == v@.len(),
            r@ == v@.take(i as int),
    {
        r.push(v[i]);
        proof {
            assert(r@ =~= v@.take(i as int + 1));
        }
    }
    proof {
        assert(v@.take(n as int) =~= v@);
    }
    r
}

impl SourceBinding {
    pub fn new() -> (r: SourceBinding)
        ensures
            r.wf(),
            r.sources() == Set::<(ChannelUuid, SourceUuid)>::empty(),
            r.subs() == Set::<(ChannelUuid, LocalSubId)>::empty(),
    {
        let r = SourceBinding { channels: Vec::new() };
        proof {
            assert(r.sources() =~= Set::<(ChannelUuid, SourceUuid)>::empty());
            assert(r.subs() =~= Set::<(ChannelUuid, LocalSubId)>::empty());
        }
        r
    }

    /// Which upstream source currently feeds which channel.
    pub closed spec fn sources(self) -> Set<(ChannelUuid, SourceUuid)> {
        pair_rel(self.channels@, |e: ChannelEntry| entry_sources(e))
    }

    /// Which local consumer is interested in which channel.
    pub closed spec fn subs(self) -> Set<(ChannelUuid, LocalSubId)> {
        pair_rel(self.channels@, |e: ChannelEntry| entry_subs(e))
    }

    pub closed spec fn wf(self) -> bool {
        channels_wf(self.channels@)
    }

    /// A channel is fed by a source only while some local consumer is
    /// interested in the channel.
    pub proof fn lemma_sources_imply_interest(self)
        requires
            self.wf(),
        ensures
            forall|p: (ChannelUuid, SourceUuid)|
                #[trigger] self.sources().contains(p) ==> exists|x: LocalSubId|
                    self.subs().contains((p.0, x)),
    {
        let s = self.channels@;
        assert forall|p: (ChannelUuid, SourceUuid)|
            #[trigger] self.sources().contains(p) implies exists|x: LocalSubId|
            self.subs().contains((p.0, x)) by {
            let iw = choose|iw: int|
                0 <= iw < s.len() && (#[trigger] s[iw]).channel == p.0 && entry_sources(
                    s[iw],
                ).contains(p.1);
            let x = s[iw].subs@[0];
            assert(entry_subs(s[iw]).contains(x));
            assert(self.subs().contains((p.0, x)));
        }
    }

    fn find_channel(&self, channel: ChannelUuid) -> (r: Option<usize>)
        ensures
            match r {
                Some(i) => i < self.channels@.len() && self.channels@[i as int].channel == channel,
                None => forall|i: int|
                    0 <= i < self.channels@.len() ==> (#[trigger] self.channels@[i]).channel
                        != channel,
            },
    {
        let n = self.channels.len();
        for i in 0..n
            invariant
                n == self.channels@.len(),
                forall|k: int| 0 <= k < i ==> (#[trigger] self.channels@[k]).channel != channel,
        {
            if self.channels[i].channel == channel {
                return Some(i);
            }
        }
        None
    }

    /// Point-in-time read of the channel's active source set, each source
    /// once, in no particular order.
    pub fn sources_for(&self, channel: ChannelUuid) -> (r: Vec<SourceUuid>)
        requires
            self.wf(),
        ensures
            r@.no_duplicates(),
            forall|s: SourceUuid| r@.contains(s) <==> self.sources().contains((channel, s)),
    {
        match self.find_channel(channel) {
            None => {
                let r: Vec<SourceUuid> = Vec::new();
                proof {
                    let cs = self.channels@;
                    assert forall|s: SourceUuid| !self.sources().contains((channel, s)) by {
                        if self.sources().contains((channel, s)) {
                            let iw = choose|iw: int|
                                0 <= iw < cs.len() && (#[trigger] cs[iw]).channel == channel
                                    && entry_sources(cs[iw]).contains(s);
                            assert(cs[iw].channel != channel);
                        }
                    }
                }
                r
            },
            Some(i) => {
                let r = copy_u64s(&self.channels[i].sources);
                proof {
                    let cs = self.channels@;
                    let ii = i as int;
                    assert forall|s: SourceUuid|
                        r@.contains(s) <==> self.sources().contains((channel, s)) by {
                        if r@.contains(s) {
                            assert(cs[ii].channel == channel && entry_sources(cs[ii]).contains(s));
                        }
                        if self.sources().contains((channel, s)) {
                            let iw = choose|iw: int|
                                0 <= iw < cs.len() && (#[trigger] cs[iw]).channel == channel
                                    && entry_sources(cs[iw]).contains(s);
                            if iw != ii {
                                if iw < ii {
                                    assert(cs[iw].channel != cs[ii].channel);
                                } else {
                                    assert(cs[ii].channel != cs[iw].channel);
                                }
                            }
                        }
                    }
                }
                r
            },
        }
    }

    /// Registers `uuid`'s interest in `channel`. Answers the channel's
    /// current source set — possibly empty — exactly when the consumer was
    /// not registered yet: the caller must then register the consumer once
    /// per returned source in the relay logic. Answers nothing, and changes
    /// nothing, for a consumer already registered.
    pub fn on_local_sub(&mut self, channel: ChannelUuid, uuid: LocalSubId) -> (r: Option<
        Vec<SourceUuid>,
    >)
        requires
            old(self).wf(),
        ensures
            final(self).wf(),
            match r {
                None => {
                    &&& old(self).subs().contains((channel, uuid))
                    &&& final(self).subs() == old(self).subs()
                    &&& final(self).sources() == old(self).sources()
                },
                Some(v) => {
                    &&& !old(self).subs().contains((channel, uuid))
                    &&& final(self).subs() == old(self).subs().insert((channel, uuid))
                    &&& final(self).sources() == old(self).sources()
                    &&& v@.no_duplicates()
                    &&& forall|s: SourceUuid|
                        v@.contains(s) <==> old(self).sources().contains((channel, s))
                },
            },
    {
        let ghost os = self.channels@;
        let ghost fsub = |e: ChannelEntry| entry_subs(e);
        let ghost fsrc = |e: ChannelEntry| entry_sources(e);
        match self.find_channel(channel) {
            None => {
                proof {
                    if pair_rel(os, fsub).contains((channel, uuid)) {
                        let iw = choose|iw: int|
                            0 <= iw < os.len() && (#[trigger] os[iw]).channel == channel && fsub(
                                os[iw],
                            ).contains(uuid);
                        assert(os[iw].channel != channel);
                    }
                }
                let mut subs: Vec<LocalSubId> = Vec::new();
                subs.push(uuid);
                self.channels.push(ChannelEntry { channel, sources: Vec::new(), subs });
                proof {
                    let ns = self.channels@;
                    let le = ns.len() - 1;
                    lemma_pair_rel_push_entry(os, ns, fsub);
                    lemma_pair_rel_push_entry(os, ns, fsrc);
                    assert(Set::new(
                        |p: (ChannelUuid, u64)| p.0 == ns[le].channel && fsub(ns[le]).contains(p.1),
                    ) =~= Set::<(ChannelUuid, u64)>::empty().insert((channel, uuid))) by {
                        assert(fsub(ns[le])[0] == uuid);
                        assert forall|p: (ChannelUuid, u64)|
                            p.0 == ns[le].channel && fsub(ns[le]).contains(p.1) implies p == (
                        channel, uuid) by {
                            assert(fsub(ns[le]).len() == 1);
                        }
                    }
                    assert(final(self).subs() =~= old(self).subs().insert((channel, uuid)));
                    assert(Set::new(
                        |p: (ChannelUuid, u64)| p.0 == ns[le].channel && fsrc(ns[le]).contains(p.1),
                    ) =~= Set::<(ChannelUuid, u64)>::empty()) by {
                        assert forall|p: (ChannelUuid, u64)| !fsrc(ns[le]).contains(p.1) by {
                            assert(fsrc(ns[le]).len() == 0);
                        }
                    }
                    assert(final(self).sources() =~= old(self).sources());
                }
                Some(Vec::new())
            },
            Some(i) => {
                if contains_u64(&self.channels[i].subs, uuid) {
                    proof {
                        let ii = i as int;
                        assert(pair_rel(os, fsub).contains((channel, uuid))) by {
                            assert(fsub(os[ii]).contains(uuid));
                        }
                    }
                    None
                } else {
                    let srcs = copy_u64s(&self.channels[i].sources);
                    let mut e = self.channels.remove(i);
                    e.subs.push(uuid);
                    self.channels.insert(i, e);
                    proof {
                        let ns = self.channels@;
                        let ii = i as int;
                        assert(ns =~= os.update(ii, ns[ii]));
                        assert(ns[ii].subs@ == os[ii].subs@.push(uuid));
                        lemma_push_contains(os[ii].subs@, uuid);
                        if pair_rel(os, fsub).contains((channel, uuid)) {
                            let iw = choose|iw: int|
                                0 <= iw < os.len() && (#[trigger] os[iw]).channel == channel
                                    && fsub(os[iw]).contains(uuid);
                            if iw != ii {
                                if iw < ii {
                                    assert(os[iw].channel != os[ii].channel);
                                } else {
                                    assert(os[ii].channel != os[iw].channel);
                                }
                            }
                        }
                        lemma_pair_rel_elem_added(os, ns, ii, uuid, fsub);
                        lemma_pair_rel_same(os, ns, fsrc);
                        assert(channel_entry_wf(ns[ii])) by {
                            assert forall|j1: int, j2: int|
                                0 <= j1 < j2 < ns[ii].subs@.len() implies ns[ii].subs@[j1]
                                != ns[ii].subs@[j2] by {
                                if j2 == ns[ii].subs@.len() - 1 {
                                    assert(ns[ii].subs@[j1] == os[ii].subs@[j1]);
                                    if os[ii].subs@[j1] == uuid {
                                        assert(os[ii].subs@.contains(uuid));
                                    }
                                }
                            }
                        }
                        assert forall|s: SourceUuid|
                            srcs@.contains(s) <==> pair_rel(os, fsrc).contains((channel, s)) by {
                            if srcs@.contains(s) {
                                assert(os[ii].channel == channel && fsrc(os[ii]).contains(s));
                            }
                            if pair_rel(os, fsrc).contains((channel, s)) {
                                let iw = choose|iw: int|
                                    0 <= iw < os.len() && (#[trigger] os[iw]).channel == channel
                                        && fsrc(os[iw]).contains(s);
                                if iw != ii {
                                    if iw < ii {
                                        assert(os[iw].channel != os[ii].channel);
                                    } else {
                                        assert(os[ii].channel != os[iw].channel);
                                    }
                                }
                            }
                        }
                    }
                    Some(srcs)
                }
            },
        }
    }

    /// Removes `uuid`'s interest in `channel`. Answers the channel's source
    /// set as it stood — so the caller can tear the consumer's pairings down
    /// in the relay logic, once — exactly when the consumer was registered.
    /// When the last interested consumer goes, the channel's sources go with
    /// it. Answers nothing, and changes nothing, for an unknown consumer.
    pub fn on_local_unsub(&mut self, channel: ChannelUuid, uuid: LocalSubId) -> (r: Option<
        Vec<SourceUuid>,
    >)
        requires
            old(self).wf(),
        ensures
            final(self).wf(),
            match r {
                None => {
                    &&& !old(self).subs().contains((channel, uuid))
                    &&& final(self).subs() == old(self).subs()
                    &&& final(self).sources() == old(self).sources()
                },
                Some(v) => {
                    &&& old(self).subs().contains((channel, uuid))
                    &&& final(self).subs() == old(self).subs().remove((channel, uuid))
                    &&& v@.no_duplicates()
                    &&& forall|s: SourceUuid|
                        v@.contains(s) <==> old(self).sources().contains((channel, s))
                    &&& final(self).sources() == if exists|x: LocalSubId|
                        x != uuid && old(self).subs().contains((channel, x)) {
                        old(self).sources()
                    } else {
                        drop_channel_sources(old(self).sources(), channel)
                    }
                },
            },
    {
        let ghost os = self.channels@;
        let ghost fsub = |e: ChannelEntry| entry_subs(e);
        let ghost fsrc = |e: ChannelEntry| entry_sources(e);
        match self.find_channel(channel) {
            None => {
                proof {
                    if pair_rel(os, fsub).contains((channel, uuid)) {
                        let iw = choose|iw: int|
                            0 <= iw < os.len() && (#[trigger] os[iw]).channel == channel && fsub(
                                os[iw],
                            ).contains(uuid);
                        assert(os[iw].channel != channel);
                    }
                }
                None
            },
            Some(i) => {
                let ghost ii = i as int;
                match index_of_u64(&self.channels[i].subs, uuid) {
                    None => {
                        proof {
                            if pair_rel(os, fsub).contains((channel, uuid)) {
                                let iw = choose|iw: int|
                                    0 <= iw < os.len() && (#[trigger] os[iw]).channel == channel
                                        && fsub(os[iw]).contains(uuid);
                                if iw != ii {
                                    if iw < ii {
                                        assert(os[iw].channel != os[ii].channel);
                                    } else {
                                        assert(os[ii].channel != os[iw].channel);
                                    }
                                }
                            }
                        }
                        None
                    },
                    Some(pos) => {
                        proof {
                            assert(pair_rel(os, fsub).contains((channel, uuid))) by {
                                assert(fsub(os[ii]).contains(uuid));
                            }
                            assert forall|s: SourceUuid|
                                os[ii].sources@.contains(s) <==> pair_rel(os, fsrc).contains(
                                    (channel, s),
                                ) by {
                                if os[ii].sources@.contains(s) {
                                    assert(os[ii].channel == channel && fsrc(os[ii]).contains(s));
                                }
                                if pair_rel(os, fsrc).contains((channel, s)) {
                                    let iw = choose|iw: int|
                                        0 <= iw < os.len() && (#[trigger] os[iw]).channel == channel
                                            && fsrc(os[iw]).contains(s);
                                    if iw != ii {
                                        if iw < ii {
                                            assert(os[iw].channel != os[ii].channel);
                                        } else {
                                            assert(os[ii].channel != os[iw].channel);
                                        }
                                    }
                                }
                            }
                        }
                        if self.channels[i].subs.len() == 1 {
                            let e = self.channels.remove(i);
                            proof {
                                let ns = self.channels@;
                                lemma_pair_rel_entry_removed(os, ns, ii, fsub);
                                lemma_pair_rel_entry_removed(os, ns, ii, fsrc);
                                assert forall|x: LocalSubId|
                                    #[trigger] pair_rel(os, fsub).contains(
                                        (channel, x),
                                    ) implies x == uuid by {
                                    let iw = choose|iw: int|
                                        0 <= iw < os.len() && (#[trigger] os[iw]).channel == channel
                                            && fsub(os[iw]).contains(x);
                                    if iw != ii {
                                        if iw < ii {
                                            assert(os[iw].channel != os[ii].channel);
                                        } else {
                                            assert(os[ii].channel != os[iw].channel);
                                        }
                                    }
                                    assert(fsub(os[ii]).len() == 1);
                                }
                                assert(pair_rel(ns, fsub) =~= pair_rel(os, fsub).remove(
                                    (channel, uuid),
                                ));
                                assert(pair_rel(ns, fsrc) =~= drop_channel_sources(
                                    pair_rel(os, fsrc),
                                    channel,
                                ));
                                assert forall|x: LocalSubId|
                                    x != uuid implies !(#[trigger] old(self).subs().contains(
                                    (channel, x),
                                )) by {
                                    if old(self).subs().contains((channel, x)) {
                                        let iw = choose|iw: int|
                                            0 <= iw < os.len() && (#[trigger] os[iw]).channel
                                                == channel && os[iw].subs@.contains(x);
                                        if iw != ii {
                                            if iw < ii {
                                                assert(os[iw].channel != os[ii].channel);
                                            } else {
                                                assert(os[ii].channel != os[iw].channel);
                                            }
                                        }
                                        assert(os[ii].subs@.len() == 1);
                                    }
                                }
                                assert(!(exists|x: LocalSubId|
                                    x != uuid && old(self).subs().contains((channel, x))));
                            }
                            Some(e.sources)
                        } else {
                            let srcs = copy_u64s(&self.channels[i].sources);
                            let mut e = self.channels.remove(i);
                            let _ = e.subs.remove(pos);
                            self.channels.insert(i, e);
                            proof {
                                let ns = self.channels@;
                                assert(ns =~= os.update(ii, ns[ii]));
                                assert(ns[ii].subs@ == os[ii].subs@.remove(pos as int));
                                lemma_remove_contains(os[ii].subs@, pos as int);
                                lemma_pair_rel_elem_removed(os, ns, ii, uuid, fsub);
                                lemma_pair_rel_same(os, ns, fsrc);
                                assert(channel_entry_wf(ns[ii]));
                                let xw: LocalSubId = if pos == 0 {
                                    os[ii].subs@[1]
                                } else {
                                    os[ii].subs@[0]
                                };
                                assert(xw != uuid && fsub(os[ii]).contains(xw));
                                assert(old(self).subs().contains((channel, xw))) by {
                                    assert(os[ii].channel == channel && os[ii].subs@.contains(xw));
                                }
                            }
                            Some(srcs)
                        }
                    },
                }
            },
        }
    }

    /// Records that `source` now feeds `channel`. Answers the consumers to
    /// register for the new (channel, source) pairing exactly when the
    /// channel has interested consumers and the source was not bound yet —
    /// never twice for one source while it stays bound. An announcement for
    /// a channel nobody is interested in is dropped.
    pub fn on_source_added(&mut self, channel: ChannelUuid, source: SourceUuid) -> (r: Option<
        Vec<LocalSubId>,
    >)
        requires
            old(self).wf(),
        ensures
            final(self).wf(),
            match r {
                None => {
                    &&& old(self).sources().contains((channel, source)) || !(exists|x: LocalSubId|
                        old(self).subs().contains((channel, x)))
                    &&& final(self).subs() == old(self).subs()
                    &&& final(self).sources() == old(self).sources()
                },
                Some(v) => {
                    &&& !old(self).sources().contains((channel, source))
                    &&& exists|x: LocalSubId| old(self).subs().contains((channel, x))
                    &&& final(self).sources() == old(self).sources().insert((channel, source))
                    &&& final(self).subs() == old(self).subs()
                    &&& v@.no_duplicates()
                    &&& forall|x: LocalSubId|
                        v@.contains(x) <==> old(self).subs().contains((channel, x))
                },
            },
    {
        let ghost os = self.channels@;
        let ghost fsub = |e: ChannelEntry| entry_subs(e);
        let ghost fsrc = |e: ChannelEntry| entry_sources(e);
        match self.find_channel(channel) {
            None => {
                proof {
                    assert forall|x: LocalSubId|
                        !(#[trigger] old(self).subs().contains((channel, x))) by {
                        if old(self).subs().contains((channel, x)) {
                            let iw = choose|iw: int|
                                0 <= iw < os.len() && (#[trigger] os[iw]).channel == channel
                                    && os[iw].subs@.contains(x);
                            assert(os[iw].channel != channel);
                        }
                    }
                }
                None
            },
            Some(i) => {
                let ghost ii = i as int;
                if contains_u64(&self.channels[i].sources, source) {
                    proof {
                        assert(pair_rel(os, fsrc).contains((channel, source))) by {
                            assert(fsrc(os[ii]).contains(source));
                        }
                    }
                    None
                } else {
                    proof {
                        if pair_rel(os, fsrc).contains((channel, source)) {
                            let iw = choose|iw: int|
                                0 <= iw < os.len() && (#[trigger] os[iw]).channel == channel
                                    && fsrc(os[iw]).contains(source);
                            if iw != ii {
                                if iw < ii {
                                    assert(os[iw].channel != os[ii].channel);
                                } else {
                                    assert(os[ii].channel != os[iw].channel);
                                }
                            }
                        }
                    }
                    let subs = copy_u64s(&self.channels[i].subs);
                    let mut e = self.channels.remove(i);
                    e.sources.push(source);
                    self.channels.insert(i, e);
                    proof {
                        let ns = self.channels@;
                        assert(ns =~= os.update(ii, ns[ii]));
                        assert(ns[ii].sources@ == os[ii].sources@.push(source));
                        lemma_push_contains(os[ii].sources@, source);
                        lemma_pair_rel_elem_added(os, ns, ii, source, fsrc);
                        lemma_pair_rel_same(os, ns, fsub);
                        assert(channel_entry_wf(ns[ii])) by {
                            assert forall|j1: int, j2: int|
                                0 <= j1 < j2 < ns[ii].sources@.len() implies ns[ii].sources@[j1]
                                != ns[ii].sources@[j2] by {
                                if j2 == ns[ii].sources@.len() - 1 {
                                    assert(ns[ii].sources@[j1] == os[ii].sources@[j1]);
                                    if os[ii].sources@[j1] == source {
                                        assert(os[ii].sources@.contains(source));
                                    }
                                }
                            }
                        }
                        assert(fsub(os[ii]).contains(os[ii].subs@[0]));
                        assert(old(self).subs().contains((channel, os[ii].subs@[0]))) by {
                            assert(os[ii].channel == channel && os[ii].subs@.contains(
                                os[ii].subs@[0],
                            ));
                        }
                        assert forall|x: LocalSubId|
                            subs@.contains(x) <==> pair_rel(os, fsub).contains((channel, x)) by {
                            if subs@.contains(x) {
                                assert(os[ii].channel == channel && fsub(os[ii]).contains(x));
                            }
                            if pair_rel(os, fsub).contains((channel, x)) {
                                let iw = choose|iw: int|
                                    0 <= iw < os.len() && (#[trigger] os[iw]).channel == channel
                                        && fsub(os[iw]).contains(x);
                                if iw != ii {
                                    if iw < ii {
                                        assert(os[iw].channel != os[ii].channel);
                                    } else {
                                        assert(os[ii].channel != os[iw].channel);
                                    }
                                }
                            }
                        }
                    }
                    Some(subs)
                }
            },
        }
    }

    /// Records that `source` no longer feeds `channel`. Answers the
    /// consumers whose (channel, source) pairing must be torn down in the
    /// relay logic exactly when the source was bound.
    pub fn on_source_removed(&mut self, channel: ChannelUuid, source: SourceUuid) -> (r: Option<
        Vec<LocalSubId>,
    >)
        requires
            old(self).wf(),
        ensures
            final(self).wf(),
            match r {
                None => {
                    &&& !old(self).sources().contains((channel, source))
                    &&& final(self).subs() == old(self).subs()
                    &&& final(self).sources() == old(self).sources()
                },
                Some(v) => {
                    &&& old(self).sources().contains((channel, source))
                    &&& final(self).sources() == old(self).sources().remove((channel, source))
                    &&& final(self).subs() == old(self).subs()
                    &&& v@.no_duplicates()
                    &&& forall|x: LocalSubId|
                        v@.contains(x) <==> old(self).subs().contains((channel, x))
                },
            },
    {
        let ghost os = self.channels@;
        let ghost fsub = |e: ChannelEntry| entry_subs(e);
        let ghost fsrc = |e: ChannelEntry| entry_sources(e);
        match self.find_channel(channel) {
            None => {
                proof {
                    if pair_rel(os, fsrc).contains((channel, source)) {
                        let iw = choose|iw: int|
                            0 <= iw < os.len() && (#[trigger] os[iw]).channel == channel && fsrc(
                                os[iw],
                            ).contains(source);
                        assert(os[iw].channel != channel);
                    }
                }
                None
            },
            Some(i) => {
                let ghost ii = i as int;
                match index_of_u64(&self.channels[i].sources, source) {
                    None => {
                        proof {
                            if pair_rel(os, fsrc).contains((channel, source)) {
                                let iw = choose|iw: int|
                                    0 <= iw < os.len() && (#[trigger] os[iw]).channel == channel
                                        && fsrc(os[iw]).contains(source);
                                if iw != ii {
                                    if iw < ii {
                                        assert(os[iw].channel != os[ii].channel);
                                    } else {
                                        assert(os[ii].channel != os[iw].channel);
                                    }
                                }
                            }
                        }
                        None
                    },
                    Some(pos) => {
                        let subs = copy_u64s(&self.channels[i].subs);
                        let mut e = self.channels.remove(i);
                        let _ = e.sources.remove(pos);
                        self.channels.insert(i, e);
                        proof {
                            let ns = self.channels@;
                            assert(ns =~= os.update(ii, ns[ii]));
                            assert(ns[ii].sources@ == os[ii].sources@.remove(pos as int));
                            assert(pair_rel(os, fsrc).contains((channel, source))) by {
                                assert(fsrc(os[ii]).contains(source));
                            }
                            lemma_remove_contains(os[ii].sources@, pos as int);
                            lemma_pair_rel_elem_removed(os, ns, ii, source, fsrc);
                            lemma_pair_rel_same(os, ns, fsub);
                            assert(channel_entry_wf(ns[ii]));
                            assert forall|x: LocalSubId|
                                subs@.contains(x) <==> pair_rel(os, fsub).contains(
                                    (channel, x),
                                ) by {
                                if subs@.contains(x) {
                                    assert(os[ii].channel == channel && fsub(os[ii]).contains(x));
                                }
                                if pair_rel(os, fsub).contains((channel, x)) {
                                    let iw = choose|iw: int|
                                        0 <= iw < os.len() && (#[trigger] os[iw]).channel == channel
                                            && fsub(os[iw]).contains(x);
                                    if iw != ii {
                                        if iw < ii {
                                            assert(os[iw].channel != os[ii].channel);
                                        } else {
                                            assert(os[ii].channel != os[iw].channel);
                                        }
                                    }
                                }
                            }
                        }
                        Some(subs)
                    },
                }
            },
        }
    }
}

} // verus!
