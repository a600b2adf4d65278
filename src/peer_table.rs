//! The table of learned peers: which remote endpoint each hardware address was last seen at.
use vstd::prelude::*;
use crate::address::{Endpoint, MacAddr};

verus! {

/// Where a hardware address was last seen, and when.
#[derive(Clone, Copy, PartialEq, Eq, Structural, Debug)]
pub struct PeerEntry {
    pub endpoint: Endpoint,
    /// Time of the last sighting, in milliseconds on the caller's monotonic clock.
    pub last_activity: u64,
}

/// Whether `e` counts as stale at `now` for the threshold `after`.
pub open spec fn is_stale(e: PeerEntry, now: u64, after: u64) -> bool {
    now - e.last_activity >= after
}

/// The table `t` with its stale entries removed.
pub open spec fn swept(t: Map<MacAddr, PeerEntry>, now: u64, after: u64) -> Map<MacAddr, PeerEntry> {
    Map::new(|m: MacAddr| t.contains_key(m) && !is_stale(t[m], now, after), |m: MacAddr| t[m])
}

/// The table `t` after a sighting of `mac` at `endpoint` at time `now`.
pub open spec fn learned(t: Map<MacAddr, PeerEntry>, mac: MacAddr, endpoint: Endpoint, now: u64) -> Map<MacAddr, PeerEntry> {
    t.insert(mac, PeerEntry { endpoint, last_activity: now })
}

/// `out` holds the endpoint of every entry of `t` once, in some order.
pub open spec fn fan_out(t: Map<MacAddr, PeerEntry>, out: Seq<Endpoint>) -> bool {
    exists|ks: Seq<MacAddr>|
        #![trigger ks.to_set()]
        ks.no_duplicates() && ks.to_set() == t.dom() && out == ks.map_values(|m: MacAddr| t[m].endpoint)
}

spec fn keys(s: Seq<(MacAddr, PeerEntry)>) -> Seq<MacAddr> {
    s.map_values(|e: (MacAddr, PeerEntry)| e.0)
}

spec fn has_key(s: Seq<(MacAddr, PeerEntry)>, m: MacAddr) -> bool {
    exists|i: int| 0 <= i < s.len() && s[i].0 == m
}

spec fn unique_keys(s: Seq<(MacAddr, PeerEntry)>) -> bool {
    forall|i: int, j: int| 0 <= i < s.len() && 0 <= j < s.len() && s[i].0 == s[j].0 ==> i == j
}

spec fn map_of(s: Seq<(MacAddr, PeerEntry)>) -> Map<MacAddr, PeerEntry> {
    Map::new(
        |m: MacAddr| has_key(s, m),
        |m: MacAddr| s[choose|i: int| 0 <= i < s.len() && s[i].0 == m].1,
    )
}

proof fn lemma_map_of_at(s: Seq<(MacAddr, PeerEntry)>, i: int)
    requires
        unique_keys(s),
        0 <= i < s.len(),
    ensures
        map_of(s).contains_key(s[i].0),
        map_of(s)[s[i].0] == s[i].1,
{
    assert(has_key(s, s[i].0));
    let j = choose|j: int| 0 <= j < s.len() && s[j].0 == s[i].0;
    assert(j == i);
}

/// The peer table. Each hardware address has at most one entry.
pub struct PeerTable {
    entries: Vec<(MacAddr, PeerEntry)>,
}

impl View for PeerTable {
    type V = Map<MacAddr, PeerEntry>;

    closed spec fn view(&self) -> Map<MacAddr, PeerEntry> {
        map_of(self.entries@)
    }
}

impl PeerTable {
    /// Each hardware address has at most one entry.
    pub closed spec fn wf(&self) -> bool {
        unique_keys(self.entries@)
    }

    /// An empty table.
    pub fn new() -> (r: PeerTable)
        ensures
            r.wf(),
            r@ == Map::<MacAddr, PeerEntry>::empty(),
    {
        let r = PeerTable { entries: Vec::new() };
        assert(r@ =~= Map::<MacAddr, PeerEntry>::empty());
        r
    }

    fn find(&self, mac: MacAddr) -> (r: Option<usize>)
        ensures
            match r {
                Some(i) => i < self.entries@.len() && self.entries@[i as int].0 == mac,
                None => !has_key(self.entries@, mac),
            },
    {
        let mut i: usize = 0;
        while i < self.entries.len()
            invariant
                i <= self.entries@.len(),
                forall|j: int| 0 <= j < i ==> self.entries@[j].0 != mac,
            decreases self.entries@.len() - i,
        {
            if self.entries[i].0 == mac {
                return Some(i);
            }
            i = i + 1;
        }
        None
    }

    /// The number of entries.
    pub fn len(&self) -> (r: usize)
        requires
            self.wf(),
        ensures
            r == self@.dom().len(),
    {
        proof {
            self.lemma_dom_len();
        }
        self.entries.len()
    }

    proof fn lemma_keys(&self)
        requires
            unique_keys(self.entries@),
        ensures
            keys(self.entries@).no_duplicates(),
            keys(self.entries@).to_set() == self@.dom(),
            keys(self.entries@).len() == self.entries@.len(),
    {
        let s = self.entries@;
        let ks = keys(s);
        assert(ks.to_set() =~= self@.dom()) by {
            assert forall|m: MacAddr| ks.to_set().contains(m) implies self@.dom().contains(m) by {
                let i = choose|i: int| 0 <= i < ks.len() && ks[i] == m;
                assert(s[i].0 == m);
            }
            assert forall|m: MacAddr| self@.dom().contains(m) implies ks.to_set().contains(m) by {
                let i = choose|i: int| 0 <= i < s.len() && s[i].0 == m;
                assert(ks[i] == m);
            }
        }
    }

    proof fn lemma_dom_len(&self)
        requires
            unique_keys(self.entries@),
        ensures
            self@.dom().len() == self.entries@.len(),
    {
        self.lemma_keys();
        keys(self.entries@).unique_seq_to_set();
    }

    /// The table holds finitely many entries.
    pub proof fn lemma_finite(&self)
        requires
            self.wf(),
        ensures
            self@.dom().finite(),
    {
        self.lemma_keys();
    }

    /// Looks up where `mac` was last seen.
    pub fn lookup(&self, mac: MacAddr) -> (r: Option<Endpoint>)
        requires
            self.wf(),
        ensures
            r == (if self@.contains_key(mac) { Some(self@[mac].endpoint) } else { None::<Endpoint> }),
    {
        match self.find(mac) {
            Some(i) => {
                proof {
                    lemma_map_of_at(self.entries@, i as int);
                }
                Some(self.entries[i].1.endpoint)
            },
            None => None,
        }
    }

    /// Records that `mac` was seen at `endpoint` at time `now`, replacing any
    /// earlier entry. Returns whether `mac` was new to the table.
    pub fn learn(&mut self, mac: MacAddr, endpoint: Endpoint, now: u64) -> (is_new: bool)
        requires
            old(self).wf(),
        ensures
            final(self).wf(),
            final(self)@ == learned(old(self)@, mac, endpoint, now),
            is_new == !old(self)@.contains_key(mac),
    {
        let entry = PeerEntry { endpoint, last_activity: now };
        let ghost s0 = self.entries@;
        let ghost target = learned(old(self)@, mac, endpoint, now);
        match self.find(mac) {
            Some(i) => {
                self.entries.set(i, (mac, entry));
                proof {
                    let s1 = self.entries@;
                    lemma_map_of_at(s0, i as int);
                    assert(unique_keys(s1));
                    assert forall|m: MacAddr| #[trigger] has_key(s1, m) <==> target.contains_key(m) by {
                        if m != mac {
                            if has_key(s0, m) {
                                let j = choose|j: int| 0 <= j < s0.len() && s0[j].0 == m;
                                assert(s1[j].0 == m);
                            }
                            if has_key(s1, m) {
                                let j = choose|j: int| 0 <= j < s1.len() && s1[j].0 == m;
                                assert(s0[j].0 == m);
                            }
                        } else {
                            assert(s1[i as int].0 == m);
                        }
                    }
                    assert forall|m: MacAddr| target.contains_key(m) implies map_of(s1)[m] == #[trigger] target[m] by {
                        assert(has_key(s1, m));
                        let j = choose|j: int| 0 <= j < s1.len() && s1[j].0 == m;
                        lemma_map_of_at(s1, j);
                        if m != mac {
                            lemma_map_of_at(s0, j);
                        }
                    }
                    assert(map_of(s1) =~= target);
                }
                false
            },
            None => {
                self.entries.push((mac, entry));
                proof {
                    let s1 = self.entries@;
                    assert(unique_keys(s1)) by {
                        assert forall|a: int, b: int| 0 <= a < s1.len() && 0 <= b < s1.len() && s1[a].0 == s1[b].0 implies a == b by {
                            if a < s0.len() && b == s0.len() {
                                assert(has_key(s0, mac));
                            }
                            if b < s0.len() && a == s0.len() {
                                assert(has_key(s0, mac));
                            }
                        }
                    }
                    assert forall|m: MacAddr| #[trigger] has_key(s1, m) <==> target.contains_key(m) by {
                        if has_key(s0, m) {
                            let j = choose|j: int| 0 <= j < s0.len() && s0[j].0 == m;
                            assert(s1[j].0 == m);
                        }
                        if has_key(s1, m) {
                            let j = choose|j: int| 0 <= j < s1.len() && s1[j].0 == m;
                            if j < s0.len() {
                                assert(s0[j].0 == m);
                            }
                        }
                        if m == mac {
                            assert(s1[s0.len() as int].0 == m);
                        }
                    }
                    assert forall|m: MacAddr| target.contains_key(m) implies map_of(s1)[m] == #[trigger] target[m] by {
                        assert(has_key(s1, m));
                        let j = choose|j: int| 0 <= j < s1.len() && s1[j].0 == m;
                        lemma_map_of_at(s1, j);
                        if j < s0.len() {
                            lemma_map_of_at(s0, j);
                        }
                    }
                    assert(map_of(s1) =~= target);
                }
                true
            },
        }
    }
    /// The endpoint of every entry, once per entry, in no particular order.
    pub fn endpoints(&self) -> (r: Vec<Endpoint>)
        requires
            self.wf(),
        ensures
            fan_out(self@, r@),
    {
        let mut r: Vec<Endpoint> = Vec::new();
        let mut i: usize = 0;
        while i < self.entries.len()
            invariant
                i <= self.entries@.len(),
                r@.len() == i,
                forall|j: int| 0 <= j < i ==> r@[j] == self.entries@[j].1.endpoint,
            decreases self.entries@.len() - i,
        {
            r.push(self.entries[i].1.endpoint);
            i = i + 1;
        }
        proof {
            let s = self.entries@;
            let ks = keys(s);
            self.lemma_keys();
            let t = self@;
            assert forall|j: int| 0 <= j < ks.len() implies #[trigger] r@[j] == ks.map_values(|m: MacAddr| t[m].endpoint)[j] by {
                lemma_map_of_at(s, j);
            }
            assert(r@ =~= ks.map_values(|m: MacAddr| t[m].endpoint));
            assert(ks.to_set() == t.dom());
        }
        r
    }

    /// Removes every entry that is stale at `now` for the threshold `stale_after`.
    pub fn sweep(&mut self, now: u64, stale_after: u64)
        requires
            old(self).wf(),
        ensures
            final(self).wf(),
            final(self)@ == swept(old(self)@, now, stale_after),
    {
        let ghost s = self.entries@;
        let mut kept: Vec<(MacAddr, PeerEntry)> = Vec::new();
        let ghost mut idx: Seq<int> = Seq::empty();
        let mut i: usize = 0;
        while i < self.entries.len()
            invariant
                self.entries@ == s,
                unique_keys(s),
                i <= s.len(),
                idx.len() == kept@.len(),
                forall|j: int| 0 <= j < idx.len() ==> 0 <= #[trigger] idx[j] < i && kept@[j] == s[idx[j]]
                    && !is_stale(s[idx[j]].1, now, stale_after),
                forall|a: int, b: int| 0 <= a < b < idx.len() ==> idx[a] < idx[b],
                forall|k: int| 0 <= k < i && !is_stale(#[trigger] s[k].1, now, stale_after)
                    ==> exists|j: int| 0 <= j < idx.len() && idx[j] == k,
            decreases s.len() - i,
        {
            let e = self.entries[i];
            if now < e.1.last_activity || now - e.1.last_activity < stale_after {
                kept.push(e);
                proof {
                    let old_idx = idx;
                    idx = idx.push(i as int);
                    assert forall|k: int| 0 <= k < i + 1 && !is_stale(#[trigger] s[k].1, now, stale_after)
                        implies exists|j: int| 0 <= j < idx.len() && idx[j] == k by {
                        if k < i {
                            let j = choose|j: int| 0 <= j < old_idx.len() && old_idx[j] == k;
                            assert(idx[j] == k);
                        } else {
                            assert(idx[idx.len() - 1] == k);
                        }
                    }
                }
            }
            i = i + 1;
        }
        proof {
            let k = kept@;
            assert(unique_keys(k)) by {
                assert forall|a: int, b: int| 0 <= a < k.len() && 0 <= b < k.len() && k[a].0 == k[b].0 implies a == b by {
                    assert(idx[a] == idx[b]);
                    if a < b {
                        assert(idx[a] < idx[b]);
                    }
                    if b < a {
                        assert(idx[b] < idx[a]);
                    }
                }
            }
            let target = swept(map_of(s), now, stale_after);
            assert forall|m: MacAddr| #[trigger] has_key(k, m) <==> target.contains_key(m) by {
                if has_key(k, m) {
                    let j = choose|j: int| 0 <= j < k.len() && k[j].0 == m;
                    lemma_map_of_at(s, idx[j]);
                }
                if target.contains_key(m) {
                    let a = choose|a: int| 0 <= a < s.len() && s[a].0 == m;
                    lemma_map_of_at(s, a);
                    let j = choose|j: int| 0 <= j < idx.len() && idx[j] == a;
                    assert(k[j].0 == m);
                }
            }
            assert forall|m: MacAddr| target.contains_key(m) implies map_of(k)[m] == #[trigger] target[m] by {
                assert(has_key(k, m));
                let j = choose|j: int| 0 <= j < k.len() && k[j].0 == m;
                lemma_map_of_at(k, j);
                lemma_map_of_at(s, idx[j]);
            }
            assert(map_of(k) =~= target);
        }
        self.entries = kept;
    }
}

/// The table after learning each sighting of `ls` in turn: address, endpoint, time.
pub open spec fn learned_all(t: Map<MacAddr, PeerEntry>, ls: Seq<(MacAddr, Endpoint, u64)>) -> Map<MacAddr, PeerEntry>
    decreases ls.len(),
{
    if ls.len() == 0 {
        t
    } else {
        let l = ls.last();
        learned(learned_all(t, ls.drop_last()), l.0, l.1, l.2)
    }
}

/// After any sequence of sightings, the table holds for each address the
/// endpoint and time of its most recent sighting; an address never sighted
/// keeps what it had before.
pub proof fn lemma_learning(t: Map<MacAddr, PeerEntry>, ls: Seq<(MacAddr, Endpoint, u64)>, mac: MacAddr)
    ensures
        forall|i: int|
            0 <= i < ls.len() && (#[trigger] ls[i]).0 == mac
                && (forall|j: int| i < j < ls.len() ==> (#[trigger] ls[j]).0 != mac)
                ==> learned_all(t, ls).contains_key(mac)
                && learned_all(t, ls)[mac] == (PeerEntry { endpoint: ls[i].1, last_activity: ls[i].2 }),
        (forall|i: int| 0 <= i < ls.len() ==> (#[trigger] ls[i]).0 != mac) ==> {
            &&& learned_all(t, ls).contains_key(mac) == t.contains_key(mac)
            &&& learned_all(t, ls)[mac] == t[mac]
        },
    decreases ls.len(),
{
    if ls.len() > 0 {
        let rest = ls.drop_last();
        lemma_learning(t, rest, mac);
        assert forall|i: int|
            0 <= i < ls.len() && (#[trigger] ls[i]).0 == mac
                && (forall|j: int| i < j < ls.len() ==> (#[trigger] ls[j]).0 != mac)
            implies learned_all(t, ls).contains_key(mac)
                && learned_all(t, ls)[mac] == (PeerEntry { endpoint: ls[i].1, last_activity: ls[i].2 }) by {
            if i < ls.len() - 1 {
                assert(ls[ls.len() - 1].0 != mac);
                assert(rest[i] == ls[i]);
                assert forall|j: int| i < j < rest.len() implies (#[trigger] rest[j]).0 != mac by {
                    assert(rest[j] == ls[j]);
                }
            }
        }
        if forall|i: int| 0 <= i < ls.len() ==> (#[trigger] ls[i]).0 != mac {
            assert(ls[ls.len() - 1].0 != mac);
            assert forall|i: int| 0 <= i < rest.len() implies (#[trigger] rest[i]).0 != mac by {
                assert(rest[i] == ls[i]);
            }
        }
    }
}

/// A sweep removes every entry that is stale at its time and keeps every
/// other entry unchanged.
pub proof fn lemma_staleness_eviction(t: Map<MacAddr, PeerEntry>, now: u64, after: u64, mac: MacAddr)
    requires
        t.contains_key(mac),
    ensures
        is_stale(t[mac], now, after) ==> !swept(t, now, after).contains_key(mac),
        !is_stale(t[mac], now, after) ==> swept(t, now, after).contains_key(mac)
            && swept(t, now, after)[mac] == t[mac],
{
}

/// A broadcast reaches every endpoint of the table and no other, one send per entry.
pub proof fn lemma_broadcast_fan_out(t: Map<MacAddr, PeerEntry>, out: Seq<Endpoint>)
    requires
        t.dom().finite(),
        fan_out(t, out),
    ensures
        out.len() == t.dom().len(),
        forall|e: Endpoint| out.contains(e) <==> exists|m: MacAddr| t.contains_key(m) && t[m].endpoint == e,
{
    let ks = choose|ks: Seq<MacAddr>|
        #![trigger ks.to_set()]
        ks.no_duplicates() && ks.to_set() == t.dom() && out == ks.map_values(|m: MacAddr| t[m].endpoint);
    ks.unique_seq_to_set();
    assert forall|e: Endpoint| out.contains(e) <==> exists|m: MacAddr| t.contains_key(m) && t[m].endpoint == e by {
        if out.contains(e) {
            let j = choose|j: int| 0 <= j < out.len() && out[j] == e;
            assert(ks.to_set().contains(ks[j]));
        }
        if exists|m: MacAddr| t.contains_key(m) && t[m].endpoint == e {
            let m = choose|m: MacAddr| t.contains_key(m) && t[m].endpoint == e;
            assert(ks.to_set().contains(m));
            let j = choose|j: int| 0 <= j < ks.len() && ks[j] == m;
            assert(out[j] == e);
        }
    }
}

} // verus!
