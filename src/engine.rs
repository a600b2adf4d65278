//! The forwarding engine: one decision per event, over the peer table.
use vstd::prelude::*;
use crate::address::{is_broadcast_spec, Endpoint, MacAddr};
use crate::frame::{destination_of, local_event_spec, remote_event_spec, source_of, well_formed, Cause, Event, EventView, Side};
use crate::peer_table::{fan_out, learned, lemma_broadcast_fan_out, swept, PeerEntry, PeerTable};

verus! {

/// Least time between two sweeps, in milliseconds; a sweep is due once more than this has passed.
pub const CHECK_INTERVAL_MS: u64 = 30_000;

/// Age, in milliseconds, at which a peer entry is removed by a sweep.
pub const STALE_AFTER_MS: u64 = 60_000;

/// What the caller is to do with the frame of an event.
pub enum Action {
    /// Write the remote frame to the local link; `new_peer` tells whether its
    /// source address was new to the table.
    Inject { new_peer: bool },
    /// Send the local frame, unchanged, to each of these endpoints.
    Forward(Vec<Endpoint>),
    /// Report an ingress failure; nothing is sent.
    Report(Side, Cause),
}

/// The engine's answer to one event.
pub struct Outcome {
    /// Whether the table was swept before the event was handled.
    pub swept: bool,
    pub action: Action,
}

/// An action seen as plain values.
pub enum ActionView {
    Inject(bool),
    Forward(Seq<Endpoint>),
    Report(Side, Cause),
}

/// An outcome seen as plain values.
pub struct OutcomeView {
    pub swept: bool,
    pub action: ActionView,
}

impl View for Outcome {
    type V = OutcomeView;

    open spec fn view(&self) -> OutcomeView {
        OutcomeView {
            swept: self.swept,
            action: match &self.action {
                Action::Inject { new_peer } => ActionView::Inject(*new_peer),
                Action::Forward(v) => ActionView::Forward(v@),
                Action::Report(s, c) => ActionView::Report(*s, *c),
            },
        }
    }
}

/// The engine's state as plain values: the learned peers and the time of the last sweep.
pub struct EngineView {
    pub peers: Map<MacAddr, PeerEntry>,
    pub last_sweep: u64,
}

/// Whether a sweep is due at `now`.
pub open spec fn sweep_due(last_sweep: u64, now: u64) -> bool {
    now - last_sweep > CHECK_INTERVAL_MS
}

/// The state once the sweep that may be due at `now` has been done.
pub open spec fn checked(pre: EngineView, now: u64) -> EngineView {
    if sweep_due(pre.last_sweep, now) {
        EngineView { peers: swept(pre.peers, now, STALE_AFTER_MS), last_sweep: now }
    } else {
        pre
    }
}

/// `out` is where a local frame addressed to `dest` goes, given the peers `t`.
pub open spec fn destinations(t: Map<MacAddr, PeerEntry>, dest: MacAddr, out: Seq<Endpoint>) -> bool {
    if is_broadcast_spec(dest) {
        fan_out(t, out)
    } else if t.contains_key(dest) {
        out == seq![t[dest].endpoint]
    } else {
        out == Seq::<Endpoint>::empty()
    }
}

/// One step of the engine: from `pre`, on event `ev` at time `now`, to `post` with outcome `out`.
pub open spec fn step(pre: EngineView, ev: EventView, now: u64, post: EngineView, out: OutcomeView) -> bool {
    let mid = checked(pre, now);
    &&& out.swept == sweep_due(pre.last_sweep, now)
    &&& post.last_sweep == mid.last_sweep
    &&& match ev {
        EventView::Remote(b, from) => {
            &&& post.peers == learned(mid.peers, source_of(b), from, now)
            &&& out.action == ActionView::Inject(!mid.peers.contains_key(source_of(b)))
        },
        EventView::Local(b) => {
            &&& post.peers == mid.peers
            &&& match out.action {
                ActionView::Forward(v) => destinations(mid.peers, destination_of(b), v),
                _ => false,
            }
        },
        EventView::Fault(s, c) => {
            &&& post.peers == mid.peers
            &&& out.action == ActionView::Report(s, c)
        },
    }
}

/// The forwarding engine. It alone reads and writes the peer table.
pub struct Engine {
    peers: PeerTable,
    last_sweep: u64,
}

impl View for Engine {
    type V = EngineView;

    closed spec fn view(&self) -> EngineView {
        EngineView { peers: self.peers@, last_sweep: self.last_sweep }
    }
}

impl Engine {
    /// The peer table is well formed.
    pub closed spec fn wf(&self) -> bool {
        self.peers.wf()
    }

    /// An engine with no peers, started at time `now`.
    pub fn new(now: u64) -> (r: Engine)
        ensures
            r.wf(),
            r@.peers == Map::<MacAddr, PeerEntry>::empty(),
            r@.last_sweep == now,
    {
        Engine { peers: PeerTable::new(), last_sweep: now }
    }

    /// The peer table.
    pub fn peers(&self) -> (r: &PeerTable)
        requires
            self.wf(),
        ensures
            r.wf(),
            r@ == self@.peers,
    {
        &self.peers
    }

    /// Handles one event at time `now`: sweeps the table if a sweep is due,
    /// then learns from a remote frame, routes a local frame, or reports a fault.
    pub fn handle(&mut self, event: &Event, now: u64) -> (out: Outcome)
        requires
            old(self).wf(),
        ensures
            final(self).wf(),
            final(self)@.peers.dom().finite(),
            step(old(self)@, event@, now, final(self)@, out@),
    {
        let swept = now > self.last_sweep && now - self.last_sweep > CHECK_INTERVAL_MS;
        if swept {
            self.peers.sweep(now, STALE_AFTER_MS);
            self.last_sweep = now;
        }
        let action = match event {
            Event::RemoteFrame(f, from) => {
                let new_peer = self.peers.learn(f.source(), *from, now);
                Action::Inject { new_peer }
            },
            Event::LocalFrame(f) => {
                let dest = f.destination();
                if dest.is_broadcast() {
                    Action::Forward(self.peers.endpoints())
                } else {
                    match self.peers.lookup(dest) {
                        Some(e) => {
                            let v = vec![e];
                            assert(v@ =~= seq![e]);
                            Action::Forward(v)
                        },
                        None => {
                            let v: Vec<Endpoint> = Vec::new();
                            assert(v@ =~= Seq::<Endpoint>::empty());
                            Action::Forward(v)
                        },
                    }
                }
            },
            Event::IngressError(s, c) => Action::Report(*s, *c),
        };
        proof {
            self.peers.lemma_finite();
        }
        Outcome { swept, action }
    }
}

/// A broadcast local frame is sent once to the endpoint of every peer in the
/// table when it is routed, and to no other endpoint.
pub proof fn lemma_broadcast(pre: EngineView, b: Seq<u8>, now: u64, post: EngineView, out: OutcomeView)
    requires
        pre.peers.dom().finite(),
        step(pre, EventView::Local(b), now, post, out),
        is_broadcast_spec(destination_of(b)),
    ensures
        match out.action {
            ActionView::Forward(v) => {
                &&& v.len() == post.peers.dom().len()
                &&& forall|e: Endpoint| v.contains(e) <==> exists|m: MacAddr| post.peers.contains_key(m) && post.peers[m].endpoint == e
            },
            _ => false,
        },
{
    vstd::set_lib::lemma_set_subset_finite(pre.peers.dom(), post.peers.dom());
    if let ActionView::Forward(v) = out.action {
        lemma_broadcast_fan_out(post.peers, v);
    }
}

/// A local frame to a unicast address that is not in the table is sent nowhere.
pub proof fn lemma_unknown_unicast(pre: EngineView, b: Seq<u8>, now: u64, post: EngineView, out: OutcomeView)
    requires
        step(pre, EventView::Local(b), now, post, out),
        !is_broadcast_spec(destination_of(b)),
        !post.peers.contains_key(destination_of(b)),
    ensures
        match out.action {
            ActionView::Forward(v) => v.len() == 0,
            _ => false,
        },
{
}

/// A local frame to a unicast address in the table is sent to that address's
/// endpoint alone, whatever other peers there are.
pub proof fn lemma_known_unicast(pre: EngineView, b: Seq<u8>, now: u64, post: EngineView, out: OutcomeView)
    requires
        step(pre, EventView::Local(b), now, post, out),
        !is_broadcast_spec(destination_of(b)),
        post.peers.contains_key(destination_of(b)),
    ensures
        out.action == ActionView::Forward(seq![post.peers[destination_of(b)].endpoint]),
{
}

/// `states[i]` goes to `states[i + 1]` on `events[i]` at `times[i]` with outcome `outs[i]`.
pub open spec fn is_run(states: Seq<EngineView>, events: Seq<EventView>, times: Seq<u64>, outs: Seq<OutcomeView>) -> bool {
    &&& states.len() == events.len() + 1
    &&& times.len() == events.len()
    &&& outs.len() == events.len()
    &&& forall|i: int| 0 <= i < events.len() ==> step(#[trigger] states[i], events[i], times[i], states[i + 1], outs[i])
}

proof fn lemma_last_sweep_grows(states: Seq<EngineView>, events: Seq<EventView>, times: Seq<u64>, outs: Seq<OutcomeView>, a: int, b: int)
    requires
        is_run(states, events, times, outs),
        0 <= a <= b < states.len(),
    ensures
        states[a].last_sweep <= states[b].last_sweep,
    decreases b - a,
{
    if a < b {
        lemma_last_sweep_grows(states, events, times, outs, a, b - 1);
        assert(step(states[b - 1], events[b - 1], times[b - 1], states[b], outs[b - 1]));
    }
}

/// Along any run, two sweeps lie more than the check interval apart, however
/// many events come between them.
pub proof fn lemma_sweep_cadence(states: Seq<EngineView>, events: Seq<EventView>, times: Seq<u64>, outs: Seq<OutcomeView>, i: int, j: int)
    requires
        is_run(states, events, times, outs),
        0 <= i < j < events.len(),
        outs[i].swept,
        outs[j].swept,
    ensures
        times[j] - times[i] > CHECK_INTERVAL_MS,
{
    assert(step(states[i], events[i], times[i], states[i + 1], outs[i]));
    assert(step(states[j], events[j], times[j], states[j + 1], outs[j]));
    lemma_last_sweep_grows(states, events, times, outs, i + 1, j);
}

/// A malformed datagram followed by a well-formed one: the first is reported as
/// one fault and learns nothing; the second is handled as if it came alone.
pub proof fn lemma_malformed_datagram(
    s0: EngineView, bad: Seq<u8>, good: Seq<u8>, from1: Endpoint, from2: Endpoint,
    t1: u64, t2: u64, s1: EngineView, s2: EngineView, o1: OutcomeView, o2: OutcomeView,
)
    requires
        !well_formed(bad),
        well_formed(good),
        step(s0, remote_event_spec(bad, from1), t1, s1, o1),
        step(s1, remote_event_spec(good, from2), t2, s2, o2),
    ensures
        o1.action == ActionView::Report(Side::Remote, Cause::Malformed),
        s1 == checked(s0, t1),
        o2.action == ActionView::Inject(!checked(s1, t2).peers.contains_key(source_of(good))),
        s2.peers.contains_key(source_of(good)),
        s2.peers[source_of(good)] == (PeerEntry { endpoint: from2, last_activity: t2 }),
{
}

/// A malformed local frame followed by a well-formed one: the first is reported
/// as one fault and changes nothing but the sweep; the second is routed as if it came alone.
pub proof fn lemma_malformed_frame(
    s0: EngineView, bad: Seq<u8>, good: Seq<u8>,
    t1: u64, t2: u64, s1: EngineView, s2: EngineView, o1: OutcomeView, o2: OutcomeView,
)
    requires
        !well_formed(bad),
        well_formed(good),
        step(s0, local_event_spec(bad), t1, s1, o1),
        step(s1, local_event_spec(good), t2, s2, o2),
    ensures
        o1.action == ActionView::Report(Side::Local, Cause::Malformed),
        s1 == checked(s0, t1),
        match o2.action {
            ActionView::Forward(v) => destinations(s2.peers, destination_of(good), v),
            _ => false,
        },
{
}

/// The source address that an event shows at a remote endpoint, if any.
pub open spec fn sighting(ev: EventView) -> Option<MacAddr> {
    match ev {
        EventView::Remote(b, _) => Some(source_of(b)),
        _ => None,
    }
}

proof fn lemma_learning_upto(
    states: Seq<EngineView>, events: Seq<EventView>, times: Seq<u64>, outs: Seq<OutcomeView>,
    i: int, b: Seq<u8>, from: Endpoint, n: int,
)
    requires
        is_run(states, events, times, outs),
        0 <= i < n <= events.len(),
        events[i] == EventView::Remote(b, from),
        forall|j: int| i < j < events.len() ==> #[trigger] sighting(events[j]) != Some(source_of(b)) && !outs[j].swept,
    ensures
        states[n].peers.contains_key(source_of(b)),
        states[n].peers[source_of(b)].endpoint == from,
    decreases n - i,
{
    assert(step(states[n - 1], events[n - 1], times[n - 1], states[n], outs[n - 1]));
    if n - 1 > i {
        lemma_learning_upto(states, events, times, outs, i, b, from, n - 1);
        assert(sighting(events[n - 1]) != Some(source_of(b)));
    }
}

/// Along any run, an address maps to the endpoint of its most recent sighting,
/// so long as no sweep has come since that sighting.
pub proof fn lemma_learning_run(
    states: Seq<EngineView>, events: Seq<EventView>, times: Seq<u64>, outs: Seq<OutcomeView>,
    i: int, b: Seq<u8>, from: Endpoint,
)
    requires
        is_run(states, events, times, outs),
        0 <= i < events.len(),
        events[i] == EventView::Remote(b, from),
        forall|j: int| i < j < events.len() ==> #[trigger] sighting(events[j]) != Some(source_of(b)) && !outs[j].swept,
    ensures
        states.last().peers.contains_key(source_of(b)),
        states.last().peers[source_of(b)].endpoint == from,
{
    lemma_learning_upto(states, events, times, outs, i, b, from, events.len() as int);
}

} // verus!
