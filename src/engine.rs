use std::collections::HashMap;
use vstd::prelude::*;

use crate::packet_id::PacketId;
use vstd::std_specs::hash::spec_hash_map_iter;
use vstd::std_specs::iter::IteratorSpec;

verus! {

broadcast use vstd::std_specs::hash::group_hash_axioms;

/// The sum of a sequence of delay samples.
pub open spec fn sum_of(s: Seq<u64>) -> nat
    decreases s.len(),
{
    if s.len() == 0 {
        0
    } else {
        sum_of(s.drop_last()) + s.last() as nat
    }
}

/// The absolute difference of two timestamps.
pub open spec fn abs_diff(a: u64, b: u64) -> u64 {
    if a >= b {
        (a - b) as u64
    } else {
        (b - a) as u64
    }
}

/// The abstract state of the correlation engine.
pub struct EngineModel {
    /// First-seen time of each id on feed 0.
    pub pending0: Map<u128, u64>,
    /// First-seen time of each id on feed 1.
    pub pending1: Map<u128, u64>,
    /// Every delay sample recorded since start, in order.
    pub delays: Seq<u64>,
}

impl EngineModel {
    /// The pending map of `feed`.
    pub open spec fn own(self, feed: u8) -> Map<u128, u64> {
        if feed == 0 {
            self.pending0
        } else {
            self.pending1
        }
    }

    /// The pending map of the feed other than `feed`.
    pub open spec fn other(self, feed: u8) -> Map<u128, u64> {
        if feed == 0 {
            self.pending1
        } else {
            self.pending0
        }
    }

    /// This state with the pending map of `feed` replaced by `m`.
    pub open spec fn with_own(self, feed: u8, m: Map<u128, u64>) -> EngineModel {
        if feed == 0 {
            EngineModel { pending0: m, ..self }
        } else {
            EngineModel { pending1: m, ..self }
        }
    }

    /// Both pending maps are finite.
    pub open spec fn finite(self) -> bool {
        self.pending0.dom().finite() && self.pending1.dom().finite()
    }

    /// The number of matched pairs: one delay sample per match.
    pub open spec fn matched(self) -> nat {
        self.delays.len()
    }
}

/// The engine state after an arrival of `id` on `feed` at time `t`.
///
/// A duplicate on the same feed changes nothing. Otherwise the first-seen time
/// is recorded, and if the other feed already holds the id, the absolute
/// difference of the two first-seen times is recorded as a delay sample.
pub open spec fn arrive(s: EngineModel, feed: u8, id: u128, t: u64) -> EngineModel {
    if s.own(feed).contains_key(id) {
        s
    } else {
        let s1 = s.with_own(feed, s.own(feed).insert(id, t));
        if s.other(feed).contains_key(id) {
            EngineModel { delays: s.delays.push(abs_diff(t, s.other(feed)[id])), ..s1 }
        } else {
            s1
        }
    }
}

/// Whether an entry first seen at `t` survives a sweep at `now`: its age,
/// saturating at zero, has not gone past the retention timeout.
pub open spec fn is_fresh(now: u64, t: u64, timeout: u64) -> bool {
    (if now >= t { now - t } else { 0int }) <= timeout
}

/// The entries of `m` that survive a sweep at `now`.
pub open spec fn fresh_entries(m: Map<u128, u64>, now: u64, timeout: u64) -> Map<u128, u64> {
    Map::new(|k: u128| m.contains_key(k) && is_fresh(now, m[k], timeout), |k: u128| m[k])
}

/// The engine state after a cleanup sweep at `now`.
pub open spec fn sweep(s: EngineModel, now: u64, timeout: u64) -> EngineModel {
    EngineModel {
        pending0: fresh_entries(s.pending0, now, timeout),
        pending1: fresh_entries(s.pending1, now, timeout),
        delays: s.delays,
    }
}

/// The mean of the delay samples, rounded down; zero when there are none.
pub open spec fn average(s: Seq<u64>) -> nat {
    if s.len() == 0 {
        0
    } else {
        sum_of(s) / s.len()
    }
}

/// A snapshot of the engine for the reporter.
#[derive(Clone, Copy, Debug, PartialEq, Eq, Structural)]
pub struct StatsSnapshot {
    pub port0_pending: usize,
    pub port1_pending: usize,
    pub matched_pairs: u64,
    pub avg_delay_ns: u64,
}

/// An event consumed by the engine.
#[derive(Clone, Copy, Debug, PartialEq, Eq, Structural)]
pub enum ProcessorEvent {
    /// `shred_id` was decoded on feed `port_id` at `timestamp` nanoseconds.
    ShredReceived { port_id: u8, shred_id: PacketId, timestamp: u64 },
    /// Time to sweep out entries older than the retention timeout.
    Cleanup,
    /// Time to report statistics.
    StatsTick,
}

/// What the engine hands back for one event.
#[derive(Clone, Copy, Debug, PartialEq, Eq, Structural)]
pub enum ProcessorOutput {
    Nothing,
    Matched(MatchObservation),
    Stats(StatsSnapshot),
}

/// The engine state after handling `event` at time `now` with retention
/// timeout `timeout`.
pub open spec fn step(s: EngineModel, event: ProcessorEvent, now: u64, timeout: u64) -> EngineModel {
    match event {
        ProcessorEvent::ShredReceived { port_id, shred_id, timestamp } => arrive(
            s,
            port_id,
            shred_id.raw,
            timestamp,
        ),
        ProcessorEvent::Cleanup => sweep(s, now, timeout),
        ProcessorEvent::StatsTick => s,
    }
}

/// A match reported by the engine: the id and its delay in nanoseconds.
#[derive(Clone, Copy, Debug, PartialEq, Eq, Structural)]
pub struct MatchObservation {
    pub id: PacketId,
    pub delay_ns: u64,
}

/// The state owned by the correlation engine.
pub struct ProcessorState {
    port0_data: HashMap<u128, u64>,
    port1_data: HashMap<u128, u64>,
    matched_pairs: u64,
    delay_sum: u128,
    delays: Ghost<Seq<u64>>,
}

impl View for ProcessorState {
    type V = EngineModel;

    closed spec fn view(&self) -> EngineModel {
        EngineModel { pending0: self.port0_data@, pending1: self.port1_data@, delays: self.delays@ }
    }
}

impl ProcessorState {
    /// The counters agree with the recorded samples.
    pub closed spec fn wf(&self) -> bool {
        &&& self.matched_pairs as nat == self.delays@.len()
        &&& self.delay_sum as nat == sum_of(self.delays@)
    }

    /// A fresh engine: empty maps, no samples.
    pub fn new() -> (r: ProcessorState)
        ensures
            r.wf(),
            r@.finite(),
            r@.pending0 == Map::<u128, u64>::empty(),
            r@.pending1 == Map::<u128, u64>::empty(),
            r@.delays == Seq::<u64>::empty(),
    {
        ProcessorState {
            port0_data: HashMap::new(),
            port1_data: HashMap::new(),
            matched_pairs: 0,
            delay_sum: 0,
            delays: Ghost(Seq::empty()),
        }
    }

    /// Number of matched pairs so far.
    pub fn matched_pairs(&self) -> (r: u64)
        requires
            self.wf(),
        ensures
            r == self@.matched(),
    {
        self.matched_pairs
    }
}

/// Each sample is at most `u64::MAX`, so the sum is bounded by the count.
pub proof fn lemma_sum_bound(s: Seq<u64>)
    ensures
        sum_of(s) <= s.len() * (u64::MAX as nat),
    decreases s.len(),
{
    if s.len() > 0 {
        lemma_sum_bound(s.drop_last());
    }
}

/// The absolute difference of two timestamps, in nanoseconds.
fn time_diff(a: u64, b: u64) -> (r: u64)
    ensures
        r == abs_diff(a, b),
{
    if a >= b {
        a - b
    } else {
        b - a
    }
}

/// Handles one arrival of `shred_id` on feed `port_id` at time `timestamp`
/// (nanoseconds). Returns the match it completed, if any.
///
/// Where the arrival completes a match, the match counter must have room for
/// one more.
pub fn process_shred(state: &mut ProcessorState, port_id: u8, shred_id: PacketId, timestamp: u64)
    -> (r: Option<MatchObservation>)
    requires
        old(state).wf(),
        port_id < 2,
        completes_match(old(state)@, port_id, shred_id.raw) ==> old(state)@.matched() < u64::MAX,
    ensures
        final(state).wf(),
        final(state)@.finite(),
        final(state)@ == arrive(old(state)@, port_id, shred_id.raw, timestamp),
        r == (if completes_match(old(state)@, port_id, shred_id.raw) {
            Some(
                MatchObservation {
                    id: shred_id,
                    delay_ns: abs_diff(timestamp, old(state)@.other(port_id)[shred_id.raw]),
                },
            )
        } else {
            None
        }),
{
    let key = shred_id.raw;
    let other_time = if port_id == 0 {
        if state.port0_data.contains_key(&key) {
            return None;
        }
        state.port0_data.insert(key, timestamp);
        match state.port1_data.get(&key) {
            Some(t) => Some(*t),
            None => None,
        }
    } else {
        if state.port1_data.contains_key(&key) {
            return None;
        }
        state.port1_data.insert(key, timestamp);
        match state.port0_data.get(&key) {
            Some(t) => Some(*t),
            None => None,
        }
    };
    match other_time {
        Some(other) => {
            let delay = time_diff(timestamp, other);
            proof {
                lemma_sum_bound(state.delays@);
                let ghost old_delays = state.delays@;
                assert(old_delays.push(delay).drop_last() == old_delays);
            }
            state.matched_pairs = state.matched_pairs + 1;
            state.delay_sum = state.delay_sum + delay as u128;
            state.delays = Ghost(state.delays@.push(delay));
            Some(MatchObservation { id: shred_id, delay_ns: delay })
        },
        None => None,
    }
}

/// The entries of `m` that survive a sweep at `now`.
fn fresh_of(m: &HashMap<u128, u64>, now: u64, timeout: u64) -> (r: HashMap<u128, u64>)
    ensures
        r@ == fresh_entries(m@, now, timeout),
{
    let mut kept: HashMap<u128, u64> = HashMap::new();
    let ghost v = spec_hash_map_iter(m).remaining();
    let ghost mut seen: int = 0;
    for (k, t) in it: m.iter()
        invariant
            it.seq() == v,
            seen == it.index(),
            forall|key: u128| #[trigger]
                kept@.contains_key(key) ==> m@.contains_key(key) && is_fresh(now, m@[key], timeout)
                    && kept@[key] == m@[key],
            forall|i: int|
                0 <= i < seen && is_fresh(now, *v[i].1, timeout)
                    ==> #[trigger] kept@.contains_key(*v[i].0),
    {
        if now.saturating_sub(*t) <= timeout {
            kept.insert(*k, *t);
        }
        proof {
            seen = seen + 1;
        }
    }
    proof {
        assert(seen == v.len());
        assert forall|key: u128| #[trigger] m@.contains_key(key) && is_fresh(now, m@[key], timeout)
            implies kept@.contains_key(key) by {
            assert(v.contains((&key, &m@[key])));
            let i = choose|i: int| 0 <= i < v.len() && v[i] == (&key, &m@[key]);
            assert(*v[i].0 == key && *v[i].1 == m@[key]);
            assert(kept@.contains_key(*v[i].0));
        }
        assert(kept@ =~= fresh_entries(m@, now, timeout));
    }
    kept
}

/// Removes from both pending maps every entry older than `timeout` at `now`,
/// matched or not; an entry whose age equals `timeout` stays.
pub fn cleanup_data(state: &mut ProcessorState, now: u64, timeout: u64)
    requires
        old(state).wf(),
    ensures
        final(state).wf(),
        final(state)@.finite(),
        final(state)@ == sweep(old(state)@, now, timeout),
{
    state.port0_data = fresh_of(&state.port0_data, now, timeout);
    state.port1_data = fresh_of(&state.port1_data, now, timeout);
}

/// The statistics of the engine; reading them changes nothing.
pub fn report_stats(state: &ProcessorState) -> (r: StatsSnapshot)
    requires
        state.wf(),
    ensures
        r.port0_pending == state@.pending0.len(),
        r.port1_pending == state@.pending1.len(),
        r.matched_pairs == state@.matched(),
        r.avg_delay_ns == average(state@.delays),
{
    let avg: u64 = if state.matched_pairs == 0 {
        0
    } else {
        let n = state.matched_pairs as u128;
        let sum = state.delay_sum;
        proof {
            lemma_sum_bound(state.delays@);
            let m = u64::MAX as int;
            assert(sum as int / n as int <= m) by (nonlinear_arith)
                requires
                    sum as int <= n as int * m,
                    n as int > 0,
                    m > 0,
            ;
        }
        (sum / n) as u64
    };
    StatsSnapshot {
        port0_pending: state.port0_data.len(),
        port1_pending: state.port1_data.len(),
        matched_pairs: state.matched_pairs,
        avg_delay_ns: avg,
    }
}

/// Whether an arrival of `id` on `feed` completes a match.
pub open spec fn completes_match(s: EngineModel, feed: u8, id: u128) -> bool {
    !s.own(feed).contains_key(id) && s.other(feed).contains_key(id)
}

/// Whether an event is one the engine can take: arrivals name feed 0 or 1.
pub open spec fn event_ok(event: ProcessorEvent) -> bool {
    match event {
        ProcessorEvent::ShredReceived { port_id, .. } => port_id < 2,
        _ => true,
    }
}

/// Handles one event of the queue. `now` is the time at which the event is
/// handled and `timeout` the retention timeout, both in nanoseconds.
pub fn handle_event(state: &mut ProcessorState, event: ProcessorEvent, now: u64, timeout: u64)
    -> (r: ProcessorOutput)
    requires
        old(state).wf(),
        event is ShredReceived ==> old(state)@.matched() < u64::MAX,
        event_ok(event),
    ensures
        final(state).wf(),
        final(state)@.finite(),
        final(state)@ == step(old(state)@, event, now, timeout),
        match event {
            ProcessorEvent::ShredReceived { port_id, shred_id, timestamp } => {
                &&& final(state)@ == arrive(old(state)@, port_id, shred_id.raw, timestamp)
                &&& (r is Matched <==> final(state)@.matched() == old(state)@.matched() + 1)
                &&& (r is Nothing <==> final(state)@.matched() == old(state)@.matched())
                &&& (r matches ProcessorOutput::Matched(o) ==> o.id == shred_id && o.delay_ns
                    == final(state)@.delays.last())
            },
            ProcessorEvent::Cleanup => {
                &&& final(state)@ == sweep(old(state)@, now, timeout)
                &&& r is Nothing
            },
            ProcessorEvent::StatsTick => {
                &&& final(state)@ == old(state)@
                &&& r matches ProcessorOutput::Stats(snap) && snap.port0_pending
                    == old(state)@.pending0.len() && snap.port1_pending == old(state)@.pending1.len()
                    && snap.matched_pairs == old(state)@.matched() && snap.avg_delay_ns == average(
                    old(state)@.delays,
                )
            },
        },
{
    match event {
        ProcessorEvent::ShredReceived { port_id, shred_id, timestamp } => {
            match process_shred(state, port_id, shred_id, timestamp) {
                Some(o) => ProcessorOutput::Matched(o),
                None => ProcessorOutput::Nothing,
            }
        },
        ProcessorEvent::Cleanup => {
            cleanup_data(state, now, timeout);
            ProcessorOutput::Nothing
        },
        ProcessorEvent::StatsTick => ProcessorOutput::Stats(report_stats(state)),
    }
}

} // verus!
