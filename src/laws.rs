use vstd::prelude::*;

use crate::engine::{abs_diff, arrive, step, sweep, EngineModel, ProcessorEvent};
use vstd::map_lib::lemma_submap_of_trans;
use vstd::set_lib::lemma_len_subset;

verus! {

/// The engine state after a run of arrivals `(feed, id, time)`, in order.
pub open spec fn arrive_all(s: EngineModel, a: Seq<(u8, u128, u64)>) -> EngineModel
    decreases a.len(),
{
    if a.len() == 0 {
        s
    } else {
        arrive_all(arrive(s, a[0].0, a[0].1, a[0].2), a.drop_first())
    }
}

/// Arrivals of an id that its own feed already holds change nothing.
pub proof fn lemma_duplicates_absorbed(s: EngineModel, feed: u8, id: u128, a: Seq<(u8, u128, u64)>)
    requires
        feed < 2,
        s.own(feed).contains_key(id),
        forall|i: int| 0 <= i < a.len() ==> (#[trigger] a[i]).0 == feed && a[i].1 == id,
    ensures
        arrive_all(s, a) == s,
    decreases a.len(),
{
    if a.len() > 0 {
        lemma_duplicates_absorbed(s, feed, id, a.drop_first());
    }
}

/// Of a run of arrivals of one id on one feed, only the first is retained:
/// the run leaves the engine as the first arrival alone does.
pub proof fn lemma_first_arrival_retained(
    s: EngineModel,
    feed: u8,
    id: u128,
    a: Seq<(u8, u128, u64)>,
)
    requires
        feed < 2,
        a.len() > 0,
        forall|i: int| 0 <= i < a.len() ==> (#[trigger] a[i]).0 == feed && a[i].1 == id,
    ensures
        arrive_all(s, a) == arrive(s, feed, id, a[0].2),
        !s.own(feed).contains_key(id) ==> arrive_all(s, a).own(feed)[id] == a[0].2,
{
    let s1 = arrive(s, feed, id, a[0].2);
    assert(s1.own(feed).contains_key(id));
    let rest = a.drop_first();
    assert forall|i: int| 0 <= i < rest.len() implies (#[trigger] rest[i]).0 == feed && rest[i].1
        == id by {
        assert(rest[i] == a[i + 1]);
    }
    lemma_duplicates_absorbed(s1, feed, id, rest);
}

/// Once both feeds hold an id, no further arrival of it changes anything.
pub proof fn lemma_matched_id_absorbed(s: EngineModel, id: u128, a: Seq<(u8, u128, u64)>)
    requires
        s.pending0.contains_key(id),
        s.pending1.contains_key(id),
        forall|i: int| 0 <= i < a.len() ==> (#[trigger] a[i]).0 < 2 && a[i].1 == id,
    ensures
        arrive_all(s, a) == s,
    decreases a.len(),
{
    if a.len() > 0 {
        let rest = a.drop_first();
        assert forall|i: int| 0 <= i < rest.len() implies (#[trigger] rest[i]).0 < 2 && rest[i].1
            == id by {
            assert(rest[i] == a[i + 1]);
        }
        lemma_matched_id_absorbed(s, id, rest);
    }
}

/// However many arrivals of one id come on either feed, the number of
/// matches grows by at most one.
pub proof fn lemma_one_match_per_id(s: EngineModel, id: u128, a: Seq<(u8, u128, u64)>)
    requires
        forall|i: int| 0 <= i < a.len() ==> (#[trigger] a[i]).0 < 2 && a[i].1 == id,
    ensures
        arrive_all(s, a).matched() <= s.matched() + 1,
    decreases a.len(),
{
    if a.len() > 0 {
        let s1 = arrive(s, a[0].0, id, a[0].2);
        let rest = a.drop_first();
        assert forall|i: int| 0 <= i < rest.len() implies (#[trigger] rest[i]).0 < 2 && rest[i].1
            == id by {
            assert(rest[i] == a[i + 1]);
        }
        if s1.matched() == s.matched() + 1 {
            lemma_matched_id_absorbed(s1, id, rest);
        } else {
            lemma_one_match_per_id(s1, id, rest);
        }
    }
}

/// An id seen at `t0` on feed 0 and at `t1 >= t0` on feed 1 gives one delay
/// sample of `t1 - t0`, whichever of the two arrivals is handled first.
pub proof fn lemma_match_delay(s: EngineModel, id: u128, t0: u64, t1: u64)
    requires
        !s.pending0.contains_key(id),
        !s.pending1.contains_key(id),
        t0 <= t1,
    ensures
        arrive(arrive(s, 0, id, t0), 1, id, t1).delays == s.delays.push((t1 - t0) as u64),
        arrive(arrive(s, 1, id, t1), 0, id, t0).delays == s.delays.push((t1 - t0) as u64),
{
    assert(abs_diff(t1, t0) == (t1 - t0) as u64);
    assert(abs_diff(t0, t1) == (t1 - t0) as u64);
}

/// A sweep at a time past an entry's first-seen time plus the retention
/// timeout removes that entry, matched or not.
pub proof fn lemma_sweep_evicts(s: EngineModel, feed: u8, id: u128, now: u64, timeout: u64)
    requires
        feed < 2,
        s.own(feed).contains_key(id),
        now > s.own(feed)[id] + timeout,
    ensures
        !sweep(s, now, timeout).own(feed).contains_key(id),
{
}

/// Arrivals on feed 0 of ids that feed 1 does not hold leave feed 1's map
/// and the delay samples as they were.
pub proof fn lemma_feed_isolation(s: EngineModel, a: Seq<(u8, u128, u64)>)
    requires
        forall|i: int| 0 <= i < a.len() ==> (#[trigger] a[i]).0 == 0 && !s.pending1.contains_key(
            a[i].1,
        ),
    ensures
        arrive_all(s, a).pending1 == s.pending1,
        arrive_all(s, a).delays == s.delays,
    decreases a.len(),
{
    if a.len() > 0 {
        let s1 = arrive(s, 0, a[0].1, a[0].2);
        let rest = a.drop_first();
        assert forall|i: int| 0 <= i < rest.len() implies (#[trigger] rest[i]).0 == 0
            && !s1.pending1.contains_key(rest[i].1) by {
            assert(rest[i] == a[i + 1]);
        }
        lemma_feed_isolation(s1, rest);
    }
}

/// The engine state after handling a run of events, each with the time at
/// which it is handled.
pub open spec fn run(s: EngineModel, evs: Seq<(ProcessorEvent, u64)>, timeout: u64) -> EngineModel
    decreases evs.len(),
{
    if evs.len() == 0 {
        s
    } else {
        run(step(s, evs[0].0, evs[0].1, timeout), evs.drop_first(), timeout)
    }
}

/// Whether an event is an arrival on feed 0 of an id that `m` does not hold.
pub open spec fn feed0_arrival_outside(e: ProcessorEvent, m: Map<u128, u64>) -> bool {
    match e {
        ProcessorEvent::ShredReceived { port_id, shred_id, .. } => port_id == 0
            && !m.contains_key(shred_id.raw),
        _ => true,
    }
}

/// In any run of events whose arrivals are all on feed 0, of ids that feed 1
/// does not hold, sweeps included, feed 1's map only loses entries and no
/// match is recorded.
pub proof fn lemma_feed_isolation_with_sweeps(
    s: EngineModel,
    evs: Seq<(ProcessorEvent, u64)>,
    timeout: u64,
)
    requires
        forall|i: int| 0 <= i < evs.len() ==> feed0_arrival_outside(#[trigger] evs[i].0, s.pending1),
    ensures
        run(s, evs, timeout).pending1.submap_of(s.pending1),
        run(s, evs, timeout).delays == s.delays,
    decreases evs.len(),
{
    if evs.len() > 0 {
        let s1 = step(s, evs[0].0, evs[0].1, timeout);
        assert(feed0_arrival_outside(evs[0].0, s.pending1));
        assert(s1.pending1.submap_of(s.pending1));
        let rest = evs.drop_first();
        assert forall|i: int| 0 <= i < rest.len() implies feed0_arrival_outside(
            #[trigger] rest[i].0,
            s1.pending1,
        ) by {
            assert(rest[i] == evs[i + 1]);
            assert(feed0_arrival_outside(evs[i + 1].0, s.pending1));
        }
        lemma_feed_isolation_with_sweeps(s1, rest, timeout);
        lemma_submap_of_trans(run(s1, rest, timeout).pending1, s1.pending1, s.pending1);
    }
}

/// Running two runs of arrivals one after the other is running their
/// concatenation.
pub proof fn lemma_arrive_all_append(
    s: EngineModel,
    a: Seq<(u8, u128, u64)>,
    b: Seq<(u8, u128, u64)>,
)
    ensures
        arrive_all(s, a + b) == arrive_all(arrive_all(s, a), b),
    decreases a.len(),
{
    if a.len() > 0 {
        assert((a + b).drop_first() == a.drop_first() + b);
        lemma_arrive_all_append(arrive(s, a[0].0, a[0].1, a[0].2), a.drop_first(), b);
    }
}

/// An arrival placed where its own feed already holds its id changes no later
/// state: the run with it ends as the run without it.
pub proof fn lemma_duplicate_inserted(
    s: EngineModel,
    a1: Seq<(u8, u128, u64)>,
    a2: Seq<(u8, u128, u64)>,
    feed: u8,
    id: u128,
    t: u64,
)
    requires
        feed < 2,
        arrive_all(s, a1).own(feed).contains_key(id),
    ensures
        arrive_all(s, a1 + seq![(feed, id, t)] + a2) == arrive_all(s, a1 + a2),
{
    let x = seq![(feed, id, t)];
    lemma_arrive_all_append(s, a1 + x, a2);
    lemma_arrive_all_append(s, a1, x);
    lemma_arrive_all_append(s, a1, a2);
    let s1 = arrive_all(s, a1);
    assert(x.drop_first().len() == 0);
    assert(arrive_all(arrive(s1, feed, id, t), x.drop_first()) == arrive(s1, feed, id, t));
    assert(arrive_all(s1, x) == s1);
}

/// Once a feed holds an id, further arrivals keep it there.
pub proof fn lemma_entry_persists(s: EngineModel, a: Seq<(u8, u128, u64)>, feed: u8, id: u128)
    requires
        feed < 2,
        s.own(feed).contains_key(id),
    ensures
        arrive_all(s, a).own(feed).contains_key(id),
    decreases a.len(),
{
    if a.len() > 0 {
        lemma_entry_persists(arrive(s, a[0].0, a[0].1, a[0].2), a.drop_first(), feed, id);
    }
}

/// An arrival on a feed, once handled, makes the feed hold its id for the
/// rest of a run of arrivals, so a later arrival of the same pair is a
/// duplicate.
pub proof fn lemma_earlier_arrival_holds(
    s: EngineModel,
    a: Seq<(u8, u128, u64)>,
    j: int,
)
    requires
        0 <= j < a.len(),
        a[j].0 < 2,
    ensures
        arrive_all(s, a).own(a[j].0).contains_key(a[j].1),
{
    let (feed, id, t) = a[j];
    assert(a == a.take(j) + seq![a[j]] + a.skip(j + 1));
    lemma_arrive_all_append(s, a.take(j) + seq![a[j]], a.skip(j + 1));
    lemma_arrive_all_append(s, a.take(j), seq![a[j]]);
    let s1 = arrive_all(s, a.take(j));
    assert(seq![a[j]].drop_first().len() == 0);
    assert(arrive_all(arrive(s1, feed, id, t), seq![a[j]].drop_first()) == arrive(s1, feed, id, t));
    assert(arrive_all(s1, seq![a[j]]) == arrive(s1, feed, id, t));
    assert(arrive(s1, feed, id, t).own(feed).contains_key(id));
    lemma_entry_persists(arrive(s1, feed, id, t), a.skip(j + 1), feed, id);
}

/// The ids that both feeds hold.
pub open spec fn both_ids(s: EngineModel) -> Set<u128> {
    Set::new(|x: u128| s.pending0.contains_key(x) && s.pending1.contains_key(x))
}

proof fn lemma_matches_track_both(s: EngineModel, a: Seq<(u8, u128, u64)>, d: Set<u128>)
    requires
        d.finite(),
        forall|i: int| 0 <= i < a.len() ==> (#[trigger] a[i]).0 < 2 && d.contains(a[i].1),
    ensures
        arrive_all(s, a).matched() + d.intersect(both_ids(s)).len() <= s.matched() + d.intersect(
            both_ids(arrive_all(s, a)),
        ).len(),
    decreases a.len(),
{
    if a.len() > 0 {
        let (feed, x, t) = a[0];
        let s1 = arrive(s, feed, x, t);
        let rest = a.drop_first();
        assert forall|i: int| 0 <= i < rest.len() implies (#[trigger] rest[i]).0 < 2 && d.contains(
            rest[i].1,
        ) by {
            assert(rest[i] == a[i + 1]);
        }
        lemma_matches_track_both(s1, rest, d);
        let b0 = d.intersect(both_ids(s));
        let b1 = d.intersect(both_ids(s1));
        if s1.matched() == s.matched() + 1 {
            assert(d.contains(a[0].1));
            assert(b1 == b0.insert(x));
            assert(!b0.contains(x));
        } else {
            assert(b0.subset_of(b1));
            lemma_len_subset(b0, b1);
        }
    }
}

/// The ids that a run of arrivals carries.
pub open spec fn ids_of(a: Seq<(u8, u128, u64)>) -> Set<u128> {
    a.map_values(|e: (u8, u128, u64)| e.1).to_set()
}

/// However arrivals of several ids interleave on the two feeds, the number
/// of matches grows by at most the number of distinct ids among them.
pub proof fn lemma_matches_bounded_by_ids(s: EngineModel, a: Seq<(u8, u128, u64)>)
    requires
        forall|i: int| 0 <= i < a.len() ==> (#[trigger] a[i]).0 < 2,
    ensures
        arrive_all(s, a).matched() <= s.matched() + ids_of(a).len(),
{
    let d = ids_of(a);
    broadcast use vstd::seq_lib::seq_to_set_is_finite;
    assert forall|i: int| 0 <= i < a.len() implies (#[trigger] a[i]).0 < 2 && d.contains(a[i].1) by {
        let m = a.map_values(|e: (u8, u128, u64)| e.1);
        assert(m[i] == a[i].1);
    }
    lemma_matches_track_both(s, a, d);
    let fin = arrive_all(s, a);
    lemma_len_subset(d.intersect(both_ids(fin)), d);
}

} // verus!
