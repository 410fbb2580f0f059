use shred_delay::engine::{
    cleanup_data, handle_event, process_shred, report_stats, MatchObservation, ProcessorEvent,
    ProcessorOutput, ProcessorState, StatsSnapshot,
};
use shred_delay::packet_id::PacketId;
use shred_delay::NANOS_PER_SEC;

const MS: u64 = 1_000_000;

fn id(raw: u128) -> PacketId {
    PacketId::from_raw(raw)
}

#[test]
fn scenario_a_one_match_of_fifty_ms() {
    let mut st = ProcessorState::new();
    assert_eq!(process_shred(&mut st, 0, id(0xA), 0), None);
    let m = process_shred(&mut st, 1, id(0xA), 50 * MS);
    assert_eq!(m, Some(MatchObservation { id: id(0xA), delay_ns: 50 * MS }));
    assert_eq!(st.matched_pairs(), 1);
    let snap = report_stats(&st);
    assert_eq!(
        snap,
        StatsSnapshot { port0_pending: 1, port1_pending: 1, matched_pairs: 1, avg_delay_ns: 50 * MS }
    );
}

#[test]
fn scenario_b_unmatched_entry_evicted() {
    let mut st = ProcessorState::new();
    assert_eq!(process_shred(&mut st, 0, id(0xB), 0), None);
    cleanup_data(&mut st, 61 * NANOS_PER_SEC, 60 * NANOS_PER_SEC);
    let snap = report_stats(&st);
    assert_eq!(snap.port0_pending, 0);
    assert_eq!(snap.matched_pairs, 0);
    // a late copy on feed 1 no longer matches
    assert_eq!(process_shred(&mut st, 1, id(0xB), 61 * NANOS_PER_SEC), None);
    assert_eq!(st.matched_pairs(), 0);
}

#[test]
fn scenario_c_duplicate_keeps_first_time() {
    let mut st = ProcessorState::new();
    assert_eq!(process_shred(&mut st, 0, id(0xC), 0), None);
    assert_eq!(process_shred(&mut st, 0, id(0xC), 5 * MS), None);
    let m = process_shred(&mut st, 1, id(0xC), 10 * MS);
    assert_eq!(m, Some(MatchObservation { id: id(0xC), delay_ns: 10 * MS }));
    assert_eq!(st.matched_pairs(), 1);
    assert_eq!(report_stats(&st).port0_pending, 1);
}

#[test]
fn duplicates_after_match_are_absorbed() {
    let mut st = ProcessorState::new();
    process_shred(&mut st, 0, id(1), 0);
    process_shred(&mut st, 1, id(1), 3);
    for t in 4..10u64 {
        assert_eq!(process_shred(&mut st, (t % 2) as u8, id(1), t), None);
    }
    assert_eq!(st.matched_pairs(), 1);
    assert_eq!(report_stats(&st).avg_delay_ns, 3);
}

#[test]
fn delay_independent_of_processing_order() {
    let mut st = ProcessorState::new();
    assert_eq!(process_shred(&mut st, 1, id(9), 70), None);
    let m = process_shred(&mut st, 0, id(9), 20);
    assert_eq!(m, Some(MatchObservation { id: id(9), delay_ns: 50 }));
}

#[test]
fn same_instant_gives_zero_delay() {
    let mut st = ProcessorState::new();
    process_shred(&mut st, 0, id(4), 1000);
    let m = process_shred(&mut st, 1, id(4), 1000);
    assert_eq!(m, Some(MatchObservation { id: id(4), delay_ns: 0 }));
    assert_eq!(st.matched_pairs(), 1);
}

#[test]
fn sweep_evicts_matched_and_keeps_fresh() {
    let mut st = ProcessorState::new();
    process_shred(&mut st, 0, id(1), 0);
    process_shred(&mut st, 1, id(1), 10);
    process_shred(&mut st, 0, id(2), 95);
    cleanup_data(&mut st, 100, 10);
    let snap = report_stats(&st);
    assert_eq!(snap.port0_pending, 1);
    assert_eq!(snap.port1_pending, 0);
    // evicting does not forget the match
    assert_eq!(snap.matched_pairs, 1);
    assert_eq!(snap.avg_delay_ns, 10);
}

#[test]
fn sweep_boundary_age_equal_to_timeout_is_kept() {
    let mut st = ProcessorState::new();
    process_shred(&mut st, 0, id(1), 40);
    process_shred(&mut st, 0, id(2), 41);
    process_shred(&mut st, 0, id(3), 39);
    cleanup_data(&mut st, 100, 60);
    assert_eq!(report_stats(&st).port0_pending, 2);
}

#[test]
fn sweep_keeps_entries_from_the_future() {
    let mut st = ProcessorState::new();
    process_shred(&mut st, 1, id(3), 500);
    cleanup_data(&mut st, 100, 1);
    assert_eq!(report_stats(&st).port1_pending, 1);
}

#[test]
fn sweep_on_empty_engine() {
    let mut st = ProcessorState::new();
    cleanup_data(&mut st, 0, 0);
    assert_eq!(
        report_stats(&st),
        StatsSnapshot { port0_pending: 0, port1_pending: 0, matched_pairs: 0, avg_delay_ns: 0 }
    );
}

#[test]
fn average_of_several_matches() {
    let mut st = ProcessorState::new();
    let delays = [10u64, 20, 31];
    for (i, d) in delays.iter().enumerate() {
        process_shred(&mut st, 0, id(i as u128), 1000);
        process_shred(&mut st, 1, id(i as u128), 1000 + d);
    }
    let snap = report_stats(&st);
    assert_eq!(snap.matched_pairs, 3);
    assert_eq!(snap.avg_delay_ns, 61 / 3);
}

#[test]
fn average_of_largest_delays() {
    let mut st = ProcessorState::new();
    for i in 0..3u128 {
        process_shred(&mut st, 0, id(i), 0);
        process_shred(&mut st, 1, id(i), u64::MAX);
    }
    assert_eq!(report_stats(&st).avg_delay_ns, u64::MAX);
}

#[test]
fn feed_zero_only_never_reaches_feed_one() {
    let mut st = ProcessorState::new();
    for i in 0..5u128 {
        assert_eq!(process_shred(&mut st, 0, id(i), i as u64), None);
    }
    let snap = report_stats(&st);
    assert_eq!(snap.port0_pending, 5);
    assert_eq!(snap.port1_pending, 0);
    assert_eq!(snap.matched_pairs, 0);
}

#[test]
fn handle_event_dispatches_each_kind() {
    let mut st = ProcessorState::new();
    let ev0 = ProcessorEvent::ShredReceived { port_id: 0, shred_id: id(5), timestamp: 100 };
    let ev1 = ProcessorEvent::ShredReceived { port_id: 1, shred_id: id(5), timestamp: 130 };
    assert_eq!(handle_event(&mut st, ev0, 100, 1000), ProcessorOutput::Nothing);
    assert_eq!(
        handle_event(&mut st, ev1, 130, 1000),
        ProcessorOutput::Matched(MatchObservation { id: id(5), delay_ns: 30 })
    );
    assert_eq!(
        handle_event(&mut st, ProcessorEvent::StatsTick, 140, 1000),
        ProcessorOutput::Stats(StatsSnapshot {
            port0_pending: 1,
            port1_pending: 1,
            matched_pairs: 1,
            avg_delay_ns: 30
        })
    );
    assert_eq!(handle_event(&mut st, ProcessorEvent::Cleanup, 2000, 1000), ProcessorOutput::Nothing);
    let snap = report_stats(&st);
    assert_eq!((snap.port0_pending, snap.port1_pending, snap.matched_pairs), (0, 0, 1));
}

#[test]
fn shred_parts_give_distinct_ids() {
    let a = PacketId::from_shred_parts(7, 3, 0xA5);
    assert_eq!(a.raw, (7u128 << 40) | (3u128 << 8) | 0xA5);
    assert_ne!(a, PacketId::from_shred_parts(7, 3, 0x5A));
    assert_ne!(a, PacketId::from_shred_parts(7, 4, 0xA5));
    assert_ne!(a, PacketId::from_shred_parts(8, 3, 0xA5));
    let max = PacketId::from_shred_parts(u64::MAX, u32::MAX, u8::MAX);
    assert_eq!(max.raw, (1u128 << 104) - 1);
}

#[test]
fn interleaved_ids_match_once_each() {
    let mut st = ProcessorState::new();
    let arrivals: [(u8, u128, u64); 9] = [
        (0, 1, 0),
        (0, 2, 1),
        (1, 2, 4),
        (1, 1, 6),
        (0, 1, 7),
        (1, 2, 8),
        (0, 3, 9),
        (1, 1, 10),
        (0, 2, 11),
    ];
    let mut matches = Vec::new();
    for (feed, raw, t) in arrivals {
        if let Some(m) = process_shred(&mut st, feed, id(raw), t) {
            matches.push(m);
        }
    }
    assert_eq!(
        matches,
        vec![
            MatchObservation { id: id(2), delay_ns: 3 },
            MatchObservation { id: id(1), delay_ns: 6 }
        ]
    );
    assert_eq!(st.matched_pairs(), 2);
}

#[test]
fn duplicate_in_middle_of_run_changes_nothing() {
    let run = |with_duplicate: bool| {
        let mut st = ProcessorState::new();
        process_shred(&mut st, 0, id(1), 0);
        process_shred(&mut st, 0, id(2), 2);
        if with_duplicate {
            process_shred(&mut st, 0, id(1), 3);
        }
        process_shred(&mut st, 1, id(1), 20);
        process_shred(&mut st, 1, id(2), 21);
        report_stats(&st)
    };
    assert_eq!(run(true), run(false));
    assert_eq!(
        run(true),
        StatsSnapshot { port0_pending: 2, port1_pending: 2, matched_pairs: 2, avg_delay_ns: 19 }
    );
}

#[test]
fn feed_zero_only_with_sweeps_between() {
    let mut st = ProcessorState::new();
    let arrival = |raw: u128, t: u64| ProcessorEvent::ShredReceived {
        port_id: 0,
        shred_id: id(raw),
        timestamp: t,
    };
    handle_event(&mut st, arrival(1, 0), 0, 10);
    handle_event(&mut st, ProcessorEvent::Cleanup, 5, 10);
    handle_event(&mut st, arrival(2, 20), 20, 10);
    handle_event(&mut st, ProcessorEvent::Cleanup, 25, 10);
    handle_event(&mut st, arrival(1, 26), 26, 10);
    assert_eq!(
        handle_event(&mut st, ProcessorEvent::StatsTick, 27, 10),
        ProcessorOutput::Stats(StatsSnapshot {
            port0_pending: 2,
            port1_pending: 0,
            matched_pairs: 0,
            avg_delay_ns: 0
        })
    );
}
