use mev_engine::events::{EngineEvent, EventKind, EventLevel};
use mev_engine::state::{heartbeat_message, EngineState, EVENT_WINDOW};

fn seqs(events: &[EngineEvent]) -> Vec<u64> {
    events.iter().map(|e| e.seq).collect()
}

#[test]
fn default_state_is_empty_and_running() {
    let s = EngineState::default();
    assert!(!s.paused);
    assert!(!s.dry_run);
    assert_eq!(s.event_counter, 0);
    assert!(s.recent_events.is_empty());
    assert!(s.events_since(0).is_empty());
}

#[test]
fn starting_state_logs_engine_starting() {
    let s = EngineState::starting(true);
    assert!(s.dry_run);
    assert!(!s.paused);
    assert_eq!(s.event_counter, 1);
    assert_eq!(s.recent_events.len(), 1);
    assert_eq!(s.recent_events[0].seq, 0);
    assert_eq!(s.recent_events[0].message, "engine starting");
    assert_eq!(s.recent_events[0].level, EventLevel::Info);
    assert_eq!(s.recent_events[0].kind, EventKind::Info);
}

#[test]
fn push_numbers_events_consecutively() {
    let mut s = EngineState::default();
    for i in 0..5 {
        s.push_event(EngineEvent::info(format!("e{i}")));
    }
    assert_eq!(s.event_counter, 5);
    assert_eq!(seqs(&s.recent_events), vec![0, 1, 2, 3, 4]);
    assert_eq!(s.recent_events[3].message, "e3");
}

#[test]
fn window_keeps_last_hundred() {
    let mut s = EngineState::default();
    for i in 0..250u64 {
        s.push_event(EngineEvent::warn(format!("e{i}")));
    }
    assert_eq!(s.event_counter, 250);
    assert_eq!(s.recent_events.len(), EVENT_WINDOW);
    assert_eq!(s.recent_events[0].seq, 150);
    assert_eq!(s.recent_events[99].seq, 249);
    assert_eq!(s.recent_events[99].message, "e249");
}

#[test]
fn events_since_returns_events_after_cursor() {
    let mut s = EngineState::default();
    for i in 0..10 {
        s.push_event(EngineEvent::info(format!("e{i}")));
    }
    assert_eq!(seqs(&s.events_since(6)), vec![7, 8, 9]);
    // the event numbered with the cursor itself is not returned
    assert_eq!(seqs(&s.events_since(0)), vec![1, 2, 3, 4, 5, 6, 7, 8, 9]);
    assert!(s.events_since(9).is_empty());
    assert!(s.events_since(10).is_empty());
    assert!(s.events_since(u64::MAX).is_empty());
}

#[test]
fn events_since_old_cursor_gets_whole_window() {
    let mut s = EngineState::default();
    for i in 0..130 {
        s.push_event(EngineEvent::info(format!("e{i}")));
    }
    let all = s.events_since(3);
    assert_eq!(all.len(), 100);
    assert_eq!(all[0].seq, 30);
    let tail = s.events_since(127);
    assert_eq!(seqs(&tail), vec![128, 129]);
}

#[test]
fn push_then_poll_sees_the_new_event() {
    let mut s = EngineState::default();
    for i in 0..4 {
        s.push_event(EngineEvent::info(format!("e{i}")));
    }
    let before = s.events_since(1);
    s.push_event(EngineEvent::error("boom".to_string()));
    let after = s.events_since(1);
    assert_eq!(after.len(), before.len() + 1);
    assert_eq!(after.last().unwrap().seq, 4);
    assert_eq!(after.last().unwrap().message, "boom");
    assert_eq!(after.last().unwrap().level, EventLevel::Error);
}

#[test]
fn pause_and_resume_toggle_and_log() {
    let mut s = EngineState::starting(false);
    s.pause();
    assert!(s.paused);
    assert_eq!(s.recent_events.last().unwrap().message, "engine paused from api");
    assert_eq!(s.recent_events.last().unwrap().seq, 1);
    s.resume();
    assert!(!s.paused);
    assert_eq!(s.recent_events.last().unwrap().message, "engine resumed from api");
    assert_eq!(s.event_counter, 3);
}

#[test]
fn status_report_text() {
    let mut s = EngineState::default();
    assert_eq!(
        s.status(),
        "Engine status: running\nDry run: off\nEvents emitted: 0\nLast event: no events"
    );
    s.dry_run = true;
    s.push_event(EngineEvent::info("hello".to_string()));
    s.pause();
    assert_eq!(
        s.status(),
        "Engine status: paused\nDry run: on\nEvents emitted: 2\nLast event: engine paused from api"
    );
}

#[test]
fn heartbeat_messages() {
    assert_eq!(heartbeat_message(0), "no pools enabled - heartbeating in idle mode");
    assert_eq!(heartbeat_message(1), "watching 1 pool(s)");
    assert_eq!(heartbeat_message(12), "watching 12 pool(s)");
    let mut s = EngineState::default();
    s.record_heartbeat(3);
    let e = s.recent_events.last().unwrap();
    assert_eq!(e.kind, EventKind::Heartbeat);
    assert_eq!(e.level, EventLevel::Info);
    assert_eq!(e.message, "watching 3 pool(s)");
}

#[test]
fn events_response_defaults_cursor_to_zero() {
    let mut s = EngineState::starting(true);
    s.push_event(EngineEvent::info("x".to_string()));
    s.push_event(EngineEvent::info("y".to_string()));
    let r = s.events_response(None);
    assert_eq!(seqs(&r.events), vec![1, 2]);
    assert_eq!(r.next_cursor, 3);
    assert!(r.dry_run);
    let r = s.events_response(Some(1));
    assert_eq!(seqs(&r.events), vec![2]);
}

#[test]
fn event_constructors_set_level_and_kind() {
    let cases = vec![
        (EngineEvent::info("a".to_string()), EventLevel::Info, EventKind::Info),
        (EngineEvent::warn("a".to_string()), EventLevel::Warn, EventKind::Warn),
        (EngineEvent::error("a".to_string()), EventLevel::Error, EventKind::Error),
        (EngineEvent::heartbeat("a".to_string()), EventLevel::Info, EventKind::Heartbeat),
        (EngineEvent::dry_run_opportunity("a".to_string()), EventLevel::Info, EventKind::DryRunOpportunity),
        (EngineEvent::dry_run_executed("a".to_string()), EventLevel::Info, EventKind::DryRunExecuted),
    ];
    for (e, level, kind) in cases {
        assert_eq!(e.level, level);
        assert_eq!(e.kind, kind);
        assert_eq!(e.seq, 0);
        assert_eq!(e.message, "a");
        assert!(e.ts_secs > 1_600_000_000);
        assert!(e.ts_nanos < 1_000_000_000);
        // version 4, RFC variant
        assert_eq!((e.id >> 76) & 0xf, 4);
        assert_eq!((e.id >> 62) & 0x3, 2);
    }
    let a = EngineEvent::info("a".to_string());
    let b = EngineEvent::info("a".to_string());
    assert_ne!(a.id, b.id);
}

#[test]
fn default_level_and_kind_are_info() {
    assert_eq!(EventLevel::default(), EventLevel::Info);
    assert_eq!(EventKind::default(), EventKind::Info);
}

#[test]
fn resuming_a_poll_from_next_cursor_skips_the_event_numbered_by_it() {
    let mut s = EngineState::starting(false);
    let first = s.events_response(Some(0));
    assert!(first.events.is_empty());
    let cursor = first.next_cursor;
    s.push_event(EngineEvent::info("a".to_string()));
    s.push_event(EngineEvent::info("b".to_string()));
    let next = s.events_response(Some(cursor));
    // events are returned when their number is greater than the cursor
    assert_eq!(seqs(&next.events), vec![2]);
    assert_eq!(next.events[0].message, "b");
    assert_eq!(next.next_cursor, 3);
}

#[test]
fn after_n_pushes_window_holds_newest_in_order() {
    for n in [0u64, 1, 99, 100, 101, 257] {
        let mut s = EngineState::default();
        for i in 0..n {
            s.push_event(EngineEvent::info(format!("m{i}")));
        }
        let l = n.min(100);
        assert_eq!(s.event_counter, n);
        assert_eq!(s.recent_events.len() as u64, l);
        for (k, e) in s.recent_events.iter().enumerate() {
            let idx = n - l + k as u64;
            assert_eq!(e.seq, idx);
            assert_eq!(e.message, format!("m{idx}"));
        }
        assert!(!s.paused && !s.dry_run);
    }
}

#[test]
fn push_on_a_hand_built_log_appends_and_trims() {
    let mut s = EngineState::default();
    s.event_counter = 500;
    for seq in [10u64, 20, 30] {
        let mut e = EngineEvent::info(format!("old{seq}"));
        e.seq = seq;
        s.recent_events.push(e);
    }
    s.push_event(EngineEvent::warn("new".to_string()));
    assert_eq!(s.event_counter, 501);
    assert_eq!(seqs(&s.recent_events), vec![10, 20, 30, 500]);
    // a cursor search only needs numbers in order
    assert_eq!(seqs(&s.events_since(15)), vec![20, 30, 500]);
    assert!(s.events_since(501).is_empty());
}

#[test]
fn push_on_a_full_hand_built_log_drops_only_the_oldest() {
    let mut s = EngineState::default();
    s.event_counter = 1_000;
    for seq in 0..100u64 {
        let mut e = EngineEvent::info(format!("m{seq}"));
        e.seq = seq * 2;
        s.recent_events.push(e);
    }
    s.push_event(EngineEvent::info("x".to_string()));
    assert_eq!(s.recent_events.len(), 100);
    assert_eq!(s.recent_events[0].seq, 2);
    assert_eq!(s.recent_events[99].seq, 1_000);
}
