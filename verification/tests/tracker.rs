use rheaper::local_tracker::{
    resolve_backtrace, resolve_frame, LocalTracker, StackTrace, Symbol,
};
use rheaper::proto::{Backtrace, Event, Frame, EVENT_SIZE};

fn allocated(seq: u64) -> Event {
    Event::Alloc { seq, after: seq * 10, addr: 0x1000 + seq, thread_id: 1, bt: 5, size: 8 }
}

fn sorted(mut traces: Vec<StackTrace>) -> Vec<StackTrace> {
    traces.sort_by_key(|trace| trace.id);
    traces
}

#[test]
fn fresh_tracker_is_empty() {
    let mut tracker = LocalTracker::init(7, 16);
    assert_eq!(tracker.tag(), 7);
    assert_eq!(tracker.buffered_len(), 0);
    assert!(!tracker.is_finalized());
    assert!(tracker.maybe_flush(0).is_empty());
}

#[test]
fn flush_happens_only_over_the_threshold() {
    let mut tracker = LocalTracker::init(1, 4);
    for seq in 0..4 {
        tracker.push(allocated(seq));
        assert!(tracker.maybe_flush(4).is_empty());
    }
    assert_eq!(tracker.buffered_len(), 4);
    tracker.push(allocated(4));
    let bytes = tracker.maybe_flush(4);
    assert_eq!(bytes.len(), 5 * EVENT_SIZE);
    assert_eq!(tracker.buffered_len(), 0);
    assert_eq!(
        Event::deserialize_stream(&bytes),
        Ok(vec![allocated(0), allocated(1), allocated(2), allocated(3), allocated(4)])
    );
}

#[test]
fn flushes_neither_repeat_nor_lose_events() {
    let mut tracker = LocalTracker::init(1, 4);
    let mut file = Vec::new();
    for seq in 0..10 {
        tracker.push(allocated(seq));
        file.extend(tracker.maybe_flush(4));
    }
    let report = tracker.finalize(0);
    file.extend(report.events);
    let expected: Vec<Event> = (0..10).map(allocated).collect();
    assert_eq!(file.len(), 10 * EVENT_SIZE);
    assert_eq!(Event::deserialize_stream(&file), Ok(expected));
}

#[test]
fn finalize_hands_over_the_residue_and_the_dictionary() {
    let mut tracker = LocalTracker::init(3, 8);
    tracker.push(allocated(0));
    tracker.push(allocated(1));
    tracker.remember(11, vec![1, 2, 3]);
    tracker.remember(22, vec![4]);
    let report = tracker.finalize(5);
    assert_eq!(report.id, 5);
    assert_eq!(report.tag, 3);
    assert_eq!(Event::deserialize_stream(&report.events), Ok(vec![allocated(0), allocated(1)]));
    assert_eq!(
        sorted(report.backtraces),
        vec![StackTrace { id: 11, ips: vec![1, 2, 3] }, StackTrace { id: 22, ips: vec![4] }]
    );
    assert!(tracker.is_finalized());
    assert_eq!(tracker.buffered_len(), 0);
}

#[test]
fn finalize_twice_reports_nothing_more() {
    let mut tracker = LocalTracker::init(3, 8);
    tracker.push(allocated(0));
    tracker.remember(11, vec![1]);
    let first = tracker.finalize(0);
    assert_eq!(first.events.len(), EVENT_SIZE);
    let second = tracker.finalize(0);
    assert!(second.events.is_empty());
    assert!(second.backtraces.is_empty());
}

#[test]
fn last_trace_with_a_fingerprint_wins() {
    let mut tracker = LocalTracker::init(1, 8);
    tracker.remember(9, vec![1, 1]);
    tracker.remember(8, vec![2]);
    tracker.remember(9, vec![3, 3, 3]);
    let report = tracker.finalize(0);
    assert_eq!(
        sorted(report.backtraces),
        vec![StackTrace { id: 8, ips: vec![2] }, StackTrace { id: 9, ips: vec![3, 3, 3] }]
    );
}

#[test]
fn first_failure_is_the_one_to_log() {
    let mut tracker = LocalTracker::init(1, 8);
    assert!(!tracker.has_failed());
    assert!(tracker.mark_failed());
    assert!(tracker.has_failed());
    assert!(!tracker.mark_failed());
    let report = tracker.finalize(0);
    assert!(report.failed);
}

#[test]
fn unresolved_symbols_give_absent_frames() {
    let known = Symbol {
        file: Some("src/main.rs".to_string()),
        lineno: Some(12),
        name: Some("main".to_string()),
    };
    let no_line = Symbol { lineno: None, ..known.clone() };
    let no_file = Symbol { file: None, ..known.clone() };
    let no_name = Symbol { name: None, ..known.clone() };
    let frame = Frame {
        file: Some("src/main.rs".to_string()),
        lineno: Some(12),
        sym_name: Some("main".to_string()),
    };
    assert_eq!(resolve_frame(&Some(known.clone())), Some(frame.clone()));
    assert_eq!(resolve_frame(&Some(no_line.clone())), None);
    assert_eq!(resolve_frame(&Some(no_file)), None);
    assert_eq!(resolve_frame(&Some(no_name)), None);
    assert_eq!(resolve_frame(&None), None);
    let record = resolve_backtrace(99, &vec![Some(known), None, Some(no_line)]);
    assert_eq!(record, Backtrace { id: 99, frames: vec![Some(frame), None, None] });
    assert_eq!(resolve_backtrace(5, &vec![]), Backtrace { id: 5, frames: vec![] });
}
