use std::collections::BTreeMap;
use std::collections::BTreeSet;

use rheaper::allocator::{
    begin_alloc, begin_alloc_with, disable_tracking, enable_tracking, leave_local, record_alloc,
    record_dealloc, release_tracker, report_failure, untracked, with_local, Allocator, Error,
    Flush,
    GlobalTracker, SampleRate, ThreadState, TrackerConfig, TrackersPool, SAMPLE_UNIT,
};
use rheaper::id::Id;
use rheaper::local_tracker::StackTrace;
use rheaper::parse::{read_events, AllocationRow};
use rheaper::proto::{Event, EVENT_SIZE};

fn config(buffer: usize) -> TrackerConfig {
    TrackerConfig {
        max_stack_depth: 8,
        max_trackers: 4,
        tracker_event_buffer_size: buffer,
        sample_rate: SampleRate::full(),
        profile_dir: "/tmp/profiles".to_string(),
    }
}

fn append(files: &mut BTreeMap<u64, Vec<u8>>, flush: Option<Flush>) {
    if let Some(flush) = flush {
        files.entry(flush.tag).or_default().extend(flush.bytes);
    }
}

fn allocate(
    global: &mut Option<GlobalTracker>,
    thread: &mut ThreadState,
    files: &mut BTreeMap<u64, Vec<u8>>,
    ptr: u64,
    size: u64,
    trace: Vec<u64>,
    after: u64,
) -> bool {
    match begin_alloc(global, thread) {
        Some((access, _depth)) => {
            let flush = record_alloc(global, thread, access, ptr, size, trace, after);
            append(files, flush);
            true
        }
        None => false,
    }
}

fn free(
    global: &mut Option<GlobalTracker>,
    thread: &mut ThreadState,
    files: &mut BTreeMap<u64, Vec<u8>>,
    ptr: u64,
    after: u64,
) -> bool {
    match with_local(global, thread) {
        Some(access) => {
            let flush = record_dealloc(global, thread, access, ptr, after);
            append(files, flush);
            true
        }
        None => false,
    }
}

fn disable(
    global: &mut Option<GlobalTracker>,
    files: &mut BTreeMap<u64, Vec<u8>>,
) -> Vec<(usize, Vec<StackTrace>)> {
    let shutdown = disable_tracking(global).unwrap();
    let mut dictionaries = Vec::new();
    for report in shutdown.reports {
        files.entry(report.tag).or_default().extend(report.events);
        dictionaries.push((report.id, report.backtraces));
    }
    dictionaries
}

fn decode(files: &BTreeMap<u64, Vec<u8>>) -> Vec<Vec<Event>> {
    files.values().map(|bytes| Event::deserialize_stream(bytes).unwrap()).collect()
}

#[test]
fn enable_names_the_run_directory() {
    let mut global = None;
    assert_eq!(enable_tracking(&mut global, config(16), 1_700_000_123), Ok("hip-1700000123".to_string()));
    let engine = global.as_ref().unwrap();
    assert_eq!(engine.seq(), 0);
    assert_eq!(engine.trackers(), 0);
    assert_eq!(engine.profile_path(), "hip-1700000123");
    assert_eq!(engine.config(), &config(16));
}

#[test]
fn reenable_is_rejected() {
    let mut global = None;
    let mut thread = ThreadState::new(1);
    let mut files = BTreeMap::new();
    assert!(enable_tracking(&mut global, config(16), 100).is_ok());
    assert!(allocate(&mut global, &mut thread, &mut files, 0xa0, 8, vec![1], 5));
    let mut other = config(32);
    other.max_trackers = 9;
    assert_eq!(enable_tracking(&mut global, other, 200), Err(Error::AlreadyEnabled));
    let engine = global.as_ref().unwrap();
    assert_eq!(engine.profile_path(), "hip-100");
    assert_eq!(engine.config(), &config(16));
    assert_eq!(engine.seq(), 1);
    assert_eq!(engine.trackers(), 1);
}

#[test]
fn error_describes_itself() {
    assert_eq!(Error::AlreadyEnabled.message(), "tracking already enabled");
}

#[test]
fn disable_twice_is_a_no_op() {
    let mut global = None;
    assert!(disable_tracking(&mut global).is_none());
    assert!(enable_tracking(&mut global, config(16), 1).is_ok());
    let first = disable_tracking(&mut global).unwrap();
    assert_eq!(first.recorded, 0);
    assert!(first.reports.is_empty());
    assert!(global.is_none());
    assert!(disable_tracking(&mut global).is_none());
    assert!(global.is_none());
    assert!(enable_tracking(&mut global, config(16), 2).is_ok());
}

#[test]
fn single_thread_two_events() {
    let mut global = None;
    let mut thread = ThreadState::new(3);
    let mut files = BTreeMap::new();
    let mut cfg = config(1024);
    cfg.max_stack_depth = 8;
    assert!(enable_tracking(&mut global, cfg, 42).is_ok());
    let trace = vec![0x1000, 0x2000, 0x3000];
    assert!(allocate(&mut global, &mut thread, &mut files, 0xabc0, 16, trace.clone(), 1_000));
    assert!(free(&mut global, &mut thread, &mut files, 0xabc0, 2_000));
    assert!(files.is_empty());
    let dictionaries = disable(&mut global, &mut files);
    let fingerprint = 0xcf720ca2d9f2b505;
    assert_eq!(
        decode(&files),
        vec![vec![
            Event::Alloc {
                seq: 0,
                after: 1_000,
                addr: 0xabc0,
                thread_id: 3,
                bt: fingerprint,
                size: 16
            },
            Event::Dealloc { seq: 1, after: 2_000, addr: 0xabc0, thread_id: 3 },
        ]]
    );
    assert_eq!(files.keys().copied().collect::<Vec<u64>>(), vec![3]);
    assert_eq!(dictionaries, vec![(0, vec![StackTrace { id: fingerprint, ips: trace }])]);
}

#[test]
fn two_threads_interleaved() {
    let mut global = None;
    let mut first = ThreadState::new(1);
    let mut second = ThreadState::new(2);
    let mut files = BTreeMap::new();
    assert!(enable_tracking(&mut global, config(64), 42).is_ok());
    let mut clock = 0;
    for i in 0..1000u64 {
        clock += 1_000_000;
        assert!(allocate(&mut global, &mut first, &mut files, 0x10000 + i, 8, vec![1, i], clock));
        clock += 1_000_000;
        assert!(allocate(&mut global, &mut second, &mut files, 0x20000 + i, 8, vec![2, i], clock));
        if i % 3 == 0 {
            clock += 1_000_000;
            assert!(free(&mut global, &mut second, &mut files, 0x20000 + i, clock));
            clock += 1_000_000;
            assert!(free(&mut global, &mut first, &mut files, 0x10000 + i, clock));
        }
    }
    for i in 0..1000u64 {
        if i % 3 != 0 {
            clock += 1_000_000;
            assert!(free(&mut global, &mut first, &mut files, 0x10000 + i, clock));
            clock += 1_000_000;
            assert!(free(&mut global, &mut second, &mut files, 0x20000 + i, clock));
        }
    }
    assert_eq!(global.as_ref().unwrap().seq(), 4000);
    disable(&mut global, &mut files);
    let streams = decode(&files);
    assert_eq!(streams.len(), 2);
    let mut seen = BTreeSet::new();
    for stream in &streams {
        assert_eq!(stream.len(), 2000);
        for pair in stream.windows(2) {
            assert!(pair[0].seq() < pair[1].seq());
        }
        for event in stream {
            assert!(seen.insert(event.seq()));
        }
    }
    assert_eq!(seen.len(), 4000);
    let rows = read_events(streams);
    assert_eq!(rows.len(), 2000);
    for row in &rows {
        let closed = row.dealloc_after.unwrap();
        assert!(closed > row.alloc_after);
    }
    assert_eq!(
        rows[0],
        AllocationRow {
            alloc_after: 1,
            dealloc_after: Some(4),
            bt: Id::new(&[1, 0]).0,
            size: 8,
            addr: 0x10000
        }
    );
    assert_eq!(
        rows[1],
        AllocationRow {
            alloc_after: 2,
            dealloc_after: Some(3),
            bt: Id::new(&[2, 0]).0,
            size: 8,
            addr: 0x20000
        }
    );
}

#[test]
fn flush_boundary() {
    let mut global = None;
    let mut thread = ThreadState::new(1);
    let mut files = BTreeMap::new();
    assert!(enable_tracking(&mut global, config(4), 42).is_ok());
    let mut expected = Vec::new();
    for i in 0..5u64 {
        assert!(allocate(&mut global, &mut thread, &mut files, 0x100 + i, i + 1, vec![i], i));
        expected.push(Event::Alloc {
            seq: 2 * i,
            after: i,
            addr: 0x100 + i,
            thread_id: 1,
            bt: Id::new(&[i]).0,
            size: i + 1,
        });
        assert_eq!(files.get(&1).map(|bytes| bytes.len()).unwrap_or(0), if i < 2 { 0 } else { 5 * EVENT_SIZE });
        assert!(free(&mut global, &mut thread, &mut files, 0x100 + i, i + 100));
        expected.push(Event::Dealloc { seq: 2 * i + 1, after: i + 100, addr: 0x100 + i, thread_id: 1 });
    }
    assert_eq!(files[&1].len(), 10 * EVENT_SIZE);
    disable(&mut global, &mut files);
    assert_eq!(files[&1].len(), 10 * EVENT_SIZE);
    assert_eq!(decode(&files), vec![expected]);
}

#[test]
fn residue_is_handed_over_on_disable() {
    let mut global = None;
    let mut thread = ThreadState::new(1);
    let mut files = BTreeMap::new();
    assert!(enable_tracking(&mut global, config(4), 42).is_ok());
    for i in 0..7u64 {
        assert!(free(&mut global, &mut thread, &mut files, i, i));
    }
    assert_eq!(files[&1].len(), 5 * EVENT_SIZE);
    let shutdown = disable_tracking(&mut global).unwrap();
    assert_eq!(shutdown.recorded, 7);
    assert_eq!(shutdown.reports.len(), 1);
    assert_eq!(shutdown.reports[0].id, 0);
    assert_eq!(shutdown.reports[0].tag, 1);
    assert_eq!(
        Event::deserialize_stream(&shutdown.reports[0].events),
        Ok(vec![
            Event::Dealloc { seq: 5, after: 5, addr: 5, thread_id: 1 },
            Event::Dealloc { seq: 6, after: 6, addr: 6, thread_id: 1 },
        ])
    );
}

#[test]
fn nothing_is_recorded_while_disabled() {
    let mut global = None;
    let mut thread = ThreadState::new(1);
    let mut files = BTreeMap::new();
    assert!(!allocate(&mut global, &mut thread, &mut files, 0xa0, 8, vec![1], 1));
    assert!(!free(&mut global, &mut thread, &mut files, 0xa0, 2));
    assert!(with_local(&mut global, &mut thread).is_none());
    assert!(!thread.is_guarded());
    assert_eq!(thread.tracker(), None);
    assert!(files.is_empty());
}

#[test]
fn recorder_does_not_record_itself() {
    let mut global = None;
    let mut thread = ThreadState::new(1);
    let mut files = BTreeMap::new();
    assert!(enable_tracking(&mut global, config(16), 42).is_ok());
    let access = with_local(&mut global, &mut thread).unwrap();
    assert!(thread.is_guarded());
    // Allocations made while the recorder runs find the guard set.
    assert!(with_local(&mut global, &mut thread).is_none());
    assert!(begin_alloc_with(&mut global, &mut thread, 0).is_none());
    assert!(!allocate(&mut global, &mut thread, &mut files, 0xb0, 8, vec![2], 1));
    assert!(!free(&mut global, &mut thread, &mut files, 0xb0, 1));
    assert!(thread.is_guarded());
    assert_eq!(global.as_ref().unwrap().seq(), 0);
    let flush = record_dealloc(&mut global, &mut thread, access, 0xa0, 7);
    assert!(flush.is_none());
    assert!(!thread.is_guarded());
    assert_eq!(global.as_ref().unwrap().seq(), 1);
    disable(&mut global, &mut files);
    assert_eq!(
        decode(&files),
        vec![vec![Event::Dealloc { seq: 0, after: 7, addr: 0xa0, thread_id: 1 }]]
    );
}

#[test]
fn untracked_sets_and_clears_the_guard() {
    let mut thread = ThreadState::new(4);
    let mut ran = false;
    let flag = &mut ran;
    untracked(&mut thread, move || {
        *flag = true;
    });
    assert!(ran);
    assert!(!thread.is_guarded());
    assert_eq!(thread.id(), 4);
}

#[test]
fn leave_local_clears_the_guard_without_recording() {
    let mut global = None;
    let mut thread = ThreadState::new(1);
    assert!(enable_tracking(&mut global, config(16), 42).is_ok());
    let access = with_local(&mut global, &mut thread).unwrap();
    assert_eq!(access.tracker(), 0);
    leave_local(&mut thread, access);
    assert!(!thread.is_guarded());
    assert_eq!(thread.tracker(), Some(0));
    assert_eq!(global.as_ref().unwrap().seq(), 0);
}

#[test]
fn released_tracker_is_reused_by_the_next_thread() {
    let mut global = None;
    let mut files = BTreeMap::new();
    assert!(enable_tracking(&mut global, config(16), 42).is_ok());
    let mut first = ThreadState::new(1);
    let mut second = ThreadState::new(2);
    let mut third = ThreadState::new(3);
    assert!(free(&mut global, &mut first, &mut files, 1, 1));
    assert!(free(&mut global, &mut second, &mut files, 2, 2));
    assert_eq!(first.tracker(), Some(0));
    assert_eq!(second.tracker(), Some(1));
    release_tracker(&mut global, &mut first);
    assert_eq!(first.tracker(), None);
    assert!(free(&mut global, &mut third, &mut files, 3, 3));
    assert_eq!(third.tracker(), Some(0));
    assert_eq!(global.as_ref().unwrap().trackers(), 2);
    let dictionaries = disable(&mut global, &mut files);
    assert_eq!(dictionaries.len(), 2);
    // The tracker keeps the event file of the thread that created it.
    assert_eq!(
        decode(&files),
        vec![
            vec![
                Event::Dealloc { seq: 0, after: 1, addr: 1, thread_id: 1 },
                Event::Dealloc { seq: 2, after: 3, addr: 3, thread_id: 3 },
            ],
            vec![Event::Dealloc { seq: 1, after: 2, addr: 2, thread_id: 2 }],
        ]
    );
}

#[test]
fn most_recently_released_tracker_is_handed_out_first() {
    let mut pool = TrackersPool::new();
    let a = pool.acquire_or_create(1, 4, 8).unwrap();
    let b = pool.acquire_or_create(2, 4, 8).unwrap();
    let c = pool.acquire_or_create(3, 4, 8).unwrap();
    assert_eq!((a.id(), b.id(), c.id()), (0, 1, 2));
    assert!(pool.holds(1, 2));
    assert!(!pool.holds(1, 3));
    pool.release(a, 1);
    pool.release(c, 3);
    assert!(!pool.holds(2, 3));
    assert_eq!(pool.acquire_or_create(4, 4, 8).unwrap().id(), 2);
    assert_eq!(pool.acquire_or_create(5, 4, 8).unwrap().id(), 0);
    assert_eq!(pool.acquire_or_create(6, 4, 8).unwrap().id(), 3);
    assert_eq!(pool.len(), 4);
}

#[test]
fn release_by_a_thread_that_does_not_hold_changes_nothing() {
    let mut pool = TrackersPool::new();
    let a = pool.acquire_or_create(1, 4, 8).unwrap();
    pool.release(a, 2);
    assert!(pool.holds(0, 1));
    assert_eq!(pool.acquire_or_create(3, 4, 8).unwrap().id(), 1);
}

#[test]
fn exhausted_pool_drops_the_event() {
    let mut global = None;
    let mut files = BTreeMap::new();
    let mut cfg = config(16);
    cfg.max_trackers = 2;
    assert!(enable_tracking(&mut global, cfg, 42).is_ok());
    let mut first = ThreadState::new(1);
    let mut second = ThreadState::new(2);
    let mut third = ThreadState::new(3);
    assert!(free(&mut global, &mut first, &mut files, 1, 1));
    assert!(free(&mut global, &mut second, &mut files, 2, 2));
    assert!(!free(&mut global, &mut third, &mut files, 3, 3));
    assert!(!allocate(&mut global, &mut third, &mut files, 3, 3, vec![], 3));
    assert!(!third.is_guarded());
    assert_eq!(third.tracker(), None);
    assert_eq!(global.as_ref().unwrap().seq(), 2);
    assert_eq!(global.as_ref().unwrap().trackers(), 2);
    release_tracker(&mut global, &mut second);
    assert!(free(&mut global, &mut third, &mut files, 3, 3));
    assert_eq!(third.tracker(), Some(1));
}

#[test]
fn guard_of_an_earlier_run_is_not_honoured() {
    let mut global = None;
    let mut files = BTreeMap::new();
    let mut early = ThreadState::new(1);
    let mut late = ThreadState::new(2);
    assert!(enable_tracking(&mut global, config(16), 1).is_ok());
    assert!(free(&mut global, &mut early, &mut files, 1, 1));
    assert_eq!(early.tracker(), Some(0));
    disable(&mut global, &mut files);
    assert!(enable_tracking(&mut global, config(16), 2).is_ok());
    assert!(free(&mut global, &mut late, &mut files, 2, 2));
    assert_eq!(late.tracker(), Some(0));
    // The stale guard names a tracker that another thread holds now.
    assert!(free(&mut global, &mut early, &mut files, 3, 3));
    assert_eq!(early.tracker(), Some(1));
    release_tracker(&mut global, &mut late);
    release_tracker(&mut global, &mut early);
    assert_eq!(global.as_ref().unwrap().trackers(), 2);
}

#[test]
fn access_is_void_once_the_engine_is_gone() {
    let mut global = None;
    let mut thread = ThreadState::new(1);
    assert!(enable_tracking(&mut global, config(16), 1).is_ok());
    let access = with_local(&mut global, &mut thread).unwrap();
    assert!(disable_tracking(&mut global).is_some());
    assert!(record_alloc(&mut global, &mut thread, access, 1, 1, vec![1], 1).is_none());
    assert!(!thread.is_guarded());
    assert!(global.is_none());
    release_tracker(&mut global, &mut thread);
    assert_eq!(thread.tracker(), None);
}

#[test]
fn trace_is_cut_to_the_configured_depth() {
    let mut global = None;
    let mut thread = ThreadState::new(1);
    let mut files = BTreeMap::new();
    assert!(enable_tracking(&mut global, config(16), 1).is_ok());
    let deep = vec![0xaaaa, 0xbbbb, 0xcccc, 0xdddd, 0xeeee, 0xffff, 0x1111, 0x2222, 0x3333];
    let (access, depth) = begin_alloc_with(&mut global, &mut thread, u64::MAX).unwrap();
    assert_eq!(depth, 8);
    assert!(record_alloc(&mut global, &mut thread, access, 0xa0, 1, deep.clone(), 1).is_none());
    let dictionaries = disable(&mut global, &mut files);
    let cut = 0x369d609fc3e48eb3;
    assert_eq!(
        dictionaries,
        vec![(0, vec![StackTrace { id: cut, ips: deep[..8].to_vec() }])]
    );
    assert_eq!(
        decode(&files),
        vec![vec![Event::Alloc { seq: 0, after: 1, addr: 0xa0, thread_id: 1, bt: cut, size: 1 }]]
    );
}

#[test]
fn sampling_compares_the_upper_bits_of_the_draw() {
    let rate = SampleRate { steps: 5 };
    assert!(!rate.is_full());
    assert!(rate.accepts(0));
    assert!(rate.accepts(5 << 11));
    assert!(rate.accepts((5 << 11) | 0x7ff));
    assert!(!rate.accepts(6 << 11));
    assert!(!rate.accepts(u64::MAX));
    assert!(SampleRate { steps: 0 }.accepts(0x7ff));
    assert!(!SampleRate { steps: 0 }.accepts(0x800));
    assert_eq!(SampleRate::full(), SampleRate { steps: SAMPLE_UNIT });
    assert!(SampleRate::full().is_full());
    assert!(SampleRate::full().accepts(u64::MAX));
    assert!(SampleRate { steps: SAMPLE_UNIT - 1 }.accepts(u64::MAX));
}

#[test]
fn sampled_out_allocation_is_dropped_but_its_dealloc_is_kept() {
    let mut global = None;
    let mut thread = ThreadState::new(1);
    let mut files = BTreeMap::new();
    let mut cfg = config(16);
    cfg.sample_rate = SampleRate { steps: 100 };
    assert!(enable_tracking(&mut global, cfg, 1).is_ok());
    assert!(begin_alloc_with(&mut global, &mut thread, 101 << 11).is_none());
    assert!(!thread.is_guarded());
    assert_eq!(thread.tracker(), Some(0));
    assert_eq!(global.as_ref().unwrap().seq(), 0);
    assert!(free(&mut global, &mut thread, &mut files, 0xa0, 3));
    let (access, _) = begin_alloc_with(&mut global, &mut thread, 100 << 11).unwrap();
    assert!(record_alloc(&mut global, &mut thread, access, 0xb0, 2, vec![9], 4).is_none());
    disable(&mut global, &mut files);
    assert_eq!(
        decode(&files),
        vec![vec![
            Event::Dealloc { seq: 0, after: 3, addr: 0xa0, thread_id: 1 },
            Event::Alloc {
                seq: 1,
                after: 4,
                addr: 0xb0,
                thread_id: 1,
                bt: Id::new(&[9]).0,
                size: 2
            },
        ]]
    );
}

#[test]
fn recorded_share_follows_the_sample_rate() {
    let mut global = None;
    let mut thread = ThreadState::new(1);
    let mut files = BTreeMap::new();
    let mut cfg = config(1 << 12);
    cfg.sample_rate = SampleRate { steps: SAMPLE_UNIT / 4 };
    assert!(enable_tracking(&mut global, cfg, 1).is_ok());
    let total = 20_000u64;
    let mut recorded = 0u64;
    for i in 0..total {
        if allocate(&mut global, &mut thread, &mut files, i, 1, vec![1], i) {
            recorded += 1;
        }
        assert!(free(&mut global, &mut thread, &mut files, i, i));
    }
    assert!(recorded > total / 4 - 600 && recorded < total / 4 + 600);
    assert_eq!(global.as_ref().unwrap().seq(), total + recorded);
    disable(&mut global, &mut files);
    let events = &decode(&files)[0];
    let deallocs = events.iter().filter(|event| matches!(event, Event::Dealloc { .. })).count();
    assert_eq!(deallocs as u64, total);
    assert_eq!(events.len() as u64, total + recorded);
}

#[test]
fn full_rate_records_every_allocation() {
    let mut global = None;
    let mut thread = ThreadState::new(1);
    let mut files = BTreeMap::new();
    assert!(enable_tracking(&mut global, config(1 << 10), 1).is_ok());
    for i in 0..500u64 {
        assert!(allocate(&mut global, &mut thread, &mut files, i, 1, vec![1], i));
    }
    assert_eq!(global.as_ref().unwrap().seq(), 500);
}

#[test]
fn allocator_wraps_its_delegate() {
    let wrapped = Allocator::from_allocator(17u32);
    assert_eq!(*wrapped.inner(), 17);
    assert_eq!(wrapped.into_inner(), 17);
    let system = Allocator::from_allocator(std::alloc::System);
    let _ = system.inner();
}

#[test]
fn tracker_whose_file_failed_drops_what_comes() {
    let mut global = None;
    let mut files = BTreeMap::new();
    let mut thread = ThreadState::new(1);
    let mut other = ThreadState::new(2);
    assert!(!report_failure(&mut global, 0));
    assert!(enable_tracking(&mut global, config(16), 1).is_ok());
    assert!(free(&mut global, &mut thread, &mut files, 1, 1));
    assert!(free(&mut global, &mut other, &mut files, 2, 2));
    assert!(!report_failure(&mut global, 2));
    assert!(report_failure(&mut global, 0));
    assert!(!report_failure(&mut global, 0));
    assert!(with_local(&mut global, &mut thread).is_none());
    assert!(begin_alloc_with(&mut global, &mut thread, 0).is_none());
    assert!(!thread.is_guarded());
    assert_eq!(thread.tracker(), Some(0));
    assert_eq!(global.as_ref().unwrap().seq(), 2);
    assert!(free(&mut global, &mut other, &mut files, 3, 3));
    assert_eq!(global.as_ref().unwrap().seq(), 3);
    let shutdown = disable_tracking(&mut global).unwrap();
    assert!(shutdown.reports[0].failed);
    assert!(!shutdown.reports[1].failed);
    assert_eq!(
        Event::deserialize_stream(&shutdown.reports[1].events),
        Ok(vec![
            Event::Dealloc { seq: 1, after: 2, addr: 2, thread_id: 2 },
            Event::Dealloc { seq: 2, after: 3, addr: 3, thread_id: 2 },
        ])
    );
}

#[test]
fn failed_tracker_is_not_revived_by_reuse() {
    let mut global = None;
    let mut files = BTreeMap::new();
    let mut first = ThreadState::new(1);
    let mut second = ThreadState::new(2);
    assert!(enable_tracking(&mut global, config(16), 1).is_ok());
    assert!(free(&mut global, &mut first, &mut files, 1, 1));
    assert!(report_failure(&mut global, 0));
    release_tracker(&mut global, &mut first);
    assert!(!free(&mut global, &mut second, &mut files, 2, 2));
    assert_eq!(second.tracker(), Some(0));
    assert!(!second.is_guarded());
    assert_eq!(global.as_ref().unwrap().seq(), 1);
}

#[test]
fn access_is_void_once_the_file_has_failed() {
    let mut global = None;
    let mut thread = ThreadState::new(1);
    assert!(enable_tracking(&mut global, config(16), 1).is_ok());
    let access = with_local(&mut global, &mut thread).unwrap();
    assert!(report_failure(&mut global, 0));
    assert!(record_dealloc(&mut global, &mut thread, access, 1, 1).is_none());
    assert!(!thread.is_guarded());
    assert_eq!(global.as_ref().unwrap().seq(), 0);
}
