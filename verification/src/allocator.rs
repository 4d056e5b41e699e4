//! The recording engine: configuration, tracker pool, reentrancy guard,
//! lifecycle and the recording of allocator events.
//!
//! The engine is a sequential state machine. The embedding program owns the
//! process-wide slot (an `Option<GlobalTracker>`) and one [`ThreadState`] per
//! thread, serializes access to them, and performs what the functions here
//! hand back: it creates directories, captures stacks, reads the clock and
//! appends bytes to files.

use crate::id::crc64_ecma_182;
use crate::id::trace_bytes;
use crate::id::Id;
use crate::layout::run_dir;
use crate::layout::run_dir_name;
use crate::local_tracker::lists_dictionary;
use crate::local_tracker::LocalTracker;
use crate::local_tracker::TrackerReport;
use crate::local_tracker::TrackerView;
use crate::parse::ordered_run;
use crate::proto::encode_all;
use crate::proto::Event;
use vstd::prelude::*;

verus! {

/// The number of equally likely values of a sampling draw: 2 to the 53rd.
pub const SAMPLE_UNIT: u64 = 0x20_0000_0000_0000;

/// The probability with which an allocation is recorded, in steps of one
/// [`SAMPLE_UNIT`]-th. `SAMPLE_UNIT` steps and more record every allocation.
#[derive(Clone, Copy, Debug, PartialEq, Eq, Structural)]
pub struct SampleRate {
    pub steps: u64,
}

impl SampleRate {
    /// Whether an allocation with the random draw `draw` is recorded: the
    /// upper 53 bits of the draw, a number below [`SAMPLE_UNIT`], must not
    /// exceed the steps of the rate.
    pub open spec fn spec_accepts(&self, draw: u64) -> bool {
        (draw >> 11) <= self.steps
    }

    /// Whether the rate records every allocation.
    pub open spec fn spec_is_full(&self) -> bool {
        self.steps >= SAMPLE_UNIT
    }

    /// The rate that records every allocation.
    pub fn full() -> (rate: SampleRate)
        ensures
            rate.steps == SAMPLE_UNIT,
            rate.spec_is_full(),
    {
        SampleRate { steps: SAMPLE_UNIT }
    }

    /// Tells whether the rate records every allocation.
    #[verifier::when_used_as_spec(spec_is_full)]
    pub fn is_full(&self) -> (full: bool)
        ensures
            full == self.spec_is_full(),
    {
        self.steps >= SAMPLE_UNIT
    }

    /// Tells whether an allocation with the random draw `draw` is recorded.
    #[verifier::when_used_as_spec(spec_accepts)]
    pub fn accepts(&self, draw: u64) -> (accepted: bool)
        ensures
            accepted == self.spec_accepts(draw),
    {
        (draw >> 11) <= self.steps
    }
}

/// A full rate accepts every draw.
pub proof fn lemma_full_rate_accepts(rate: SampleRate, draw: u64)
    requires
        rate.spec_is_full(),
    ensures
        rate.spec_accepts(draw),
{
    assert((draw >> 11) < 0x20_0000_0000_0000u64) by (bit_vector);
}

/// The values of the upper 53 bits of a draw with which `rate` records an
/// allocation.
pub open spec fn accepted_draws(rate: SampleRate) -> Set<int> {
    Set::new(|k: int| 0 <= k < SAMPLE_UNIT && k <= rate.steps)
}

/// Of the [`SAMPLE_UNIT`] equally likely values of the upper bits of a draw,
/// a rate of `steps` steps accepts `steps + 1`, and a full rate all: the
/// acceptance probability is that count over `SAMPLE_UNIT`.
pub proof fn lemma_accepted_share(rate: SampleRate)
    ensures
        accepted_draws(rate).finite(),
        accepted_draws(rate).len() == if rate.spec_is_full() {
            SAMPLE_UNIT as int
        } else {
            rate.steps + 1
        },
{
    let bound: int = if rate.spec_is_full() {
        SAMPLE_UNIT as int
    } else {
        rate.steps + 1
    };
    vstd::set_lib::lemma_int_range(0, bound);
    assert(accepted_draws(rate) =~= vstd::set_lib::set_int_range(0, bound));
}

/// The configuration of a run.
#[derive(Clone, Debug, PartialEq, Eq)]
pub struct TrackerConfig {
    /// Cap on the frames kept per event.
    pub max_stack_depth: usize,
    /// Cap on the local trackers ever created; threads past it are not
    /// recorded.
    pub max_trackers: usize,
    /// Number of buffered events above which a local tracker flushes.
    pub tracker_event_buffer_size: usize,
    /// Acceptance probability of allocations. Deallocations are always
    /// recorded.
    pub sample_rate: SampleRate,
    /// Directory under which the run directory is created.
    pub profile_dir: String,
}

/// Why the engine could not be enabled.
#[derive(Clone, Copy, Debug, PartialEq, Eq, Structural)]
pub enum Error {
    AlreadyEnabled,
}

impl Error {
    /// Describes the error.
    pub fn message(&self) -> (text: String)
        ensures
            text@ == "tracking already enabled"@,
    {
        match self {
            Error::AlreadyEnabled => "tracking already enabled".to_owned(),
        }
    }
}

/// An allocator that records what its inner allocator hands out and takes
/// back.
pub struct Allocator<A> {
    inner: A,
}

impl<A> Allocator<A> {
    /// The allocator that requests are delegated to.
    pub closed spec fn delegate(self) -> A {
        self.inner
    }

    /// Wraps `allocator`.
    pub fn from_allocator(allocator: A) -> (wrapped: Self)
        ensures
            wrapped.delegate() == allocator,
    {
        Self { inner: allocator }
    }

    /// Returns the allocator that requests are delegated to.
    pub fn inner(&self) -> (inner: &A)
        ensures
            *inner == self.delegate(),
    {
        &self.inner
    }

    /// Unwraps the allocator that requests are delegated to.
    pub fn into_inner(self) -> (inner: A)
        ensures
            inner == self.delegate(),
    {
        self.inner
    }
}

/// The right of one thread to record into one tracker of the pool.
#[derive(Debug, PartialEq, Eq)]
pub struct TrackerGuard {
    id: usize,
}

impl TrackerGuard {
    /// The index of the tracker in the pool.
    pub closed spec fn spec_id(&self) -> usize {
        self.id
    }

    /// Returns the index of the tracker in the pool.
    #[verifier::when_used_as_spec(spec_id)]
    pub fn id(&self) -> (id: usize)
        ensures
            id == self.spec_id(),
    {
        self.id
    }
}

/// What a pool stands for.
pub struct PoolView {
    /// Every tracker ever created, by index.
    pub trackers: Seq<TrackerView>,
    /// For every tracker, the thread that holds it, if any.
    pub holders: Seq<Option<u64>>,
    /// The indices that are free, most recently released last.
    pub available: Seq<usize>,
}

impl PoolView {
    /// The pool without trackers.
    pub open spec fn empty() -> PoolView {
        PoolView { trackers: Seq::empty(), holders: Seq::empty(), available: Seq::empty() }
    }

    /// The thread `thread` holds the tracker `id`.
    pub open spec fn holds(self, id: usize, thread: u64) -> bool {
        id < self.holders.len() && self.holders[id as int] == Some(thread)
    }

    /// Every tracker is well formed and open, every free index is in range,
    /// held by nobody and listed once.
    pub open spec fn wf(self) -> bool {
        &&& self.trackers.len() == self.holders.len()
        &&& forall|t: int|
            0 <= t < self.trackers.len() ==> (#[trigger] self.trackers[t]).wf()
                && !self.trackers[t].finalized
        &&& forall|a: int|
            0 <= a < self.available.len() ==> (#[trigger] self.available[a])
                < self.trackers.len() && self.holders[self.available[a] as int] is None
        &&& forall|a: int, b: int|
            0 <= a < b < self.available.len() ==> (#[trigger] self.available[a]) != (
            #[trigger] self.available[b])
    }

    /// The pool after the thread `thread` asks for a tracker, and the index
    /// it gets: the most recently released one if any is free, else a new
    /// one while fewer than `max_trackers` exist, else none.
    pub open spec fn acquire(self, thread: u64, max_trackers: usize) -> (PoolView, Option<usize>) {
        if self.available.len() > 0 {
            let id = self.available.last();
            (
                PoolView {
                    holders: self.holders.update(id as int, Some(thread)),
                    available: self.available.drop_last(),
                    ..self
                },
                Some(id),
            )
        } else if self.trackers.len() < max_trackers {
            (
                PoolView {
                    trackers: self.trackers.push(TrackerView::fresh(thread)),
                    holders: self.holders.push(Some(thread)),
                    ..self
                },
                Some(self.trackers.len() as usize),
            )
        } else {
            (self, None)
        }
    }

    /// The pool after the thread `thread` gives back the tracker `id`. A
    /// tracker that the thread does not hold stays as it is.
    pub open spec fn release(self, id: usize, thread: u64) -> PoolView {
        if self.holds(id, thread) {
            PoolView {
                holders: self.holders.update(id as int, None),
                available: self.available.push(id),
                ..self
            }
        } else {
            self
        }
    }

    /// The pool with `tracker` in place of the tracker `t`.
    pub open spec fn with_tracker(self, t: int, tracker: TrackerView) -> PoolView {
        PoolView { trackers: self.trackers.update(t, tracker), ..self }
    }
}

/// The local trackers of a run: all that were ever created, and a stack of
/// the indices that are free.
pub struct TrackersPool {
    trackers: Vec<LocalTracker>,
    holders: Vec<Option<u64>>,
    available_trackers: Vec<usize>,
}

impl View for TrackersPool {
    type V = PoolView;

    closed spec fn view(&self) -> PoolView {
        PoolView {
            trackers: Seq::new(self.trackers@.len(), |t: int| self.trackers@[t]@),
            holders: self.holders@,
            available: self.available_trackers@,
        }
    }
}

impl TrackersPool {
    /// Every tracker is well formed, and so is the view.
    pub closed spec fn wf(&self) -> bool {
        &&& self@.wf()
        &&& forall|t: int| 0 <= t < self.trackers@.len() ==> (#[trigger] self.trackers@[t]).wf()
    }

    /// A well-formed pool has a well-formed view.
    pub proof fn lemma_wf_view(&self)
        requires
            self.wf(),
        ensures
            self@.wf(),
    {
    }

    /// Creates the pool without trackers.
    pub fn new() -> (pool: TrackersPool)
        ensures
            pool.wf(),
            pool@ == PoolView::empty(),
    {
        let pool = TrackersPool {
            trackers: Vec::new(),
            holders: Vec::new(),
            available_trackers: Vec::new(),
        };
        assert(pool@.trackers =~= Seq::<TrackerView>::empty());
        pool
    }

    /// Returns the number of trackers ever created.
    pub fn len(&self) -> (len: usize)
        ensures
            len == self@.trackers.len(),
    {
        self.trackers.len()
    }

    /// Tells whether the thread `thread` holds the tracker `id`.
    pub fn holds(&self, id: usize, thread: u64) -> (held: bool)
        requires
            self.wf(),
        ensures
            held == self@.holds(id, thread),
    {
        if id < self.holders.len() {
            match self.holders[id] {
                Some(holder) => holder == thread,
                None => false,
            }
        } else {
            false
        }
    }

    /// Hands the thread `thread` a tracker: the most recently released one
    /// if any is free, else a new one with room for `capacity` events while
    /// fewer than `max_trackers` exist. Returns `None` when the pool is
    /// exhausted.
    pub fn acquire_or_create(&mut self, thread: u64, capacity: usize, max_trackers: usize) -> (guard:
        Option<TrackerGuard>)
        requires
            old(self).wf(),
        ensures
            final(self).wf(),
            final(self)@ == old(self)@.acquire(thread, max_trackers).0,
            match guard {
                Some(g) => old(self)@.acquire(thread, max_trackers).1 == Some(g.spec_id()),
                None => old(self)@.acquire(thread, max_trackers).1 is None,
            },
    {
        let ghost before = self@;
        match self.available_trackers.pop() {
            Some(id) => {
                assert(before.available[before.available.len() - 1] == id);
                self.holders.set(id, Some(thread));
                proof {
                    assert(self@.trackers =~= before.trackers);
                    assert(self@ == before.acquire(thread, max_trackers).0);
                }
                Some(TrackerGuard { id })
            },
            None => {
                if self.trackers.len() < max_trackers {
                    let id = self.trackers.len();
                    self.trackers.push(LocalTracker::init(thread, capacity));
                    self.holders.push(Some(thread));
                    proof {
                        assert(self@.trackers =~= before.trackers.push(TrackerView::fresh(thread)));
                        assert(self@.available =~= before.available);
                        assert(self@ == before.acquire(thread, max_trackers).0);
                        assert(TrackerView::fresh(thread).recorded.skip(0)
                            =~= TrackerView::fresh(thread).buffered);
                    }
                    Some(TrackerGuard { id })
                } else {
                    proof {
                        assert(self@.trackers =~= before.trackers);
                        assert(self@.available =~= before.available);
                    }
                    None
                }
            },
        }
    }

    /// Takes back the tracker of `guard` from the thread `thread` and puts
    /// its index on top of the free ones. A guard for a tracker that the
    /// thread does not hold in this pool changes nothing.
    pub fn release(&mut self, guard: TrackerGuard, thread: u64)
        requires
            old(self).wf(),
        ensures
            final(self).wf(),
            final(self)@ == old(self)@.release(guard.spec_id(), thread),
    {
        let ghost before = self@;
        if self.holds(guard.id, thread) {
            self.holders.set(guard.id, None);
            self.available_trackers.push(guard.id);
            proof {
                assert(self@.trackers =~= before.trackers);
                assert(self@ == before.release(guard.spec_id(), thread));
            }
        }
    }

    /// Appends `event` to the buffer of the tracker `t`.
    fn push(&mut self, t: usize, event: Event)
        requires
            old(self).wf(),
            t < old(self)@.trackers.len(),
        ensures
            final(self).wf(),
            final(self)@ == old(self)@.with_tracker(
                t as int,
                old(self)@.trackers[t as int].push(event),
            ),
    {
        let ghost before = self@;
        assert(before.trackers[t as int] == self.trackers@[t as int]@);
        self.trackers[t].push(event);
        proof {
            self.trackers@[t as int].lemma_wf_view();
            assert(self@.trackers =~= before.trackers.update(
                t as int,
                before.trackers[t as int].push(event),
            ));
        }
    }

    /// Enters the trace `ips` under `id` in the dictionary of the tracker
    /// `t`.
    fn remember(&mut self, t: usize, id: u64, ips: Vec<u64>)
        requires
            old(self).wf(),
            t < old(self)@.trackers.len(),
        ensures
            final(self).wf(),
            final(self)@ == old(self)@.with_tracker(
                t as int,
                old(self)@.trackers[t as int].remember(id, ips@),
            ),
    {
        let ghost before = self@;
        assert(before.trackers[t as int] == self.trackers@[t as int]@);
        self.trackers[t].remember(id, ips);
        proof {
            self.trackers@[t as int].lemma_wf_view();
            assert(self@.trackers =~= before.trackers.update(
                t as int,
                before.trackers[t as int].remember(id, ips@),
            ));
        }
    }

    /// Flushes the tracker `t` when its buffer is over `threshold`, and
    /// returns the bytes that belong at the end of its event file.
    fn maybe_flush(&mut self, t: usize, threshold: usize) -> (bytes: Vec<u8>)
        requires
            old(self).wf(),
            t < old(self)@.trackers.len(),
        ensures
            final(self).wf(),
            final(self)@ == old(self)@.with_tracker(
                t as int,
                old(self)@.trackers[t as int].maybe_flush(threshold),
            ),
            bytes@ == if old(self)@.trackers[t as int].over(threshold) {
                encode_all(old(self)@.trackers[t as int].buffered)
            } else {
                Seq::empty()
            },
    {
        let ghost before = self@;
        assert(before.trackers[t as int] == self.trackers@[t as int]@);
        let bytes = self.trackers[t].maybe_flush(threshold);
        proof {
            self.trackers@[t as int].lemma_wf_view();
            assert(self@.trackers =~= before.trackers.update(
                t as int,
                before.trackers[t as int].maybe_flush(threshold),
            ));
        }
        bytes
    }

    /// Tells whether writing the event file of the tracker `t` has failed.
    fn has_failed(&self, t: usize) -> (failed: bool)
        requires
            self.wf(),
            t < self@.trackers.len(),
        ensures
            failed == self@.trackers[t as int].failed,
    {
        assert(self@.trackers[t as int] == self.trackers@[t as int]@);
        self.trackers[t].has_failed()
    }

    /// Notes that writing the event file of the tracker `t` has failed.
    fn mark_failed(&mut self, t: usize) -> (first: bool)
        requires
            old(self).wf(),
            t < old(self)@.trackers.len(),
        ensures
            final(self).wf(),
            final(self)@ == old(self)@.with_tracker(t as int, old(self)@.trackers[t as int].fail()),
            first == !old(self)@.trackers[t as int].failed,
    {
        let ghost before = self@;
        assert(before.trackers[t as int] == self.trackers@[t as int]@);
        let first = self.trackers[t].mark_failed();
        proof {
            self.trackers@[t as int].lemma_wf_view();
            assert(self@.trackers =~= before.trackers.update(
                t as int,
                before.trackers[t as int].fail(),
            ));
        }
        first
    }
}

/// What the per-thread slots of one thread stand for.
pub struct ThreadView {
    /// The identifier of the thread.
    pub id: u64,
    /// Whether the reentrancy guard is set: the recorder is running on this
    /// thread, and what it allocates is not recorded.
    pub guarded: bool,
    /// The index of the tracker that the thread has cached, if any.
    pub tracker: Option<usize>,
}

/// The per-thread slots: the reentrancy guard and the cached tracker guard.
#[derive(Debug)]
pub struct ThreadState {
    id: u64,
    disable_tracking: bool,
    tracker: Option<TrackerGuard>,
}

impl View for ThreadState {
    type V = ThreadView;

    closed spec fn view(&self) -> ThreadView {
        ThreadView {
            id: self.id,
            guarded: self.disable_tracking,
            tracker: match self.tracker {
                Some(guard) => Some(guard.spec_id()),
                None => None,
            },
        }
    }
}

impl ThreadState {
    /// Creates the slots of the thread `id`: the guard is clear and no
    /// tracker is cached. The pool tells threads apart by this identifier,
    /// so no two live threads may share one.
    pub fn new(id: u64) -> (thread: ThreadState)
        ensures
            thread@ == (ThreadView { id, guarded: false, tracker: None }),
    {
        ThreadState { id, disable_tracking: false, tracker: None }
    }

    /// Returns the identifier of the thread.
    pub fn id(&self) -> (id: u64)
        ensures
            id == self@.id,
    {
        self.id
    }

    /// Tells whether the reentrancy guard is set.
    pub fn is_guarded(&self) -> (guarded: bool)
        ensures
            guarded == self@.guarded,
    {
        self.disable_tracking
    }

    /// Returns the index of the cached tracker, if any.
    pub fn tracker(&self) -> (tracker: Option<usize>)
        ensures
            tracker == self@.tracker,
    {
        match &self.tracker {
            Some(guard) => Some(guard.id),
            None => None,
        }
    }
}

/// Runs `f` with the reentrancy guard of the thread set, and clears the guard
/// when `f` is done.
pub fn untracked<F: FnOnce()>(thread: &mut ThreadState, f: F)
    requires
        f.requires(()),
    ensures
        f.ensures((), ()),
        final(thread)@ == (ThreadView { guarded: false, ..old(thread)@ }),
{
    thread.disable_tracking = true;
    f();
    thread.disable_tracking = false;
}

/// What an engine stands for.
pub struct EngineView {
    /// The next sequence number to hand out.
    pub seq: u64,
    /// The configuration of the run.
    pub config: TrackerConfig,
    /// The local trackers.
    pub pool: PoolView,
    /// The name of the run directory.
    pub profile_path: Seq<char>,
}

/// The part of a trace that is kept under the depth cap `depth`.
pub open spec fn kept(trace: Seq<u64>, depth: usize) -> Seq<u64> {
    if trace.len() > depth {
        trace.take(depth as int)
    } else {
        trace
    }
}

impl EngineView {
    /// The engine of a run that starts at `unix_seconds`.
    pub open spec fn start(config: TrackerConfig, unix_seconds: u64) -> EngineView {
        EngineView {
            seq: 0,
            config,
            pool: PoolView::empty(),
            profile_path: run_dir_name(unix_seconds),
        }
    }

    /// The tracker `t` has recorded an `i`-th event.
    pub open spec fn has_event(self, t: int, i: int) -> bool {
        0 <= t < self.pool.trackers.len() && 0 <= i < self.pool.trackers[t].recorded.len()
    }

    /// The sequence number of the `i`-th event that the tracker `t` has
    /// recorded.
    pub open spec fn seq_at(self, t: int, i: int) -> u64 {
        self.pool.trackers[t].recorded[i].spec_seq()
    }

    /// The pool is well formed and within its cap; every sequence number
    /// that was handed out is below the counter, ascends within its tracker
    /// and occurs in no other tracker; no trace is deeper than the cap.
    pub open spec fn wf(self) -> bool {
        &&& self.pool.wf()
        &&& self.pool.trackers.len() <= self.config.max_trackers
        &&& forall|t: int, i: int| self.has_event(t, i) ==> #[trigger] self.seq_at(t, i) < self.seq
        &&& forall|t: int, i: int, j: int|
            self.has_event(t, i) && self.has_event(t, j) && i < j ==> #[trigger] self.seq_at(t, i)
                < #[trigger] self.seq_at(t, j)
        &&& forall|t: int, u: int, i: int, j: int|
            self.has_event(t, i) && self.has_event(u, j) && t != u ==> #[trigger] self.seq_at(t, i)
                != #[trigger] self.seq_at(u, j)
        &&& forall|t: int, id: u64|
            0 <= t < self.pool.trackers.len()
                && #[trigger] self.pool.trackers[t].dictionary.contains_key(id)
                ==> self.pool.trackers[t].dictionary[id].len() <= self.config.max_stack_depth
    }

    /// The tracker that the thread holds in this engine, if its cached
    /// guard is for one.
    pub open spec fn tracker_of(self, thread: ThreadView) -> Option<usize> {
        match thread.tracker {
            Some(id) => if self.pool.holds(id, thread.id) {
                Some(id)
            } else {
                None
            },
            None => None,
        }
    }

    /// The engine with `pool` as its pool.
    pub open spec fn with_pool(self, pool: PoolView) -> EngineView {
        EngineView { pool, ..self }
    }

    /// What happens when an unguarded thread sets out to record: it sets its
    /// guard and uses the tracker it holds, or gets one from the pool first.
    /// When the pool is exhausted nothing changes and nothing is recorded.
    /// A tracker whose event file could not be written takes nothing more:
    /// the thread keeps it, and nothing is recorded.
    pub open spec fn enter(self, thread: ThreadView) -> (EngineView, ThreadView, Option<usize>) {
        match self.tracker_of(thread) {
            Some(id) => if self.pool.trackers[id as int].failed {
                (self, thread, None)
            } else {
                (self, ThreadView { guarded: true, ..thread }, Some(id))
            },
            None => match self.pool.acquire(thread.id, self.config.max_trackers).1 {
                Some(id) => if self.pool.acquire(
                    thread.id,
                    self.config.max_trackers,
                ).0.trackers[id as int].failed {
                    (
                        self.with_pool(self.pool.acquire(thread.id, self.config.max_trackers).0),
                        ThreadView { tracker: Some(id), ..thread },
                        None,
                    )
                } else {
                    (
                        self.with_pool(self.pool.acquire(thread.id, self.config.max_trackers).0),
                        ThreadView { guarded: true, tracker: Some(id), ..thread },
                        Some(id),
                    )
                },
                None => (self, thread, None),
            },
        }
    }

    /// Whether the thread `thread` can record an event into the tracker `t`:
    /// it holds the tracker, the event file of the tracker can be written,
    /// and a sequence number is left.
    pub open spec fn can_record(self, t: usize, thread: u64) -> bool {
        self.pool.holds(t, thread) && !self.pool.trackers[t as int].failed && self.seq < u64::MAX
    }

    /// The engine after a write to the event file of the tracker `t` has
    /// failed.
    pub open spec fn fail(self, t: int) -> EngineView {
        self.with_pool(self.pool.with_tracker(t, self.pool.trackers[t].fail()))
    }

    /// The engine after `event` is recorded into the tracker `t` under the
    /// next sequence number.
    pub open spec fn record(self, t: int, event: Event) -> EngineView {
        EngineView {
            seq: (self.seq + 1) as u64,
            pool: self.pool.with_tracker(t, self.pool.trackers[t].push(event)),
            ..self
        }
    }

    /// The engine after the trace `ips` is entered under `id` in the
    /// dictionary of the tracker `t`.
    pub open spec fn remember(self, t: int, id: u64, ips: Seq<u64>) -> EngineView {
        self.with_pool(self.pool.with_tracker(t, self.pool.trackers[t].remember(id, ips)))
    }

    /// The engine after the tracker `t` flushes if its buffer is over the
    /// configured threshold.
    pub open spec fn maybe_flush(self, t: int) -> EngineView {
        self.with_pool(
            self.pool.with_tracker(
                t,
                self.pool.trackers[t].maybe_flush(self.config.tracker_event_buffer_size),
            ),
        )
    }

    /// The bytes that the tracker `t` hands out when it flushes if its buffer
    /// is over the configured threshold.
    pub open spec fn flush_of(self, t: int) -> Option<Seq<u8>> {
        if self.pool.trackers[t].over(self.config.tracker_event_buffer_size) {
            Some(encode_all(self.pool.trackers[t].buffered))
        } else {
            None
        }
    }

    /// The allocation event that the thread `thread` records for the
    /// address `ptr`.
    pub open spec fn alloc_event(
        self,
        thread: u64,
        ptr: u64,
        size: u64,
        trace: Seq<u64>,
        after: u64,
    ) -> Event {
        Event::Alloc {
            seq: self.seq,
            after,
            addr: ptr,
            thread_id: thread,
            bt: crc64_ecma_182(trace_bytes(kept(trace, self.config.max_stack_depth))),
            size,
        }
    }

    /// The deallocation event that the thread `thread` records for the
    /// address `ptr`.
    pub open spec fn dealloc_event(self, thread: u64, ptr: u64, after: u64) -> Event {
        Event::Dealloc { seq: self.seq, after, addr: ptr, thread_id: thread }
    }

    /// The engine after the thread `thread` has recorded an allocation into
    /// the tracker `t`, before the flush check.
    pub open spec fn alloc_recorded(
        self,
        t: int,
        thread: u64,
        ptr: u64,
        size: u64,
        trace: Seq<u64>,
        after: u64,
    ) -> EngineView {
        self.record(t, self.alloc_event(thread, ptr, size, trace, after)).remember(
            t,
            crc64_ecma_182(trace_bytes(kept(trace, self.config.max_stack_depth))),
            kept(trace, self.config.max_stack_depth),
        )
    }

    /// The engine after the thread `thread` has recorded a deallocation into
    /// the tracker `t`, before the flush check.
    pub open spec fn dealloc_recorded(self, t: int, thread: u64, ptr: u64, after: u64) -> EngineView {
        self.record(t, self.dealloc_event(thread, ptr, after))
    }
}

/// Handing out a tracker keeps the engine well formed, and the thread that
/// asked holds the tracker it got.
pub proof fn lemma_acquire_wf(engine: EngineView, thread: u64)
    requires
        engine.wf(),
    ensures
        engine.with_pool(engine.pool.acquire(thread, engine.config.max_trackers).0).wf(),
        engine.pool.acquire(thread, engine.config.max_trackers).1 matches Some(id)
            ==> engine.pool.acquire(thread, engine.config.max_trackers).0.holds(id, thread),
{
    let after = engine.with_pool(engine.pool.acquire(thread, engine.config.max_trackers).0);
    if engine.pool.available.len() > 0 {
        assert(after.pool.trackers == engine.pool.trackers);
        assert forall|t: int, i: int| after.has_event(t, i) implies engine.has_event(t, i)
            && after.seq_at(t, i) == engine.seq_at(t, i) by {}
        let id = engine.pool.available.last();
        assert(engine.pool.available[engine.pool.available.len() - 1] == id);
        assert forall|a: int| 0 <= a < after.pool.available.len() implies (
        #[trigger] after.pool.available[a]) < after.pool.trackers.len()
            && after.pool.holders[after.pool.available[a] as int] is None by {
            assert(after.pool.available[a] == engine.pool.available[a]);
        }
    } else if engine.pool.trackers.len() < engine.config.max_trackers {
        let fresh = TrackerView::fresh(thread);
        assert(fresh.recorded.skip(0) =~= fresh.buffered);
        assert forall|t: int, i: int| after.has_event(t, i) implies engine.has_event(t, i)
            && after.seq_at(t, i) == engine.seq_at(t, i) by {}
    }
}

/// Setting out to record keeps the engine well formed, and the thread holds
/// the tracker it is to record into.
pub proof fn lemma_enter_wf(engine: EngineView, thread: ThreadView)
    requires
        engine.wf(),
    ensures
        engine.enter(thread).0.wf(),
        engine.enter(thread).2 matches Some(id) ==> engine.enter(thread).0.pool.holds(
            id,
            thread.id,
        ),
{
    lemma_acquire_wf(engine, thread.id);
}

/// Recording an event under the next sequence number keeps the engine well
/// formed: the new number is above every number handed out before.
pub proof fn lemma_record_wf(engine: EngineView, t: int, event: Event)
    requires
        engine.wf(),
        0 <= t < engine.pool.trackers.len(),
        engine.seq < u64::MAX,
        event.spec_seq() == engine.seq,
    ensures
        engine.record(t, event).wf(),
{
    let after = engine.record(t, event);
    let n = engine.pool.trackers[t].recorded.len() as int;
    crate::local_tracker::lemma_push_keeps_file(engine.pool.trackers[t], event);
    assert forall|u: int, i: int| after.has_event(u, i) implies (if u == t && i == n {
        after.seq_at(u, i) == engine.seq
    } else {
        engine.has_event(u, i) && after.seq_at(u, i) == engine.seq_at(u, i)
    }) by {}
    assert forall|u: int, i: int| after.has_event(u, i) implies #[trigger] after.seq_at(u, i)
        < after.seq by {}
    assert forall|u: int, i: int, j: int|
        after.has_event(u, i) && after.has_event(u, j) && i < j implies #[trigger] after.seq_at(
        u,
        i,
    ) < #[trigger] after.seq_at(u, j) by {
        assert(engine.has_event(u, i));
        if !(u == t && j == n) {
            assert(engine.has_event(u, j));
        }
    }
    assert forall|u: int, v: int, i: int, j: int|
        after.has_event(u, i) && after.has_event(v, j) && u != v implies #[trigger] after.seq_at(
        u,
        i,
    ) != #[trigger] after.seq_at(v, j) by {
        if !(u == t && i == n) {
            assert(engine.has_event(u, i));
        }
        if !(v == t && j == n) {
            assert(engine.has_event(v, j));
        }
    }
}

/// Entering a trace that is within the depth cap keeps the engine well
/// formed.
pub proof fn lemma_remember_wf(engine: EngineView, t: int, id: u64, ips: Seq<u64>)
    requires
        engine.wf(),
        0 <= t < engine.pool.trackers.len(),
        ips.len() <= engine.config.max_stack_depth,
    ensures
        engine.remember(t, id, ips).wf(),
{
    let after = engine.remember(t, id, ips);
    assert forall|u: int, i: int| after.has_event(u, i) implies engine.has_event(u, i)
        && after.seq_at(u, i) == engine.seq_at(u, i) by {}
}

/// A flush keeps the engine well formed.
pub proof fn lemma_maybe_flush_wf(engine: EngineView, t: int)
    requires
        engine.wf(),
        0 <= t < engine.pool.trackers.len(),
    ensures
        engine.maybe_flush(t).wf(),
{
    let after = engine.maybe_flush(t);
    crate::local_tracker::lemma_flush_appends(engine.pool.trackers[t]);
    assert forall|u: int, i: int| after.has_event(u, i) implies engine.has_event(u, i)
        && after.seq_at(u, i) == engine.seq_at(u, i) by {}
}

/// Noting a failed write keeps the engine well formed.
pub proof fn lemma_fail_wf(engine: EngineView, t: int)
    requires
        engine.wf(),
        0 <= t < engine.pool.trackers.len(),
    ensures
        engine.fail(t).wf(),
{
    let after = engine.fail(t);
    assert forall|u: int, i: int| after.has_event(u, i) implies engine.has_event(u, i)
        && after.seq_at(u, i) == engine.seq_at(u, i) by {}
}

/// Giving a tracker back keeps the engine well formed.
pub proof fn lemma_release_wf(engine: EngineView, id: usize, thread: u64)
    requires
        engine.wf(),
    ensures
        engine.with_pool(engine.pool.release(id, thread)).wf(),
{
    let after = engine.with_pool(engine.pool.release(id, thread));
    assert forall|u: int, i: int| after.has_event(u, i) implies engine.has_event(u, i)
        && after.seq_at(u, i) == engine.seq_at(u, i) by {}
    if engine.pool.holds(id, thread) {
        assert forall|a: int, b: int| 0 <= a < b < after.pool.available.len() implies (
        #[trigger] after.pool.available[a]) != (#[trigger] after.pool.available[b]) by {
            if b == engine.pool.available.len() {
                assert(engine.pool.holders[engine.pool.available[a] as int] is None);
            }
        }
    }
}

/// The state of a run between `enable_tracking` and `disable_tracking`.
pub struct GlobalTracker {
    seq: u64,
    config: TrackerConfig,
    pool: TrackersPool,
    profile_path: String,
}

impl View for GlobalTracker {
    type V = EngineView;

    closed spec fn view(&self) -> EngineView {
        EngineView {
            seq: self.seq,
            config: self.config,
            pool: self.pool@,
            profile_path: self.profile_path@,
        }
    }
}

impl GlobalTracker {
    /// The pool and the view are well formed.
    pub closed spec fn wf(&self) -> bool {
        self.pool.wf() && self@.wf()
    }

    /// A well-formed engine has a well-formed view.
    pub proof fn lemma_wf_view(&self)
        requires
            self.wf(),
        ensures
            self@.wf(),
    {
    }

    /// Creates the engine of a run that starts at `unix_seconds`.
    fn new(config: TrackerConfig, unix_seconds: u64) -> (engine: GlobalTracker)
        ensures
            engine.wf(),
            engine@ == EngineView::start(config, unix_seconds),
    {
        GlobalTracker { seq: 0, config, pool: TrackersPool::new(), profile_path: run_dir(unix_seconds) }
    }

    /// Returns the configuration of the run.
    pub fn config(&self) -> (config: &TrackerConfig)
        ensures
            *config == self@.config,
    {
        &self.config
    }

    /// Returns the number of events recorded so far, which is the next
    /// sequence number.
    pub fn seq(&self) -> (seq: u64)
        ensures
            seq == self@.seq,
    {
        self.seq
    }

    /// Returns the name of the run directory.
    pub fn profile_path(&self) -> (path: &String)
        ensures
            path@ == self@.profile_path,
    {
        &self.profile_path
    }

    /// Returns the number of local trackers created so far.
    pub fn trackers(&self) -> (count: usize)
        ensures
            count == self@.pool.trackers.len(),
    {
        self.pool.len()
    }

    /// Hands the thread `thread` a tracker from the pool, within the
    /// configured cap. Returns `None` when the pool is exhausted.
    pub fn acquire_tracker(&mut self, thread: u64) -> (guard: Option<TrackerGuard>)
        requires
            old(self).wf(),
        ensures
            final(self).wf(),
            final(self)@ == old(self)@.with_pool(
                old(self)@.pool.acquire(thread, old(self)@.config.max_trackers).0,
            ),
            match guard {
                Some(g) => old(self)@.pool.acquire(thread, old(self)@.config.max_trackers).1
                    == Some(g.spec_id()),
                None => old(self)@.pool.acquire(thread, old(self)@.config.max_trackers).1 is None,
            },
    {
        proof {
            lemma_acquire_wf(self@, thread);
        }
        self.pool.acquire_or_create(
            thread,
            self.config.tracker_event_buffer_size,
            self.config.max_trackers,
        )
    }
}

/// What the process-wide slot stands for.
pub open spec fn engine_view(global: Option<GlobalTracker>) -> Option<EngineView> {
    match global {
        Some(engine) => Some(engine@),
        None => None,
    }
}

/// The engine in the process-wide slot, if there is one, is well formed.
pub open spec fn engine_wf(global: Option<GlobalTracker>) -> bool {
    global matches Some(engine) ==> engine.wf()
}

/// Enables tracking for a run that starts at `unix_seconds`, and returns the
/// name of the run directory, `hip-<unix_seconds>`, which the caller creates
/// under `config.profile_dir` together with its two subdirectories.
///
/// Fails with [`Error::AlreadyEnabled`] while an engine is installed, and
/// leaves that engine as it is.
pub fn enable_tracking(global: &mut Option<GlobalTracker>, config: TrackerConfig, unix_seconds: u64) -> (path:
    Result<String, Error>)
    ensures
        match path {
            Ok(name) => {
                &&& *old(global) is None
                &&& engine_view(*final(global)) == Some(EngineView::start(config, unix_seconds))
                &&& engine_wf(*final(global))
                &&& name@ == run_dir_name(unix_seconds)
            },
            Err(e) => {
                &&& e == Error::AlreadyEnabled
                &&& *old(global) is Some
                &&& *final(global) == *old(global)
            },
        },
{
    if global.is_some() {
        return Err(Error::AlreadyEnabled);
    }
    let engine = GlobalTracker::new(config, unix_seconds);
    let name = engine.profile_path.clone();
    *global = Some(engine);
    Ok(name)
}

/// What `disable_tracking` hands over: the number of events that the run
/// recorded and the report of every local tracker, by tracker id.
#[derive(Debug, PartialEq, Eq)]
pub struct Shutdown {
    pub recorded: u64,
    pub reports: Vec<TrackerReport>,
}

/// `reports` closes `trackers`: the report at position `t` is that of the
/// tracker `t`, finalized under the id `t`.
pub open spec fn reports_close(reports: Seq<TrackerReport>, trackers: Seq<TrackerView>) -> bool {
    &&& reports.len() == trackers.len()
    &&& forall|t: int|
        0 <= t < reports.len() ==> {
            &&& (#[trigger] reports[t]).id == t
            &&& reports[t].tag == trackers[t].tag
            &&& reports[t].failed == trackers[t].failed
            &&& reports[t].events@ == encode_all(trackers[t].buffered)
            &&& lists_dictionary(reports[t].backtraces@, trackers[t].dictionary)
        }
}

/// Disables tracking: takes the engine out of the slot and finalizes every
/// local tracker with its pool index as its tracker id.
///
/// Returns `None`, and changes nothing, when no engine is installed; so a
/// second call in a row does nothing.
pub fn disable_tracking(global: &mut Option<GlobalTracker>) -> (shutdown: Option<Shutdown>)
    requires
        engine_wf(*old(global)),
    ensures
        *final(global) is None,
        match engine_view(*old(global)) {
            None => shutdown is None,
            Some(engine) => shutdown matches Some(s) && s.recorded == engine.seq && reports_close(
                s.reports@,
                engine.pool.trackers,
            ),
        },
{
    match global.take() {
        None => None,
        Some(engine) => {
            let ghost before = engine@;
            let mut engine = engine;
            let mut reports: Vec<TrackerReport> = Vec::with_capacity(engine.pool.trackers.len());
            let mut t: usize = 0;
            while t < engine.pool.trackers.len()
                invariant
                    t <= engine.pool.trackers@.len(),
                    engine.pool.trackers@.len() == before.pool.trackers.len(),
                    engine.seq == before.seq,
                    forall|u: int|
                        0 <= u < engine.pool.trackers@.len() ==> (
                        #[trigger] engine.pool.trackers@[u]).wf(),
                    forall|u: int|
                        t <= u < engine.pool.trackers@.len() ==> (
                        #[trigger] engine.pool.trackers@[u])@ == before.pool.trackers[u],
                    reports_close(reports@, before.pool.trackers.take(t as int)),
                decreases engine.pool.trackers@.len() - t,
            {
                let report = engine.pool.trackers[t].finalize(t);
                reports.push(report);
                assert(before.pool.trackers.take(t + 1) =~= before.pool.trackers.take(
                    t as int,
                ).push(before.pool.trackers[t as int]));
                t += 1;
            }
            assert(before.pool.trackers.take(t as int) =~= before.pool.trackers);
            Some(Shutdown { recorded: engine.seq, reports })
        },
    }
}

/// The permission to record one event, handed out by [`with_local`] and used
/// up by the function that records or by [`leave_local`].
#[derive(Debug)]
pub struct LocalAccess {
    tracker: usize,
}

impl LocalAccess {
    /// The index of the tracker to record into.
    pub closed spec fn spec_tracker(&self) -> usize {
        self.tracker
    }

    /// Returns the index of the tracker to record into.
    #[verifier::when_used_as_spec(spec_tracker)]
    pub fn tracker(&self) -> (tracker: usize)
        ensures
            tracker == self.spec_tracker(),
    {
        self.tracker
    }
}

/// The tracker that an access is for.
pub open spec fn access_tracker(access: Option<LocalAccess>) -> Option<usize> {
    match access {
        Some(a) => Some(a.spec_tracker()),
        None => None,
    }
}

/// What setting out to record does to the slot and to the thread, and the
/// tracker to record into. Nothing happens, and nothing is to be recorded,
/// when no engine is installed or the guard of the thread is set.
pub open spec fn with_local_spec(engine: Option<EngineView>, thread: ThreadView) -> (
    Option<EngineView>,
    ThreadView,
    Option<usize>,
) {
    match engine {
        Some(e) => if thread.guarded {
            (engine, thread, None)
        } else {
            (Some(e.enter(thread).0), e.enter(thread).1, e.enter(thread).2)
        },
        None => (engine, thread, None),
    }
}

/// Sets out to record an event of the thread.
///
/// Returns the access to the tracker to record into, with the guard of the
/// thread set, when an engine is installed, the guard was clear, the thread
/// holds a tracker or gets one from the pool, and the event file of that
/// tracker can be written. Otherwise returns `None` with the guard as it was:
/// the event is dropped.
pub fn with_local(global: &mut Option<GlobalTracker>, thread: &mut ThreadState) -> (access: Option<
    LocalAccess,
>)
    requires
        engine_wf(*old(global)),
    ensures
        engine_wf(*final(global)),
        engine_view(*final(global)) == with_local_spec(
            engine_view(*old(global)),
            old(thread)@,
        ).0,
        final(thread)@ == with_local_spec(engine_view(*old(global)), old(thread)@).1,
        access_tracker(access) == with_local_spec(engine_view(*old(global)), old(thread)@).2,
{
    match global {
        None => None,
        Some(engine) => {
            if thread.disable_tracking {
                return None;
            }
            let held = match &thread.tracker {
                Some(guard) => if engine.pool.holds(guard.id, thread.id) {
                    Some(guard.id)
                } else {
                    None
                },
                None => None,
            };
            let tracker = match held {
                Some(id) => id,
                None => match engine.acquire_tracker(thread.id) {
                    Some(guard) => {
                        let id = guard.id;
                        thread.tracker = Some(guard);
                        id
                    },
                    None => {
                        return None;
                    },
                },
            };
            if engine.pool.has_failed(tracker) {
                return None;
            }
            thread.disable_tracking = true;
            Some(LocalAccess { tracker })
        },
    }
}

/// Gives up an access without recording, and clears the guard of the thread.
pub fn leave_local(thread: &mut ThreadState, access: LocalAccess)
    ensures
        final(thread)@ == (ThreadView { guarded: false, ..old(thread)@ }),
{
    thread.disable_tracking = false;
}

/// Notes that writing the event file of the tracker `tracker` has failed.
/// From then on the tracker drops what its threads set out to record.
///
/// Returns whether this is the first failure of the tracker: the one to log.
/// Without an engine, or for a tracker that the engine does not have, nothing
/// changes and the answer is `false`.
pub fn report_failure(global: &mut Option<GlobalTracker>, tracker: usize) -> (first: bool)
    requires
        engine_wf(*old(global)),
    ensures
        engine_wf(*final(global)),
        match engine_view(*old(global)) {
            Some(engine) => if tracker < engine.pool.trackers.len() {
                &&& engine_view(*final(global)) == Some(engine.fail(tracker as int))
                &&& first == !engine.pool.trackers[tracker as int].failed
            } else {
                &&& engine_view(*final(global)) == Some(engine)
                &&& !first
            },
            None => *final(global) is None && !first,
        },
{
    match global {
        Some(engine) => {
            if tracker < engine.pool.len() {
                proof {
                    lemma_fail_wf(engine@, tracker as int);
                }
                engine.pool.mark_failed(tracker)
            } else {
                false
            }
        },
        None => false,
    }
}

/// Gives the cached tracker of the thread back to the pool, as when the
/// thread exits. Without an engine, or for a tracker that the thread does not
/// hold in the installed engine, only the cached guard is dropped.
pub fn release_tracker(global: &mut Option<GlobalTracker>, thread: &mut ThreadState)
    requires
        engine_wf(*old(global)),
    ensures
        engine_wf(*final(global)),
        final(thread)@ == (ThreadView { tracker: None, ..old(thread)@ }),
        engine_view(*final(global)) == match engine_view(*old(global)) {
            Some(engine) => match old(thread)@.tracker {
                Some(id) => Some(engine.with_pool(engine.pool.release(id, old(thread)@.id))),
                None => Some(engine),
            },
            None => None,
        },
{
    match thread.tracker.take() {
        Some(guard) => match global {
            Some(engine) => {
                proof {
                    lemma_release_wf(engine@, guard.spec_id(), thread.id);
                }
                engine.pool.release(guard, thread.id);
            },
            None => {},
        },
        None => {},
    }
}

/// The bytes that a tracker handed out for its event file.
#[derive(Debug, PartialEq, Eq)]
pub struct Flush {
    /// The index of the tracker in the pool.
    pub tracker: usize,
    /// The tag that names the event file of the tracker.
    pub tag: u64,
    /// The records to append to the event file.
    pub bytes: Vec<u8>,
}

/// `flush` carries `bytes` of the tracker `t`, tagged `tag`, or nothing when
/// there are none.
pub open spec fn flush_carries(flush: Option<Flush>, t: usize, tag: u64, bytes: Option<Seq<u8>>) -> bool {
    match bytes {
        Some(b) => flush matches Some(f) && f.tracker == t && f.tag == tag && f.bytes@ == b,
        None => flush is None,
    }
}

/// Whether the thread `thread` can record into the tracker `t` of the
/// installed engine.
pub open spec fn recording(engine: Option<EngineView>, t: usize, thread: u64) -> bool {
    engine matches Some(e) && e.can_record(t, thread)
}

/// What setting out to record an allocation does, given the random draw
/// `draw`: as [`with_local_spec`], and then the allocation is either
/// accepted, with the depth up to which its stack is to be captured, or
/// sampled out, in which case the guard is cleared again.
pub open spec fn begin_alloc_spec(engine: Option<EngineView>, thread: ThreadView, draw: u64) -> (
    Option<EngineView>,
    ThreadView,
    Option<(usize, usize)>,
) {
    let entered = with_local_spec(engine, thread);
    match entered.2 {
        Some(t) => if entered.0->0.config.sample_rate.spec_accepts(draw) {
            (entered.0, entered.1, Some((t, entered.0->0.config.max_stack_depth)))
        } else {
            (entered.0, ThreadView { guarded: false, ..entered.1 }, None)
        },
        None => (entered.0, entered.1, None),
    }
}

/// The tracker and depth that a begun allocation is for.
pub open spec fn begun(access: Option<(LocalAccess, usize)>) -> Option<(usize, usize)> {
    match access {
        Some(a) => Some((a.0.spec_tracker(), a.1)),
        None => None,
    }
}

/// Sets out to record an allocation whose random draw is `draw`.
///
/// Returns the access together with the configured stack depth when the
/// thread may record and the sampling accepts the draw. Otherwise returns
/// `None` with the guard of the thread as it was: the allocation is dropped.
pub fn begin_alloc_with(global: &mut Option<GlobalTracker>, thread: &mut ThreadState, draw: u64) -> (access:
    Option<(LocalAccess, usize)>)
    requires
        engine_wf(*old(global)),
    ensures
        engine_wf(*final(global)),
        engine_view(*final(global)) == begin_alloc_spec(
            engine_view(*old(global)),
            old(thread)@,
            draw,
        ).0,
        final(thread)@ == begin_alloc_spec(engine_view(*old(global)), old(thread)@, draw).1,
        begun(access) == begin_alloc_spec(engine_view(*old(global)), old(thread)@, draw).2,
{
    match with_local(global, thread) {
        None => None,
        Some(access) => match global {
            Some(engine) => {
                if engine.config.sample_rate.accepts(draw) {
                    Some((access, engine.config.max_stack_depth))
                } else {
                    leave_local(thread, access);
                    None
                }
            },
            None => {
                leave_local(thread, access);
                None
            },
        },
    }
}

/// `rand::random::<u64>()`: a value from the generator of the current
/// thread. Nothing is promised of the value. The call panics if the random
/// source of the system fails when the generator of the thread is seeded.
#[verifier::external_body]
fn random_draw() -> (draw: u64) {
    rand::random::<u64>()
}

/// Sets out to record an allocation, with a draw from the random generator
/// of the thread where the configured rate does not record everything.
///
/// Behaves as [`begin_alloc_with`] does for some draw.
pub fn begin_alloc(global: &mut Option<GlobalTracker>, thread: &mut ThreadState) -> (access: Option<
    (LocalAccess, usize),
>)
    requires
        engine_wf(*old(global)),
    ensures
        engine_wf(*final(global)),
        exists|draw: u64|
            {
                &&& engine_view(*final(global)) == #[trigger] begin_alloc_spec(
                    engine_view(*old(global)),
                    old(thread)@,
                    draw,
                ).0
                &&& final(thread)@ == begin_alloc_spec(
                    engine_view(*old(global)),
                    old(thread)@,
                    draw,
                ).1
                &&& begun(access) == begin_alloc_spec(
                    engine_view(*old(global)),
                    old(thread)@,
                    draw,
                ).2
            },
{
    let full = match global {
        Some(engine) => engine.config.sample_rate.is_full(),
        None => true,
    };
    let draw = if full {
        0
    } else {
        random_draw()
    };
    begin_alloc_with(global, thread, draw)
}

/// Records the allocation of `size` bytes at `ptr`, made by the thread
/// `after` nanoseconds into the run, with the captured stack `trace`.
///
/// The event gets the next sequence number and the fingerprint of the
/// trace, cut to the configured depth; the trace is entered in the
/// dictionary of the tracker. The tracker then flushes if its buffer is over
/// the configured threshold, and the bytes for its event file are returned.
/// Nothing is recorded when no engine is installed, the thread does not hold
/// the tracker of the access, or the sequence numbers are used up. In every
/// case the guard of the thread is cleared.
pub fn record_alloc(
    global: &mut Option<GlobalTracker>,
    thread: &mut ThreadState,
    access: LocalAccess,
    ptr: u64,
    size: u64,
    trace: Vec<u64>,
    after: u64,
) -> (flush: Option<Flush>)
    requires
        engine_wf(*old(global)),
    ensures
        engine_wf(*final(global)),
        final(thread)@ == (ThreadView { guarded: false, ..old(thread)@ }),
        if recording(engine_view(*old(global)), access.spec_tracker(), old(thread)@.id) {
            let engine = engine_view(*old(global))->0;
            let t = access.spec_tracker();
            let recorded = engine.alloc_recorded(
                t as int,
                old(thread)@.id,
                ptr,
                size,
                trace@,
                after,
            );
            &&& engine_view(*final(global)) == Some(recorded.maybe_flush(t as int))
            &&& flush_carries(
                flush,
                t,
                engine.pool.trackers[t as int].tag,
                recorded.flush_of(t as int),
            )
        } else {
            &&& engine_view(*final(global)) == engine_view(*old(global))
            &&& flush is None
        },
{
    thread.disable_tracking = false;
    match global {
        None => None,
        Some(engine) => {
            let t = access.tracker;
            if !engine.pool.holds(t, thread.id) || engine.pool.has_failed(t) || engine.seq
                == u64::MAX {
                return None;
            }
            let ghost before = engine@;
            let mut ips = trace;
            ips.truncate(engine.config.max_stack_depth);
            assert(ips@ =~= kept(trace@, before.config.max_stack_depth));
            let id = Id::new(ips.as_slice());
            let event = Event::Alloc {
                seq: engine.seq,
                after,
                addr: ptr,
                thread_id: thread.id,
                bt: id.0,
                size,
            };
            proof {
                lemma_record_wf(before, t as int, event);
                lemma_remember_wf(before.record(t as int, event), t as int, id.0, ips@);
                lemma_maybe_flush_wf(
                    before.record(t as int, event).remember(t as int, id.0, ips@),
                    t as int,
                );
            }
            engine.seq = engine.seq + 1;
            engine.pool.push(t, event);
            engine.pool.remember(t, id.0, ips);
            let tag = engine.pool.trackers[t].tag();
            let bytes = engine.pool.maybe_flush(t, engine.config.tracker_event_buffer_size);
            proof {
                let recorded = before.alloc_recorded(
                    t as int,
                    thread.id,
                    ptr,
                    size,
                    trace@,
                    after,
                );
                assert(recorded.pool.trackers =~= before.pool.trackers.update(
                    t as int,
                    before.pool.trackers[t as int].push(event).remember(id.0, ips@),
                ));
                assert(engine@.pool.trackers =~= recorded.maybe_flush(t as int).pool.trackers);
                crate::proto::lemma_encode_all_len(recorded.pool.trackers[t as int].buffered);
            }
            if bytes.len() > 0 {
                Some(Flush { tracker: t, tag, bytes })
            } else {
                None
            }
        },
    }
}

/// Records the deallocation of `ptr`, made by the thread `after` nanoseconds
/// into the run.
///
/// The event gets the next sequence number. The tracker then flushes if its
/// buffer is over the configured threshold, and the bytes for its event file
/// are returned. No sampling applies. Nothing is recorded when no engine is
/// installed, the thread does not hold the tracker of the access, or the
/// sequence numbers are used up. In every case the guard of the thread is
/// cleared.
pub fn record_dealloc(
    global: &mut Option<GlobalTracker>,
    thread: &mut ThreadState,
    access: LocalAccess,
    ptr: u64,
    after: u64,
) -> (flush: Option<Flush>)
    requires
        engine_wf(*old(global)),
    ensures
        engine_wf(*final(global)),
        final(thread)@ == (ThreadView { guarded: false, ..old(thread)@ }),
        if recording(engine_view(*old(global)), access.spec_tracker(), old(thread)@.id) {
            let engine = engine_view(*old(global))->0;
            let t = access.spec_tracker();
            let recorded = engine.dealloc_recorded(t as int, old(thread)@.id, ptr, after);
            &&& engine_view(*final(global)) == Some(recorded.maybe_flush(t as int))
            &&& flush_carries(
                flush,
                t,
                engine.pool.trackers[t as int].tag,
                recorded.flush_of(t as int),
            )
        } else {
            &&& engine_view(*final(global)) == engine_view(*old(global))
            &&& flush is None
        },
{
    thread.disable_tracking = false;
    match global {
        None => None,
        Some(engine) => {
            let t = access.tracker;
            if !engine.pool.holds(t, thread.id) || engine.pool.has_failed(t) || engine.seq
                == u64::MAX {
                return None;
            }
            let ghost before = engine@;
            let event = Event::Dealloc { seq: engine.seq, after, addr: ptr, thread_id: thread.id };
            proof {
                lemma_record_wf(before, t as int, event);
                lemma_maybe_flush_wf(before.record(t as int, event), t as int);
            }
            engine.seq = engine.seq + 1;
            engine.pool.push(t, event);
            let tag = engine.pool.trackers[t].tag();
            let bytes = engine.pool.maybe_flush(t, engine.config.tracker_event_buffer_size);
            proof {
                let recorded = before.dealloc_recorded(t as int, thread.id, ptr, after);
                assert(engine@.pool.trackers =~= recorded.maybe_flush(t as int).pool.trackers);
                crate::proto::lemma_encode_all_len(recorded.pool.trackers[t as int].buffered);
            }
            if bytes.len() > 0 {
                Some(Flush { tracker: t, tag, bytes })
            } else {
                None
            }
        },
    }
}

/// A tracker that a thread gives back is on top of the free ones, and the
/// next thread that asks for a tracker gets that one.
pub proof fn lemma_released_tracker_is_reused(
    pool: PoolView,
    id: usize,
    leaving: u64,
    next: u64,
    max_trackers: usize,
)
    requires
        pool.wf(),
        pool.holds(id, leaving),
    ensures
        pool.release(id, leaving).available.last() == id,
        pool.release(id, leaving).acquire(next, max_trackers).1 == Some(id),
        pool.release(id, leaving).acquire(next, max_trackers).0.holds(id, next),
{
}

/// A tracker is handed to one thread at a time: the index that the pool
/// hands out was held by nobody.
pub proof fn lemma_acquired_tracker_was_free(pool: PoolView, thread: u64, max_trackers: usize)
    requires
        pool.wf(),
    ensures
        pool.acquire(thread, max_trackers).1 matches Some(id) ==> id >= pool.holders.len()
            || pool.holders[id as int] is None,
{
    if pool.available.len() > 0 {
        assert(pool.available[pool.available.len() - 1] == pool.available.last());
    }
}

/// Within the event file of one tracker, sequence numbers ascend strictly.
pub proof fn lemma_seq_ascends_in_file(engine: EngineView, t: int, i: int, j: int)
    requires
        engine.wf(),
        engine.has_event(t, i),
        engine.has_event(t, j),
        i < j,
    ensures
        engine.seq_at(t, i) < engine.seq_at(t, j),
{
}

/// Across the event files of a run, no sequence number occurs twice.
pub proof fn lemma_seq_is_unique(engine: EngineView, t: int, i: int, u: int, j: int)
    requires
        engine.wf(),
        engine.has_event(t, i),
        engine.has_event(u, j),
        t != u || i != j,
    ensures
        engine.seq_at(t, i) != engine.seq_at(u, j),
{
    if t == u {
        if i < j {
            lemma_seq_ascends_in_file(engine, t, i, j);
        } else {
            lemma_seq_ascends_in_file(engine, t, j, i);
        }
    }
}

/// While the guard of a thread is set, setting out to record changes
/// nothing and yields no access: what the recorder itself allocates never
/// reaches the profile.
pub proof fn lemma_guarded_thread_is_not_recorded(engine: Option<EngineView>, thread: ThreadView, draw: u64)
    requires
        thread.guarded,
    ensures
        with_local_spec(engine, thread) == (engine, thread, None::<usize>),
        begin_alloc_spec(engine, thread, draw) == (engine, thread, None::<(usize, usize)>),
{
}

/// The event streams of a run: for every tracker, the events it has
/// recorded.
pub open spec fn recorded_streams(engine: EngineView) -> Seq<Seq<Event>> {
    Seq::new(engine.pool.trackers.len(), |t: int| engine.pool.trackers[t].recorded)
}

/// What an engine has recorded is the input that the offline merge asks
/// for: every stream ascends strictly, and no sequence number is in two
/// streams.
pub proof fn lemma_run_is_ordered(engine: EngineView)
    requires
        engine.wf(),
    ensures
        ordered_run(recorded_streams(engine)),
{
    let streams = recorded_streams(engine);
    assert forall|s: int| 0 <= s < streams.len() implies crate::parse::ascending(
        #[trigger] streams[s],
    ) by {
        assert forall|i: int, j: int| 0 <= i < j < streams[s].len() implies (
        #[trigger] streams[s][i]).spec_seq() < (#[trigger] streams[s][j]).spec_seq() by {
            assert(engine.has_event(s, i) && engine.has_event(s, j));
            assert(engine.seq_at(s, i) < engine.seq_at(s, j));
        }
    }
    assert forall|s: int, u: int, i: int, j: int|
        0 <= s < streams.len() && 0 <= u < streams.len() && s != u && 0 <= i < streams[s].len()
            && 0 <= j < streams[u].len() implies (#[trigger] streams[s][i]).spec_seq() != (
    #[trigger] streams[u][j]).spec_seq() by {
        assert(engine.has_event(s, i) && engine.has_event(u, j));
        assert(engine.seq_at(s, i) != engine.seq_at(u, j));
    }
}

} // verus!
