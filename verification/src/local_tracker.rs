//! The local tracker: the event buffer and backtrace dictionary that one
//! thread at a time records into.

use crate::proto::encode_all;
use crate::proto::lemma_encode_all_push;
use crate::proto::Backtrace;
use crate::proto::Event;
use crate::proto::Frame;
use crate::table::entries;
use crate::table::IndexTable;
use vstd::prelude::*;

verus! {

/// A captured stack: its fingerprint and its instruction pointers in capture
/// order.
#[derive(Clone, Debug, PartialEq, Eq)]
pub struct StackTrace {
    pub id: u64,
    pub ips: Vec<u64>,
}

/// What a tracker hands over when it is finalized.
#[derive(Debug, PartialEq, Eq)]
pub struct TrackerReport {
    /// The tracker id; it names the backtrace file.
    pub id: usize,
    /// The tag of the thread that created the tracker; it names the event
    /// file.
    pub tag: u64,
    /// Whether writing the event file of the tracker had failed.
    pub failed: bool,
    /// The records of the events that were still buffered.
    pub events: Vec<u8>,
    /// The backtrace dictionary, one entry per fingerprint.
    pub backtraces: Vec<StackTrace>,
}

/// The event buffer and backtrace dictionary of one thread at a time.
///
/// The tracker does not write: flushing hands back the bytes that belong at
/// the end of its event file.
pub struct LocalTracker {
    bts: IndexTable,
    traces: Vec<StackTrace>,
    events: Vec<Event>,
    tag: u64,
    finalized: bool,
    failed: bool,
    recorded: Ghost<Seq<Event>>,
}

/// What a local tracker stands for.
pub struct TrackerView {
    /// Tag of the thread that created the tracker.
    pub tag: u64,
    /// Events pushed and not yet flushed, oldest first.
    pub buffered: Seq<Event>,
    /// Every event ever pushed, oldest first: the content of the event file
    /// once everything is flushed.
    pub recorded: Seq<Event>,
    /// The backtrace dictionary: fingerprint to instruction pointers.
    pub dictionary: Map<u64, Seq<u64>>,
    /// Whether the tracker has been finalized.
    pub finalized: bool,
    /// Whether writing the event file of the tracker has failed.
    pub failed: bool,
}

impl TrackerView {
    /// A tracker that has recorded nothing.
    pub open spec fn fresh(tag: u64) -> TrackerView {
        TrackerView {
            tag,
            buffered: Seq::empty(),
            recorded: Seq::empty(),
            dictionary: Map::empty(),
            finalized: false,
            failed: false,
        }
    }

    /// The events that have left the buffer: the content of the event file.
    pub open spec fn flushed(self) -> Seq<Event> {
        self.recorded.take(self.recorded.len() - self.buffered.len())
    }

    /// The buffer holds the newest of the recorded events, and a finalized
    /// tracker holds nothing.
    pub open spec fn wf(self) -> bool {
        &&& self.buffered.len() <= self.recorded.len()
        &&& self.buffered == self.recorded.skip(self.recorded.len() - self.buffered.len())
        &&& self.finalized ==> self.buffered.len() == 0 && self.dictionary == Map::<
            u64,
            Seq<u64>,
        >::empty()
    }

    /// The tracker after `event` is appended to the buffer.
    pub open spec fn push(self, event: Event) -> TrackerView {
        TrackerView {
            buffered: self.buffered.push(event),
            recorded: self.recorded.push(event),
            ..self
        }
    }

    /// The tracker after `ips` is entered under `id`; an earlier trace with
    /// the same fingerprint is replaced.
    pub open spec fn remember(self, id: u64, ips: Seq<u64>) -> TrackerView {
        TrackerView { dictionary: self.dictionary.insert(id, ips), ..self }
    }

    /// The tracker after its buffer is written out.
    pub open spec fn flush(self) -> TrackerView {
        TrackerView { buffered: Seq::empty(), ..self }
    }

    /// Whether a buffer of this length is written out under `threshold`.
    pub open spec fn over(self, threshold: usize) -> bool {
        self.buffered.len() > threshold
    }

    /// The tracker after a flush that happens only over `threshold`.
    pub open spec fn maybe_flush(self, threshold: usize) -> TrackerView {
        if self.over(threshold) {
            self.flush()
        } else {
            self
        }
    }

    /// The tracker after a write to its event file has failed.
    pub open spec fn fail(self) -> TrackerView {
        TrackerView { failed: true, ..self }
    }

    /// The tracker after finalization.
    pub open spec fn finalize(self) -> TrackerView {
        TrackerView {
            buffered: Seq::empty(),
            dictionary: Map::empty(),
            finalized: true,
            ..self
        }
    }
}

/// `traces` lists `dictionary`: every entry once, and nothing else.
pub open spec fn lists_dictionary(traces: Seq<StackTrace>, dictionary: Map<u64, Seq<u64>>) -> bool {
    &&& forall|i: int|
        0 <= i < traces.len() ==> dictionary.contains_key((#[trigger] traces[i]).id)
            && dictionary[traces[i].id] == traces[i].ips@
    &&& forall|id: u64| #[trigger]
        dictionary.contains_key(id) ==> exists|i: int|
            0 <= i < traces.len() && (#[trigger] traces[i]).id == id
    &&& forall|i: int, j: int|
        0 <= i < j < traces.len() ==> (#[trigger] traces[i]).id != (#[trigger] traces[j]).id
}

impl View for LocalTracker {
    type V = TrackerView;

    closed spec fn view(&self) -> TrackerView {
        TrackerView {
            tag: self.tag,
            buffered: self.events@,
            recorded: self.recorded@,
            dictionary: Map::new(
                |id: u64| entries(self.bts).contains_key(id),
                |id: u64| self.traces@[entries(self.bts)[id] as int].ips@,
            ),
            finalized: self.finalized,
            failed: self.failed,
        }
    }
}

impl LocalTracker {
    /// The table and the list of traces agree, and the view is well formed.
    pub closed spec fn wf(&self) -> bool {
        &&& self@.wf()
        &&& forall|id: u64| #[trigger]
            entries(self.bts).contains_key(id) ==> entries(self.bts)[id] < self.traces@.len()
                && self.traces@[entries(self.bts)[id] as int].id == id
        &&& forall|k: int|
            0 <= k < self.traces@.len() ==> entries(self.bts).contains_key(
                (#[trigger] self.traces@[k]).id,
            ) && entries(self.bts)[self.traces@[k].id] == k
    }

    /// A well-formed tracker has a well-formed view.
    pub proof fn lemma_wf_view(&self)
        requires
            self.wf(),
        ensures
            self@.wf(),
    {
    }

    /// Creates the tracker of the thread tagged `tag`, with room for
    /// `capacity` events before the buffer grows.
    pub fn init(tag: u64, capacity: usize) -> (tracker: LocalTracker)
        ensures
            tracker.wf(),
            tracker@ == TrackerView::fresh(tag),
    {
        let tracker = LocalTracker {
            bts: IndexTable::new(),
            traces: Vec::new(),
            events: Vec::with_capacity(capacity),
            tag,
            finalized: false,
            failed: false,
            recorded: Ghost(Seq::empty()),
        };
        assert(tracker@.dictionary =~= Map::<u64, Seq<u64>>::empty());
        assert(tracker@.recorded.skip(0) =~= tracker@.buffered);
        tracker
    }

    /// Returns the tag of the thread that created the tracker.
    pub fn tag(&self) -> (tag: u64)
        ensures
            tag == self@.tag,
    {
        self.tag
    }

    /// Returns the number of buffered events.
    pub fn buffered_len(&self) -> (len: usize)
        ensures
            len == self@.buffered.len(),
    {
        self.events.len()
    }

    /// Tells whether the tracker has been finalized.
    pub fn is_finalized(&self) -> (finalized: bool)
        ensures
            finalized == self@.finalized,
    {
        self.finalized
    }

    /// Tells whether writing the event file of the tracker has failed.
    pub fn has_failed(&self) -> (failed: bool)
        ensures
            failed == self@.failed,
    {
        self.failed
    }

    /// Notes that writing the event file of the tracker has failed. Returns
    /// whether this is the first failure of the tracker, the one to log.
    pub fn mark_failed(&mut self) -> (first: bool)
        requires
            old(self).wf(),
        ensures
            final(self).wf(),
            final(self)@ == old(self)@.fail(),
            first == !old(self)@.failed,
    {
        let first = !self.failed;
        self.failed = true;
        assert(self@.dictionary =~= old(self)@.dictionary);
        first
    }

    /// Appends `event` to the buffer.
    ///
    /// A finalized tracker takes no further events.
    pub fn push(&mut self, event: Event)
        requires
            old(self).wf(),
            !old(self)@.finalized,
        ensures
            final(self).wf(),
            final(self)@ == old(self)@.push(event),
    {
        self.events.push(event);
        proof {
            self.recorded@ = self.recorded@.push(event);
            let before = old(self)@;
            let skipped = self@.recorded.skip(self@.recorded.len() - self@.buffered.len());
            assert(skipped =~= before.recorded.skip(
                before.recorded.len() - before.buffered.len(),
            ).push(event));
            assert(self@.dictionary =~= before.dictionary);
        }
    }

    /// Enters the trace `ips` under the fingerprint `id`. A trace that was
    /// entered under the same fingerprint before is replaced.
    pub fn remember(&mut self, id: u64, ips: Vec<u64>)
        requires
            old(self).wf(),
            !old(self)@.finalized,
        ensures
            final(self).wf(),
            final(self)@ == old(self)@.remember(id, ips@),
    {
        let ghost before = old(self)@;
        let ghost image = ips@;
        match self.bts.get(id) {
            Some(k) => {
                self.traces.set(k, StackTrace { id, ips });
            },
            None => {
                self.bts.insert(id, self.traces.len());
                self.traces.push(StackTrace { id, ips });
            },
        }
        assert(self@.dictionary =~= before.dictionary.insert(id, image));
    }

    /// Hands back the records of the buffered events and empties the buffer.
    fn flush_all(&mut self) -> (bytes: Vec<u8>)
        requires
            old(self).wf(),
        ensures
            final(self).wf(),
            final(self)@ == old(self)@.flush(),
            bytes@ == encode_all(old(self)@.buffered),
    {
        let mut bytes: Vec<u8> = Vec::new();
        let mut i: usize = 0;
        while i < self.events.len()
            invariant
                i <= self.events@.len(),
                *self == *old(self),
                bytes@ == encode_all(self.events@.take(i as int)),
            decreases self.events@.len() - i,
        {
            self.events[i].serialize(&mut bytes);
            proof {
                assert(self.events@.take(i + 1) =~= self.events@.take(i as int).push(
                    self.events@[i as int],
                ));
                lemma_encode_all_push(self.events@.take(i as int), self.events@[i as int]);
            }
            i += 1;
        }
        assert(self.events@.take(i as int) =~= self.events@);
        self.events.clear();
        proof {
            assert(self@.recorded.skip(self@.recorded.len() as int) =~= self@.buffered);
            assert(self@.dictionary =~= old(self)@.dictionary);
        }
        bytes
    }

    /// Flushes when more than `threshold` events are buffered.
    ///
    /// Returns the bytes to append to the event file: the records of the
    /// buffered events when the buffer is over the threshold, and nothing
    /// otherwise.
    pub fn maybe_flush(&mut self, threshold: usize) -> (bytes: Vec<u8>)
        requires
            old(self).wf(),
        ensures
            final(self).wf(),
            final(self)@ == old(self)@.maybe_flush(threshold),
            bytes@ == if old(self)@.over(threshold) {
                encode_all(old(self)@.buffered)
            } else {
                Seq::empty()
            },
    {
        if self.events.len() > threshold {
            self.flush_all()
        } else {
            Vec::new()
        }
    }

    /// Closes the tracker under the tracker id `id`.
    ///
    /// The report holds the records of the events that were still buffered
    /// and the whole backtrace dictionary. The tracker is empty afterwards and
    /// takes no further events.
    pub fn finalize(&mut self, id: usize) -> (report: TrackerReport)
        requires
            old(self).wf(),
        ensures
            final(self).wf(),
            final(self)@ == old(self)@.finalize(),
            report.id == id,
            report.tag == old(self)@.tag,
            report.failed == old(self)@.failed,
            report.events@ == encode_all(old(self)@.buffered),
            lists_dictionary(report.backtraces@, old(self)@.dictionary),
    {
        let events = self.flush_all();
        let ghost flushed = *self;
        let mut backtraces: Vec<StackTrace> = Vec::new();
        core::mem::swap(&mut self.traces, &mut backtraces);
        self.bts = IndexTable::new();
        self.finalized = true;
        proof {
            assert(self@.dictionary =~= Map::<u64, Seq<u64>>::empty());
            assert(self@.recorded.skip(self@.recorded.len() as int) =~= self@.buffered);
            let dictionary = old(self)@.dictionary;
            assert forall|dup: u64| #[trigger] dictionary.contains_key(dup) implies exists|i: int|
                0 <= i < backtraces@.len() && (#[trigger] backtraces@[i]).id == dup by {
                assert(flushed@.dictionary.contains_key(dup));
                let k = entries(flushed.bts)[dup] as int;
                assert(backtraces@[k].id == dup);
            }
        }
        TrackerReport { id, tag: self.tag, failed: self.failed, events, backtraces }
    }
}

/// What has been flushed and what is still buffered make up what has been
/// recorded: writing out the buffer appends exactly its records to the event
/// file, so that no event is written twice or lost at a flush.
pub proof fn lemma_flush_appends(tracker: TrackerView)
    requires
        tracker.wf(),
    ensures
        tracker.flushed() + tracker.buffered == tracker.recorded,
        tracker.flush().flushed() == tracker.recorded,
        encode_all(tracker.flushed()) + encode_all(tracker.buffered) == encode_all(
            tracker.flush().flushed(),
        ),
        tracker.flush().wf(),
{
    assert(tracker.flushed() + tracker.buffered =~= tracker.recorded);
    assert(tracker.flush().flushed() =~= tracker.recorded);
    crate::proto::lemma_encode_all_concat(tracker.flushed(), tracker.buffered);
    assert(tracker.recorded.skip(tracker.recorded.len() as int) =~= Seq::<Event>::empty());
}

/// Pushing an event leaves the event file as it is and keeps the tracker well
/// formed.
pub proof fn lemma_push_keeps_file(tracker: TrackerView, event: Event)
    requires
        tracker.wf(),
        !tracker.finalized,
    ensures
        tracker.push(event).wf(),
        tracker.push(event).flushed() == tracker.flushed(),
{
    let after = tracker.push(event);
    assert(after.recorded.skip(after.recorded.len() - after.buffered.len()) =~= tracker.recorded.skip(
        tracker.recorded.len() - tracker.buffered.len(),
    ).push(event));
    assert(after.flushed() =~= tracker.flushed());
}

/// What the platform resolver says of one instruction pointer: the file, line
/// and name of the first symbol it yields, each as far as it is known.
#[derive(Clone, Debug, PartialEq, Eq)]
pub struct Symbol {
    pub file: Option<String>,
    pub lineno: Option<u32>,
    pub name: Option<String>,
}

/// The frame that is recorded for what the resolver said: a frame with file,
/// line and symbol when all three are known, and an absent frame otherwise.
pub open spec fn frame_of(symbol: Option<Symbol>) -> Option<Frame> {
    match symbol {
        Some(s) => if s.file is Some && s.lineno is Some && s.name is Some {
            Some(Frame { file: s.file, lineno: s.lineno, sym_name: s.name })
        } else {
            None
        },
        None => None,
    }
}

/// Turns what the resolver said of one instruction pointer into the frame to
/// record. `None` stands for a pointer that the resolver knows no symbol for.
pub fn resolve_frame(symbol: &Option<Symbol>) -> (frame: Option<Frame>)
    ensures
        frame == frame_of(*symbol),
{
    match symbol {
        Some(s) => match (&s.file, &s.lineno, &s.name) {
            (Some(file), Some(lineno), Some(name)) => Some(
                Frame { file: Some(file.clone()), lineno: Some(*lineno), sym_name: Some(name.clone()) },
            ),
            _ => None,
        },
        None => None,
    }
}

/// Builds the record of the backtrace with fingerprint `id` from what the
/// resolver said of each of its instruction pointers, in capture order.
pub fn resolve_backtrace(id: u64, symbols: &Vec<Option<Symbol>>) -> (record: Backtrace)
    ensures
        record.id == id,
        record.frames@.len() == symbols@.len(),
        forall|i: int|
            0 <= i < symbols@.len() ==> (#[trigger] record.frames@[i]) == frame_of(symbols@[i]),
{
    let mut frames: Vec<Option<Frame>> = Vec::with_capacity(symbols.len());
    let mut i: usize = 0;
    while i < symbols.len()
        invariant
            i <= symbols@.len(),
            frames@.len() == i,
            forall|k: int| 0 <= k < i ==> (#[trigger] frames@[k]) == frame_of(symbols@[k]),
        decreases symbols@.len() - i,
    {
        frames.push(resolve_frame(&symbols[i]));
        i += 1;
    }
    Backtrace { frames, id }
}

} // verus!
