//! The on-disk event record and its codec.
//!
//! An event file is an array of fixed-size records. Each record starts with a
//! one-byte discriminant and continues with little-endian 64-bit fields; the
//! shorter variant is padded so that both occupy [`EVENT_SIZE`] bytes.

use vstd::bytes::*;
use vstd::prelude::*;

verus! {

/// Number of bytes every event occupies on disk.
pub const EVENT_SIZE: usize = 49;

/// Discriminant byte of an allocation record.
pub const TAG_ALLOC: u8 = 0;

/// Discriminant byte of a deallocation record.
pub const TAG_DEALLOC: u8 = 1;

/// Number of padding bytes that close a deallocation record.
pub const DEALLOC_PAD: usize = 16;

/// One observation of the allocator.
///
/// `seq` is the global sequence number, `after` the nanoseconds elapsed since
/// the engine started, `addr` the heap address, `thread_id` the issuing
/// thread, `bt` the fingerprint of the captured stack and `size` the number of
/// bytes requested.
#[derive(Clone, Copy, Debug, PartialEq, Eq, Structural)]
pub enum Event {
    Alloc { seq: u64, after: u64, addr: u64, thread_id: u64, bt: u64, size: u64 },
    Dealloc { seq: u64, after: u64, addr: u64, thread_id: u64 },
}

/// A record whose discriminant names no variant.
#[derive(Clone, Copy, Debug, PartialEq, Eq, Structural)]
pub struct DecodeError {
    /// Position of the record in the stream, counted in records.
    pub index: usize,
    /// The discriminant byte that was found.
    pub tag: u8,
}

/// Where a captured instruction pointer lies in the source.
#[derive(Clone, Debug, PartialEq, Eq)]
pub struct Frame {
    pub file: Option<String>,
    pub lineno: Option<u32>,
    pub sym_name: Option<String>,
}

/// A resolved backtrace: one record of a backtrace file.
///
/// `frames` has one entry per captured instruction pointer, in capture
/// order; an entry is `None` where the pointer could not be resolved.
#[derive(Clone, Debug, PartialEq, Eq)]
pub struct Backtrace {
    pub frames: Vec<Option<Frame>>,
    pub id: u64,
}

/// The padding that follows the fields of a deallocation record.
pub open spec fn padding() -> Seq<u8> {
    Seq::new(DEALLOC_PAD as nat, |i: int| 0u8)
}

/// The `i`-th complete record of `stream`.
pub open spec fn record_at(stream: Seq<u8>, i: int) -> Seq<u8> {
    stream.subrange(i * EVENT_SIZE as int, (i + 1) * EVENT_SIZE as int)
}

/// The little-endian field that starts at byte `at` of `record`.
pub open spec fn field_at(record: Seq<u8>, at: int) -> u64 {
    spec_u64_from_le_bytes(record.subrange(at, at + 8))
}

/// The records of `events`, one after the other.
pub open spec fn encode_all(events: Seq<Event>) -> Seq<u8>
    decreases events.len(),
{
    if events.len() == 0 {
        Seq::empty()
    } else {
        encode_all(events.drop_last()) + events.last().encoding()
    }
}

/// What reading the first `n` records of `stream` yields: the events in
/// order, or the first record whose discriminant is unknown.
pub open spec fn decode_records(stream: Seq<u8>, n: nat) -> Result<Seq<Event>, DecodeError>
    decreases n,
{
    if n == 0 {
        Ok(Seq::empty())
    } else {
        match decode_records(stream, (n - 1) as nat) {
            Err(e) => Err(e),
            Ok(events) => match Event::decode(record_at(stream, n - 1)) {
                Some(e) => Ok(events.push(e)),
                None => Err(
                    DecodeError {
                        index: (n - 1) as usize,
                        tag: stream[(n - 1) * EVENT_SIZE as int],
                    },
                ),
            },
        }
    }
}

/// What reading `stream` to its end yields. Bytes after the last complete
/// record are a cut-off record and end the stream without error.
pub open spec fn decode_stream(stream: Seq<u8>) -> Result<Seq<Event>, DecodeError> {
    decode_records(stream, stream.len() / EVENT_SIZE as nat)
}

impl Event {
    /// The sequence number of the event.
    pub open spec fn spec_seq(&self) -> u64 {
        match *self {
            Event::Alloc { seq, .. } => seq,
            Event::Dealloc { seq, .. } => seq,
        }
    }

    /// The address the event is about.
    pub open spec fn spec_addr(&self) -> u64 {
        match *self {
            Event::Alloc { addr, .. } => addr,
            Event::Dealloc { addr, .. } => addr,
        }
    }

    /// The nanoseconds from the start of the engine to the event.
    pub open spec fn spec_after(&self) -> u64 {
        match *self {
            Event::Alloc { after, .. } => after,
            Event::Dealloc { after, .. } => after,
        }
    }

    /// The record of the event.
    pub open spec fn encoding(self) -> Seq<u8> {
        match self {
            Event::Alloc { seq, after, addr, thread_id, bt, size } => seq![TAG_ALLOC]
                + spec_u64_to_le_bytes(seq) + spec_u64_to_le_bytes(after) + spec_u64_to_le_bytes(
                addr,
            ) + spec_u64_to_le_bytes(thread_id) + spec_u64_to_le_bytes(bt) + spec_u64_to_le_bytes(
                size,
            ),
            Event::Dealloc { seq, after, addr, thread_id } => seq![TAG_DEALLOC]
                + spec_u64_to_le_bytes(seq) + spec_u64_to_le_bytes(after) + spec_u64_to_le_bytes(
                addr,
            ) + spec_u64_to_le_bytes(thread_id) + padding(),
        }
    }

    /// The event that a record of [`EVENT_SIZE`] bytes holds, if its
    /// discriminant is known. The padding of a deallocation is not examined.
    pub open spec fn decode(record: Seq<u8>) -> Option<Event> {
        if record[0] == TAG_ALLOC {
            Some(
                Event::Alloc {
                    seq: field_at(record, 1),
                    after: field_at(record, 9),
                    addr: field_at(record, 17),
                    thread_id: field_at(record, 25),
                    bt: field_at(record, 33),
                    size: field_at(record, 41),
                },
            )
        } else if record[0] == TAG_DEALLOC {
            Some(
                Event::Dealloc {
                    seq: field_at(record, 1),
                    after: field_at(record, 9),
                    addr: field_at(record, 17),
                    thread_id: field_at(record, 25),
                },
            )
        } else {
            None
        }
    }

    /// Returns the sequence number of the event.
    #[verifier::when_used_as_spec(spec_seq)]
    pub fn seq(&self) -> (seq: u64)
        ensures
            seq == self.spec_seq(),
    {
        match self {
            Event::Alloc { seq, .. } => *seq,
            Event::Dealloc { seq, .. } => *seq,
        }
    }

    /// Returns the address the event is about.
    #[verifier::when_used_as_spec(spec_addr)]
    pub fn addr(&self) -> (addr: u64)
        ensures
            addr == self.spec_addr(),
    {
        match self {
            Event::Alloc { addr, .. } => *addr,
            Event::Dealloc { addr, .. } => *addr,
        }
    }

    /// Returns the nanoseconds from the start of the engine to the event.
    #[verifier::when_used_as_spec(spec_after)]
    pub fn after(&self) -> (after: u64)
        ensures
            after == self.spec_after(),
    {
        match self {
            Event::Alloc { after, .. } => *after,
            Event::Dealloc { after, .. } => *after,
        }
    }

    /// Tells whether `self` is ordered before `other` in the global order.
    pub fn precedes(&self, other: &Event) -> (before: bool)
        ensures
            before == (self.spec_seq() < other.spec_seq()),
    {
        self.seq() < other.seq()
    }

    /// Appends the record of the event to `writer`.
    pub fn serialize(&self, writer: &mut Vec<u8>)
        ensures
            final(writer)@ == old(writer)@ + self.encoding(),
            final(writer)@.len() == old(writer)@.len() + EVENT_SIZE,
    {
        proof {
            lemma_encoding_len(*self);
        }
        match self {
            Event::Alloc { seq, after, addr, thread_id, bt, size } => {
                writer.push(TAG_ALLOC);
                put_u64(writer, *seq);
                put_u64(writer, *after);
                put_u64(writer, *addr);
                put_u64(writer, *thread_id);
                put_u64(writer, *bt);
                put_u64(writer, *size);
            },
            Event::Dealloc { seq, after, addr, thread_id } => {
                writer.push(TAG_DEALLOC);
                put_u64(writer, *seq);
                put_u64(writer, *after);
                put_u64(writer, *addr);
                put_u64(writer, *thread_id);
                put_padding(writer);
            },
        }
        assert(writer@ =~= old(writer)@ + self.encoding());
    }

    /// Reads the event at the front of `bytes`.
    ///
    /// Returns `None` when fewer than [`EVENT_SIZE`] bytes are given or the
    /// discriminant is unknown.
    pub fn deserialize(bytes: &[u8]) -> (event: Option<Event>)
        ensures
            event == if bytes@.len() >= EVENT_SIZE {
                Event::decode(bytes@.subrange(0, EVENT_SIZE as int))
            } else {
                None
            },
    {
        if bytes.len() < EVENT_SIZE {
            None
        } else {
            decode_at(bytes, 0)
        }
    }

    /// Reads every complete record of `bytes`.
    ///
    /// A cut-off record at the end is not an error: the stream ends before
    /// it. An unknown discriminant in a complete record fails with the
    /// position of the first such record.
    pub fn deserialize_stream(bytes: &[u8]) -> (events: Result<Vec<Event>, DecodeError>)
        ensures
            match events {
                Ok(v) => decode_stream(bytes@) == Ok::<Seq<Event>, DecodeError>(v@),
                Err(e) => decode_stream(bytes@) == Err::<Seq<Event>, DecodeError>(e),
            },
    {
        let count: usize = bytes.len() / EVENT_SIZE;
        let mut events: Vec<Event> = Vec::with_capacity(count);
        let mut i: usize = 0;
        let mut at: usize = 0;
        while i < count
            invariant
                count == bytes@.len() / EVENT_SIZE as nat,
                bytes@.len() <= usize::MAX,
                i <= count,
                at == i * 49,
                decode_records(bytes@, i as nat) == Ok::<Seq<Event>, DecodeError>(events@),
            decreases count - i,
        {
            match decode_at(bytes, at) {
                Some(e) => {
                    events.push(e);
                },
                None => {
                    let error = DecodeError { index: i, tag: bytes[at] };
                    proof {
                        lemma_decode_records_fails_on(bytes@, i as nat, count as nat);
                    }
                    return Err(error);
                },
            }
            i += 1;
            at += EVENT_SIZE;
        }
        Ok(events)
    }
}

/// Once the first `k + 1` records fail, reading more records fails the same
/// way.
proof fn lemma_decode_records_fails_on(stream: Seq<u8>, k: nat, n: nat)
    requires
        k < n,
        decode_records(stream, k + 1) is Err,
    ensures
        decode_records(stream, n) == decode_records(stream, k + 1),
    decreases n,
{
    if n > k + 1 {
        lemma_decode_records_fails_on(stream, k, (n - 1) as nat);
    }
}

/// Every event occupies exactly [`EVENT_SIZE`] bytes, whichever its variant.
pub proof fn lemma_encoding_len(event: Event)
    ensures
        event.encoding().len() == EVENT_SIZE,
{
    lemma_auto_spec_u64_to_from_le_bytes();
}

/// Reading the record of an event gives the event back.
pub proof fn lemma_decode_encoding(event: Event)
    ensures
        Event::decode(event.encoding()) == Some(event),
{
    lemma_auto_spec_u64_to_from_le_bytes();
    let record = event.encoding();
    match event {
        Event::Alloc { seq, after, addr, thread_id, bt, size } => {
            assert(record.subrange(1, 9) =~= spec_u64_to_le_bytes(seq));
            assert(record.subrange(9, 17) =~= spec_u64_to_le_bytes(after));
            assert(record.subrange(17, 25) =~= spec_u64_to_le_bytes(addr));
            assert(record.subrange(25, 33) =~= spec_u64_to_le_bytes(thread_id));
            assert(record.subrange(33, 41) =~= spec_u64_to_le_bytes(bt));
            assert(record.subrange(41, 49) =~= spec_u64_to_le_bytes(size));
        },
        Event::Dealloc { seq, after, addr, thread_id } => {
            assert(record.subrange(1, 9) =~= spec_u64_to_le_bytes(seq));
            assert(record.subrange(9, 17) =~= spec_u64_to_le_bytes(after));
            assert(record.subrange(17, 25) =~= spec_u64_to_le_bytes(addr));
            assert(record.subrange(25, 33) =~= spec_u64_to_le_bytes(thread_id));
        },
    }
}

/// A stream of `n` events is `n` records long.
pub proof fn lemma_encode_all_len(events: Seq<Event>)
    ensures
        encode_all(events).len() == events.len() * EVENT_SIZE,
    decreases events.len(),
{
    if events.len() > 0 {
        lemma_encode_all_len(events.drop_last());
        lemma_encoding_len(events.last());
    }
}

/// Writing one more event appends its record to the stream.
pub proof fn lemma_encode_all_push(events: Seq<Event>, event: Event)
    ensures
        encode_all(events.push(event)) == encode_all(events) + event.encoding(),
{
    assert(events.push(event).drop_last() =~= events);
}

/// The stream of two runs of events is the stream of the first followed by
/// the stream of the second.
pub proof fn lemma_encode_all_concat(first: Seq<Event>, second: Seq<Event>)
    ensures
        encode_all(first + second) == encode_all(first) + encode_all(second),
    decreases second.len(),
{
    if second.len() == 0 {
        assert(first + second =~= first);
        assert(encode_all(first) + encode_all(second) =~= encode_all(first));
    } else {
        lemma_encode_all_concat(first, second.drop_last());
        assert((first + second).drop_last() =~= first + second.drop_last());
        assert(encode_all(first + second) =~= encode_all(first) + encode_all(second));
    }
}

/// The `i`-th record of a stream of events is the record of the `i`-th event.
pub proof fn lemma_record_of_encode_all(events: Seq<Event>, i: int)
    requires
        0 <= i < events.len(),
    ensures
        record_at(encode_all(events), i) == events[i].encoding(),
    decreases events.len(),
{
    let front = events.drop_last();
    lemma_encode_all_len(events);
    lemma_encode_all_len(front);
    lemma_encoding_len(events.last());
    if i == events.len() - 1 {
        assert(record_at(encode_all(events), i) =~= events.last().encoding());
    } else {
        lemma_record_of_encode_all(front, i);
        assert(record_at(encode_all(events), i) =~= record_at(encode_all(front), i));
    }
}

/// Reading the first `k` records of a written stream yields the first `k`
/// events that were written.
proof fn lemma_decode_records_of_encoding(events: Seq<Event>, tail: Seq<u8>, k: nat)
    requires
        k <= events.len(),
    ensures
        decode_records(encode_all(events) + tail, k) == Ok::<Seq<Event>, DecodeError>(
            events.take(k as int),
        ),
    decreases k,
{
    if k == 0 {
        assert(events.take(0) =~= Seq::<Event>::empty());
    } else {
        let stream = encode_all(events) + tail;
        lemma_decode_records_of_encoding(events, tail, (k - 1) as nat);
        lemma_encode_all_len(events);
        lemma_record_of_encode_all(events, k - 1);
        assert(record_at(stream, k - 1) =~= record_at(encode_all(events), k - 1));
        lemma_decode_encoding(events[k - 1]);
        assert(events.take(k - 1).push(events[k - 1]) =~= events.take(k as int));
    }
}

/// Round trip of the codec: a stream written from any sequence of events
/// reads back as exactly that sequence, in order. Bytes of a cut-off record
/// after the last complete one end the stream without error.
pub proof fn lemma_round_trip(events: Seq<Event>, tail: Seq<u8>)
    requires
        tail.len() < EVENT_SIZE,
    ensures
        decode_stream(encode_all(events) + tail) == Ok::<Seq<Event>, DecodeError>(events),
{
    lemma_encode_all_len(events);
    lemma_decode_records_of_encoding(events, tail, events.len());
    assert(events.take(events.len() as int) =~= events);
}

/// The little-endian bytes of `value`, as `zerocopy::little_endian::U64`
/// lays them out: `U64::new` stores `u64::to_le_bytes` of the value and
/// `to_bytes` hands the stored array back.
#[verifier::external_body]
fn le_bytes(value: u64) -> (bytes: [u8; 8])
    ensures
        bytes@ == spec_u64_to_le_bytes(value),
{
    zerocopy::little_endian::U64::new(value).to_bytes()
}

/// The value that `zerocopy::little_endian::U64` reads from eight bytes:
/// `from_bytes` keeps the array and `get` is `u64::from_le_bytes` of it.
#[verifier::external_body]
fn le_value(bytes: [u8; 8]) -> (value: u64)
    ensures
        value == spec_u64_from_le_bytes(bytes@),
{
    zerocopy::little_endian::U64::from_bytes(bytes).get()
}

/// Appends the little-endian bytes of `value` to `writer`.
fn put_u64(writer: &mut Vec<u8>, value: u64)
    ensures
        final(writer)@ == old(writer)@ + spec_u64_to_le_bytes(value),
{
    let bytes = le_bytes(value);
    proof {
        lemma_auto_spec_u64_to_from_le_bytes();
    }
    let mut i: usize = 0;
    while i < 8
        invariant
            i <= 8,
            bytes@.len() == 8,
            writer@ == old(writer)@ + bytes@.subrange(0, i as int),
        decreases 8 - i,
    {
        writer.push(bytes[i]);
        assert(bytes@.subrange(0, i + 1) =~= bytes@.subrange(0, i as int).push(bytes@[i as int]));
        i += 1;
    }
    assert(bytes@.subrange(0, 8) =~= bytes@);
}

/// Appends the padding of a deallocation record to `writer`.
fn put_padding(writer: &mut Vec<u8>)
    ensures
        final(writer)@ == old(writer)@ + padding(),
{
    let mut i: usize = 0;
    while i < DEALLOC_PAD
        invariant
            i <= DEALLOC_PAD,
            writer@ == old(writer)@ + padding().subrange(0, i as int),
        decreases DEALLOC_PAD - i,
    {
        writer.push(0u8);
        assert(padding().subrange(0, i + 1) =~= padding().subrange(0, i as int).push(0u8));
        i += 1;
    }
    assert(padding().subrange(0, DEALLOC_PAD as int) =~= padding());
}

/// Reads the little-endian field at byte `at` of `bytes`.
fn get_u64(bytes: &[u8], at: usize) -> (value: u64)
    requires
        at + 8 <= bytes@.len(),
    ensures
        value == spec_u64_from_le_bytes(bytes@.subrange(at as int, at + 8)),
{
    let raw: [u8; 8] = [
        bytes[at],
        bytes[at + 1],
        bytes[at + 2],
        bytes[at + 3],
        bytes[at + 4],
        bytes[at + 5],
        bytes[at + 6],
        bytes[at + 7],
    ];
    assert(raw@ =~= bytes@.subrange(at as int, at + 8));
    le_value(raw)
}

/// Reads the record that starts at byte `at` of `bytes`.
fn decode_at(bytes: &[u8], at: usize) -> (event: Option<Event>)
    requires
        at + EVENT_SIZE <= bytes@.len(),
    ensures
        event == Event::decode(bytes@.subrange(at as int, at + EVENT_SIZE)),
{
    let ghost record = bytes@.subrange(at as int, at + EVENT_SIZE);
    assert(forall|k: int|
        0 <= k && k + 8 <= EVENT_SIZE ==> #[trigger] record.subrange(k, k + 8) =~= bytes@.subrange(
            at + k,
            at + k + 8,
        ));
    let tag = bytes[at];
    if tag == TAG_ALLOC {
        let seq = get_u64(bytes, at + 1);
        let after = get_u64(bytes, at + 9);
        let addr = get_u64(bytes, at + 17);
        let thread_id = get_u64(bytes, at + 25);
        let bt = get_u64(bytes, at + 33);
        let size = get_u64(bytes, at + 41);
        Some(Event::Alloc { seq, after, addr, thread_id, bt, size })
    } else if tag == TAG_DEALLOC {
        let seq = get_u64(bytes, at + 1);
        let after = get_u64(bytes, at + 9);
        let addr = get_u64(bytes, at + 17);
        let thread_id = get_u64(bytes, at + 25);
        Some(Event::Dealloc { seq, after, addr, thread_id })
    } else {
        None
    }
}

} // verus!
