//! Offline ingestion: from the recorded events to the rows of the
//! `allocations` table.

use crate::proto::decode_stream;
use crate::proto::Backtrace;
use crate::proto::DecodeError;
use crate::proto::Event;
use crate::table::entries;
use crate::table::IndexTable;
use vstd::multiset::Multiset;
use vstd::prelude::*;

verus! {

/// Nanoseconds in the unit that the tables keep times in.
pub const NANOS_PER_MILLI: u64 = 1_000_000;

/// One row of the `allocations` table.
#[derive(Clone, Copy, Debug, PartialEq, Eq)]
pub struct AllocationRow {
    /// Milliseconds from the start of the engine to the allocation.
    pub alloc_after: u64,
    /// Milliseconds from the start of the engine to the matching
    /// deallocation; `None` while the allocation is open.
    pub dealloc_after: Option<u64>,
    /// Fingerprint of the allocating stack.
    pub bt: u64,
    /// Requested size in bytes.
    pub size: u64,
    /// Address that was returned.
    pub addr: u64,
}

/// Whole milliseconds in `nanos` nanoseconds.
pub open spec fn to_millis(nanos: u64) -> u64 {
    nanos / NANOS_PER_MILLI
}

/// Position of the first event at or after `from` that is about `addr`, or
/// the number of events when there is none.
pub open spec fn next_touch(events: Seq<Event>, addr: u64, from: int) -> int
    decreases events.len() - from,
{
    if from < 0 || from >= events.len() {
        events.len() as int
    } else if events[from].spec_addr() == addr {
        from
    } else {
        next_touch(events, addr, from + 1)
    }
}

/// Position of the deallocation that closes the allocation at position `i`:
/// the next event about the same address, provided it is a deallocation.
/// An allocation whose address is handed out again first stays open.
pub open spec fn closed_by(events: Seq<Event>, i: int) -> Option<int> {
    let next = next_touch(events, events[i].spec_addr(), i + 1);
    if next < events.len() && events[next] is Dealloc {
        Some(next)
    } else {
        None
    }
}

/// The row of the allocation at position `i` of `events`.
pub open spec fn row_of(events: Seq<Event>, i: int) -> AllocationRow {
    AllocationRow {
        alloc_after: to_millis(events[i].spec_after()),
        dealloc_after: match closed_by(events, i) {
            Some(j) => Some(to_millis(events[j].spec_after())),
            None => None,
        },
        bt: events[i]->bt,
        size: events[i]->size,
        addr: events[i].spec_addr(),
    }
}

/// Positions of the allocations among `events`, ascending.
pub open spec fn alloc_positions(events: Seq<Event>) -> Seq<int>
    decreases events.len(),
{
    if events.len() == 0 {
        Seq::empty()
    } else if events.last() is Alloc {
        alloc_positions(events.drop_last()).push(events.len() - 1)
    } else {
        alloc_positions(events.drop_last())
    }
}

/// The `allocations` table of a run whose events, in global order, are
/// `events`: one row per allocation, in order.
pub open spec fn allocation_rows(events: Seq<Event>) -> Seq<AllocationRow> {
    Seq::new(alloc_positions(events).len(), |k: int| row_of(events, alloc_positions(events)[k]))
}

/// The allocation at position `i` has not been touched again.
pub open spec fn untouched(events: Seq<Event>, i: int) -> bool {
    next_touch(events, events[i].spec_addr(), i + 1) == events.len()
}

/// `next_touch` finds the first event about `addr` from `from` on.
pub proof fn lemma_next_touch(events: Seq<Event>, addr: u64, from: int)
    requires
        0 <= from <= events.len(),
    ensures
        from <= next_touch(events, addr, from) <= events.len(),
        next_touch(events, addr, from) < events.len() ==> events[next_touch(
            events,
            addr,
            from,
        )].spec_addr() == addr,
        forall|j: int|
            from <= j < next_touch(events, addr, from) ==> (#[trigger] events[j]).spec_addr()
                != addr,
    decreases events.len() - from,
{
    if from < events.len() && events[from].spec_addr() != addr {
        lemma_next_touch(events, addr, from + 1);
    }
}

/// How one more event moves `next_touch`.
proof fn lemma_next_touch_push(events: Seq<Event>, event: Event, addr: u64, from: int)
    requires
        0 <= from <= events.len(),
    ensures
        next_touch(events.push(event), addr, from) == if next_touch(events, addr, from)
            < events.len() {
            next_touch(events, addr, from)
        } else if event.spec_addr() == addr {
            events.len() as int
        } else {
            (events.len() + 1) as int
        },
    decreases events.len() - from,
{
    let longer = events.push(event);
    if from < events.len() {
        assert(longer[from] == events[from]);
        if events[from].spec_addr() != addr {
            lemma_next_touch_push(events, event, addr, from + 1);
        }
    } else {
        assert(longer[from] == event);
        if event.spec_addr() != addr {
            assert(next_touch(longer, addr, from + 1) == longer.len());
        }
    }
}

/// The positions that `alloc_positions` lists are those of allocations, in
/// ascending order.
pub proof fn lemma_alloc_positions(events: Seq<Event>)
    ensures
        alloc_positions(events).len() <= events.len(),
        forall|k: int|
            0 <= k < alloc_positions(events).len() ==> 0 <= (#[trigger] alloc_positions(
                events,
            )[k]) < events.len() && events[alloc_positions(events)[k]] is Alloc,
        forall|k: int, l: int|
            0 <= k < l < alloc_positions(events).len() ==> (#[trigger] alloc_positions(events)[k])
                < (#[trigger] alloc_positions(events)[l]),
    decreases events.len(),
{
    if events.len() > 0 {
        lemma_alloc_positions(events.drop_last());
    }
}

/// `open` binds exactly the addresses whose latest allocation has not been
/// touched again, each to the row of that allocation.
pub open spec fn tracks_open_rows(open: Map<u64, usize>, events: Seq<Event>) -> bool {
    let at = alloc_positions(events);
    &&& forall|addr: u64| #[trigger]
        open.contains_key(addr) ==> {
            &&& open[addr] < at.len()
            &&& events[at[open[addr] as int]].spec_addr() == addr
            &&& untouched(events, at[open[addr] as int])
        }
    &&& forall|k: int|
        0 <= k < at.len() && untouched(events, #[trigger] at[k]) ==> {
            &&& open.contains_key(events[at[k]].spec_addr())
            &&& open[events[at[k]].spec_addr()] == k
        }
}

/// The row `row` with its deallocation time set to `nanos` nanoseconds.
pub open spec fn closed_row(row: AllocationRow, nanos: u64) -> AllocationRow {
    AllocationRow {
        alloc_after: row.alloc_after,
        dealloc_after: Some(to_millis(nanos)),
        bt: row.bt,
        size: row.size,
        addr: row.addr,
    }
}

/// How one more event changes the row of an earlier allocation: the row is
/// closed when the allocation was untouched and the event frees its address,
/// and stays as it was otherwise.
proof fn lemma_row_after_push(before: Seq<Event>, event: Event, i: int)
    requires
        0 <= i < before.len(),
    ensures
        row_of(before.push(event), i) == if untouched(before, i) && event is Dealloc
            && event.spec_addr() == before[i].spec_addr() {
            closed_row(row_of(before, i), event.spec_after())
        } else {
            row_of(before, i)
        },
        untouched(before.push(event), i) == (untouched(before, i) && event.spec_addr()
            != before[i].spec_addr()),
        untouched(before, i) ==> row_of(before, i).dealloc_after is None,
{
    let after = before.push(event);
    let addr = before[i].spec_addr();
    lemma_next_touch_push(before, event, addr, i + 1);
    lemma_next_touch(before, addr, i + 1);
    let next = next_touch(before, addr, i + 1);
    assert(after[i] == before[i]);
    if next < before.len() {
        assert(after[next] == before[next]);
    } else {
        assert(after[before.len() as int] == event);
    }
}

/// An allocation adds an open row and becomes the open row of its address.
proof fn lemma_ingest_alloc(open: Map<u64, usize>, before: Seq<Event>, event: Event)
    requires
        tracks_open_rows(open, before),
        event is Alloc,
        before.len() < usize::MAX,
    ensures
        allocation_rows(before.push(event)) == allocation_rows(before).push(
            AllocationRow {
                alloc_after: to_millis(event.spec_after()),
                dealloc_after: None,
                bt: event->bt,
                size: event->size,
                addr: event.spec_addr(),
            },
        ),
        tracks_open_rows(
            open.insert(event.spec_addr(), allocation_rows(before).len() as usize),
            before.push(event),
        ),
{
    let after = before.push(event);
    let at = alloc_positions(before);
    let n = before.len() as int;
    lemma_alloc_positions(before);
    assert(after.drop_last() =~= before);
    assert(alloc_positions(after) =~= at.push(n));
    assert(next_touch(after, event.spec_addr(), n + 1) == after.len());
    assert forall|k: int| 0 <= k < at.len() implies row_of(after, #[trigger] at[k]) == row_of(
        before,
        at[k],
    ) && untouched(after, at[k]) == (untouched(before, at[k]) && before[at[k]].spec_addr()
        != event.spec_addr()) && after[at[k]] == before[at[k]] by {
        lemma_row_after_push(before, event, at[k]);
    }
    assert(allocation_rows(after) =~= allocation_rows(before).push(row_of(after, n)));
}

/// A deallocation closes the open row of its address, if there is one, and
/// leaves every other row as it was.
proof fn lemma_ingest_dealloc(open: Map<u64, usize>, before: Seq<Event>, event: Event)
    requires
        tracks_open_rows(open, before),
        event is Dealloc,
    ensures
        open.contains_key(event.spec_addr()) ==> open[event.spec_addr()] < allocation_rows(
            before,
        ).len(),
        allocation_rows(before.push(event)) == if open.contains_key(event.spec_addr()) {
            allocation_rows(before).update(
                open[event.spec_addr()] as int,
                closed_row(
                    allocation_rows(before)[open[event.spec_addr()] as int],
                    event.spec_after(),
                ),
            )
        } else {
            allocation_rows(before)
        },
        tracks_open_rows(open.remove(event.spec_addr()), before.push(event)),
{
    let after = before.push(event);
    let at = alloc_positions(before);
    let addr = event.spec_addr();
    lemma_alloc_positions(before);
    assert(after.drop_last() =~= before);
    assert(alloc_positions(after) =~= at);
    assert forall|k: int| 0 <= k < at.len() implies row_of(after, #[trigger] at[k]) == (if open.contains_key(
        addr,
    ) && open[addr] == k {
        closed_row(row_of(before, at[k]), event.spec_after())
    } else {
        row_of(before, at[k])
    }) && untouched(after, at[k]) == (untouched(before, at[k]) && before[at[k]].spec_addr()
        != addr) && after[at[k]] == before[at[k]] by {
        lemma_row_after_push(before, event, at[k]);
    }
    if open.contains_key(addr) {
        assert(allocation_rows(after) =~= allocation_rows(before).update(
            open[addr] as int,
            closed_row(allocation_rows(before)[open[addr] as int], event.spec_after()),
        ));
    } else {
        assert(allocation_rows(after) =~= allocation_rows(before));
    }
}

/// Builds the `allocations` table from the events of a run in global order.
///
/// An allocation inserts a row and becomes the open row of its address. A
/// deallocation closes the open row of its address; where there is none, the
/// allocation was made before recording started, and the event is dropped.
pub fn ingest(events: &Vec<Event>) -> (rows: Vec<AllocationRow>)
    ensures
        rows@ == allocation_rows(events@),
{
    let mut rows: Vec<AllocationRow> = Vec::new();
    let mut open = IndexTable::new();
    let mut n: usize = 0;
    assert(events@.take(0) =~= Seq::<Event>::empty());
    assert(rows@ =~= allocation_rows(events@.take(0)));
    while n < events.len()
        invariant
            n <= events.len(),
            rows@ == allocation_rows(events@.take(n as int)),
            tracks_open_rows(entries(open), events@.take(n as int)),
        decreases events.len() - n,
    {
        let event = events[n];
        assert(events@.take(n + 1) =~= events@.take(n as int).push(event));
        match event {
            Event::Alloc { after, addr, bt, size, .. } => {
                proof {
                    lemma_ingest_alloc(entries(open), events@.take(n as int), event);
                }
                let row = AllocationRow {
                    alloc_after: after / NANOS_PER_MILLI,
                    dealloc_after: None,
                    bt,
                    size,
                    addr,
                };
                open.insert(addr, rows.len());
                rows.push(row);
            },
            Event::Dealloc { after, addr, .. } => {
                proof {
                    lemma_ingest_dealloc(entries(open), events@.take(n as int), event);
                }
                match open.remove(addr) {
                    Some(k) => {
                        let row = rows[k];
                        rows.set(
                            k,
                            AllocationRow {
                                alloc_after: row.alloc_after,
                                dealloc_after: Some(after / NANOS_PER_MILLI),
                                bt: row.bt,
                                size: row.size,
                                addr: row.addr,
                            },
                        );
                    },
                    None => {},
                }
            },
        }
        n += 1;
    }
    assert(events@.take(n as int) =~= events@);
    rows
}

/// A deallocation closes the allocation of its address that precedes it,
/// provided no event about that address lies between the two: neither a new
/// allocation, which would hand the address to another row, nor an earlier
/// deallocation, which would already have closed the row.
pub proof fn lemma_dealloc_closes_alloc(events: Seq<Event>, i: int, j: int)
    requires
        0 <= i < j < events.len(),
        events[i] is Alloc,
        events[j] is Dealloc,
        events[j].spec_addr() == events[i].spec_addr(),
        forall|m: int| i < m < j ==> (#[trigger] events[m]).spec_addr() != events[i].spec_addr(),
    ensures
        closed_by(events, i) == Some(j),
        row_of(events, i).dealloc_after == Some(to_millis(events[j].spec_after())),
{
    lemma_next_touch(events, events[i].spec_addr(), i + 1);
}

/// An allocation whose address is allocated again before it is freed stays
/// open: no later deallocation is counted for it.
pub proof fn lemma_reused_address_stays_open(events: Seq<Event>, i: int, j: int)
    requires
        0 <= i < j < events.len(),
        events[i] is Alloc,
        events[j] is Alloc,
        events[j].spec_addr() == events[i].spec_addr(),
        forall|m: int| i < m < j ==> (#[trigger] events[m]).spec_addr() != events[i].spec_addr(),
    ensures
        closed_by(events, i) is None,
        row_of(events, i).dealloc_after is None,
{
    lemma_next_touch(events, events[i].spec_addr(), i + 1);
}

/// A deallocation closes at most one allocation.
pub proof fn lemma_closes_at_most_one(events: Seq<Event>, i: int, k: int)
    requires
        0 <= i < events.len(),
        0 <= k < events.len(),
        closed_by(events, i) is Some,
        closed_by(events, i) == closed_by(events, k),
    ensures
        i == k,
{
    lemma_next_touch(events, events[i].spec_addr(), i + 1);
    lemma_next_touch(events, events[k].spec_addr(), k + 1);
}

/// A deallocation with no allocation of its address before it adds no row
/// and changes none.
pub proof fn lemma_orphan_dealloc(events: Seq<Event>, event: Event)
    requires
        event is Dealloc,
        forall|m: int|
            0 <= m < events.len() ==> (#[trigger] events[m]).spec_addr() != event.spec_addr(),
    ensures
        allocation_rows(events.push(event)) == allocation_rows(events),
{
    let after = events.push(event);
    lemma_alloc_positions(events);
    assert(after.drop_last() =~= events);
    assert forall|k: int| 0 <= k < alloc_positions(events).len() implies row_of(
        after,
        #[trigger] alloc_positions(events)[k],
    ) == row_of(events, alloc_positions(events)[k]) by {
        lemma_row_after_push(events, event, alloc_positions(events)[k]);
    }
    assert(allocation_rows(after) =~= allocation_rows(events));
}

/// The events of `stream` are in ascending order of sequence number.
pub open spec fn sorted_by_seq(stream: Seq<Event>) -> bool {
    forall|i: int, j: int|
        0 <= i < j < stream.len() ==> (#[trigger] stream[i]).spec_seq() <= (
        #[trigger] stream[j]).spec_seq()
}

/// Every stream of `streams` is in ascending order of sequence number.
pub open spec fn all_sorted_by_seq(streams: Seq<Seq<Event>>) -> bool {
    forall|s: int| 0 <= s < streams.len() ==> sorted_by_seq(#[trigger] streams[s])
}

/// The sequence numbers of `stream` ascend strictly.
pub open spec fn ascending(stream: Seq<Event>) -> bool {
    forall|i: int, j: int|
        0 <= i < j < stream.len() ==> (#[trigger] stream[i]).spec_seq() < (
        #[trigger] stream[j]).spec_seq()
}

/// The streams are the event files of one run: within each the sequence
/// numbers ascend strictly, and no sequence number occurs in two of them.
pub open spec fn ordered_run(streams: Seq<Seq<Event>>) -> bool {
    &&& forall|s: int| 0 <= s < streams.len() ==> ascending(#[trigger] streams[s])
    &&& forall|s: int, u: int, i: int, j: int|
        0 <= s < streams.len() && 0 <= u < streams.len() && s != u && 0 <= i < streams[s].len()
            && 0 <= j < streams[u].len() ==> (#[trigger] streams[s][i]).spec_seq() != (
        #[trigger] streams[u][j]).spec_seq()
}

/// The events of all `streams` together, each as often as it occurs.
pub open spec fn all_events(streams: Seq<Seq<Event>>) -> Multiset<Event>
    decreases streams.len(),
{
    if streams.len() == 0 {
        Multiset::empty()
    } else {
        all_events(streams.drop_last()).add(streams.last().to_multiset())
    }
}

/// `merged` is the global order of the run `streams`: it holds every event of
/// the run once, in strictly ascending order of sequence number. A run has
/// one such order.
pub open spec fn is_global_order(merged: Seq<Event>, streams: Seq<Seq<Event>>) -> bool {
    ascending(merged) && merged.to_multiset() == all_events(streams)
}

/// The streams that `files` hold.
pub open spec fn stream_views(files: Seq<Vec<Event>>) -> Seq<Seq<Event>> {
    Seq::new(files.len(), |s: int| files[s]@)
}

/// The sequence in which `itertools::kmerge_by` yields the events of
/// `streams` when it is told that an event comes first if its sequence
/// number is the smaller one.
pub uninterp spec fn merged_by_seq(streams: Seq<Seq<Event>>) -> Seq<Event>;

/// `itertools::kmerge_by` over the streams, with [`Event::precedes`] as the
/// ordering function, collected into a vector.
///
/// The adaptor yields every event of every stream exactly once, and its
/// documentation promises a sorted result when every stream is sorted.
#[verifier::external_body]
fn kmerge_by_seq(streams: Vec<Vec<Event>>) -> (merged: Vec<Event>)
    ensures
        merged@ == merged_by_seq(stream_views(streams@)),
        merged@.to_multiset() == all_events(stream_views(streams@)),
        all_sorted_by_seq(stream_views(streams@)) ==> sorted_by_seq(merged@),
{
    itertools::kmerge_by(streams, |a: &Event, b: &Event| a.precedes(b)).collect()
}

/// Merges the event streams of a run into the global order.
///
/// The result holds every event of every stream exactly once. When each
/// stream is in ascending order of sequence number, so is the result; and
/// when the streams are the event files of one run, the result is the global
/// order of the run.
pub fn merge_streams(streams: Vec<Vec<Event>>) -> (merged: Vec<Event>)
    ensures
        merged@ == merged_by_seq(stream_views(streams@)),
        merged@.to_multiset() == all_events(stream_views(streams@)),
        all_sorted_by_seq(stream_views(streams@)) ==> sorted_by_seq(merged@),
        ordered_run(stream_views(streams@)) ==> is_global_order(
            merged@,
            stream_views(streams@),
        ),
{
    let ghost views = stream_views(streams@);
    let merged = kmerge_by_seq(streams);
    proof {
        if ordered_run(views) {
            assert forall|s: int| 0 <= s < views.len() implies sorted_by_seq(
                #[trigger] views[s],
            ) by {
                assert(ascending(views[s]));
            }
            lemma_merged_run_ascends(views, merged@);
        }
    }
    merged
}

/// An event that counts among the events of `streams` lies in one of them.
proof fn lemma_all_events_member(streams: Seq<Seq<Event>>, event: Event)
    requires
        all_events(streams).count(event) > 0,
    ensures
        exists|s: int, i: int|
            0 <= s < streams.len() && 0 <= i < streams[s].len() && #[trigger] streams[s][i]
                == event,
    decreases streams.len(),
{
    broadcast use vstd::multiset::group_multiset_axioms;

    if streams.len() > 0 {
        let front = streams.drop_last();
        let last = streams.last();
        if last.to_multiset().count(event) > 0 {
            vstd::seq_lib::to_multiset_contains(last, event);
            let i = choose|i: int| 0 <= i < last.len() && last[i] == event;
            assert(streams[streams.len() - 1][i] == event);
        } else {
            lemma_all_events_member(front, event);
            let (s, i) = choose|s: int, i: int|
                0 <= s < front.len() && 0 <= i < front[s].len() && #[trigger] front[s][i] == event;
            assert(streams[s][i] == event);
        }
    }
}

/// A stream whose sequence numbers ascend strictly holds no event twice.
proof fn lemma_ascending_no_duplicates(stream: Seq<Event>)
    requires
        ascending(stream),
    ensures
        stream.no_duplicates(),
{
    assert forall|i: int, j: int|
        0 <= i < stream.len() && 0 <= j < stream.len() && i != j implies stream[i]
        != stream[j] by {
        if i < j {
            assert(stream[i].spec_seq() < stream[j].spec_seq());
        } else {
            assert(stream[j].spec_seq() < stream[i].spec_seq());
        }
    }
}

/// Among the events of a run, none occurs twice.
proof fn lemma_ordered_run_counts(streams: Seq<Seq<Event>>, event: Event)
    requires
        ordered_run(streams),
    ensures
        all_events(streams).count(event) <= 1,
    decreases streams.len(),
{
    broadcast use vstd::multiset::group_multiset_axioms;

    if streams.len() > 0 {
        let front = streams.drop_last();
        let last = streams.last();
        assert forall|s: int| 0 <= s < front.len() implies ascending(#[trigger] front[s]) by {
            assert(front[s] == streams[s]);
        }
        assert forall|s: int, u: int, i: int, j: int|
            0 <= s < front.len() && 0 <= u < front.len() && s != u && 0 <= i < front[s].len() && 0
                <= j < front[u].len() implies (#[trigger] front[s][i]).spec_seq() != (
        #[trigger] front[u][j]).spec_seq() by {
            assert(front[s][i] == streams[s][i]);
            assert(front[u][j] == streams[u][j]);
        }
        lemma_ordered_run_counts(front, event);
        assert(ascending(streams[streams.len() - 1]));
        lemma_ascending_no_duplicates(last);
        last.lemma_multiset_has_no_duplicates();
        if all_events(front).count(event) > 0 && last.to_multiset().count(event) > 0 {
            lemma_all_events_member(front, event);
            let (s, i) = choose|s: int, i: int|
                0 <= s < front.len() && 0 <= i < front[s].len() && #[trigger] front[s][i] == event;
            vstd::seq_lib::to_multiset_contains(last, event);
            let j = choose|j: int| 0 <= j < last.len() && last[j] == event;
            assert(streams[s][i].spec_seq() == streams[streams.len() - 1][j].spec_seq());
        }
    }
}

/// Merging the event files of one run yields a total order: a sequence that
/// holds every event of the run once and is sorted by sequence number
/// ascends strictly.
pub proof fn lemma_merged_run_ascends(streams: Seq<Seq<Event>>, merged: Seq<Event>)
    requires
        ordered_run(streams),
        merged.to_multiset() == all_events(streams),
        sorted_by_seq(merged),
    ensures
        ascending(merged),
{
    assert forall|event: Event| merged.to_multiset().contains(event) implies merged.to_multiset().count(
        event,
    ) == 1 by {
        lemma_ordered_run_counts(streams, event);
    }
    merged.lemma_multiset_has_no_duplicates_conv();
    assert forall|i: int, j: int| 0 <= i < j < merged.len() implies (
    #[trigger] merged[i]).spec_seq() < (#[trigger] merged[j]).spec_seq() by {
        if merged[i].spec_seq() == merged[j].spec_seq() {
            assert(merged[i] != merged[j]);
            assert(merged.contains(merged[i]));
            assert(merged.contains(merged[j]));
            vstd::seq_lib::to_multiset_contains(merged, merged[i]);
            vstd::seq_lib::to_multiset_contains(merged, merged[j]);
            lemma_all_events_member(streams, merged[i]);
            lemma_all_events_member(streams, merged[j]);
            let (s, a) = choose|s: int, a: int|
                0 <= s < streams.len() && 0 <= a < streams[s].len() && #[trigger] streams[s][a]
                    == merged[i];
            let (u, b) = choose|u: int, b: int|
                0 <= u < streams.len() && 0 <= b < streams[u].len() && #[trigger] streams[u][b]
                    == merged[j];
            if s == u {
                assert(ascending(streams[s]));
                if a < b {
                    assert(streams[s][a].spec_seq() < streams[s][b].spec_seq());
                } else if b < a {
                    assert(streams[s][b].spec_seq() < streams[s][a].spec_seq());
                }
            } else {
                assert(streams[s][a].spec_seq() != streams[u][b].spec_seq());
            }
        }
    }
}

/// The merged order of a run is determined by its events alone: two
/// sequences that hold the same events and ascend strictly by sequence number
/// are equal, whichever way the event files were listed or merged.
pub proof fn lemma_merge_is_determined(first: Seq<Event>, second: Seq<Event>)
    requires
        ascending(first),
        ascending(second),
        first.to_multiset() == second.to_multiset(),
    ensures
        first == second,
    decreases first.len(),
{
    broadcast use vstd::multiset::group_multiset_axioms;
    broadcast use vstd::seq_lib::group_to_multiset_ensures;

    vstd::seq_lib::to_multiset_len(first);
    vstd::seq_lib::to_multiset_len(second);
    assert(first.len() == second.len());
    if first.len() > 0 {
        assert(first.contains(first[0]));
        assert(second.contains(second[0]));
        assert(second.to_multiset().count(first[0]) > 0);
        assert(first.to_multiset().count(second[0]) > 0);
        let i = choose|i: int| 0 <= i < second.len() && second[i] == first[0];
        let j = choose|j: int| 0 <= j < first.len() && first[j] == second[0];
        if j > 0 {
            assert(first[0].spec_seq() < first[j].spec_seq());
            if i > 0 {
                assert(second[0].spec_seq() < second[i].spec_seq());
            }
        }
        assert(first[0] == second[0]);
        vstd::seq_lib::to_multiset_remove(first, 0);
        vstd::seq_lib::to_multiset_remove(second, 0);
        assert(first.remove(0) =~= first.drop_first());
        assert(second.remove(0) =~= second.drop_first());
        assert forall|a: int, b: int| 0 <= a < b < first.drop_first().len() implies (
        #[trigger] first.drop_first()[a]).spec_seq() < (
        #[trigger] first.drop_first()[b]).spec_seq() by {
            assert(first[a + 1].spec_seq() < first[b + 1].spec_seq());
        }
        assert forall|a: int, b: int| 0 <= a < b < second.drop_first().len() implies (
        #[trigger] second.drop_first()[a]).spec_seq() < (
        #[trigger] second.drop_first()[b]).spec_seq() by {
            assert(second[a + 1].spec_seq() < second[b + 1].spec_seq());
        }
        lemma_merge_is_determined(first.drop_first(), second.drop_first());
        assert(first =~= seq![first[0]] + first.drop_first());
        assert(second =~= seq![second[0]] + second.drop_first());
    }
}

/// Builds the `allocations` table from the event streams of a run: the
/// streams are merged by sequence number and the merged events ingested.
///
/// When the streams are the event files of one run, the merged events are
/// the global order of the run.
pub fn read_events(streams: Vec<Vec<Event>>) -> (rows: Vec<AllocationRow>)
    ensures
        rows@ == allocation_rows(merged_by_seq(stream_views(streams@))),
        ordered_run(stream_views(streams@)) ==> is_global_order(
            merged_by_seq(stream_views(streams@)),
            stream_views(streams@),
        ),
{
    let merged = merge_streams(streams);
    ingest(&merged)
}

/// One row of the `backtraces` table: one frame of one resolved backtrace.
#[derive(Clone, Debug, PartialEq, Eq)]
pub struct BacktraceRow {
    /// Fingerprint of the backtrace.
    pub id: u64,
    /// Position of the frame in the backtrace, innermost first.
    pub frame_no: usize,
    pub file: Option<String>,
    pub line: Option<u32>,
    pub symbol: Option<String>,
}

/// The tables of one run.
#[derive(Clone, Debug, PartialEq, Eq)]
pub struct Profile {
    pub backtraces: Vec<BacktraceRow>,
    pub allocations: Vec<AllocationRow>,
}

/// A malformed record in one of the event files of a run.
#[derive(Clone, Copy, Debug, PartialEq, Eq)]
pub struct ParseError {
    /// Position of the event file among those given.
    pub file: usize,
    /// The record that could not be read.
    pub error: DecodeError,
}

/// The row of frame `j` of `record`. An unresolved frame gives a row without
/// file, line and symbol.
pub open spec fn frame_row(record: Backtrace, j: int) -> BacktraceRow {
    match record.frames@[j] {
        Some(frame) => BacktraceRow {
            id: record.id,
            frame_no: j as usize,
            file: frame.file,
            line: frame.lineno,
            symbol: frame.sym_name,
        },
        None => BacktraceRow {
            id: record.id,
            frame_no: j as usize,
            file: None,
            line: None,
            symbol: None,
        },
    }
}

/// The rows of the first `n` frames of `record`.
pub open spec fn record_rows(record: Backtrace, n: nat) -> Seq<BacktraceRow> {
    Seq::new(n, |j: int| frame_row(record, j))
}

/// No record after position `i` has the fingerprint of the record at `i`.
pub open spec fn last_with_id(records: Seq<Backtrace>, i: int) -> bool {
    forall|j: int| i < j < records.len() ==> (#[trigger] records[j]).id != records[i].id
}

/// The rows of the first `n` records. Where several records share a
/// fingerprint, the last one stands for it and the earlier ones give no rows.
pub open spec fn backtrace_rows_upto(records: Seq<Backtrace>, n: nat) -> Seq<BacktraceRow>
    decreases n,
{
    if n == 0 {
        Seq::empty()
    } else if last_with_id(records, n - 1) {
        backtrace_rows_upto(records, (n - 1) as nat) + record_rows(
            records[n - 1],
            records[n - 1].frames@.len(),
        )
    } else {
        backtrace_rows_upto(records, (n - 1) as nat)
    }
}

/// The `backtraces` table of a run whose backtrace records are `records`.
pub open spec fn backtrace_rows(records: Seq<Backtrace>) -> Seq<BacktraceRow> {
    backtrace_rows_upto(records, records.len())
}

/// `latest` binds every fingerprint among the first `n` records to the
/// position of the last of them that has it.
pub open spec fn tracks_latest(latest: Map<u64, usize>, records: Seq<Backtrace>, n: int) -> bool {
    &&& forall|id: u64| #[trigger]
        latest.contains_key(id) ==> {
            &&& latest[id] < n
            &&& records[latest[id] as int].id == id
            &&& forall|j: int| latest[id] < j < n ==> (#[trigger] records[j]).id != id
        }
    &&& forall|j: int| 0 <= j < n ==> latest.contains_key((#[trigger] records[j]).id)
}

/// Copies an optional text.
fn clone_text(text: &Option<String>) -> (copy: Option<String>)
    ensures
        copy == *text,
{
    match text {
        Some(s) => Some(s.clone()),
        None => None,
    }
}

/// Builds the row of frame `j` of `record`.
fn frame_row_of(record: &Backtrace, j: usize) -> (row: BacktraceRow)
    requires
        j < record.frames@.len(),
    ensures
        row == frame_row(*record, j as int),
{
    match &record.frames[j] {
        Some(frame) => BacktraceRow {
            id: record.id,
            frame_no: j,
            file: clone_text(&frame.file),
            line: frame.lineno,
            symbol: clone_text(&frame.sym_name),
        },
        None => BacktraceRow { id: record.id, frame_no: j, file: None, line: None, symbol: None },
    }
}

/// Builds the `backtraces` table from the records of the backtrace files:
/// one row per fingerprint and frame.
///
/// A fingerprint that several records carry is taken from the last of them.
/// The rows of a record are in frame order, and the records that give rows
/// keep the order in which they were given.
pub fn read_backtraces(records: &Vec<Backtrace>) -> (rows: Vec<BacktraceRow>)
    ensures
        rows@ == backtrace_rows(records@),
{
    let mut latest = IndexTable::new();
    let mut i: usize = 0;
    while i < records.len()
        invariant
            i <= records.len(),
            tracks_latest(entries(latest), records@, i as int),
        decreases records.len() - i,
    {
        latest.insert(records[i].id, i);
        i += 1;
    }
    let mut rows: Vec<BacktraceRow> = Vec::new();
    let mut i: usize = 0;
    while i < records.len()
        invariant
            i <= records.len(),
            tracks_latest(entries(latest), records@, records.len() as int),
            rows@ == backtrace_rows_upto(records@, i as nat),
        decreases records.len() - i,
    {
        let record = &records[i];
        let stands = match latest.get(record.id) {
            Some(k) => k == i,
            None => false,
        };
        assert(stands == last_with_id(records@, i as int));
        if stands {
            let ghost before = rows@;
            let mut j: usize = 0;
            while j < record.frames.len()
                invariant
                    j <= record.frames@.len(),
                    rows@ == before + record_rows(*record, j as nat),
                decreases record.frames@.len() - j,
            {
                let row = frame_row_of(record, j);
                rows.push(row);
                assert(record_rows(*record, (j + 1) as nat) =~= record_rows(*record, j as nat).push(
                    row,
                ));
                j += 1;
            }
        }
        i += 1;
    }
    rows
}

/// The first `n` event files all read without error.
pub open spec fn all_decode(files: Seq<Vec<u8>>, n: int) -> bool {
    forall|f: int| 0 <= f < n ==> decode_stream((#[trigger] files[f])@) is Ok
}

/// The event streams that the first `n` event files hold.
pub open spec fn decoded_streams(files: Seq<Vec<u8>>, n: nat) -> Seq<Seq<Event>> {
    Seq::new(n, |f: int| decode_stream(files[f]@)->Ok_0)
}

/// Turns the files of a profile into its two tables.
///
/// `event_files` holds the bytes of each event file and `backtraces` the
/// records of all backtrace files. The events are merged by sequence number,
/// into the global order of the run when the files are those of one run. A
/// malformed event record fails the whole run with the first file that holds
/// one, and no table is returned.
pub fn parse_profile(event_files: &Vec<Vec<u8>>, backtraces: &Vec<Backtrace>) -> (profile: Result<
    Profile,
    ParseError,
>)
    ensures
        match profile {
            Ok(tables) => {
                &&& all_decode(event_files@, event_files@.len() as int)
                &&& tables.backtraces@ == backtrace_rows(backtraces@)
                &&& tables.allocations@ == allocation_rows(
                    merged_by_seq(decoded_streams(event_files@, event_files@.len())),
                )
                &&& ordered_run(decoded_streams(event_files@, event_files@.len()))
                    ==> is_global_order(
                    merged_by_seq(decoded_streams(event_files@, event_files@.len())),
                    decoded_streams(event_files@, event_files@.len()),
                )
            },
            Err(e) => {
                &&& e.file < event_files@.len()
                &&& all_decode(event_files@, e.file as int)
                &&& decode_stream(event_files@[e.file as int]@) == Err::<Seq<Event>, DecodeError>(
                    e.error,
                )
            },
        },
{
    let backtrace_table = read_backtraces(backtraces);
    let mut streams: Vec<Vec<Event>> = Vec::with_capacity(event_files.len());
    let mut f: usize = 0;
    while f < event_files.len()
        invariant
            f <= event_files.len(),
            all_decode(event_files@, f as int),
            streams@.len() == f,
            stream_views(streams@) == decoded_streams(event_files@, f as nat),
            backtrace_table@ == backtrace_rows(backtraces@),
        decreases event_files.len() - f,
    {
        let ghost earlier = streams@;
        match Event::deserialize_stream(event_files[f].as_slice()) {
            Ok(stream) => {
                streams.push(stream);
                assert forall|s: int| 0 <= s < f + 1 implies #[trigger] stream_views(streams@)[s]
                    == decoded_streams(event_files@, (f + 1) as nat)[s] by {
                    if s < f {
                        assert(stream_views(earlier)[s] == decoded_streams(
                            event_files@,
                            f as nat,
                        )[s]);
                    }
                }
                assert(stream_views(streams@) =~= decoded_streams(event_files@, (f + 1) as nat));
            },
            Err(error) => {
                return Err(ParseError { file: f, error });
            },
        }
        f += 1;
    }
    let allocations = read_events(streams);
    Ok(Profile { backtraces: backtrace_table, allocations })
}

} // verus!
