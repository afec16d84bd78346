//! A scan in steps, for a host that reads the words itself.
//!
//! The scan asks for one word at a time and is told its value. What is still
//! to be scanned is kept as a stack of ranges: the range that the scan began
//! with, and above it the storage of each record that was marked on the way
//! and is not scanned to its end yet.

use vstd::prelude::*;
use crate::allocations::{GCAllocation, lemma_records_never_overlap, registry_wf, same_records};
use crate::arch::{
    align_up, get_pointer_size, is_word_aligned, lemma_rounding, lemma_scanned_bounds,
    lemma_scanned_next, lemma_scanned_short, lemma_scanned_split, lemma_scanned_wider, round_up,
    scanned, word_size,
};
use crate::memory::{AddressRange, word_at};
use crate::reach::{
    edge, followed, lemma_path_fewer_marks, lemma_reaches_induct, lemma_reaches_step,
    lemma_reaches_target, lemma_reaches_wider, lemma_refers_same_records, lemma_scan_begin,
    lemma_scan_follow, lemma_scan_nothing, lemma_scan_same_refs, lemma_unmarked_strict,
    lemma_wf_same_records, marked_from, marks_kept, range_refers, reaches, unmarked,
    unmarked_path, value_refers, word_refers,
};
use crate::regions::MemoryRegion;
use crate::trace::marked_from_region;

verus! {

/// A range that is still to be scanned.
#[derive(Clone, Copy, Debug)]
pub struct Span {
    /// The address at which the scan of the range goes on.
    pub start: usize,
    /// The address one past the last of the range.
    pub end: usize,
    /// Whether the range is scanned as a root.
    pub first: bool,
}

/// A scan in progress: the ranges that are still to be scanned. The scan goes
/// on in the last of them.
pub struct Scan {
    /// The ranges still to be scanned, the one begun last at the end.
    pub pending: Vec<Span>,
}

/// The registry once every range that is pending has been scanned, the last
/// one first.
pub open spec fn finish(
    records: Seq<GCAllocation>,
    memory: Map<usize, usize>,
    metadata: AddressRange,
    pending: Seq<Span>,
) -> Seq<GCAllocation>
    decreases pending.len(),
{
    if pending.len() == 0 {
        records
    } else {
        let top = pending.last();
        finish(
            marked_from(records, memory, metadata, top.start, top.end, top.first),
            memory,
            metadata,
            pending.drop_last(),
        )
    }
}

/// Whether a range holds a whole word-aligned word.
pub open spec fn has_word(span: Span) -> bool {
    round_up(span.start) + word_size() <= span.end
}

/// What is pending once the scan has moved to the next word: the ranges at
/// the end that hold no whole word are dropped, and the start of the range
/// that is then the last is rounded up to the word size.
pub open spec fn settled(pending: Seq<Span>) -> Seq<Span>
    decreases pending.len(),
{
    if pending.len() == 0 {
        pending
    } else if has_word(pending.last()) {
        pending.drop_last().push(
            Span { start: round_up(pending.last().start) as usize, ..pending.last() },
        )
    } else {
        settled(pending.drop_last())
    }
}

/// The address of the word that the scan waits for: the start of the last
/// range, where a whole word lies there.
pub open spec fn awaited(pending: Seq<Span>) -> Option<usize> {
    if pending.len() > 0 && is_word_aligned(pending.last().start) && pending.last().start
        + word_size() <= pending.last().end {
        Some(pending.last().start)
    } else {
        None
    }
}

/// The record that a scan which finds `value` in the word at `cur` reads it
/// as a reference to, if there is one.
pub open spec fn referent_of(
    records: Seq<GCAllocation>,
    metadata: AddressRange,
    first: bool,
    cur: usize,
    value: Option<usize>,
) -> Option<int> {
    if exists|j: int| value_refers(records, metadata, first, cur, value, j) {
        Some(choose|j: int| value_refers(records, metadata, first, cur, value, j))
    } else {
        None
    }
}

/// The registry and the pending ranges after the scan was told that the word
/// it waited for holds `value`.
///
/// The scan moves past the word. Where the word refers to a record that is
/// not marked yet, the record is marked and its storage becomes the range
/// that is scanned next. A scan that waits for no word is left as it is.
pub open spec fn visited(
    records: Seq<GCAllocation>,
    pending: Seq<Span>,
    metadata: AddressRange,
    value: Option<usize>,
) -> (Seq<GCAllocation>, Seq<Span>) {
    match awaited(pending) {
        None => (records, pending),
        Some(cur) => {
            let top = pending.last();
            let rest = pending.drop_last().push(
                Span { start: (cur + word_size()) as usize, ..top },
            );
            match referent_of(records, metadata, top.first, cur, value) {
                Some(t) => if records[t].marked {
                    (records, rest)
                } else {
                    (
                        records.update(t, GCAllocation { marked: true, ..records[t] }),
                        rest.push(
                            Span { start: records[t].start, end: records[t].end(), first: false },
                        ),
                    )
                },
                None => (records, rest),
            }
        },
    }
}

/// The ranges to scan for a region as a root: none for a region that is not
/// writable, the region from the stack pointer on for the stack, and all of
/// any other region.
pub open spec fn region_spans(region: MemoryRegion, stack_pointer: usize) -> Seq<Span> {
    if region.writable {
        seq![Span { start: region.scan_start(stack_pointer), end: region.end, first: true }]
    } else {
        Seq::empty()
    }
}

impl Scan {
    /// A scan of `[start, end)` that has not begun, as a root scan if `first`
    /// is set.
    pub fn new(start: usize, end: usize, first: bool) -> (scan: Scan)
        ensures
            scan.pending@ == seq![Span { start, end, first }],
    {
        let mut pending: Vec<Span> = Vec::new();
        pending.push(Span { start, end, first });
        Scan { pending }
    }

    /// The scan of a region as a root: nothing for a region that is not
    /// writable, the region from the stack pointer on for the stack, and all
    /// of any other region.
    pub fn of_region(region: &MemoryRegion, stack_pointer: usize) -> (scan: Scan)
        ensures
            scan.pending@ == region_spans(*region, stack_pointer),
    {
        let mut pending: Vec<Span> = Vec::new();
        if region.writable {
            pending.push(
                Span { start: region.scan_start(stack_pointer), end: region.end, first: true },
            );
        }
        Scan { pending }
    }

    /// Moves the scan to the next word and returns its address, or `None`
    /// once nothing is left to scan.
    pub fn next_word(&mut self) -> (word: Option<usize>)
        ensures
            final(self).pending@ == settled(old(self).pending@),
            word == awaited(final(self).pending@),
            word is None <==> final(self).pending@.len() == 0,
    {
        let w: usize = get_pointer_size();
        while self.pending.len() > 0
            invariant
                w == word_size(),
                settled(self.pending@) == settled(old(self).pending@),
            decreases self.pending.len(),
        {
            let n: usize = self.pending.len();
            let top = self.pending[n - 1];
            proof {
                lemma_rounding(top.start, 0);
            }
            match align_up(top.start) {
                Some(cur) => {
                    if cur <= top.end && top.end - cur >= w {
                        let ghost before = self.pending@;
                        self.pending[n - 1].start = cur;
                        proof {
                            assert(self.pending@ =~= before.drop_last().push(
                                Span { start: cur, ..top },
                            ));
                            assert(self.pending@.last().start == cur);
                        }
                        return Some(cur);
                    }
                },
                None => {},
            }
            self.pending.pop();
        }
        None
    }
}

/// A scan that has not begun will give what the scan of its range gives.
pub proof fn lemma_finish_one(
    records: Seq<GCAllocation>,
    memory: Map<usize, usize>,
    metadata: AddressRange,
    span: Span,
)
    ensures
        finish(records, memory, metadata, seq![span]) == marked_from(
            records,
            memory,
            metadata,
            span.start,
            span.end,
            span.first,
        ),
{
    reveal_with_fuel(finish, 2);
    assert(seq![span].drop_last() =~= Seq::<Span>::empty());
}

/// The scan of a region as a root will give what `mark_map` gives for the
/// line of the region.
pub proof fn lemma_finish_region(
    records: Seq<GCAllocation>,
    memory: Map<usize, usize>,
    metadata: AddressRange,
    region: MemoryRegion,
    stack_pointer: usize,
)
    ensures
        finish(records, memory, metadata, region_spans(region, stack_pointer))
            == marked_from_region(records, memory, metadata, region, stack_pointer),
{
    if region.writable {
        lemma_finish_one(
            records,
            memory,
            metadata,
            Span { start: region.scan_start(stack_pointer), end: region.end, first: true },
        );
    }
}

/// A scan with nothing pending has given what it will give.
pub proof fn lemma_finish_none(
    records: Seq<GCAllocation>,
    memory: Map<usize, usize>,
    metadata: AddressRange,
)
    ensures
        finish(records, memory, metadata, Seq::<Span>::empty()) == records,
{
}

/// Scanning the first part of a range and then the rest, from a word-aligned
/// address on, gives what scanning the whole range gives.
pub(crate) proof fn lemma_scan_split(
    records: Seq<GCAllocation>,
    memory: Map<usize, usize>,
    metadata: AddressRange,
    start: usize,
    mid: usize,
    end: usize,
    first: bool,
)
    requires
        is_word_aligned(mid),
        start <= mid <= end,
    ensures
        marked_from(
            marked_from(records, memory, metadata, start, mid, first),
            memory,
            metadata,
            mid,
            end,
            first,
        ) == marked_from(records, memory, metadata, start, end, first),
{
    let now = marked_from(records, memory, metadata, start, mid, first);
    let after = marked_from(now, memory, metadata, mid, end, first);
    assert(same_records(records, now) && marks_kept(records, now));
    assert(same_records(now, after) && marks_kept(now, after));
    lemma_refers_same_records(records, now, memory, metadata);
    assert forall|c: usize|
        scanned(start, end, c) == (scanned(start, mid, c) || scanned(mid, end, c)) by {
        lemma_scanned_split(start, mid, end, c);
    }
    assert forall|j: int| 0 <= j < records.len() implies (#[trigger] after[j]).marked == (
    records[j].marked || reaches(records, memory, metadata, start, end, first, j)) by {
        if after[j].marked && !records[j].marked {
            if now[j].marked {
                lemma_reaches_wider(records, memory, metadata, start, mid, end, first, j);
            } else {
                let path = choose|path: Seq<int>|
                    #[trigger] unmarked_path(now, memory, metadata, path) && range_refers(
                        now,
                        memory,
                        metadata,
                        mid,
                        end,
                        first,
                        path[0],
                    ) && path.last() == j;
                lemma_path_fewer_marks(records, now, memory, metadata, path);
                let c = choose|c: usize|
                    scanned(mid, end, c) && #[trigger] word_refers(
                        now,
                        memory,
                        metadata,
                        first,
                        c,
                        path[0],
                    );
                assert(word_refers(records, memory, metadata, first, c, path[0]));
                assert(range_refers(records, memory, metadata, start, end, first, path[0]));
            }
        }
        if reaches(records, memory, metadata, start, end, first, j) {
            let inside = |u: int| 0 <= u < records.len() && !records[u].marked && after[u].marked;
            assert forall|u: int|
                0 <= u < records.len() && !records[u].marked && #[trigger] range_refers(
                    records,
                    memory,
                    metadata,
                    start,
                    end,
                    first,
                    u,
                ) implies inside(u) by {
                let c = choose|c: usize|
                    scanned(start, end, c) && #[trigger] word_refers(
                        records,
                        memory,
                        metadata,
                        first,
                        c,
                        u,
                    );
                if scanned(start, mid, c) {
                    lemma_reaches_target(records, memory, metadata, start, mid, first, u);
                    assert(now[u].marked);
                } else if !now[u].marked {
                    assert(word_refers(now, memory, metadata, first, c, u));
                    lemma_reaches_target(now, memory, metadata, mid, end, first, u);
                }
            }
            assert forall|a: int, b: int|
                inside(a) && 0 <= b < records.len() && !records[b].marked && #[trigger] edge(
                    records,
                    memory,
                    metadata,
                    a,
                    b,
                ) implies inside(b) by {
                if now[a].marked {
                    lemma_reaches_step(records, memory, metadata, start, mid, first, a, b);
                    assert(now[b].marked);
                } else if !now[b].marked {
                    lemma_reaches_step(now, memory, metadata, mid, end, first, a, b);
                }
            }
            lemma_reaches_induct(records, memory, metadata, start, end, first, inside, j);
        }
    }
    assert(after =~= marked_from(records, memory, metadata, start, end, first));
}

/// Moving to the next word changes nothing in what the scan will give.
pub proof fn lemma_finish_settled(
    records: Seq<GCAllocation>,
    memory: Map<usize, usize>,
    metadata: AddressRange,
    pending: Seq<Span>,
)
    ensures
        finish(records, memory, metadata, settled(pending)) == finish(
            records,
            memory,
            metadata,
            pending,
        ),
    decreases pending.len(),
{
    if pending.len() > 0 {
        let top = pending.last();
        let rest = pending.drop_last();
        if has_word(top) {
            let cur = round_up(top.start) as usize;
            let moved = rest.push(Span { start: cur, ..top });
            assert(moved.drop_last() =~= rest);
            assert(moved.last() == Span { start: cur, ..top });
            assert forall|c: usize, j: int| #[trigger]
                word_refers(records, memory, metadata, top.first, c, j) implies (scanned(
                cur,
                top.end,
                c,
            ) == scanned(top.start, top.end, c)) by {
                lemma_rounding(top.start, c);
                if scanned(cur, top.end, c) {
                    lemma_scanned_wider(cur, top.end, top.start, top.end, c);
                }
                if scanned(top.start, top.end, c) {
                    lemma_scanned_bounds(top.start, top.end, c);
                    lemma_scanned_split(top.start, cur, top.end, c);
                    lemma_scanned_short(top.start, cur, c);
                }
            }
            lemma_scan_same_refs(
                records,
                memory,
                metadata,
                cur,
                top.end,
                top.start,
                top.end,
                top.first,
            );
        } else {
            assert forall|c: usize, j: int| #[trigger]
                word_refers(records, memory, metadata, top.first, c, j) implies !scanned(
                top.start,
                top.end,
                c,
            ) by {
                if scanned(top.start, top.end, c) {
                    lemma_scanned_bounds(top.start, top.end, c);
                }
            }
            lemma_scan_nothing(records, memory, metadata, top.start, top.end, top.first);
            lemma_finish_settled(records, memory, metadata, rest);
        }
    }
}

/// Telling the scan the value that the image holds for the word it waits for
/// changes nothing in what the scan will give.
pub proof fn lemma_finish_visited(
    records: Seq<GCAllocation>,
    pending: Seq<Span>,
    memory: Map<usize, usize>,
    metadata: AddressRange,
    value: Option<usize>,
)
    requires
        registry_wf(records),
        awaited(pending) is Some ==> value == word_at(memory, awaited(pending)->0),
    ensures
        finish(
            visited(records, pending, metadata, value).0,
            memory,
            metadata,
            visited(records, pending, metadata, value).1,
        ) == finish(records, memory, metadata, pending),
{
    if awaited(pending) is Some {
        let cur = awaited(pending)->0;
        let top = pending.last();
        let base = pending.drop_last();
        let next = (cur + word_size()) as usize;
        let rest = base.push(Span { start: next, ..top });
        let whole = marked_from(records, memory, metadata, cur, top.end, top.first);
        let step = marked_from(records, memory, metadata, cur, next, top.first);
        assert(rest.drop_last() =~= base);
        assert(rest.last() == Span { start: next, ..top });
        assert(is_word_aligned(next)) by {
            if word_size() == 8 {
                assert((cur + 8) % 8 == 0);
            } else {
                assert((cur + 4) % 4 == 0);
            }
        }
        assert(finish(records, memory, metadata, pending) == finish(
            whole,
            memory,
            metadata,
            base,
        ));
        lemma_scan_split(records, memory, metadata, cur, next, top.end, top.first);
        assert(finish(step, memory, metadata, rest) == finish(whole, memory, metadata, base));
        lemma_scan_begin(records, memory, metadata, cur, cur, top.first);
        let target = referent_of(records, metadata, top.first, cur, value);
        if target is Some && !records[target->0].marked {
            let t = target->0;
            let mid = records.update(t, GCAllocation { marked: true, ..records[t] });
            let inner = Span { start: records[t].start, end: records[t].end(), first: false };
            let after = marked_from(mid, memory, metadata, inner.start, inner.end, false);
            assert(rest.push(inner).drop_last() =~= rest);
            assert(rest.push(inner).last() == inner);
            assert(word_refers(records, memory, metadata, top.first, cur, t));
            assert(followed(records, after, memory, metadata, t));
            lemma_scan_follow(
                records,
                records,
                after,
                memory,
                metadata,
                cur,
                cur,
                next,
                top.first,
                t,
            );
            assert(after == step);
            assert(visited(records, pending, metadata, value) == (mid, rest.push(inner)));
            assert(finish(mid, memory, metadata, rest.push(inner)) == finish(
                after,
                memory,
                metadata,
                rest,
            ));
        } else {
            // the word refers to nothing that is not marked yet
            assert forall|c: usize, j: int| #[trigger]
                word_refers(records, memory, metadata, top.first, c, j) && !records[j].marked
                    implies !scanned(cur, next, c) by {
                lemma_scanned_next(cur, cur, c);
                lemma_scanned_short(cur, cur, c);
                if c == cur {
                    let t = target->0;
                    assert(value_refers(records, metadata, top.first, cur, value, j));
                    assert(value_refers(records, metadata, top.first, cur, value, t));
                    if j != t {
                        lemma_records_never_overlap(records, j, t, value->0);
                    }
                }
            }
            assert forall|j: int|
                !reaches(records, memory, metadata, cur, next, top.first, j) by {
                if reaches(records, memory, metadata, cur, next, top.first, j) {
                    let path = choose|path: Seq<int>|
                        #[trigger] unmarked_path(records, memory, metadata, path) && range_refers(
                            records,
                            memory,
                            metadata,
                            cur,
                            next,
                            top.first,
                            path[0],
                        ) && path.last() == j;
                    assert(!records[path[0]].marked);
                }
            }
            assert(step =~= records);
            assert(visited(records, pending, metadata, value) == (records, rest));
        }
    }
}

/// The registry and the pending ranges after `steps` steps of a scan that is
/// told the values the image holds: each step moves to the next word and
/// visits it.
pub open spec fn stepped(
    records: Seq<GCAllocation>,
    pending: Seq<Span>,
    memory: Map<usize, usize>,
    metadata: AddressRange,
    steps: nat,
) -> (Seq<GCAllocation>, Seq<Span>)
    decreases steps,
{
    if steps == 0 {
        (records, pending)
    } else {
        let moved = settled(pending);
        let value = match awaited(moved) {
            Some(cur) => word_at(memory, cur),
            None => None,
        };
        let next = visited(records, moved, metadata, value);
        stepped(next.0, next.1, memory, metadata, (steps - 1) as nat)
    }
}

/// A step keeps the registry well-formed.
pub proof fn lemma_visited_wf(
    records: Seq<GCAllocation>,
    pending: Seq<Span>,
    metadata: AddressRange,
    value: Option<usize>,
)
    requires
        registry_wf(records),
    ensures
        registry_wf(visited(records, pending, metadata, value).0),
        same_records(records, visited(records, pending, metadata, value).0),
        marks_kept(records, visited(records, pending, metadata, value).0),
{
    let after = visited(records, pending, metadata, value).0;
    assert(same_records(records, after));
    lemma_wf_same_records(records, after);
}

/// However many steps a scan has taken, what it will give is what it would
/// have given from the start.
pub proof fn lemma_finish_stepped(
    records: Seq<GCAllocation>,
    pending: Seq<Span>,
    memory: Map<usize, usize>,
    metadata: AddressRange,
    steps: nat,
)
    requires
        registry_wf(records),
    ensures
        registry_wf(stepped(records, pending, memory, metadata, steps).0),
        finish(
            stepped(records, pending, memory, metadata, steps).0,
            memory,
            metadata,
            stepped(records, pending, memory, metadata, steps).1,
        ) == finish(records, memory, metadata, pending),
    decreases steps,
{
    if steps > 0 {
        let moved = settled(pending);
        let value = match awaited(moved) {
            Some(cur) => word_at(memory, cur),
            None => None,
        };
        let next = visited(records, moved, metadata, value);
        lemma_finish_settled(records, memory, metadata, pending);
        lemma_finish_visited(records, moved, memory, metadata, value);
        lemma_visited_wf(records, moved, metadata, value);
        lemma_finish_stepped(next.0, next.1, memory, metadata, (steps - 1) as nat);
    }
}

/// A scan in steps that has come to its end has marked what the scan of its
/// range marks: once nothing is pending, the registry is the one that
/// `mark_range` gives.
pub proof fn lemma_stepped_to_the_end(
    records: Seq<GCAllocation>,
    memory: Map<usize, usize>,
    metadata: AddressRange,
    span: Span,
    steps: nat,
)
    requires
        registry_wf(records),
        settled(stepped(records, seq![span], memory, metadata, steps).1).len() == 0,
    ensures
        stepped(records, seq![span], memory, metadata, steps).0 == marked_from(
            records,
            memory,
            metadata,
            span.start,
            span.end,
            span.first,
        ),
{
    let last = stepped(records, seq![span], memory, metadata, steps);
    lemma_finish_stepped(records, seq![span], memory, metadata, steps);
    lemma_finish_settled(last.0, memory, metadata, last.1);
    lemma_finish_one(records, memory, metadata, span);
}

/// The work that is left in the pending ranges: one for each range, and one
/// for each byte in it.
pub open spec fn work(pending: Seq<Span>) -> nat
    decreases pending.len(),
{
    if pending.len() == 0 {
        0
    } else {
        let top = pending.last();
        work(pending.drop_last()) + 1 + if top.start < top.end {
            (top.end - top.start) as nat
        } else {
            0
        }
    }
}

/// Moving to the next word leaves no more work than there was.
proof fn lemma_work_settled(pending: Seq<Span>)
    ensures
        work(settled(pending)) <= work(pending),
    decreases pending.len(),
{
    if pending.len() > 0 {
        let top = pending.last();
        let rest = pending.drop_last();
        if has_word(top) {
            let moved = rest.push(Span { start: round_up(top.start) as usize, ..top });
            lemma_rounding(top.start, 0);
            assert(moved.drop_last() =~= rest);
        } else {
            lemma_work_settled(rest);
        }
    }
}

/// Every scan in steps comes to its end: the lemma returns a number of steps
/// after which nothing is pending.
pub proof fn lemma_scan_ends(
    records: Seq<GCAllocation>,
    pending: Seq<Span>,
    memory: Map<usize, usize>,
    metadata: AddressRange,
) -> (steps: nat)
    requires
        registry_wf(records),
    ensures
        settled(stepped(records, pending, memory, metadata, steps).1).len() == 0,
    decreases unmarked(records), work(pending),
{
    let moved = settled(pending);
    if moved.len() == 0 {
        0
    } else {
        lemma_settled_awaits(pending);
        lemma_work_settled(pending);
        let cur = awaited(moved)->0;
        let value = word_at(memory, cur);
        let next = visited(records, moved, metadata, value);
        lemma_visited_wf(records, moved, metadata, value);
        let top = moved.last();
        let rest = moved.drop_last().push(Span { start: (cur + word_size()) as usize, ..top });
        assert(rest.drop_last() =~= moved.drop_last());
        assert(work(rest) < work(moved));
        let target = referent_of(records, metadata, top.first, cur, value);
        if target is Some && !records[target->0].marked {
            lemma_unmarked_strict(records, next.0, target->0);
        } else {
            assert(next == (records, rest));
        }
        let more = lemma_scan_ends(next.0, next.1, memory, metadata);
        more + 1
    }
}

/// A scan that has moved to the next word and has ranges pending waits for
/// a word.
proof fn lemma_settled_awaits(pending: Seq<Span>)
    ensures
        settled(pending).len() > 0 ==> awaited(settled(pending)) is Some,
    decreases pending.len(),
{
    if pending.len() > 0 {
        let top = pending.last();
        if has_word(top) {
            lemma_rounding(top.start, 0);
            let moved = pending.drop_last().push(
                Span { start: round_up(top.start) as usize, ..top },
            );
            assert(moved.last().start == round_up(top.start));
        } else {
            lemma_settled_awaits(pending.drop_last());
        }
    }
}

} // verus!
