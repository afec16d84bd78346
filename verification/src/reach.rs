//! What a conservative scan reaches: the graph that the words of memory draw
//! over the records of a registry, and the paths of unmarked records in it.

use vstd::prelude::*;
use crate::allocations::{
    GCAllocation, is_managed, lemma_records_never_overlap, registry_wf, same_records,
};
use crate::arch::{
    is_word_aligned, lemma_scanned_limit, lemma_scanned_next, lemma_scanned_none,
    lemma_scanned_short, lemma_scanned_wider, scanned, word_size,
};
use crate::memory::{AddressRange, word_at};

verus! {

/// Whether a scan that finds `value` in the word at `cur` reads it as a
/// reference to record `j`.
///
/// The word must lie outside the registry's own storage (`metadata`), it must
/// hold a value, and the value must be the address of a byte of the record. A
/// first scan, the one over the roots, also passes over every word that lies
/// inside a record.
pub open spec fn value_refers(
    records: Seq<GCAllocation>,
    metadata: AddressRange,
    first: bool,
    cur: usize,
    value: Option<usize>,
    j: int,
) -> bool {
    &&& !metadata.contains(cur)
    &&& first ==> !is_managed(records, cur)
    &&& value is Some
    &&& 0 <= j < records.len()
    &&& records[j].contains(value->0)
}

/// Whether a scan of the image reads the word at `cur` as a reference to
/// record `j`.
pub open spec fn word_refers(
    records: Seq<GCAllocation>,
    memory: Map<usize, usize>,
    metadata: AddressRange,
    first: bool,
    cur: usize,
    j: int,
) -> bool {
    value_refers(records, metadata, first, cur, word_at(memory, cur), j)
}

/// Whether a scan of `[start, end)` reads some word as a reference to record
/// `j`.
pub open spec fn range_refers(
    records: Seq<GCAllocation>,
    memory: Map<usize, usize>,
    metadata: AddressRange,
    start: usize,
    end: usize,
    first: bool,
    j: int,
) -> bool {
    exists|cur: usize|
        scanned(start, end, cur) && #[trigger] word_refers(
            records,
            memory,
            metadata,
            first,
            cur,
            j,
        )
}

/// Whether a scan of the storage of record `i` reads some word as a reference
/// to record `j`.
pub open spec fn edge(
    records: Seq<GCAllocation>,
    memory: Map<usize, usize>,
    metadata: AddressRange,
    i: int,
    j: int,
) -> bool {
    &&& 0 <= i < records.len()
    &&& range_refers(records, memory, metadata, records[i].start, records[i].end(), false, j)
}

/// Whether `path` is a nonempty chain of unmarked records, each of which
/// refers to the next.
pub open spec fn unmarked_path(
    records: Seq<GCAllocation>,
    memory: Map<usize, usize>,
    metadata: AddressRange,
    path: Seq<int>,
) -> bool {
    &&& path.len() > 0
    &&& forall|k: int|
        0 <= k < path.len() ==> 0 <= #[trigger] path[k] < records.len()
            && !records[path[k]].marked
    &&& forall|k: int|
        0 <= k < path.len() - 1 ==> edge(records, memory, metadata, #[trigger] path[k], path[k + 1])
}

/// Whether a scan of `[start, end)` leads to record `j` along unmarked
/// records: some word of the range refers to the first record of a chain of
/// unmarked records that ends in `j`.
pub open spec fn reaches(
    records: Seq<GCAllocation>,
    memory: Map<usize, usize>,
    metadata: AddressRange,
    start: usize,
    end: usize,
    first: bool,
    j: int,
) -> bool {
    exists|path: Seq<int>|
        #[trigger] unmarked_path(records, memory, metadata, path) && range_refers(
            records,
            memory,
            metadata,
            start,
            end,
            first,
            path[0],
        ) && path.last() == j
}

/// The registry after a scan of `[start, end)`: a record is marked if it was
/// marked before or the scan reaches it; nothing else changes.
pub open spec fn marked_from(
    records: Seq<GCAllocation>,
    memory: Map<usize, usize>,
    metadata: AddressRange,
    start: usize,
    end: usize,
    first: bool,
) -> Seq<GCAllocation> {
    Seq::new(
        records.len(),
        |j: int|
            GCAllocation {
                marked: records[j].marked || reaches(
                    records,
                    memory,
                    metadata,
                    start,
                    end,
                    first,
                    j,
                ),
                ..records[j]
            },
    )
}

/// The number of unmarked records.
pub open spec fn unmarked(records: Seq<GCAllocation>) -> nat
    decreases records.len(),
{
    if records.len() == 0 {
        0
    } else {
        unmarked(records.drop_last()) + if records.last().marked {
            0nat
        } else {
            1nat
        }
    }
}

/// Whether every record marked in `a` is marked in `b`.
pub open spec fn marks_kept(a: Seq<GCAllocation>, b: Seq<GCAllocation>) -> bool {
    &&& a.len() == b.len()
    &&& forall|i: int| 0 <= i < a.len() ==> (#[trigger] a[i]).marked ==> b[i].marked
}

/// Marking never raises the number of unmarked records.
pub(crate) proof fn lemma_unmarked_monotone(a: Seq<GCAllocation>, b: Seq<GCAllocation>)
    requires
        marks_kept(a, b),
    ensures
        unmarked(b) <= unmarked(a),
    decreases a.len(),
{
    if a.len() > 0 {
        assert(a.last().marked ==> b.last().marked);
        lemma_unmarked_monotone(a.drop_last(), b.drop_last());
    }
}

/// Marking a record that was unmarked lowers the number of unmarked records.
pub(crate) proof fn lemma_unmarked_strict(a: Seq<GCAllocation>, b: Seq<GCAllocation>, t: int)
    requires
        marks_kept(a, b),
        0 <= t < a.len(),
        !a[t].marked,
        b[t].marked,
    ensures
        unmarked(b) < unmarked(a),
    decreases a.len(),
{
    assert(a.last().marked ==> b.last().marked);
    if t == a.len() - 1 {
        lemma_unmarked_monotone(a.drop_last(), b.drop_last());
    } else {
        lemma_unmarked_strict(a.drop_last(), b.drop_last(), t);
    }
}

/// Which words refer to which records depends on where the records lie, not
/// on their marks.
pub(crate) proof fn lemma_refers_same_records(
    a: Seq<GCAllocation>,
    b: Seq<GCAllocation>,
    memory: Map<usize, usize>,
    metadata: AddressRange,
)
    requires
        same_records(a, b),
    ensures
        forall|ptr: usize| is_managed(a, ptr) == is_managed(b, ptr),
        forall|first: bool, cur: usize, j: int|
            word_refers(a, memory, metadata, first, cur, j) == word_refers(
                b,
                memory,
                metadata,
                first,
                cur,
                j,
            ),
        forall|start: usize, end: usize, first: bool, j: int|
            range_refers(a, memory, metadata, start, end, first, j) == range_refers(
                b,
                memory,
                metadata,
                start,
                end,
                first,
                j,
            ),
        forall|i: int, j: int| edge(a, memory, metadata, i, j) == edge(b, memory, metadata, i, j),
{
    assert forall|ptr: usize| is_managed(a, ptr) == is_managed(b, ptr) by {
        if is_managed(a, ptr) {
            let i = choose|i: int| 0 <= i < a.len() && (#[trigger] a[i]).contains(ptr);
            assert(b[i].contains(ptr));
        }
        if is_managed(b, ptr) {
            let i = choose|i: int| 0 <= i < b.len() && (#[trigger] b[i]).contains(ptr);
            assert(a[i].contains(ptr));
        }
    }
    assert forall|first: bool, cur: usize, j: int|
        word_refers(a, memory, metadata, first, cur, j) == word_refers(
            b,
            memory,
            metadata,
            first,
            cur,
            j,
        ) by {
        if 0 <= j < a.len() {
            assert(a[j].same_storage(b[j]));
        }
    }
    assert forall|i: int, j: int|
        edge(a, memory, metadata, i, j) == edge(b, memory, metadata, i, j) by {
        if 0 <= i < a.len() {
            assert(a[i].same_storage(b[i]));
        }
    }
}

/// A chain of records unmarked in `b` is a chain of records unmarked in `a`,
/// where `b` holds the records of `a` with at least the marks of `a`.
pub(crate) proof fn lemma_path_fewer_marks(
    a: Seq<GCAllocation>,
    b: Seq<GCAllocation>,
    memory: Map<usize, usize>,
    metadata: AddressRange,
    path: Seq<int>,
)
    requires
        same_records(a, b),
        marks_kept(a, b),
        unmarked_path(b, memory, metadata, path),
    ensures
        unmarked_path(a, memory, metadata, path),
{
    lemma_refers_same_records(a, b, memory, metadata);
    assert forall|k: int| 0 <= k < path.len() implies 0 <= #[trigger] path[k] < a.len()
        && !a[path[k]].marked by {
        assert(a[path[k]].marked ==> b[path[k]].marked);
    }
}

/// A scan reaches every unmarked record that a word of its range refers to.
pub proof fn lemma_reaches_target(
    records: Seq<GCAllocation>,
    memory: Map<usize, usize>,
    metadata: AddressRange,
    start: usize,
    end: usize,
    first: bool,
    t: int,
)
    requires
        range_refers(records, memory, metadata, start, end, first, t),
        !records[t].marked,
    ensures
        reaches(records, memory, metadata, start, end, first, t),
{
    let path = seq![t];
    assert(unmarked_path(records, memory, metadata, path));
    assert(path[0] == t && path.last() == t);
}

/// A scan that reaches a record reaches every unmarked record that the
/// record's storage refers to.
pub proof fn lemma_reaches_step(
    records: Seq<GCAllocation>,
    memory: Map<usize, usize>,
    metadata: AddressRange,
    start: usize,
    end: usize,
    first: bool,
    a: int,
    b: int,
)
    requires
        reaches(records, memory, metadata, start, end, first, a),
        edge(records, memory, metadata, a, b),
        0 <= b < records.len(),
        !records[b].marked,
    ensures
        reaches(records, memory, metadata, start, end, first, b),
{
    let path = choose|path: Seq<int>|
        #[trigger] unmarked_path(records, memory, metadata, path) && range_refers(
            records,
            memory,
            metadata,
            start,
            end,
            first,
            path[0],
        ) && path.last() == a;
    let longer = path.push(b);
    assert forall|k: int| 0 <= k < longer.len() - 1 implies edge(
        records,
        memory,
        metadata,
        #[trigger] longer[k],
        longer[k + 1],
    ) by {
        if k < path.len() - 1 {
            assert(longer[k] == path[k]);
            assert(longer[k + 1] == path[k + 1]);
        }
    }
    assert(unmarked_path(records, memory, metadata, longer));
    assert(longer[0] == path[0] && longer.last() == b);
}

proof fn lemma_path_inside(
    records: Seq<GCAllocation>,
    memory: Map<usize, usize>,
    metadata: AddressRange,
    path: Seq<int>,
    inside: spec_fn(int) -> bool,
    k: int,
)
    requires
        unmarked_path(records, memory, metadata, path),
        inside(path[0]),
        forall|a: int, b: int|
            inside(a) && 0 <= b < records.len() && !records[b].marked && #[trigger] edge(
                records,
                memory,
                metadata,
                a,
                b,
            ) ==> inside(b),
        0 <= k < path.len(),
    ensures
        inside(path[k]),
    decreases k,
{
    if k > 0 {
        lemma_path_inside(records, memory, metadata, path, inside, k - 1);
        assert(edge(records, memory, metadata, path[k - 1], path[k - 1 + 1]));
    }
}

/// Induction over what a scan reaches: a set of records that holds every
/// unmarked record the range refers to, and with each of its records every
/// unmarked record that this one refers to, holds every record that the scan
/// reaches.
pub proof fn lemma_reaches_induct(
    records: Seq<GCAllocation>,
    memory: Map<usize, usize>,
    metadata: AddressRange,
    start: usize,
    end: usize,
    first: bool,
    inside: spec_fn(int) -> bool,
    j: int,
)
    requires
        forall|t: int|
            0 <= t < records.len() && !records[t].marked && #[trigger] range_refers(
                records,
                memory,
                metadata,
                start,
                end,
                first,
                t,
            ) ==> inside(t),
        forall|a: int, b: int|
            inside(a) && 0 <= b < records.len() && !records[b].marked && #[trigger] edge(
                records,
                memory,
                metadata,
                a,
                b,
            ) ==> inside(b),
        reaches(records, memory, metadata, start, end, first, j),
    ensures
        inside(j),
{
    let path = choose|path: Seq<int>|
        #[trigger] unmarked_path(records, memory, metadata, path) && range_refers(
            records,
            memory,
            metadata,
            start,
            end,
            first,
            path[0],
        ) && path.last() == j;
    assert(0 <= path[0] < records.len() && !records[path[0]].marked);
    lemma_path_inside(records, memory, metadata, path, inside, path.len() - 1);
}

/// A registry that holds the records of a well-formed one is well-formed.
pub(crate) proof fn lemma_wf_same_records(a: Seq<GCAllocation>, b: Seq<GCAllocation>)
    requires
        registry_wf(a),
        same_records(a, b),
    ensures
        registry_wf(b),
{
    assert forall|i: int| 0 <= i < b.len() implies (#[trigger] b[i]).in_bounds() by {
        assert(a[i].same_storage(b[i]));
    }
    assert forall|i: int, j: int| 0 <= i < j < b.len() implies (#[trigger] b[i]).disjoint(
        #[trigger] b[j],
    ) by {
        assert(a[i].same_storage(b[i]));
        assert(a[j].same_storage(b[j]));
        assert(a[i].disjoint(a[j]));
    }
}

/// A scan changes marks only, and removes none.
pub(crate) proof fn lemma_marked_from_keeps(
    records: Seq<GCAllocation>,
    memory: Map<usize, usize>,
    metadata: AddressRange,
    start: usize,
    end: usize,
    first: bool,
)
    ensures
        same_records(records, marked_from(records, memory, metadata, start, end, first)),
        marks_kept(records, marked_from(records, memory, metadata, start, end, first)),
{
}

/// Two scans in which the same words refer to the same records mark the same
/// records.
pub(crate) proof fn lemma_scan_same_refs(
    records: Seq<GCAllocation>,
    memory: Map<usize, usize>,
    metadata: AddressRange,
    start1: usize,
    end1: usize,
    start2: usize,
    end2: usize,
    first: bool,
)
    requires
        forall|cur: usize, j: int| #[trigger]
            word_refers(records, memory, metadata, first, cur, j) ==> (scanned(start1, end1, cur)
                == scanned(start2, end2, cur)),
    ensures
        marked_from(records, memory, metadata, start1, end1, first) == marked_from(
            records,
            memory,
            metadata,
            start2,
            end2,
            first,
        ),
{
    assert forall|j: int|
        range_refers(records, memory, metadata, start1, end1, first, j) == range_refers(
            records,
            memory,
            metadata,
            start2,
            end2,
            first,
            j,
        ) by {}
    assert forall|j: int|
        reaches(records, memory, metadata, start1, end1, first, j) == reaches(
            records,
            memory,
            metadata,
            start2,
            end2,
            first,
            j,
        ) by {
        if reaches(records, memory, metadata, start1, end1, first, j) {
            let path = choose|path: Seq<int>|
                #[trigger] unmarked_path(records, memory, metadata, path) && range_refers(
                    records,
                    memory,
                    metadata,
                    start1,
                    end1,
                    first,
                    path[0],
                ) && path.last() == j;
            assert(range_refers(records, memory, metadata, start2, end2, first, path[0]));
        }
        if reaches(records, memory, metadata, start2, end2, first, j) {
            let path = choose|path: Seq<int>|
                #[trigger] unmarked_path(records, memory, metadata, path) && range_refers(
                    records,
                    memory,
                    metadata,
                    start2,
                    end2,
                    first,
                    path[0],
                ) && path.last() == j;
            assert(range_refers(records, memory, metadata, start1, end1, first, path[0]));
        }
    }
    assert(marked_from(records, memory, metadata, start1, end1, first) =~= marked_from(
        records,
        memory,
        metadata,
        start2,
        end2,
        first,
    ));
}

/// A scan in which no word refers to a record changes nothing.
pub(crate) proof fn lemma_scan_nothing(
    records: Seq<GCAllocation>,
    memory: Map<usize, usize>,
    metadata: AddressRange,
    start: usize,
    end: usize,
    first: bool,
)
    requires
        forall|cur: usize, j: int| #[trigger]
            word_refers(records, memory, metadata, first, cur, j) ==> !scanned(start, end, cur),
    ensures
        marked_from(records, memory, metadata, start, end, first) == records,
{
    assert forall|j: int| !reaches(records, memory, metadata, start, end, first, j) by {
        if reaches(records, memory, metadata, start, end, first, j) {
            let path = choose|path: Seq<int>|
                #[trigger] unmarked_path(records, memory, metadata, path) && range_refers(
                    records,
                    memory,
                    metadata,
                    start,
                    end,
                    first,
                    path[0],
                ) && path.last() == j;
            assert(range_refers(records, memory, metadata, start, end, first, path[0]));
        }
    }
    assert(marked_from(records, memory, metadata, start, end, first) =~= records);
}

/// The start of a scan: up to the first word-aligned address of the range
/// nothing is marked.
pub(crate) proof fn lemma_scan_begin(
    records: Seq<GCAllocation>,
    memory: Map<usize, usize>,
    metadata: AddressRange,
    start: usize,
    cur: usize,
    first: bool,
)
    requires
        is_word_aligned(cur),
        start <= cur < start + word_size(),
    ensures
        marked_from(records, memory, metadata, start, cur, first) == records,
{
    assert forall|c: usize, j: int| #[trigger]
        word_refers(records, memory, metadata, first, c, j) implies !scanned(start, cur, c) by {
        lemma_scanned_none(start, cur, c);
    }
    lemma_scan_nothing(records, memory, metadata, start, cur, first);
}

/// One step of a scan: the word at `cur` refers to no record, and nothing
/// more is marked.
pub(crate) proof fn lemma_scan_skip(
    records: Seq<GCAllocation>,
    memory: Map<usize, usize>,
    metadata: AddressRange,
    start: usize,
    cur: usize,
    next: usize,
    first: bool,
)
    requires
        is_word_aligned(cur),
        start <= cur,
        next == cur + word_size(),
        forall|j: int| !word_refers(records, memory, metadata, first, cur, j),
    ensures
        marked_from(records, memory, metadata, start, next, first) == marked_from(
            records,
            memory,
            metadata,
            start,
            cur,
            first,
        ),
{
    assert forall|c: usize, j: int| #[trigger]
        word_refers(records, memory, metadata, first, c, j) implies (scanned(start, next, c)
        == scanned(start, cur, c)) by {
        lemma_scanned_next(start, cur, c);
    }
    lemma_scan_same_refs(records, memory, metadata, start, next, start, cur, first);
}

/// The end of a scan: once the last word-aligned address of the range is
/// passed, all of the range is scanned.
pub(crate) proof fn lemma_scan_end(
    records: Seq<GCAllocation>,
    memory: Map<usize, usize>,
    metadata: AddressRange,
    start: usize,
    end: usize,
    cur: usize,
    limit: usize,
    first: bool,
)
    requires
        is_word_aligned(cur),
        is_word_aligned(limit),
        limit <= end < limit + word_size(),
        start <= cur,
        limit <= cur,
        cur == limit || cur < start + word_size(),
    ensures
        marked_from(records, memory, metadata, start, cur, first) == marked_from(
            records,
            memory,
            metadata,
            start,
            end,
            first,
        ),
{
    assert forall|c: usize, j: int| #[trigger]
        word_refers(records, memory, metadata, first, c, j) implies (scanned(start, cur, c)
        == scanned(start, end, c)) by {
        lemma_scanned_limit(start, end, limit, c);
        if cur != limit {
            lemma_scanned_none(start, cur, c);
            lemma_scanned_short(start, limit, c);
        }
    }
    lemma_scan_same_refs(records, memory, metadata, start, cur, start, end, first);
}

/// A scan of a longer range reaches what the scan of a shorter one reaches.
pub proof fn lemma_reaches_wider(
    records: Seq<GCAllocation>,
    memory: Map<usize, usize>,
    metadata: AddressRange,
    start: usize,
    end1: usize,
    end2: usize,
    first: bool,
    j: int,
)
    requires
        end1 <= end2,
        reaches(records, memory, metadata, start, end1, first, j),
    ensures
        reaches(records, memory, metadata, start, end2, first, j),
{
    let path = choose|path: Seq<int>|
        #[trigger] unmarked_path(records, memory, metadata, path) && range_refers(
            records,
            memory,
            metadata,
            start,
            end1,
            first,
            path[0],
        ) && path.last() == j;
    let cur = choose|cur: usize|
        scanned(start, end1, cur) && #[trigger] word_refers(
            records,
            memory,
            metadata,
            first,
            cur,
            path[0],
        );
    lemma_scanned_wider(start, end1, start, end2, cur);
}

/// Whether `after` is what one step of a scan makes of `now`, where the word
/// that the step reads refers to record `t`: nothing changes if `t` is marked,
/// and else `t` is marked and its storage scanned in turn.
pub open spec fn followed(
    now: Seq<GCAllocation>,
    after: Seq<GCAllocation>,
    memory: Map<usize, usize>,
    metadata: AddressRange,
    t: int,
) -> bool {
    after == (if now[t].marked {
        now
    } else {
        marked_from(
            now.update(t, GCAllocation { marked: true, ..now[t] }),
            memory,
            metadata,
            now[t].start,
            now[t].end(),
            false,
        )
    })
}

/// One step of a scan marks only what the scan with that step reaches.
proof fn lemma_follow_sound(
    before: Seq<GCAllocation>,
    now: Seq<GCAllocation>,
    after: Seq<GCAllocation>,
    memory: Map<usize, usize>,
    metadata: AddressRange,
    start: usize,
    cur: usize,
    next: usize,
    first: bool,
    t: int,
    k: int,
)
    requires
        now == marked_from(before, memory, metadata, start, cur, first),
        cur <= next,
        scanned(start, next, cur),
        word_refers(before, memory, metadata, first, cur, t),
        followed(now, after, memory, metadata, t),
        0 <= k < before.len(),
        after[k].marked,
        !before[k].marked,
    ensures
        reaches(before, memory, metadata, start, next, first, k),
{
    let mid = now.update(t, GCAllocation { marked: true, ..now[t] });
    let (ts, te) = (now[t].start, now[t].end());
    assert(same_records(before, mid) && marks_kept(before, mid));
    assert(before[t].same_storage(now[t]));
    if now[k].marked {
        lemma_reaches_wider(before, memory, metadata, start, cur, next, first, k);
    } else {
        lemma_refers_same_records(before, mid, memory, metadata);
        lemma_reaches_target(before, memory, metadata, start, next, first, t);
        if k != t {
            let inside = |u: int| reaches(before, memory, metadata, start, next, first, u);
            assert forall|u: int|
                0 <= u < mid.len() && !mid[u].marked && #[trigger] range_refers(
                    mid,
                    memory,
                    metadata,
                    ts,
                    te,
                    false,
                    u,
                ) implies inside(u) by {
                assert(edge(before, memory, metadata, t, u));
                lemma_reaches_step(before, memory, metadata, start, next, first, t, u);
            }
            assert forall|a: int, b: int|
                inside(a) && 0 <= b < mid.len() && !mid[b].marked && #[trigger] edge(
                    mid,
                    memory,
                    metadata,
                    a,
                    b,
                ) implies inside(b) by {
                lemma_reaches_step(before, memory, metadata, start, next, first, a, b);
            }
            lemma_reaches_induct(mid, memory, metadata, ts, te, false, inside, k);
        }
    }
}

/// One step of a scan marks all that the scan with that step reaches.
proof fn lemma_follow_complete(
    before: Seq<GCAllocation>,
    now: Seq<GCAllocation>,
    after: Seq<GCAllocation>,
    memory: Map<usize, usize>,
    metadata: AddressRange,
    start: usize,
    cur: usize,
    next: usize,
    first: bool,
    t: int,
    k: int,
)
    requires
        registry_wf(before),
        now == marked_from(before, memory, metadata, start, cur, first),
        forall|c: usize| scanned(start, next, c) ==> scanned(start, cur, c) || c == cur,
        word_refers(before, memory, metadata, first, cur, t),
        followed(now, after, memory, metadata, t),
        reaches(before, memory, metadata, start, next, first, k),
    ensures
        0 <= k < before.len(),
        after[k].marked,
{
    let mid = now.update(t, GCAllocation { marked: true, ..now[t] });
    let (ts, te) = (now[t].start, now[t].end());
    assert(same_records(before, mid) && marks_kept(before, mid));
    assert(same_records(mid, after) && marks_kept(mid, after));
    assert(marks_kept(now, after));
    assert(before[t].same_storage(now[t]));
    lemma_refers_same_records(before, mid, memory, metadata);
    let inside = |u: int| 0 <= u < before.len() && !before[u].marked && after[u].marked;
    assert forall|u: int|
        0 <= u < before.len() && !before[u].marked && #[trigger] range_refers(
            before,
            memory,
            metadata,
            start,
            next,
            first,
            u,
        ) implies inside(u) by {
        let v = choose|v: usize|
            scanned(start, next, v) && #[trigger] word_refers(
                before,
                memory,
                metadata,
                first,
                v,
                u,
            );
        if v == cur {
            if u != t {
                lemma_records_never_overlap(before, u, t, memory[cur]);
            }
        } else {
            lemma_reaches_target(before, memory, metadata, start, cur, first, u);
            assert(now[u].marked);
        }
    }
    assert forall|a: int, b: int|
        inside(a) && 0 <= b < before.len() && !before[b].marked && #[trigger] edge(
            before,
            memory,
            metadata,
            a,
            b,
        ) implies inside(b) by {
        if now[a].marked {
            lemma_reaches_step(before, memory, metadata, start, cur, first, a, b);
            assert(now[b].marked);
        } else if !mid[b].marked {
            if a == t {
                assert(range_refers(mid, memory, metadata, ts, te, false, b));
                lemma_reaches_target(mid, memory, metadata, ts, te, false, b);
            } else {
                lemma_reaches_step(mid, memory, metadata, ts, te, false, a, b);
            }
        }
    }
    lemma_reaches_induct(before, memory, metadata, start, next, first, inside, k);
}

/// One step of a scan: the word at `cur` refers to record `t`.
///
/// `now` is the registry after the scan of `[start, cur)`. If `t` is marked
/// there, nothing is left to do. If it is not, `t` is marked and its storage
/// scanned in turn. Either way the outcome is the registry after the scan of
/// `[start, next)`, where `next` is the address of the following word.
pub(crate) proof fn lemma_scan_follow(
    before: Seq<GCAllocation>,
    now: Seq<GCAllocation>,
    after: Seq<GCAllocation>,
    memory: Map<usize, usize>,
    metadata: AddressRange,
    start: usize,
    cur: usize,
    next: usize,
    first: bool,
    t: int,
)
    requires
        registry_wf(before),
        now == marked_from(before, memory, metadata, start, cur, first),
        is_word_aligned(cur),
        start <= cur,
        next == cur + word_size(),
        word_refers(before, memory, metadata, first, cur, t),
        followed(now, after, memory, metadata, t),
    ensures
        after == marked_from(before, memory, metadata, start, next, first),
{
    let mid = now.update(t, GCAllocation { marked: true, ..now[t] });
    assert(same_records(before, mid) && marks_kept(before, mid));
    assert(same_records(mid, after) && marks_kept(mid, after));
    assert forall|c: usize| scanned(start, next, c) == (scanned(start, cur, c) || c == cur) by {
        lemma_scanned_next(start, cur, c);
    }
    assert forall|k: int| 0 <= k < before.len() implies (#[trigger] after[k]).marked == (
    before[k].marked || reaches(before, memory, metadata, start, next, first, k)) by {
        if after[k].marked && !before[k].marked {
            lemma_follow_sound(
                before,
                now,
                after,
                memory,
                metadata,
                start,
                cur,
                next,
                first,
                t,
                k,
            );
        }
        if reaches(before, memory, metadata, start, next, first, k) {
            lemma_follow_complete(
                before,
                now,
                after,
                memory,
                metadata,
                start,
                cur,
                next,
                first,
                t,
                k,
            );
        }
    }
    assert(after =~= marked_from(before, memory, metadata, start, next, first));
}

} // verus!
