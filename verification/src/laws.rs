//! Laws of a collection: what survives it, what it reclaims, and what a
//! second collection finds.

use vstd::prelude::*;
use crate::allocations::{GCAllocation, is_managed, registry_wf, same_records};
use crate::arch::scanned;
use crate::memory::AddressRange;
use crate::reach::{
    edge, lemma_reaches_induct, lemma_reaches_step, lemma_reaches_target,
    lemma_refers_same_records, lemma_wf_same_records, range_refers, reaches, word_refers,
};
use crate::regions::region_of;
use crate::trace::{
    is_live, lemma_filter_wf, line_reaches, marked_records, reclaimed, survivors, traced,
    unmark_all, unmarked_records,
};

verus! {

/// Whether the region that `line` describes holds a root word that refers to
/// record `j`: the region is writable, and the scan of it reads some word as a
/// reference to the record.
pub open spec fn root_refers(
    records: Seq<GCAllocation>,
    memory: Map<usize, usize>,
    metadata: AddressRange,
    stack_pointer: usize,
    line: Seq<char>,
    j: int,
) -> bool {
    match region_of(line, stack_pointer) {
        Some(region) => region.writable && range_refers(
            records,
            memory,
            metadata,
            region.scan_start(stack_pointer),
            region.end,
            true,
            j,
        ),
        None => false,
    }
}

/// A record that a root word refers to is reachable.
pub proof fn lemma_root_referent_is_live(
    records: Seq<GCAllocation>,
    memory: Map<usize, usize>,
    metadata: AddressRange,
    stack_pointer: usize,
    maps: Seq<String>,
    l: int,
    j: int,
)
    requires
        0 <= l < maps.len(),
        root_refers(records, memory, metadata, stack_pointer, maps[l]@, j),
    ensures
        is_live(records, memory, metadata, stack_pointer, maps, j),
{
    let clear = unmark_all(records);
    let region = region_of(maps[l]@, stack_pointer)->0;
    assert(same_records(records, clear));
    lemma_refers_same_records(records, clear, memory, metadata);
    lemma_reaches_target(
        clear,
        memory,
        metadata,
        region.scan_start(stack_pointer),
        region.end,
        true,
        j,
    );
    assert(line_reaches(records, memory, metadata, stack_pointer, maps[l]@, j));
}

/// A record that a reachable record refers to is reachable.
pub proof fn lemma_referent_is_live(
    records: Seq<GCAllocation>,
    memory: Map<usize, usize>,
    metadata: AddressRange,
    stack_pointer: usize,
    maps: Seq<String>,
    i: int,
    j: int,
)
    requires
        is_live(records, memory, metadata, stack_pointer, maps, i),
        edge(records, memory, metadata, i, j),
    ensures
        is_live(records, memory, metadata, stack_pointer, maps, j),
{
    let clear = unmark_all(records);
    let l = choose|l: int|
        0 <= l < maps.len() && #[trigger] line_reaches(
            records,
            memory,
            metadata,
            stack_pointer,
            maps[l]@,
            i,
        );
    let region = region_of(maps[l]@, stack_pointer)->0;
    assert(same_records(records, clear));
    lemma_refers_same_records(records, clear, memory, metadata);
    let cur = choose|cur: usize|
        scanned(records[i].start, records[i].end(), cur) && #[trigger] word_refers(
            records,
            memory,
            metadata,
            false,
            cur,
            j,
        );
    lemma_reaches_step(
        clear,
        memory,
        metadata,
        region.scan_start(stack_pointer),
        region.end,
        true,
        i,
        j,
    );
    assert(line_reaches(records, memory, metadata, stack_pointer, maps[l]@, j));
}

/// Records that only refer to each other are not reachable: where no root
/// word refers to a record of `dead`, and no record outside `dead` refers to
/// one inside, no record of `dead` is reachable, whatever the records of
/// `dead` hold.
pub proof fn lemma_unrooted_is_not_live(
    records: Seq<GCAllocation>,
    memory: Map<usize, usize>,
    metadata: AddressRange,
    stack_pointer: usize,
    maps: Seq<String>,
    dead: Set<int>,
)
    requires
        forall|l: int, j: int|
            0 <= l < maps.len() && dead.contains(j) ==> !#[trigger] root_refers(
                records,
                memory,
                metadata,
                stack_pointer,
                maps[l]@,
                j,
            ),
        forall|i: int, j: int|
            dead.contains(j) && #[trigger] edge(records, memory, metadata, i, j) ==> dead.contains(
                i,
            ),
    ensures
        forall|j: int|
            dead.contains(j) ==> !is_live(records, memory, metadata, stack_pointer, maps, j),
{
    let clear = unmark_all(records);
    assert(same_records(records, clear));
    lemma_refers_same_records(records, clear, memory, metadata);
    assert forall|j: int| dead.contains(j) implies !is_live(
        records,
        memory,
        metadata,
        stack_pointer,
        maps,
        j,
    ) by {
        if is_live(records, memory, metadata, stack_pointer, maps, j) {
            let l = choose|l: int|
                0 <= l < maps.len() && #[trigger] line_reaches(
                    records,
                    memory,
                    metadata,
                    stack_pointer,
                    maps[l]@,
                    j,
                );
            let region = region_of(maps[l]@, stack_pointer)->0;
            let inside = |u: int| !dead.contains(u);
            assert forall|t: int|
                0 <= t < clear.len() && !clear[t].marked && #[trigger] range_refers(
                    clear,
                    memory,
                    metadata,
                    region.scan_start(stack_pointer),
                    region.end,
                    true,
                    t,
                ) implies inside(t) by {
                assert(root_refers(records, memory, metadata, stack_pointer, maps[l]@, t));
            }
            lemma_reaches_induct(
                clear,
                memory,
                metadata,
                region.scan_start(stack_pointer),
                region.end,
                true,
                inside,
                j,
            );
        }
    }
}

/// Every record is either kept or dropped: the records kept and the records
/// dropped are as many as the records.
pub proof fn lemma_marked_unmarked_len(records: Seq<GCAllocation>)
    ensures
        marked_records(records).len() + unmarked_records(records).len() == records.len(),
    decreases records.len(),
{
    reveal(Seq::filter);
    if records.len() > 0 {
        lemma_marked_unmarked_len(records.drop_last());
    }
}

/// A collection drops exactly the records it does not keep: the survivors and
/// the reclaimed records are as many as the records before.
pub proof fn lemma_collect_partitions(
    records: Seq<GCAllocation>,
    memory: Map<usize, usize>,
    metadata: AddressRange,
    stack_pointer: usize,
    maps: Seq<String>,
)
    ensures
        survivors(records, memory, metadata, stack_pointer, maps).len() + reclaimed(
            records,
            memory,
            metadata,
            stack_pointer,
            maps,
        ).len() == records.len(),
{
    lemma_marked_unmarked_len(traced(records, memory, metadata, stack_pointer, maps));
}

/// A reachable record survives a collection, marked.
pub proof fn lemma_live_survives(
    records: Seq<GCAllocation>,
    memory: Map<usize, usize>,
    metadata: AddressRange,
    stack_pointer: usize,
    maps: Seq<String>,
    j: int,
)
    requires
        0 <= j < records.len(),
        is_live(records, memory, metadata, stack_pointer, maps, j),
    ensures
        survivors(records, memory, metadata, stack_pointer, maps).contains(
            GCAllocation { marked: true, ..records[j] },
        ),
{
    let all = traced(records, memory, metadata, stack_pointer, maps);
    all.lemma_filter_contains(|record: GCAllocation| record.marked, j);
}

/// A record that is not reachable is reclaimed by a collection.
pub proof fn lemma_dead_is_reclaimed(
    records: Seq<GCAllocation>,
    memory: Map<usize, usize>,
    metadata: AddressRange,
    stack_pointer: usize,
    maps: Seq<String>,
    j: int,
)
    requires
        0 <= j < records.len(),
        !is_live(records, memory, metadata, stack_pointer, maps, j),
    ensures
        reclaimed(records, memory, metadata, stack_pointer, maps).contains(
            GCAllocation { marked: false, ..records[j] },
        ),
{
    let all = traced(records, memory, metadata, stack_pointer, maps);
    all.lemma_filter_contains(|record: GCAllocation| !record.marked, j);
}

/// Every survivor of a collection is a reachable record of the registry,
/// marked: the lemma returns the index that the survivor had.
pub proof fn lemma_survivor_is_live(
    records: Seq<GCAllocation>,
    memory: Map<usize, usize>,
    metadata: AddressRange,
    stack_pointer: usize,
    maps: Seq<String>,
    i: int,
) -> (j: int)
    requires
        registry_wf(records),
        0 <= i < survivors(records, memory, metadata, stack_pointer, maps).len(),
    ensures
        0 <= j < records.len(),
        is_live(records, memory, metadata, stack_pointer, maps, j),
        survivors(records, memory, metadata, stack_pointer, maps)[i] == (GCAllocation {
            marked: true,
            ..records[j]
        }),
{
    let all = traced(records, memory, metadata, stack_pointer, maps);
    let kept = survivors(records, memory, metadata, stack_pointer, maps);
    assert(same_records(records, all));
    lemma_wf_same_records(records, all);
    lemma_filter_wf(all, |record: GCAllocation| record.marked);
    let j = choose|j: int| 0 <= j < all.len() && #[trigger] all[j] == kept[i] && all[j].marked;
    j
}

/// Every record that a collection reclaims is a record of the registry that
/// is not reachable, unmarked: the lemma returns the index that the record
/// had.
pub proof fn lemma_reclaimed_is_dead(
    records: Seq<GCAllocation>,
    memory: Map<usize, usize>,
    metadata: AddressRange,
    stack_pointer: usize,
    maps: Seq<String>,
    i: int,
) -> (j: int)
    requires
        registry_wf(records),
        0 <= i < reclaimed(records, memory, metadata, stack_pointer, maps).len(),
    ensures
        0 <= j < records.len(),
        !is_live(records, memory, metadata, stack_pointer, maps, j),
        reclaimed(records, memory, metadata, stack_pointer, maps)[i] == (GCAllocation {
            marked: false,
            ..records[j]
        }),
{
    let all = traced(records, memory, metadata, stack_pointer, maps);
    let dropped = reclaimed(records, memory, metadata, stack_pointer, maps);
    assert(same_records(records, all));
    lemma_wf_same_records(records, all);
    lemma_filter_wf(all, |record: GCAllocation| !record.marked);
    let j = choose|j: int|
        0 <= j < all.len() && #[trigger] all[j] == dropped[i] && !all[j].marked;
    j
}

/// The survivors of a collection form a well-formed registry: no two of them
/// share a byte.
pub proof fn lemma_survivors_wf(
    records: Seq<GCAllocation>,
    memory: Map<usize, usize>,
    metadata: AddressRange,
    stack_pointer: usize,
    maps: Seq<String>,
)
    requires
        registry_wf(records),
    ensures
        registry_wf(survivors(records, memory, metadata, stack_pointer, maps)),
{
    let all = traced(records, memory, metadata, stack_pointer, maps);
    assert(same_records(records, all));
    lemma_wf_same_records(records, all);
    lemma_filter_wf(all, |record: GCAllocation| record.marked);
}

/// Where every record is marked, dropping the unmarked ones keeps the
/// registry as it is.
proof fn lemma_all_marked(records: Seq<GCAllocation>)
    requires
        forall|i: int| 0 <= i < records.len() ==> (#[trigger] records[i]).marked,
    ensures
        marked_records(records) == records,
        unmarked_records(records).len() == 0,
    decreases records.len(),
{
    reveal(Seq::filter);
    if records.len() > 0 {
        lemma_all_marked(records.drop_last());
        assert(records.drop_last().push(records.last()) =~= records);
    }
}

/// Where no record is marked, dropping the unmarked ones keeps nothing.
proof fn lemma_none_marked(records: Seq<GCAllocation>)
    requires
        forall|i: int| 0 <= i < records.len() ==> !(#[trigger] records[i]).marked,
    ensures
        marked_records(records).len() == 0,
        unmarked_records(records) == records,
    decreases records.len(),
{
    reveal(Seq::filter);
    if records.len() > 0 {
        lemma_none_marked(records.drop_last());
        assert(records.drop_last().push(records.last()) =~= records);
    }
}

/// Where one record alone is unmarked, dropping the unmarked ones drops that
/// record and no other.
proof fn lemma_one_unmarked(records: Seq<GCAllocation>, j: int)
    requires
        0 <= j < records.len(),
        forall|i: int| 0 <= i < records.len() ==> (#[trigger] records[i]).marked == (i != j),
    ensures
        marked_records(records) == records.remove(j),
        unmarked_records(records) == seq![records[j]],
    decreases records.len(),
{
    reveal(Seq::filter);
    let rest = records.drop_last();
    if j == records.len() - 1 {
        lemma_all_marked(rest);
        assert(marked_records(records) =~= records.remove(j));
        assert(unmarked_records(records) =~= seq![records[j]]);
    } else {
        lemma_one_unmarked(rest, j);
        assert(marked_records(records) =~= records.remove(j));
    }
}

/// Where every record is reachable, a collection keeps every record and
/// reclaims none.
pub proof fn lemma_all_live_all_survive(
    records: Seq<GCAllocation>,
    memory: Map<usize, usize>,
    metadata: AddressRange,
    stack_pointer: usize,
    maps: Seq<String>,
)
    requires
        forall|j: int|
            0 <= j < records.len() ==> is_live(records, memory, metadata, stack_pointer, maps, j),
    ensures
        survivors(records, memory, metadata, stack_pointer, maps) == traced(
            records,
            memory,
            metadata,
            stack_pointer,
            maps,
        ),
        survivors(records, memory, metadata, stack_pointer, maps).len() == records.len(),
        reclaimed(records, memory, metadata, stack_pointer, maps).len() == 0,
{
    lemma_all_marked(traced(records, memory, metadata, stack_pointer, maps));
}

/// Where no record is reachable, a collection reclaims every record and keeps
/// none.
pub proof fn lemma_none_live_none_survive(
    records: Seq<GCAllocation>,
    memory: Map<usize, usize>,
    metadata: AddressRange,
    stack_pointer: usize,
    maps: Seq<String>,
)
    requires
        forall|j: int|
            0 <= j < records.len() ==> !is_live(records, memory, metadata, stack_pointer, maps, j),
    ensures
        survivors(records, memory, metadata, stack_pointer, maps).len() == 0,
        reclaimed(records, memory, metadata, stack_pointer, maps) == unmark_all(records),
{
    lemma_none_marked(traced(records, memory, metadata, stack_pointer, maps));
    assert(traced(records, memory, metadata, stack_pointer, maps) =~= unmark_all(records));
}

/// Where one record alone is not reachable, a collection reclaims that record
/// and no other: one record less survives.
pub proof fn lemma_one_dead_one_reclaimed(
    records: Seq<GCAllocation>,
    memory: Map<usize, usize>,
    metadata: AddressRange,
    stack_pointer: usize,
    maps: Seq<String>,
    j: int,
)
    requires
        0 <= j < records.len(),
        forall|k: int|
            0 <= k < records.len() ==> is_live(records, memory, metadata, stack_pointer, maps, k)
                == (k != j),
    ensures
        survivors(records, memory, metadata, stack_pointer, maps) == traced(
            records,
            memory,
            metadata,
            stack_pointer,
            maps,
        ).remove(j),
        survivors(records, memory, metadata, stack_pointer, maps).len() == records.len() - 1,
        reclaimed(records, memory, metadata, stack_pointer, maps) == seq![
            GCAllocation { marked: false, ..records[j] },
        ],
{
    lemma_one_unmarked(traced(records, memory, metadata, stack_pointer, maps), j);
}

/// A reachable record has a place among the survivors: the lemma returns the
/// index of the survivor that holds its storage.
proof fn lemma_live_has_survivor(
    records: Seq<GCAllocation>,
    memory: Map<usize, usize>,
    metadata: AddressRange,
    stack_pointer: usize,
    maps: Seq<String>,
    u: int,
) -> (i: int)
    requires
        0 <= u < records.len(),
        is_live(records, memory, metadata, stack_pointer, maps, u),
    ensures
        0 <= i < survivors(records, memory, metadata, stack_pointer, maps).len(),
        survivors(records, memory, metadata, stack_pointer, maps)[i].same_storage(records[u]),
{
    let all = traced(records, memory, metadata, stack_pointer, maps);
    let kept = survivors(records, memory, metadata, stack_pointer, maps);
    all.lemma_filter_contains(|record: GCAllocation| record.marked, u);
    let i = choose|i: int| 0 <= i < kept.len() && kept[i] == all[u];
    i
}

/// The survivors hold no byte that no record held.
proof fn lemma_survivors_hold_less(
    records: Seq<GCAllocation>,
    memory: Map<usize, usize>,
    metadata: AddressRange,
    stack_pointer: usize,
    maps: Seq<String>,
    cur: usize,
)
    requires
        registry_wf(records),
        is_managed(
            unmark_all(survivors(records, memory, metadata, stack_pointer, maps)),
            cur,
        ),
    ensures
        is_managed(unmark_all(records), cur),
{
    let all = traced(records, memory, metadata, stack_pointer, maps);
    let kept = survivors(records, memory, metadata, stack_pointer, maps);
    let kept_clear = unmark_all(kept);
    assert(same_records(records, all));
    lemma_wf_same_records(records, all);
    lemma_filter_wf(all, |record: GCAllocation| record.marked);
    let i = choose|i: int| 0 <= i < kept_clear.len() && (#[trigger] kept_clear[i]).contains(cur);
    let j = choose|j: int| 0 <= j < all.len() && #[trigger] all[j] == kept[i] && all[j].marked;
    assert(unmark_all(records)[j].contains(cur));
}

/// Whether the scan of `[start, end)` as a root leads to record `u` before a
/// collection, and to the survivor that holds its storage after it.
spec fn stays_live(
    records: Seq<GCAllocation>,
    memory: Map<usize, usize>,
    metadata: AddressRange,
    stack_pointer: usize,
    maps: Seq<String>,
    start: usize,
    end: usize,
    u: int,
) -> bool {
    let kept = survivors(records, memory, metadata, stack_pointer, maps);
    &&& 0 <= u < records.len()
    &&& records[u].size > 0
    &&& reaches(unmark_all(records), memory, metadata, start, end, true, u)
    &&& exists|i: int|
        0 <= i < kept.len() && (#[trigger] kept[i]).same_storage(records[u]) && reaches(
            unmark_all(kept),
            memory,
            metadata,
            start,
            end,
            true,
            i,
        )
}

/// A record that a root word refers to stays reachable.
proof fn lemma_stays_live_target(
    records: Seq<GCAllocation>,
    memory: Map<usize, usize>,
    metadata: AddressRange,
    stack_pointer: usize,
    maps: Seq<String>,
    l: int,
    t: int,
)
    requires
        registry_wf(records),
        0 <= l < maps.len(),
        root_refers(unmark_all(records), memory, metadata, stack_pointer, maps[l]@, t),
    ensures
        stays_live(
            records,
            memory,
            metadata,
            stack_pointer,
            maps,
            (region_of(maps[l]@, stack_pointer)->0).scan_start(stack_pointer),
            (region_of(maps[l]@, stack_pointer)->0).end,
            t,
        ),
{
    let kept = survivors(records, memory, metadata, stack_pointer, maps);
    let clear = unmark_all(records);
    let kept_clear = unmark_all(kept);
    let region = region_of(maps[l]@, stack_pointer)->0;
    let (start, end) = (region.scan_start(stack_pointer), region.end);
    lemma_reaches_target(clear, memory, metadata, start, end, true, t);
    assert(line_reaches(records, memory, metadata, stack_pointer, maps[l]@, t));
    let i = lemma_live_has_survivor(records, memory, metadata, stack_pointer, maps, t);
    let cur = choose|cur: usize|
        scanned(start, end, cur) && #[trigger] word_refers(
            clear,
            memory,
            metadata,
            true,
            cur,
            t,
        );
    if is_managed(kept_clear, cur) {
        lemma_survivors_hold_less(records, memory, metadata, stack_pointer, maps, cur);
    }
    assert(kept_clear[i].same_storage(clear[t]));
    assert(word_refers(kept_clear, memory, metadata, true, cur, i));
    lemma_reaches_target(kept_clear, memory, metadata, start, end, true, i);
}

/// A record that a record refers to which stays reachable stays reachable.
proof fn lemma_stays_live_step(
    records: Seq<GCAllocation>,
    memory: Map<usize, usize>,
    metadata: AddressRange,
    stack_pointer: usize,
    maps: Seq<String>,
    l: int,
    a: int,
    b: int,
)
    requires
        registry_wf(records),
        0 <= l < maps.len(),
        region_of(maps[l]@, stack_pointer) is Some,
        (region_of(maps[l]@, stack_pointer)->0).writable,
        stays_live(
            records,
            memory,
            metadata,
            stack_pointer,
            maps,
            (region_of(maps[l]@, stack_pointer)->0).scan_start(stack_pointer),
            (region_of(maps[l]@, stack_pointer)->0).end,
            a,
        ),
        0 <= b < records.len(),
        edge(unmark_all(records), memory, metadata, a, b),
    ensures
        stays_live(
            records,
            memory,
            metadata,
            stack_pointer,
            maps,
            (region_of(maps[l]@, stack_pointer)->0).scan_start(stack_pointer),
            (region_of(maps[l]@, stack_pointer)->0).end,
            b,
        ),
{
    let kept = survivors(records, memory, metadata, stack_pointer, maps);
    let clear = unmark_all(records);
    let kept_clear = unmark_all(kept);
    let region = region_of(maps[l]@, stack_pointer)->0;
    let (start, end) = (region.scan_start(stack_pointer), region.end);
    lemma_reaches_step(clear, memory, metadata, start, end, true, a, b);
    assert(line_reaches(records, memory, metadata, stack_pointer, maps[l]@, b));
    let ib = lemma_live_has_survivor(records, memory, metadata, stack_pointer, maps, b);
    let ia = choose|i: int|
        0 <= i < kept.len() && (#[trigger] kept[i]).same_storage(records[a]) && reaches(
            kept_clear,
            memory,
            metadata,
            start,
            end,
            true,
            i,
        );
    let cur = choose|cur: usize|
        scanned(clear[a].start, clear[a].end(), cur) && #[trigger] word_refers(
            clear,
            memory,
            metadata,
            false,
            cur,
            b,
        );
    assert(kept_clear[ib].same_storage(clear[b]));
    assert(kept_clear[ia].same_storage(clear[a]));
    assert(word_refers(kept_clear, memory, metadata, false, cur, ib));
    assert(scanned(kept_clear[ia].start, kept_clear[ia].end(), cur));
    assert(edge(kept_clear, memory, metadata, ia, ib));
    lemma_reaches_step(kept_clear, memory, metadata, start, end, true, ia, ib);
}

/// What the roots of one region reach before a collection, they reach after
/// it: a record that the scan of a region leads to survives the collection,
/// and the same scan leads to the survivor.
proof fn lemma_survivor_stays_live(
    records: Seq<GCAllocation>,
    memory: Map<usize, usize>,
    metadata: AddressRange,
    stack_pointer: usize,
    maps: Seq<String>,
    l: int,
    k: int,
)
    requires
        registry_wf(records),
        0 <= l < maps.len(),
        line_reaches(records, memory, metadata, stack_pointer, maps[l]@, k),
    ensures
        stays_live(
            records,
            memory,
            metadata,
            stack_pointer,
            maps,
            (region_of(maps[l]@, stack_pointer)->0).scan_start(stack_pointer),
            (region_of(maps[l]@, stack_pointer)->0).end,
            k,
        ),
{
    let clear = unmark_all(records);
    let region = region_of(maps[l]@, stack_pointer)->0;
    let (start, end) = (region.scan_start(stack_pointer), region.end);
    let inside = |u: int|
        stays_live(records, memory, metadata, stack_pointer, maps, start, end, u);
    assert forall|t: int|
        0 <= t < clear.len() && !clear[t].marked && #[trigger] range_refers(
            clear,
            memory,
            metadata,
            start,
            end,
            true,
            t,
        ) implies inside(t) by {
        lemma_stays_live_target(records, memory, metadata, stack_pointer, maps, l, t);
    }
    assert forall|a: int, b: int|
        inside(a) && 0 <= b < clear.len() && !clear[b].marked && #[trigger] edge(
            clear,
            memory,
            metadata,
            a,
            b,
        ) implies inside(b) by {
        lemma_stays_live_step(records, memory, metadata, stack_pointer, maps, l, a, b);
    }
    lemma_reaches_induct(clear, memory, metadata, start, end, true, inside, k);
}

/// A second collection with nothing changed in between finds every survivor
/// of the first reachable: it keeps the registry as the first left it, and
/// reclaims nothing.
pub proof fn lemma_collect_idempotent(
    records: Seq<GCAllocation>,
    memory: Map<usize, usize>,
    metadata: AddressRange,
    stack_pointer: usize,
    maps: Seq<String>,
)
    requires
        registry_wf(records),
    ensures
        survivors(
            survivors(records, memory, metadata, stack_pointer, maps),
            memory,
            metadata,
            stack_pointer,
            maps,
        ) == survivors(records, memory, metadata, stack_pointer, maps),
        reclaimed(
            survivors(records, memory, metadata, stack_pointer, maps),
            memory,
            metadata,
            stack_pointer,
            maps,
        ).len() == 0,
{
    let all = traced(records, memory, metadata, stack_pointer, maps);
    let kept = survivors(records, memory, metadata, stack_pointer, maps);
    let again = traced(kept, memory, metadata, stack_pointer, maps);
    assert(same_records(records, all));
    lemma_wf_same_records(records, all);
    lemma_filter_wf(all, |record: GCAllocation| record.marked);
    assert forall|i: int| 0 <= i < kept.len() implies (#[trigger] kept[i]).marked && is_live(
        kept,
        memory,
        metadata,
        stack_pointer,
        maps,
        i,
    ) by {
        let k = choose|k: int| 0 <= k < all.len() && #[trigger] all[k] == kept[i] && all[k].marked;
        let l = choose|l: int|
            0 <= l < maps.len() && #[trigger] line_reaches(
                records,
                memory,
                metadata,
                stack_pointer,
                maps[l]@,
                k,
            );
        lemma_survivor_stays_live(records, memory, metadata, stack_pointer, maps, l, k);
        let region = region_of(maps[l]@, stack_pointer)->0;
        let m = choose|m: int|
            0 <= m < kept.len() && (#[trigger] kept[m]).same_storage(records[k]) && reaches(
                unmark_all(kept),
                memory,
                metadata,
                region.scan_start(stack_pointer),
                region.end,
                true,
                m,
            );
        assert(line_reaches(kept, memory, metadata, stack_pointer, maps[l]@, m));
        if m < i {
            assert(kept[m].disjoint(kept[i]));
        } else if i < m {
            assert(kept[i].disjoint(kept[m]));
        }
    }
    assert(again =~= kept);
    lemma_all_marked(kept);
}

} // verus!
