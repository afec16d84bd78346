//! What a whole collection decides: which records the roots reach, and which
//! records are left once the rest is swept.

use vstd::prelude::*;
use crate::allocations::{GCAllocation, registry_wf, same_records};
use crate::memory::AddressRange;
use crate::reach::{
    edge, lemma_path_fewer_marks, lemma_reaches_induct, lemma_reaches_step, lemma_reaches_target,
    lemma_refers_same_records, marked_from, marks_kept, range_refers, reaches, unmarked_path,
};
use crate::regions::{MemoryRegion, region_of};

verus! {

/// The registry with every mark cleared.
pub open spec fn unmark_all(records: Seq<GCAllocation>) -> Seq<GCAllocation> {
    Seq::new(records.len(), |j: int| GCAllocation { marked: false, ..records[j] })
}

/// The registry after the scan of one region: a region that is not writable
/// is passed over, a writable one is scanned as a root, the stack from the
/// stack pointer on.
pub open spec fn marked_from_region(
    records: Seq<GCAllocation>,
    memory: Map<usize, usize>,
    metadata: AddressRange,
    region: MemoryRegion,
    stack_pointer: usize,
) -> Seq<GCAllocation> {
    if region.writable {
        marked_from(
            records,
            memory,
            metadata,
            region.scan_start(stack_pointer),
            region.end,
            true,
        )
    } else {
        records
    }
}

/// Whether the region that `line` describes is a root of record `j`: the
/// region is writable, and its scan leads to the record.
pub open spec fn line_reaches(
    records: Seq<GCAllocation>,
    memory: Map<usize, usize>,
    metadata: AddressRange,
    stack_pointer: usize,
    line: Seq<char>,
    j: int,
) -> bool {
    match region_of(line, stack_pointer) {
        Some(region) => region.writable && reaches(
            unmark_all(records),
            memory,
            metadata,
            region.scan_start(stack_pointer),
            region.end,
            true,
            j,
        ),
        None => false,
    }
}

/// Whether record `j` is reachable: some region of the mapping description is
/// a root of it.
pub open spec fn is_live(
    records: Seq<GCAllocation>,
    memory: Map<usize, usize>,
    metadata: AddressRange,
    stack_pointer: usize,
    maps: Seq<String>,
    j: int,
) -> bool {
    exists|l: int|
        0 <= l < maps.len() && #[trigger] line_reaches(
            records,
            memory,
            metadata,
            stack_pointer,
            maps[l]@,
            j,
        )
}

/// The registry after the mark phase of a collection: a record is marked if
/// and only if it is reachable.
pub open spec fn traced(
    records: Seq<GCAllocation>,
    memory: Map<usize, usize>,
    metadata: AddressRange,
    stack_pointer: usize,
    maps: Seq<String>,
) -> Seq<GCAllocation> {
    Seq::new(
        records.len(),
        |j: int|
            GCAllocation {
                marked: is_live(records, memory, metadata, stack_pointer, maps, j),
                ..records[j]
            },
    )
}

/// The marked records, in order.
pub open spec fn marked_records(records: Seq<GCAllocation>) -> Seq<GCAllocation> {
    records.filter(|record: GCAllocation| record.marked)
}

/// The unmarked records, in order.
pub open spec fn unmarked_records(records: Seq<GCAllocation>) -> Seq<GCAllocation> {
    records.filter(|record: GCAllocation| !record.marked)
}

/// The registry after a collection: the reachable records, in order and
/// marked.
pub open spec fn survivors(
    records: Seq<GCAllocation>,
    memory: Map<usize, usize>,
    metadata: AddressRange,
    stack_pointer: usize,
    maps: Seq<String>,
) -> Seq<GCAllocation> {
    marked_records(traced(records, memory, metadata, stack_pointer, maps))
}

/// The records that a collection reclaims: the unreachable ones, in order and
/// unmarked.
pub open spec fn reclaimed(
    records: Seq<GCAllocation>,
    memory: Map<usize, usize>,
    metadata: AddressRange,
    stack_pointer: usize,
    maps: Seq<String>,
) -> Seq<GCAllocation> {
    unmarked_records(traced(records, memory, metadata, stack_pointer, maps))
}

/// Whether every line of the mapping description is well-formed.
pub open spec fn maps_wf(maps: Seq<String>, stack_pointer: usize) -> bool {
    forall|l: int| 0 <= l < maps.len() ==> region_of(#[trigger] maps[l]@, stack_pointer) is Some
}

/// With no region scanned yet, no record is marked.
pub proof fn lemma_trace_start(
    records: Seq<GCAllocation>,
    memory: Map<usize, usize>,
    metadata: AddressRange,
    stack_pointer: usize,
    maps: Seq<String>,
)
    ensures
        traced(records, memory, metadata, stack_pointer, maps.take(0)) == unmark_all(records),
{
    assert(traced(records, memory, metadata, stack_pointer, maps.take(0)) =~= unmark_all(records));
}

/// One more region: scanning the region of line `k` in the registry that the
/// lines before it left gives the registry that the lines up to and with it
/// leave.
pub proof fn lemma_trace_line(
    records: Seq<GCAllocation>,
    now: Seq<GCAllocation>,
    after: Seq<GCAllocation>,
    memory: Map<usize, usize>,
    metadata: AddressRange,
    stack_pointer: usize,
    maps: Seq<String>,
    k: int,
)
    requires
        0 <= k < maps.len(),
        region_of(maps[k]@, stack_pointer) is Some,
        now == traced(records, memory, metadata, stack_pointer, maps.take(k)),
        after == marked_from_region(
            now,
            memory,
            metadata,
            region_of(maps[k]@, stack_pointer)->0,
            stack_pointer,
        ),
    ensures
        after == traced(records, memory, metadata, stack_pointer, maps.take(k + 1)),
{
    let clear = unmark_all(records);
    let region = region_of(maps[k]@, stack_pointer)->0;
    let (start, end) = (region.scan_start(stack_pointer), region.end);
    let earlier = maps.take(k);
    let upto = maps.take(k + 1);
    assert(same_records(clear, now) && marks_kept(clear, now));
    assert(same_records(now, after) && marks_kept(now, after));
    lemma_refers_same_records(clear, now, memory, metadata);
    assert forall|j: int| 0 <= j < records.len() implies (#[trigger] after[j]).marked == is_live(
        records,
        memory,
        metadata,
        stack_pointer,
        upto,
        j,
    ) by {
        if after[j].marked {
            if now[j].marked {
                let l = choose|l: int|
                    0 <= l < earlier.len() && #[trigger] line_reaches(
                        records,
                        memory,
                        metadata,
                        stack_pointer,
                        earlier[l]@,
                        j,
                    );
                assert(upto[l] == earlier[l]);
            } else {
                let path = choose|path: Seq<int>|
                    #[trigger] unmarked_path(now, memory, metadata, path) && range_refers(
                        now,
                        memory,
                        metadata,
                        start,
                        end,
                        true,
                        path[0],
                    ) && path.last() == j;
                lemma_path_fewer_marks(clear, now, memory, metadata, path);
                assert(upto[k] == maps[k]);
                assert(line_reaches(records, memory, metadata, stack_pointer, upto[k]@, j));
            }
        }
        if is_live(records, memory, metadata, stack_pointer, upto, j) {
            let l = choose|l: int|
                0 <= l < upto.len() && #[trigger] line_reaches(
                    records,
                    memory,
                    metadata,
                    stack_pointer,
                    upto[l]@,
                    j,
                );
            if l < k {
                assert(earlier[l] == upto[l]);
                assert(now[j].marked);
            } else {
                assert(upto[k] == maps[k]);
                let inside = |u: int| 0 <= u < records.len() && after[u].marked;
                assert forall|u: int|
                    0 <= u < clear.len() && !clear[u].marked && #[trigger] range_refers(
                        clear,
                        memory,
                        metadata,
                        start,
                        end,
                        true,
                        u,
                    ) implies inside(u) by {
                    if !now[u].marked {
                        lemma_reaches_target(now, memory, metadata, start, end, true, u);
                    }
                }
                assert forall|a: int, b: int|
                    inside(a) && 0 <= b < clear.len() && !clear[b].marked && #[trigger] edge(
                        clear,
                        memory,
                        metadata,
                        a,
                        b,
                    ) implies inside(b) by {
                    if now[a].marked {
                        let m = choose|m: int|
                            0 <= m < earlier.len() && #[trigger] line_reaches(
                                records,
                                memory,
                                metadata,
                                stack_pointer,
                                earlier[m]@,
                                a,
                            );
                        let source = region_of(earlier[m]@, stack_pointer)->0;
                        lemma_reaches_step(
                            clear,
                            memory,
                            metadata,
                            source.scan_start(stack_pointer),
                            source.end,
                            true,
                            a,
                            b,
                        );
                        assert(line_reaches(
                            records,
                            memory,
                            metadata,
                            stack_pointer,
                            earlier[m]@,
                            b,
                        ));
                        assert(now[b].marked);
                    } else if !now[b].marked {
                        lemma_reaches_step(now, memory, metadata, start, end, true, a, b);
                    }
                }
                lemma_reaches_induct(clear, memory, metadata, start, end, true, inside, j);
            }
        }
    }
    assert(after =~= traced(records, memory, metadata, stack_pointer, upto));
}

/// What is left of a well-formed registry when records are dropped from it is
/// well-formed, and every record left was a record of the registry.
pub(crate) proof fn lemma_filter_wf(records: Seq<GCAllocation>, keep: spec_fn(GCAllocation) -> bool)
    requires
        registry_wf(records),
    ensures
        registry_wf(records.filter(keep)),
        forall|i: int|
            0 <= i < records.filter(keep).len() ==> exists|k: int|
                0 <= k < records.len() && #[trigger] records[k] == (
                #[trigger] records.filter(keep)[i]) && keep(records[k]),
    decreases records.len(),
{
    reveal(Seq::filter);
    if records.len() > 0 {
        let rest = records.drop_last();
        let kept = rest.filter(keep);
        lemma_filter_wf(rest, keep);
        let all = records.filter(keep);
        assert forall|i: int| 0 <= i < all.len() implies exists|k: int|
            0 <= k < records.len() && #[trigger] records[k] == (#[trigger] all[i]) && keep(
                records[k],
            ) by {
            if i < kept.len() {
                let k = choose|k: int|
                    0 <= k < rest.len() && #[trigger] rest[k] == kept[i] && keep(rest[k]);
                assert(records[k] == all[i]);
            } else {
                assert(records[records.len() - 1] == all[i]);
            }
        }
        assert forall|i: int, j: int| 0 <= i < j < all.len() implies (#[trigger] all[i]).disjoint(
            #[trigger] all[j],
        ) by {
            if j < kept.len() {
                assert(kept[i].disjoint(kept[j]));
            } else {
                let k = choose|k: int|
                    0 <= k < rest.len() && #[trigger] rest[k] == kept[i] && keep(rest[k]);
                assert(records[k].disjoint(records[records.len() - 1]));
            }
        }
        assert forall|i: int| 0 <= i < all.len() implies (#[trigger] all[i]).in_bounds() by {
            if i < kept.len() {
                assert(kept[i].in_bounds());
            } else {
                assert(records[records.len() - 1].in_bounds());
            }
        }
    }
}

} // verus!
