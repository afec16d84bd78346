//! The collector: a registry of allocation records, the mark phase that
//! scans memory for references to them, and the sweep that drops the rest.

use vstd::prelude::*;
use crate::allocations::{
    GCAllocation, is_managed, lemma_records_never_overlap, registry_wf, same_records,
};
use crate::arch::{
    align_down, align_up, get_pointer_size, is_word_aligned, lemma_next_word, lemma_rounding,
    lemma_scanned_bounds, lemma_scanned_short, scanned, word_size,
};
use crate::memory::{AddressRange, Memory};
use crate::reach::{
    lemma_marked_from_keeps, lemma_refers_same_records, lemma_scan_begin, lemma_scan_end,
    lemma_scan_follow, lemma_scan_nothing, lemma_scan_skip, lemma_unmarked_monotone,
    lemma_unmarked_strict, lemma_wf_same_records, marked_from, unmarked, value_refers,
    word_refers,
};
use crate::refs::GCRef;
use crate::regions::{parse_region, region_of};
use crate::scan::{Scan, Span, visited};
use crate::trace::{
    lemma_filter_wf, lemma_trace_line, lemma_trace_start, maps_wf, marked_from_region,
    marked_records, reclaimed, survivors, traced, unmark_all, unmarked_records,
};

verus! {

/// A collector and the registry of the allocations it manages.
pub struct GCContext {
    allocations: Vec<GCAllocation>,
}

impl View for GCContext {
    type V = Seq<GCAllocation>;

    /// The records of the registry, oldest first.
    closed spec fn view(&self) -> Seq<GCAllocation> {
        self.allocations@
    }
}

impl GCContext {
    /// The invariant of the registry: every record ends inside the address
    /// space, and no two records share a byte.
    pub open spec fn wf(&self) -> bool {
        registry_wf(self@)
    }

    /// Whether `size` bytes at `address` end inside the address space and
    /// share no byte with a record of the registry.
    pub open spec fn spec_is_vacant(&self, address: usize, size: usize) -> bool {
        let fresh = GCAllocation { size, align: 1, marked: false, start: address };
        &&& fresh.in_bounds()
        &&& forall|i: int| 0 <= i < self@.len() ==> (#[trigger] self@[i]).disjoint(fresh)
    }

    /// A collector with an empty registry.
    pub fn new() -> (context: GCContext)
        ensures
            context@ == Seq::<GCAllocation>::empty(),
            context.wf(),
    {
        GCContext { allocations: Vec::new() }
    }

    /// The records of the registry, oldest first.
    pub fn allocations(&self) -> (records: &[GCAllocation])
        ensures
            records@ == self@,
    {
        self.allocations.as_slice()
    }

    /// The index of the first record that holds the byte at `ptr`.
    pub fn find(&self, ptr: usize) -> (found: Option<usize>)
        ensures
            match found {
                Some(i) => {
                    &&& i < self@.len()
                    &&& self@[i as int].contains(ptr)
                    &&& forall|k: int| 0 <= k < i ==> !(#[trigger] self@[k]).contains(ptr)
                },
                None => !is_managed(self@, ptr),
            },
    {
        let mut i: usize = 0;
        while i < self.allocations.len()
            invariant
                i <= self.allocations.len(),
                forall|k: int| 0 <= k < i ==> !(#[trigger] self@[k]).contains(ptr),
            decreases self.allocations.len() - i,
        {
            if self.allocations[i].contains(ptr) {
                return Some(i);
            }
            i += 1;
        }
        None
    }

    /// Whether `size` bytes at `address` end inside the address space and
    /// share no byte with a record of the registry.
    #[verifier::when_used_as_spec(spec_is_vacant)]
    pub fn is_vacant(&self, address: usize, size: usize) -> (vacant: bool)
        ensures
            vacant == self.spec_is_vacant(address, size),
    {
        if size > usize::MAX - address {
            return false;
        }
        let ghost fresh = GCAllocation { size, align: 1, marked: false, start: address };
        let mut i: usize = 0;
        while i < self.allocations.len()
            invariant
                i <= self.allocations.len(),
                address + size <= usize::MAX,
                fresh == (GCAllocation { size, align: 1, marked: false, start: address }),
                forall|k: int| 0 <= k < i ==> (#[trigger] self@[k]).disjoint(fresh),
            decreases self.allocations.len() - i,
        {
            let record = &self.allocations[i];
            if size != 0 && record.size != 0 && record.start < address + size && (address
                <= record.start || address - record.start < record.size) {
                assert(!self@[i as int].disjoint(fresh));
                return false;
            }
            i += 1;
        }
        true
    }

    /// Registers `size` bytes of storage at `address`, aligned to `align`, as a
    /// new unmarked record at the end of the registry.
    pub fn insert(&mut self, size: usize, align: usize, address: usize)
        requires
            old(self).wf(),
            old(self).is_vacant(address, size),
        ensures
            final(self).wf(),
            final(self)@ == old(self)@.push(
                GCAllocation { size, align, marked: false, start: address },
            ),
    {
        let ghost fresh = GCAllocation { size, align: 1, marked: false, start: address };
        self.allocations.push(GCAllocation { size, align, marked: false, start: address });
        proof {
            assert forall|i: int, j: int| 0 <= i < j < self@.len() implies (
            #[trigger] self@[i]).disjoint(#[trigger] self@[j]) by {
                if j == self@.len() - 1 {
                    assert(old(self)@[i].disjoint(fresh));
                } else {
                    assert(old(self)@[i].disjoint(old(self)@[j]));
                }
            }
        }
    }

    /// Registers the storage at `address` as holding a value of type `T`, and
    /// hands out a handle to it.
    pub fn allocate<T>(&mut self, address: usize) -> (handle: GCRef<T>)
        requires
            old(self).wf(),
            old(self).is_vacant(address, core::mem::size_of::<T>()),
        ensures
            final(self).wf(),
            final(self)@ == old(self)@.push(
                GCAllocation {
                    size: core::mem::size_of::<T>(),
                    align: core::mem::align_of::<T>(),
                    marked: false,
                    start: address,
                },
            ),
            handle.address() == address,
    {
        self.insert(core::mem::size_of::<T>(), core::mem::align_of::<T>(), address);
        GCRef::new(address)
    }

    /// The index of the record that a scan which finds `value` in the word at
    /// `cur` reads it as a reference to.
    ///
    /// A word inside `metadata`, the storage of the registry itself, refers
    /// to nothing, nor does in a `first` scan a word inside a record. Any
    /// other word refers to the first record that holds the byte at the
    /// address that is its value.
    pub fn referent(
        &self,
        cur: usize,
        first: bool,
        value: Option<usize>,
        metadata: AddressRange,
    ) -> (found: Option<usize>)
        ensures
            match found {
                Some(t) => {
                    &&& value_refers(self@, metadata, first, cur, value, t as int)
                    &&& forall|j: int|
                        0 <= j < t ==> !value_refers(self@, metadata, first, cur, value, j)
                },
                None => forall|j: int| !value_refers(self@, metadata, first, cur, value, j),
            },
    {
        if metadata.contains(cur) {
            return None;
        }
        if first && self.find(cur).is_some() {
            return None;
        }
        match value {
            Some(address) => self.find(address),
            None => None,
        }
    }

    /// Scans the words of `[start, end)` and marks every record that the scan
    /// reaches.
    ///
    /// The scan visits each word-aligned word that lies wholly inside the
    /// range, except those inside `metadata`, the storage of the registry
    /// itself, and, in a `first` scan, those inside a record. Where the value
    /// of a word is the address of a byte of a record, that record is marked,
    /// and if it was not marked before, its own storage is scanned in turn.
    pub fn mark_range(
        &mut self,
        start: usize,
        end: usize,
        first: bool,
        memory: &Memory,
        metadata: AddressRange,
    )
        requires
            old(self).wf(),
        ensures
            final(self).wf(),
            final(self)@ == marked_from(old(self)@, memory@, metadata, start, end, first),
        decreases unmarked(old(self)@),
    {
        let ghost before = self@;
        proof {
            lemma_marked_from_keeps(before, memory@, metadata, start, end, first);
            lemma_wf_same_records(
                before,
                marked_from(before, memory@, metadata, start, end, first),
            );
        }
        if start >= end {
            proof {
                assert forall|c: usize, j: int| #[trigger]
                    word_refers(before, memory@, metadata, first, c, j) implies !scanned(
                    start,
                    end,
                    c,
                ) by {
                    lemma_scanned_short(start, end, c);
                }
                lemma_scan_nothing(before, memory@, metadata, start, end, first);
            }
            return ;
        }
        let w: usize = get_pointer_size();
        let limit: usize = align_down(end);
        let mut cur: usize = match align_up(start) {
            Some(aligned) => aligned,
            None => {
                proof {
                    assert forall|c: usize, j: int| #[trigger]
                        word_refers(before, memory@, metadata, first, c, j) implies !scanned(
                        start,
                        end,
                        c,
                    ) by {
                        if scanned(start, end, c) {
                            lemma_scanned_bounds(start, end, c);
                        }
                    }
                    lemma_scan_nothing(before, memory@, metadata, start, end, first);
                }
                return ;
            },
        };
        proof {
            lemma_rounding(start, 0);
            lemma_rounding(end, 0);
            lemma_scan_begin(before, memory@, metadata, start, cur, first);
        }
        while cur < limit
            invariant
                w == word_size(),
                is_word_aligned(cur),
                is_word_aligned(limit),
                start <= cur,
                cur <= limit || cur < start + w,
                before == old(self)@,
                registry_wf(before),
                self@ == marked_from(before, memory@, metadata, start, cur, first),
            decreases limit - cur,
        {
            let ghost now = self@;
            proof {
                lemma_next_word(cur, limit);
                lemma_marked_from_keeps(before, memory@, metadata, start, cur, first);
                lemma_wf_same_records(before, now);
                lemma_refers_same_records(before, now, memory@, metadata);
            }
            let next: usize = cur + w;
            let value = memory.read(cur);
            match self.referent(cur, first, value, metadata) {
                Some(t) => {
                    let was_marked = self.allocations[t].marked;
                    self.allocations[t].marked = true;
                    let s: usize = self.allocations[t].start;
                    let e: usize = self.allocations[t].end();
                    if !was_marked {
                        proof {
                            lemma_wf_same_records(now, self@);
                            lemma_unmarked_strict(now, self@, t as int);
                            lemma_unmarked_monotone(before, now);
                        }
                        self.mark_range(s, e, false, memory, metadata);
                    } else {
                        assert(self@ =~= now);
                    }
                    proof {
                        lemma_scan_follow(
                            before,
                            now,
                            self@,
                            memory@,
                            metadata,
                            start,
                            cur,
                            next,
                            first,
                            t as int,
                        );
                    }
                },
                None => {
                    proof {
                        lemma_scan_skip(before, memory@, metadata, start, cur, next, first);
                    }
                },
            }
            cur = next;
        }
        proof {
            lemma_scan_end(before, memory@, metadata, start, end, cur, limit, first);
        }
    }

    /// Tells a scan in steps that the word it waits for holds `value`, or
    /// with `None` that the word cannot be read.
    ///
    /// The scan moves past the word. Where the word refers to a record that is
    /// not marked yet, the record is marked and its storage is what the scan
    /// goes on with. A scan that waits for no word is left as it is.
    pub fn visit(&mut self, scan: &mut Scan, metadata: AddressRange, value: Option<usize>)
        requires
            old(self).wf(),
        ensures
            final(self).wf(),
            (final(self)@, final(scan).pending@) == visited(
                old(self)@,
                old(scan).pending@,
                metadata,
                value,
            ),
    {
        let n: usize = scan.pending.len();
        if n == 0 {
            return ;
        }
        let top = scan.pending[n - 1];
        let w: usize = get_pointer_size();
        if top.start % w != 0 || top.start > top.end || top.end - top.start < w {
            return ;
        }
        let cur: usize = top.start;
        scan.pending[n - 1].start = cur + w;
        proof {
            assert(scan.pending@ =~= old(scan).pending@.drop_last().push(
                Span { start: (cur + w) as usize, ..top },
            ));
        }
        match self.referent(cur, top.first, value, metadata) {
            Some(t) => {
                proof {
                    assert forall|j: int|
                        value_refers(self@, metadata, top.first, cur, value, j) implies j
                        == t by {
                        if j != t {
                            lemma_records_never_overlap(self@, j, t as int, value->0);
                        }
                    }
                }
                if !self.allocations[t].marked {
                    self.allocations[t].marked = true;
                    let inner = Span {
                        start: self.allocations[t].start,
                        end: self.allocations[t].end(),
                        first: false,
                    };
                    scan.pending.push(inner);
                    proof {
                        lemma_wf_same_records(old(self)@, self@);
                    }
                }
            },
            None => {},
        }
    }

    /// Scans the region that one line of the mapping description gives, as a
    /// root. A region that is not writable is passed over; the stack is scanned
    /// from the stack pointer on.
    pub fn mark_map(
        &mut self,
        map: &str,
        stack_pointer: usize,
        memory: &Memory,
        metadata: AddressRange,
    )
        requires
            old(self).wf(),
            region_of(map@, stack_pointer) is Some,
        ensures
            final(self).wf(),
            final(self)@ == marked_from_region(
                old(self)@,
                memory@,
                metadata,
                region_of(map@, stack_pointer)->0,
                stack_pointer,
            ),
    {
        let region = parse_region(map, stack_pointer).unwrap();
        if !region.writable {
            return ;
        }
        let mark_start = region.scan_start(stack_pointer);
        self.mark_range(mark_start, region.end, true, memory, metadata)
    }

    /// Clears the mark of every record.
    pub fn reset_marks(&mut self)
        requires
            old(self).wf(),
        ensures
            final(self).wf(),
            final(self)@ == unmark_all(old(self)@),
    {
        let mut i: usize = 0;
        while i < self.allocations.len()
            invariant
                i <= self.allocations.len(),
                same_records(old(self)@, self@),
                forall|k: int| 0 <= k < i ==> !(#[trigger] self@[k]).marked,
                forall|k: int| i <= k < self@.len() ==> self@[k] == old(self)@[k],
            decreases self.allocations.len() - i,
        {
            self.allocations[i].marked = false;
            i += 1;
        }
        proof {
            lemma_wf_same_records(old(self)@, self@);
            assert(self@ =~= unmark_all(old(self)@));
        }
    }

    /// Drops every unmarked record from the registry and returns the records
    /// dropped. Both the records kept and the records returned stay in order.
    ///
    /// The records kept are moved to the front of the storage that the
    /// registry has; the storage itself stays where it is.
    pub fn retain_marked(&mut self) -> (dropped: Vec<GCAllocation>)
        requires
            old(self).wf(),
        ensures
            final(self).wf(),
            final(self)@ == marked_records(old(self)@),
            dropped@ == unmarked_records(old(self)@),
    {
        let mut dropped: Vec<GCAllocation> = Vec::new();
        let n: usize = self.allocations.len();
        let mut kept: usize = 0;
        let mut i: usize = 0;
        proof {
            reveal(Seq::filter);
            assert(old(self)@.take(0) =~= Seq::<GCAllocation>::empty());
            assert(self@.take(0) =~= Seq::<GCAllocation>::empty());
        }
        while i < n
            invariant
                kept <= i <= n,
                n == old(self)@.len(),
                self@.len() == n,
                self@.take(kept as int) == marked_records(old(self)@.take(i as int)),
                forall|k: int| i <= k < n ==> self@[k] == old(self)@[k],
                dropped@ == unmarked_records(old(self)@.take(i as int)),
            decreases n - i,
        {
            let record = self.allocations[i];
            proof {
                reveal(Seq::filter);
                let upto = old(self)@.take(i + 1);
                assert(upto.drop_last() =~= old(self)@.take(i as int));
                assert(upto.last() == record);
            }
            if record.marked {
                let ghost before = self@;
                self.allocations[kept] = record;
                proof {
                    assert(self@.take(kept + 1) =~= before.take(kept as int).push(record));
                }
                kept += 1;
            } else {
                dropped.push(record);
            }
            i += 1;
        }
        self.allocations.truncate(kept);
        proof {
            assert(old(self)@.take(n as int) =~= old(self)@);
            assert(self@ =~= marked_records(old(self)@));
            lemma_filter_wf(old(self)@, |record: GCAllocation| record.marked);
        }
        dropped
    }

    /// Runs one collection: clears every mark, scans the regions of the mapping
    /// description as roots, and drops every record left unmarked.
    ///
    /// `stack_pointer` is the stack pointer of the caller, `maps` holds the
    /// lines of the mapping description, `memory` the words of memory, and
    /// `metadata` is the range that the registry's own storage lies in.
    ///
    /// A record stays if and only if it is reachable. The records that stay
    /// keep their order and are all marked. The records dropped are returned
    /// in order, for their storage to be released.
    pub fn collect(
        &mut self,
        stack_pointer: usize,
        maps: &Vec<String>,
        memory: &Memory,
        metadata: AddressRange,
    ) -> (dropped: Vec<GCAllocation>)
        requires
            old(self).wf(),
            maps_wf(maps@, stack_pointer),
        ensures
            final(self).wf(),
            final(self)@ == survivors(old(self)@, memory@, metadata, stack_pointer, maps@),
            dropped@ == reclaimed(old(self)@, memory@, metadata, stack_pointer, maps@),
    {
        self.reset_marks();
        proof {
            lemma_trace_start(old(self)@, memory@, metadata, stack_pointer, maps@);
        }
        let mut i: usize = 0;
        while i < maps.len()
            invariant
                i <= maps.len(),
                self.wf(),
                maps_wf(maps@, stack_pointer),
                self@ == traced(
                    old(self)@,
                    memory@,
                    metadata,
                    stack_pointer,
                    maps@.take(i as int),
                ),
            decreases maps.len() - i,
        {
            let ghost now = self@;
            self.mark_map(maps[i].as_str(), stack_pointer, memory, metadata);
            proof {
                lemma_trace_line(
                    old(self)@,
                    now,
                    self@,
                    memory@,
                    metadata,
                    stack_pointer,
                    maps@,
                    i as int,
                );
            }
            i += 1;
        }
        proof {
            assert(maps@.take(i as int) =~= maps@);
        }
        self.retain_marked()
    }
}

} // verus!
