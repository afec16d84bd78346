//! Allocation records and the invariant of a registry of them.

use vstd::prelude::*;

verus! {

/// One live managed value: where its storage lies, how it is laid out, and
/// whether the current collection has reached it.
#[derive(Clone, Copy, Debug)]
pub struct GCAllocation {
    /// Size of the storage in bytes.
    pub size: usize,
    /// Alignment of the storage in bytes.
    pub align: usize,
    /// Set by the mark phase once the record is known to be reachable.
    pub marked: bool,
    /// Address of the first byte of the storage.
    pub start: usize,
}

impl GCAllocation {
    /// The storage ends inside the address space.
    pub open spec fn in_bounds(&self) -> bool {
        self.start + self.size <= usize::MAX
    }

    /// The address one past the last byte of the storage.
    pub open spec fn spec_end(&self) -> usize
        recommends
            self.in_bounds(),
    {
        (self.start + self.size) as usize
    }

    /// Whether `ptr` is the address of a byte of the storage.
    pub open spec fn spec_contains(&self, ptr: usize) -> bool {
        self.start <= ptr < self.start + self.size
    }

    /// Whether the two records cover the same bytes under the same layout;
    /// only the mark may differ.
    pub open spec fn same_storage(&self, other: GCAllocation) -> bool {
        &&& self.start == other.start
        &&& self.size == other.size
        &&& self.align == other.align
    }

    /// Whether the two records share no byte.
    pub open spec fn disjoint(&self, other: GCAllocation) -> bool {
        ||| self.size == 0
        ||| other.size == 0
        ||| self.start + self.size <= other.start
        ||| other.start + other.size <= self.start
    }

    /// The address one past the last byte of the storage.
    #[verifier::when_used_as_spec(spec_end)]
    pub fn end(&self) -> (end: usize)
        requires
            self.in_bounds(),
        ensures
            end == self.start + self.size,
            end == self.spec_end(),
    {
        self.start + self.size
    }

    /// Whether `ptr` is the address of a byte of the storage.
    #[verifier::when_used_as_spec(spec_contains)]
    pub fn contains(&self, ptr: usize) -> (inside: bool)
        ensures
            inside == self.spec_contains(ptr),
    {
        ptr >= self.start && ptr - self.start < self.size
    }
}

/// The invariant of a registry: every record ends inside the address space,
/// and no two records share a byte.
pub open spec fn registry_wf(records: Seq<GCAllocation>) -> bool {
    &&& forall|i: int| 0 <= i < records.len() ==> (#[trigger] records[i]).in_bounds()
    &&& forall|i: int, j: int|
        0 <= i < j < records.len() ==> (#[trigger] records[i]).disjoint(#[trigger] records[j])
}

/// Whether the two registries hold the same storage in the same order; only
/// the marks may differ.
pub open spec fn same_records(a: Seq<GCAllocation>, b: Seq<GCAllocation>) -> bool {
    &&& a.len() == b.len()
    &&& forall|i: int| 0 <= i < a.len() ==> (#[trigger] a[i]).same_storage(b[i])
}

/// Whether some record of the registry holds the byte at `ptr`.
pub open spec fn is_managed(records: Seq<GCAllocation>, ptr: usize) -> bool {
    exists|i: int| 0 <= i < records.len() && (#[trigger] records[i]).contains(ptr)
}

/// No two records of a well-formed registry hold the same byte.
pub proof fn lemma_records_never_overlap(records: Seq<GCAllocation>, i: int, j: int, ptr: usize)
    requires
        registry_wf(records),
        0 <= i < records.len(),
        0 <= j < records.len(),
        i != j,
    ensures
        !(records[i].contains(ptr) && records[j].contains(ptr)),
{
    if i < j {
        assert(records[i].disjoint(records[j]));
    } else {
        assert(records[j].disjoint(records[i]));
    }
}

} // verus!
