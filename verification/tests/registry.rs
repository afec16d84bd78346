use conservative_gc::allocations::GCAllocation;
use conservative_gc::memory::{AddressRange, Memory};
use conservative_gc::refs::GCRef;
use conservative_gc::GCContext;

const NOWHERE: AddressRange = AddressRange { start: 0, end: 0 };

fn starts(gc: &GCContext) -> Vec<usize> {
    gc.allocations().iter().map(|a| a.start).collect()
}

fn marks(gc: &GCContext) -> Vec<bool> {
    gc.allocations().iter().map(|a| a.marked).collect()
}

/// No two records of the registry share a byte, and each ends inside the
/// address space.
fn never_overlaps(gc: &GCContext) -> bool {
    let records = gc.allocations();
    for (i, a) in records.iter().enumerate() {
        if a.start.checked_add(a.size).is_none() {
            return false;
        }
        for b in records[i + 1..].iter() {
            if a.size != 0 && b.size != 0 && a.start < b.end() && b.start < a.end() {
                return false;
            }
        }
    }
    true
}

#[test]
fn a_new_registry_is_empty() {
    let gc = GCContext::new();
    assert_eq!(gc.allocations().len(), 0);
    assert_eq!(gc.find(0), None);
    assert!(gc.is_vacant(0, 0));
    assert!(gc.is_vacant(0, usize::MAX));
    assert!(!gc.is_vacant(1, usize::MAX));
}

#[test]
fn allocate_registers_the_layout_of_the_type() {
    let mut gc = GCContext::new();
    let a: GCRef<u8> = gc.allocate(0x1000);
    let b: GCRef<u64> = gc.allocate(0x1008);
    let c: GCRef<[u32; 5]> = gc.allocate(0x1010);
    let d: GCRef<()> = gc.allocate(0x1010);
    assert_eq!((a.address(), b.address(), c.address(), d.address()), (0x1000, 0x1008, 0x1010, 0x1010));
    let records = gc.allocations();
    assert_eq!(records.len(), 4);
    let seen: Vec<(usize, usize, usize, bool)> =
        records.iter().map(|r| (r.start, r.size, r.align, r.marked)).collect();
    assert_eq!(
        seen,
        vec![
            (0x1000, 1, 1, false),
            (0x1008, 8, 8, false),
            (0x1010, 20, 4, false),
            (0x1010, 0, 1, false),
        ]
    );
    assert!(never_overlaps(&gc));
}

#[test]
fn insert_appends_an_unmarked_record() {
    let mut gc = GCContext::new();
    gc.insert(32, 16, 0x4000);
    gc.insert(8, 8, 0x2000);
    let records = gc.allocations();
    assert_eq!(records.len(), 2);
    assert_eq!((records[0].start, records[0].size, records[0].align, records[0].marked), (0x4000, 32, 16, false));
    assert_eq!((records[1].start, records[1].size, records[1].align, records[1].marked), (0x2000, 8, 8, false));
    assert_eq!(records[0].end(), 0x4020);
}

#[test]
fn storage_is_vacant_where_no_record_lies() {
    let mut gc = GCContext::new();
    gc.insert(16, 8, 0x1000);
    assert!(gc.is_vacant(0x0ff0, 16));
    assert!(gc.is_vacant(0x1010, 16));
    assert!(!gc.is_vacant(0x0ff8, 16));
    assert!(!gc.is_vacant(0x1000, 16));
    assert!(!gc.is_vacant(0x1008, 1));
    assert!(!gc.is_vacant(0x100f, 16));
    assert!(!gc.is_vacant(0x0000, 0x2000));
    // an empty range shares no byte with anything
    assert!(gc.is_vacant(0x1008, 0));
    // storage must end inside the address space
    assert!(gc.is_vacant(usize::MAX - 16, 16));
    assert!(!gc.is_vacant(usize::MAX - 16, 17));
    assert!(gc.is_vacant(usize::MAX, 0));
}

#[test]
fn find_gives_the_record_that_holds_a_byte() {
    let mut gc = GCContext::new();
    gc.insert(16, 8, 0x2000);
    gc.insert(0, 1, 0x2004);
    gc.insert(4, 4, 0x1000);
    assert_eq!(gc.find(0x2000), Some(0));
    assert_eq!(gc.find(0x200f), Some(0));
    assert_eq!(gc.find(0x2004), Some(0));
    assert_eq!(gc.find(0x2010), None);
    assert_eq!(gc.find(0x1fff), None);
    assert_eq!(gc.find(0x1003), Some(2));
    assert_eq!(gc.find(0x1004), None);
}

#[test]
fn a_word_refers_to_the_record_that_holds_its_value() {
    let mut gc = GCContext::new();
    gc.insert(16, 8, 0x2000);
    gc.insert(8, 8, 0x3000);
    let mut memory = Memory::new();
    memory.store(0x5000, vec![0x2000, 0x200f, 0x2010, 0x3004, 0]);
    memory.store(0x2000, vec![0x3000, 0x2008]);
    assert_eq!(gc.referent(0x5000, true, memory.read(0x5000), NOWHERE), Some(0));
    assert_eq!(gc.referent(0x5008, true, memory.read(0x5008), NOWHERE), Some(0));
    assert_eq!(gc.referent(0x5010, true, memory.read(0x5010), NOWHERE), None);
    assert_eq!(gc.referent(0x5018, true, memory.read(0x5018), NOWHERE), Some(1));
    assert_eq!(gc.referent(0x5020, true, memory.read(0x5020), NOWHERE), None);
    // no word of the image
    assert_eq!(gc.referent(0x5028, true, memory.read(0x5028), NOWHERE), None);
    // a word inside a record is read only after the first scan
    assert_eq!(gc.referent(0x2000, true, memory.read(0x2000), NOWHERE), None);
    assert_eq!(gc.referent(0x2000, false, memory.read(0x2000), NOWHERE), Some(1));
    assert_eq!(gc.referent(0x2008, false, memory.read(0x2008), NOWHERE), Some(0));
    // a word inside the registry's own storage is never read
    let metadata = AddressRange { start: 0x5008, end: 0x5019 };
    assert_eq!(gc.referent(0x5000, true, memory.read(0x5000), metadata), Some(0));
    assert_eq!(gc.referent(0x5008, true, memory.read(0x5008), metadata), None);
    assert_eq!(gc.referent(0x5018, false, memory.read(0x5018), metadata), None);
    let metadata = AddressRange { start: 0x2000, end: 0x2008 };
    assert_eq!(gc.referent(0x2000, false, memory.read(0x2000), metadata), None);
    assert_eq!(gc.referent(0x2008, false, memory.read(0x2008), metadata), Some(0));
}

#[test]
fn a_scan_marks_what_its_words_refer_to() {
    let mut gc = GCContext::new();
    gc.insert(8, 8, 0x2000);
    gc.insert(8, 8, 0x2010);
    gc.insert(8, 8, 0x2020);
    let mut memory = Memory::new();
    memory.store(0x5000, vec![0x2010, 7, 0x2027]);
    gc.mark_range(0x5000, 0x5018, true, &memory, NOWHERE);
    assert_eq!(marks(&gc), vec![false, true, true]);
    assert_eq!(starts(&gc), vec![0x2000, 0x2010, 0x2020]);
}

#[test]
fn a_scan_reads_whole_aligned_words_only() {
    let mut memory = Memory::new();
    memory.store(0x5000, vec![0x2000, 0x2010, 0x2020, 0x2030]);
    let fresh = || {
        let mut gc = GCContext::new();
        gc.insert(8, 8, 0x2000);
        gc.insert(8, 8, 0x2010);
        gc.insert(8, 8, 0x2020);
        gc.insert(8, 8, 0x2030);
        gc
    };
    let mut gc = fresh();
    gc.mark_range(0x5001, 0x501f, true, &memory, NOWHERE);
    assert_eq!(marks(&gc), vec![false, true, true, false]);
    let mut gc = fresh();
    gc.mark_range(0x5008, 0x5010, true, &memory, NOWHERE);
    assert_eq!(marks(&gc), vec![false, true, false, false]);
    let mut gc = fresh();
    gc.mark_range(0x5009, 0x5017, true, &memory, NOWHERE);
    assert_eq!(marks(&gc), vec![false, false, false, false]);
    let mut gc = fresh();
    gc.mark_range(0x5001, 0x500f, true, &memory, NOWHERE);
    assert_eq!(marks(&gc), vec![false, false, false, false]);
    let mut gc = fresh();
    gc.mark_range(0x5007, 0x5010, true, &memory, NOWHERE);
    assert_eq!(marks(&gc), vec![false, true, false, false]);
}

#[test]
fn an_empty_or_backwards_range_marks_nothing() {
    let mut gc = GCContext::new();
    gc.insert(8, 8, 0x2000);
    let mut memory = Memory::new();
    memory.store(0x5000, vec![0x2000]);
    gc.mark_range(0x5000, 0x5000, true, &memory, NOWHERE);
    assert_eq!(marks(&gc), vec![false]);
    gc.mark_range(0x5008, 0x5000, true, &memory, NOWHERE);
    assert_eq!(marks(&gc), vec![false]);
    gc.mark_range(usize::MAX - 3, usize::MAX, true, &memory, NOWHERE);
    assert_eq!(marks(&gc), vec![false]);
    gc.mark_range(0x5000, 0x5008, true, &memory, NOWHERE);
    assert_eq!(marks(&gc), vec![true]);
}

#[test]
fn a_scan_follows_chains() {
    let mut gc = GCContext::new();
    gc.insert(8, 8, 0x2000);
    gc.insert(8, 8, 0x2010);
    gc.insert(8, 8, 0x2020);
    gc.insert(8, 8, 0x2030);
    let mut memory = Memory::new();
    // root -> 3 -> 1 -> 0, and 2 refers to 0 but nothing refers to 2
    memory.store(0x5000, vec![0x2030]);
    memory.store(0x2030, vec![0x2010]);
    memory.store(0x2010, vec![0x2000]);
    memory.store(0x2020, vec![0x2000]);
    memory.store(0x2000, vec![0]);
    gc.mark_range(0x5000, 0x5008, true, &memory, NOWHERE);
    assert_eq!(marks(&gc), vec![true, true, false, true]);
}

#[test]
fn a_scan_ends_on_cycles() {
    let mut gc = GCContext::new();
    gc.insert(16, 8, 0x2000);
    gc.insert(16, 8, 0x2010);
    gc.insert(16, 8, 0x2020);
    let mut memory = Memory::new();
    memory.store(0x5000, vec![0x2000]);
    memory.store(0x2000, vec![0x2010, 0x2000]);
    memory.store(0x2010, vec![0x2000, 0x2010]);
    memory.store(0x2020, vec![0x2020, 0x2000]);
    gc.mark_range(0x5000, 0x5008, true, &memory, NOWHERE);
    assert_eq!(marks(&gc), vec![true, true, false]);
}

#[test]
fn a_marked_record_is_not_scanned_again() {
    let mut gc = GCContext::new();
    gc.insert(8, 8, 0x2000);
    gc.insert(8, 8, 0x2010);
    let mut memory = Memory::new();
    memory.store(0x5000, vec![0x2000]);
    memory.store(0x2000, vec![0]);
    gc.mark_range(0x5000, 0x5008, true, &memory, NOWHERE);
    assert_eq!(marks(&gc), vec![true, false]);
    // the value now refers to the second record, but the first is marked
    // already and its storage is not entered again
    memory.store(0x2000, vec![0x2010]);
    gc.mark_range(0x5000, 0x5008, true, &memory, NOWHERE);
    assert_eq!(marks(&gc), vec![true, false]);
    gc.reset_marks();
    gc.mark_range(0x5000, 0x5008, true, &memory, NOWHERE);
    assert_eq!(marks(&gc), vec![true, true]);
}

#[test]
fn a_first_scan_passes_over_words_inside_records() {
    let mut gc = GCContext::new();
    gc.insert(16, 8, 0x2000);
    gc.insert(8, 8, 0x2010);
    let mut memory = Memory::new();
    memory.store(0x2000, vec![0x2010, 0x2010, 0x2000]);
    gc.mark_range(0x2000, 0x2018, true, &memory, NOWHERE);
    assert_eq!(marks(&gc), vec![false, false]);
    gc.mark_range(0x2000, 0x2018, false, &memory, NOWHERE);
    assert_eq!(marks(&gc), vec![true, true]);
}

#[test]
fn the_storage_of_a_record_is_scanned_by_whole_words() {
    let mut gc = GCContext::new();
    // twelve bytes from an address that is not word-aligned hold one whole word
    gc.insert(12, 4, 0x2004);
    gc.insert(4, 4, 0x2010);
    gc.insert(8, 8, 0x3000);
    gc.insert(8, 8, 0x3010);
    let mut memory = Memory::new();
    memory.store(0x5000, vec![0x2004, 0x2010]);
    memory.store(0x2000, vec![0x3010, 0x3000, 0x3010]);
    gc.mark_range(0x5000, 0x5010, true, &memory, NOWHERE);
    assert_eq!(marks(&gc), vec![true, true, true, false]);
}

#[test]
fn marks_are_cleared_and_unmarked_records_dropped() {
    let mut gc = GCContext::new();
    gc.insert(8, 8, 0x2000);
    gc.insert(24, 8, 0x2010);
    gc.insert(8, 4, 0x2030);
    gc.insert(8, 8, 0x2040);
    let mut memory = Memory::new();
    memory.store(0x5000, vec![0x2040, 0x2010]);
    gc.mark_range(0x5000, 0x5010, true, &memory, NOWHERE);
    assert_eq!(marks(&gc), vec![false, true, false, true]);
    let dropped: Vec<GCAllocation> = gc.retain_marked();
    assert_eq!(starts(&gc), vec![0x2010, 0x2040]);
    assert_eq!(marks(&gc), vec![true, true]);
    let seen: Vec<(usize, usize, usize, bool)> =
        dropped.iter().map(|r| (r.start, r.size, r.align, r.marked)).collect();
    assert_eq!(seen, vec![(0x2000, 8, 8, false), (0x2030, 8, 4, false)]);
    gc.reset_marks();
    assert_eq!(starts(&gc), vec![0x2010, 0x2040]);
    assert_eq!(marks(&gc), vec![false, false]);
    let dropped = gc.retain_marked();
    assert_eq!(gc.allocations().len(), 0);
    assert_eq!(dropped.len(), 2);
    assert!(never_overlaps(&gc));
}

#[test]
fn one_line_is_scanned_as_a_root() {
    let mut memory = Memory::new();
    memory.store(0x5000, vec![0x2000, 0x2010, 0x2020]);
    let fresh = || {
        let mut gc = GCContext::new();
        gc.insert(8, 8, 0x2000);
        gc.insert(8, 8, 0x2010);
        gc.insert(8, 8, 0x2020);
        gc
    };
    let mut gc = fresh();
    gc.mark_map("5000-5018 rw-p 00000000 00:00 0", 0, &memory, NOWHERE);
    assert_eq!(marks(&gc), vec![true, true, true]);
    // a region that cannot be written holds no root
    let mut gc = fresh();
    gc.mark_map("5000-5018 r--p 00000000 00:00 0", 0, &memory, NOWHERE);
    assert_eq!(marks(&gc), vec![false, false, false]);
    let mut gc = fresh();
    gc.mark_map("5000-5018 rwxp 00000000 00:00 0", 0, &memory, NOWHERE);
    assert_eq!(marks(&gc), vec![false, false, false]);
    // the stack is scanned from the stack pointer on
    let mut gc = fresh();
    gc.mark_map("5000-5018 rw-p 00000000 00:00 0 [stack]", 0x5008, &memory, NOWHERE);
    assert_eq!(marks(&gc), vec![false, true, true]);
    let mut gc = fresh();
    gc.mark_map("5000-5018 rw-p 00000000 00:00 0 [stack]", 0x5009, &memory, NOWHERE);
    assert_eq!(marks(&gc), vec![false, false, true]);
    let mut gc = fresh();
    gc.mark_map("5000-5018 rw-p 00000000 00:00 0 [stack]", 0x4000, &memory, NOWHERE);
    assert_eq!(marks(&gc), vec![true, true, true]);
    let mut gc = fresh();
    gc.mark_map("5000-5018 rw-p 00000000 00:00 0 [stack]", 0x6000, &memory, NOWHERE);
    assert_eq!(marks(&gc), vec![false, false, false]);
    // a region that holds the stack pointer is the stack, tagged or not
    let mut gc = fresh();
    gc.mark_map("5000-5018 rw-p 00000000 00:00 0", 0x5010, &memory, NOWHERE);
    assert_eq!(marks(&gc), vec![false, false, true]);
    // any other region is scanned whole
    let mut gc = fresh();
    gc.mark_map("5000-5018 rw-p 00000000 00:00 0 [heap]", 0x5018, &memory, NOWHERE);
    assert_eq!(marks(&gc), vec![true, true, true]);
}
