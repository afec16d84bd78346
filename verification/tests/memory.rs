use conservative_gc::allocations::GCAllocation;
use conservative_gc::arch::{align_down, align_up, get_pointer_size};
use conservative_gc::memory::{AddressRange, Memory};
use conservative_gc::refs::GCRef;

#[test]
fn the_word_is_the_size_of_a_pointer() {
    assert_eq!(get_pointer_size(), std::mem::size_of::<usize>());
    assert_eq!(get_pointer_size(), 8);
}

#[test]
fn rounding_to_the_word() {
    assert_eq!(align_up(0), Some(0));
    assert_eq!(align_up(1), Some(8));
    assert_eq!(align_up(8), Some(8));
    assert_eq!(align_up(13), Some(16));
    assert_eq!(align_up(usize::MAX - 7), Some(usize::MAX - 7));
    assert_eq!(align_up(usize::MAX - 6), None);
    assert_eq!(align_up(usize::MAX), None);
    assert_eq!(align_down(0), 0);
    assert_eq!(align_down(7), 0);
    assert_eq!(align_down(8), 8);
    assert_eq!(align_down(13), 8);
    assert_eq!(align_down(usize::MAX), usize::MAX - 7);
}

#[test]
fn an_empty_image_holds_no_word() {
    let memory = Memory::new();
    assert_eq!(memory.read(0), None);
    assert_eq!(memory.read(0x1000), None);
}

#[test]
fn a_run_is_read_word_by_word() {
    let mut memory = Memory::new();
    memory.store(0x1000, vec![11, 22, 33]);
    assert_eq!(memory.read(0x1000), Some(11));
    assert_eq!(memory.read(0x1008), Some(22));
    assert_eq!(memory.read(0x1010), Some(33));
    assert_eq!(memory.read(0x1018), None);
    assert_eq!(memory.read(0x0ff8), None);
    assert_eq!(memory.read(0x1004), None);
    assert_eq!(memory.read(0x1001), None);
}

#[test]
fn the_run_stored_last_is_read() {
    let mut memory = Memory::new();
    memory.store(0x1000, vec![1, 2, 3, 4]);
    memory.store(0x1008, vec![20, 30]);
    assert_eq!(memory.read(0x1000), Some(1));
    assert_eq!(memory.read(0x1008), Some(20));
    assert_eq!(memory.read(0x1010), Some(30));
    assert_eq!(memory.read(0x1018), Some(4));
    memory.store(0x1010, vec![]);
    assert_eq!(memory.read(0x1010), Some(30));
}

#[test]
fn a_run_may_begin_anywhere() {
    let mut memory = Memory::new();
    memory.store(0x1003, vec![7, 8]);
    assert_eq!(memory.read(0x1003), Some(7));
    assert_eq!(memory.read(0x100b), Some(8));
    assert_eq!(memory.read(0x1008), None);
    memory.store(usize::MAX - 7, vec![5, 6]);
    assert_eq!(memory.read(usize::MAX - 7), Some(5));
    assert_eq!(memory.read(usize::MAX), None);
}

#[test]
fn a_range_holds_its_start_and_not_its_end() {
    let range = AddressRange { start: 0x10, end: 0x20 };
    assert!(!range.contains(0xf));
    assert!(range.contains(0x10));
    assert!(range.contains(0x1f));
    assert!(!range.contains(0x20));
    let empty = AddressRange { start: 0x10, end: 0x10 };
    assert!(!empty.contains(0x10));
    let backwards = AddressRange { start: 0x20, end: 0x10 };
    assert!(!backwards.contains(0x18));
}

#[test]
fn a_record_ends_where_its_bytes_end() {
    let record = GCAllocation { size: 24, align: 8, marked: false, start: 0x1000 };
    assert_eq!(record.end(), 0x1018);
    assert!(!record.contains(0x0fff));
    assert!(record.contains(0x1000));
    assert!(record.contains(0x1017));
    assert!(!record.contains(0x1018));
    let last = GCAllocation { size: 15, align: 1, marked: true, start: usize::MAX - 15 };
    assert_eq!(last.end(), usize::MAX);
    assert!(last.contains(usize::MAX - 1));
    assert!(!last.contains(usize::MAX));
}

#[test]
fn an_empty_record_holds_no_byte() {
    let record = GCAllocation { size: 0, align: 1, marked: false, start: 0x1000 };
    assert_eq!(record.end(), 0x1000);
    assert!(!record.contains(0x1000));
    assert!(!record.contains(0x0fff));
}

#[test]
fn a_record_past_the_address_space_holds_what_lies_inside() {
    // `contains` is total: it asks nothing of the record
    let record = GCAllocation { size: 16, align: 1, marked: false, start: usize::MAX - 3 };
    assert!(record.contains(usize::MAX));
    assert!(!record.contains(usize::MAX - 4));
}

#[test]
fn a_handle_holds_an_address() {
    let handle: GCRef<u64> = GCRef::new(0x1234);
    assert_eq!(handle.address(), 0x1234);
    let copy = handle.clone();
    assert_eq!(copy.address(), 0x1234);
    assert_eq!(handle.address(), 0x1234);
    assert_eq!(std::mem::size_of::<GCRef<[u8; 100]>>(), std::mem::size_of::<usize>());
}
