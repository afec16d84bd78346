use std::cell::RefCell;

use conservative_gc::memory::{AddressRange, Memory};
use conservative_gc::refs::GCRef;
use conservative_gc::regions::parse_region;
use conservative_gc::GCContext;

const HEAP: usize = 0x0001_0000;
const REGISTRY: usize = 0x0001_8000;
const STACK: usize = 0x7ffd_0000_0000;
const STACK_POINTER: usize = 0x7ffd_0000_0800;

/// A process with a heap, a stack and a registry whose own storage lies on
/// the heap.
struct Process {
    gc: GCContext,
    next: usize,
    heap: Vec<(usize, Vec<usize>)>,
    stack: Vec<usize>,
}

impl Process {
    fn new() -> Process {
        Process { gc: GCContext::new(), next: HEAP, heap: Vec::new(), stack: Vec::new() }
    }

    /// Obtains storage for a `T` whose words are `words` and registers it.
    fn allocate<T>(&mut self, words: Vec<usize>) -> GCRef<T> {
        let address = self.next;
        self.next += std::mem::size_of::<T>().max(1).next_multiple_of(16);
        assert!(self.gc.is_vacant(address, std::mem::size_of::<T>()));
        self.heap.push((address, words));
        self.gc.allocate::<T>(address)
    }

    /// Overwrites one word of a value allocated before.
    fn write(&mut self, address: usize, index: usize, word: usize) {
        for (start, words) in self.heap.iter_mut() {
            if *start == address {
                words[index] = word;
            }
        }
    }

    /// Keeps a handle alive in the caller's frame.
    fn keep<T>(&mut self, handle: &GCRef<T>) {
        self.stack.push(handle.address());
    }

    fn maps() -> Vec<String> {
        vec![
            String::from("00400000-00452000 r-xp 00000000 08:02 173521      /usr/bin/host"),
            String::from("00651000-00652000 r--p 00051000 08:02 173521      /usr/bin/host"),
            String::from("00010000-00020000 rw-p 00000000 00:00 0           [heap]"),
            String::from("7ffd00000000-7ffd00021000 rw-p 00000000 00:00 0   [stack]"),
        ]
    }

    fn collect(&mut self) -> Result<usize, String> {
        let mut memory = Memory::new();
        for (start, words) in self.heap.iter() {
            memory.store(*start, words.clone());
        }
        // the registry's own storage holds the address of every record
        let starts: Vec<usize> = self.gc.allocations().iter().map(|a| a.start).collect();
        let metadata =
            AddressRange { start: REGISTRY, end: REGISTRY + 8 * starts.len() };
        memory.store(REGISTRY, starts);
        // whatever the frames below the stack pointer held is stale
        memory.store(STACK, vec![HEAP; 16]);
        memory.store(STACK_POINTER, self.stack.clone());
        let maps = Process::maps();
        for line in maps.iter() {
            if parse_region(line, STACK_POINTER).is_none() {
                return Err(format!("malformed line: {}", line));
            }
        }
        Ok(self.gc.collect(STACK_POINTER, &maps, &memory, metadata).len())
    }
}

#[test]
fn retain() {
    let mut p = Process::new();
    let l = p.allocate::<i32>(vec![0]);
    p.keep(&l);
    assert_eq!(p.gc.allocations().len(), 1);
    assert!(p.collect().is_ok());
    assert_eq!(p.gc.allocations().len(), 1);
}

#[test]
fn leak() {
    let mut p = Process::new();
    dut_leak(&mut p);
    assert_eq!(p.gc.allocations().len(), 1);
    assert!(p.collect().is_ok());
    assert_eq!(p.gc.allocations().len(), 0);
}

fn dut_leak(p: &mut Process) {
    let _l = p.allocate::<i32>(vec![0]);
}

#[test]
fn chain() {
    let mut p = Process::new();
    let c = dut_chain(&mut p);
    p.keep(&c);
    assert_eq!(p.gc.allocations().len(), 2);
    assert!(p.collect().is_ok());
    assert_eq!(p.gc.allocations().len(), 2);
}

fn dut_chain(p: &mut Process) -> GCRef<GCRef<i32>> {
    let v = p.allocate::<i32>(vec![0]);
    let r = p.allocate::<GCRef<i32>>(vec![v.clone().address()]);
    r
}

#[test]
fn leak_chain() {
    let mut p = Process::new();
    dut_leak_chain(&mut p);
    assert_eq!(p.gc.allocations().len(), 2);
    assert!(p.collect().is_ok());
    assert_eq!(p.gc.allocations().len(), 0);
}

fn dut_leak_chain(p: &mut Process) {
    let v = p.allocate::<i32>(vec![0]);
    let _r = p.allocate::<GCRef<i32>>(vec![v.clone().address()]);
}

#[allow(dead_code)]
struct Parent {
    child: RefCell<Option<GCRef<Child>>>,
}

#[allow(dead_code)]
struct Child {
    _parent: GCRef<Parent>,
}

/// The words of a `Parent`: the cell's borrow flag, then the option.
fn parent_words(child: Option<usize>) -> Vec<usize> {
    match child {
        Some(address) => vec![0, 1, address],
        None => vec![0, 0, 0],
    }
}

#[test]
fn cycle() {
    let mut p = Process::new();
    let par = dut_cycle(&mut p);
    p.keep(&par);
    assert_eq!(p.gc.allocations().len(), 2);
    assert!(p.collect().is_ok());
    assert_eq!(p.gc.allocations().len(), 2);
}

fn dut_cycle(p: &mut Process) -> GCRef<Parent> {
    let par = p.allocate::<Parent>(parent_words(None));
    let chi = p.allocate::<Child>(vec![par.clone().address()]);
    let words = parent_words(Some(chi.address()));
    for (index, word) in words.into_iter().enumerate() {
        p.write(par.address(), index, word);
    }
    par
}

#[test]
fn leak_cycle() {
    let mut p = Process::new();
    dut_leak_cycle(&mut p);
    assert_eq!(p.gc.allocations().len(), 2);
    assert!(p.collect().is_ok());
    assert_eq!(p.gc.allocations().len(), 0);
}

fn dut_leak_cycle(p: &mut Process) {
    let par = p.allocate::<Parent>(parent_words(None));
    let chi = p.allocate::<Child>(vec![par.clone().address()]);
    let words = parent_words(Some(chi.address()));
    for (index, word) in words.into_iter().enumerate() {
        p.write(par.address(), index, word);
    }
}
