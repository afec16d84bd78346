//! An image of the words of memory that a collection scans.

use vstd::prelude::*;
use crate::arch::{get_pointer_size, word_size};

verus! {

/// The words of one run of memory, as a map from the address of each word to
/// its value: `words[k]` lies at `start + k * word_size()`.
pub open spec fn image(start: usize, words: Seq<usize>) -> Map<usize, usize> {
    Map::new(
        |addr: usize|
            start <= addr && (addr - start) % (word_size() as int) == 0 && (addr - start) / (
            word_size() as int) < words.len(),
        |addr: usize| words[(addr - start) / (word_size() as int)],
    )
}

/// The word at `addr` as an image holds it, or `None` where it holds none.
pub open spec fn word_at(memory: Map<usize, usize>, addr: usize) -> Option<usize> {
    if memory.contains_key(addr) {
        Some(memory[addr])
    } else {
        None
    }
}

/// A half-open range of addresses, `[start, end)`.
#[derive(Clone, Copy, Debug)]
pub struct AddressRange {
    /// The first address of the range.
    pub start: usize,
    /// The address one past the last of the range.
    pub end: usize,
}

impl AddressRange {
    /// Whether `addr` lies in the range.
    pub open spec fn spec_contains(&self, addr: usize) -> bool {
        self.start <= addr < self.end
    }

    /// Whether `addr` lies in the range.
    #[verifier::when_used_as_spec(spec_contains)]
    pub fn contains(&self, addr: usize) -> (inside: bool)
        ensures
            inside == self.spec_contains(addr),
    {
        self.start <= addr && addr < self.end
    }
}

struct Block {
    start: usize,
    words: Vec<usize>,
}

spec fn lookup(blocks: Seq<Block>, addr: usize) -> Option<usize>
    decreases blocks.len(),
{
    if blocks.len() == 0 {
        None
    } else {
        let top = image(blocks.last().start, blocks.last().words@);
        if top.contains_key(addr) {
            Some(top[addr])
        } else {
            lookup(blocks.drop_last(), addr)
        }
    }
}

/// The words of memory as they stood when a collection began.
///
/// The image is built from runs of words; where two runs hold the same
/// address, the run stored last is the one that is read.
pub struct Memory {
    blocks: Vec<Block>,
}

impl View for Memory {
    type V = Map<usize, usize>;

    /// The value of each word that the image holds, by its address.
    closed spec fn view(&self) -> Map<usize, usize> {
        Map::new(
            |addr: usize| lookup(self.blocks@, addr) is Some,
            |addr: usize| lookup(self.blocks@, addr)->0,
        )
    }
}

impl Memory {
    /// An image that holds no word.
    pub fn new() -> (memory: Memory)
        ensures
            memory@ == Map::<usize, usize>::empty(),
    {
        let memory = Memory { blocks: Vec::new() };
        assert(memory@ =~= Map::<usize, usize>::empty());
        memory
    }

    /// Adds the run of `words` that begins at `start`, over whatever the image
    /// held at those addresses.
    pub fn store(&mut self, start: usize, words: Vec<usize>)
        ensures
            final(self)@ == old(self)@.union_prefer_right(image(start, words@)),
    {
        let ghost before = self.blocks@;
        self.blocks.push(Block { start, words });
        proof {
            assert(self.blocks@.drop_last() =~= before);
            assert(self@ =~= old(self)@.union_prefer_right(image(start, words@)));
        }
    }

    /// The word at `addr`, or `None` where the image holds none.
    pub fn read(&self, addr: usize) -> (word: Option<usize>)
        ensures
            word == word_at(self@, addr),
    {
        let w: usize = get_pointer_size();
        let mut i: usize = self.blocks.len();
        assert(self.blocks@.take(i as int) =~= self.blocks@);
        while i > 0
            invariant
                i <= self.blocks.len(),
                w == word_size(),
                lookup(self.blocks@, addr) == lookup(self.blocks@.take(i as int), addr),
            decreases i,
        {
            i -= 1;
            let block = &self.blocks[i];
            proof {
                let upto = self.blocks@.take(i + 1);
                assert(upto.last() == self.blocks@[i as int]);
                assert(upto.drop_last() =~= self.blocks@.take(i as int));
            }
            if addr >= block.start {
                let offset: usize = addr - block.start;
                if offset % w == 0 && offset / w < block.words.len() {
                    return Some(block.words[offset / w]);
                }
            }
        }
        None
    }
}

} // verus!
