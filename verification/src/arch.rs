//! The native word: its size, and the word-aligned addresses of a range.

use vstd::prelude::*;

verus! {

/// Size in bytes of a pointer-sized word.
pub open spec fn word_size() -> usize {
    if usize::BITS == 64 {
        8
    } else {
        4
    }
}

/// Whether `addr` is a multiple of the word size.
pub open spec fn is_word_aligned(addr: usize) -> bool {
    addr % word_size() == 0
}

/// Whether the word at `cur` is aligned and lies wholly inside `[start, end)`.
///
/// These are the addresses a scan of the range visits: its start rounded up
/// and its end rounded down to the word size, one word at a time.
#[verifier::opaque]
pub open spec fn scanned(start: usize, end: usize, cur: usize) -> bool {
    &&& is_word_aligned(cur)
    &&& start <= cur
    &&& cur + word_size() <= end
}

/// Between two word-aligned addresses lies at least one whole word, and the
/// address one word on is word-aligned too.
pub(crate) proof fn lemma_next_word(cur: usize, limit: usize)
    requires
        is_word_aligned(cur),
        is_word_aligned(limit),
        cur < limit,
    ensures
        cur + word_size() <= limit,
        is_word_aligned((cur + word_size()) as usize),
{
    if word_size() == 8 {
        assert(cur % 8 == 0 && limit % 8 == 0);
        assert(cur + 8 <= limit);
        assert((cur + 8) % 8 == 0);
    } else {
        assert(cur % 4 == 0 && limit % 4 == 0);
        assert(cur + 4 <= limit);
        assert((cur + 4) % 4 == 0);
    }
}

/// A scan that ends one word further visits that word and no other more.
pub(crate) proof fn lemma_scanned_next(start: usize, cur: usize, c: usize)
    requires
        is_word_aligned(cur),
        start <= cur,
        cur + word_size() <= usize::MAX,
    ensures
        scanned(start, (cur + word_size()) as usize, c) == (scanned(start, cur, c) || c == cur),
{
    reveal(scanned);
    if word_size() == 8 {
        assert(cur % 8 == 0);
        assert(c % 8 == 0 && c < cur ==> c + 8 <= cur);
    } else {
        assert(cur % 4 == 0);
        assert(c % 4 == 0 && c < cur ==> c + 4 <= cur);
    }
}

/// A scan that ends at the first word-aligned address of its range visits no
/// word.
pub(crate) proof fn lemma_scanned_none(start: usize, first: usize, c: usize)
    requires
        is_word_aligned(first),
        start <= first < start + word_size(),
    ensures
        !scanned(start, first, c),
{
    reveal(scanned);
    if word_size() == 8 {
        assert(first % 8 == 0);
        assert(c % 8 == 0 && c < first ==> c + 8 <= first);
    } else {
        assert(first % 4 == 0);
        assert(c % 4 == 0 && c < first ==> c + 4 <= first);
    }
}

/// A scan visits no word past the last word-aligned address of its range.
pub(crate) proof fn lemma_scanned_limit(start: usize, end: usize, limit: usize, c: usize)
    requires
        is_word_aligned(limit),
        limit <= end < limit + word_size(),
    ensures
        scanned(start, end, c) == scanned(start, limit, c),
{
    reveal(scanned);
    if word_size() == 8 {
        assert(limit % 8 == 0);
        assert(c % 8 == 0 && c < limit + 8 ==> c <= limit);
    } else {
        assert(limit % 4 == 0);
        assert(c % 4 == 0 && c < limit + 4 ==> c <= limit);
    }
}

/// A scan of a range shorter than a word visits no word.
pub(crate) proof fn lemma_scanned_short(start: usize, end: usize, c: usize)
    requires
        end < start + word_size(),
    ensures
        !scanned(start, end, c),
{
    reveal(scanned);
}

/// A scan of a range visits every word that the scan of a part of it visits.
pub(crate) proof fn lemma_scanned_wider(
    start1: usize,
    end1: usize,
    start2: usize,
    end2: usize,
    c: usize,
)
    requires
        start2 <= start1,
        end1 <= end2,
        scanned(start1, end1, c),
    ensures
        scanned(start2, end2, c),
{
    reveal(scanned);
}

/// A scan of a range that is cut in two at a word-aligned address visits the
/// words of the first part and the words of the second.
pub(crate) proof fn lemma_scanned_split(start: usize, mid: usize, end: usize, c: usize)
    requires
        is_word_aligned(mid),
        start <= mid <= end,
    ensures
        scanned(start, end, c) == (scanned(start, mid, c) || scanned(mid, end, c)),
{
    reveal(scanned);
    if word_size() == 8 {
        assert(mid % 8 == 0);
        assert(c % 8 == 0 && c < mid ==> c + 8 <= mid);
    } else {
        assert(mid % 4 == 0);
        assert(c % 4 == 0 && c < mid ==> c + 4 <= mid);
    }
}

/// A scan visits no word below the start of its range rounded up, nor any
/// that does not end at or below its end.
pub(crate) proof fn lemma_scanned_bounds(start: usize, end: usize, c: usize)
    requires
        scanned(start, end, c),
    ensures
        is_word_aligned(c),
        round_up(start) <= c,
        c + word_size() <= end,
{
    reveal(scanned);
    lemma_rounding(start, c);
}

/// The size in bytes of a pointer-sized word on this machine.
#[verifier::when_used_as_spec(word_size)]
pub fn get_pointer_size() -> (size: usize)
    ensures
        size == word_size(),
        size * 8 == usize::BITS,
{
    if usize::BITS == 64 {
        8
    } else {
        4
    }
}

/// `addr` rounded up to a multiple of the word size.
pub open spec fn round_up(addr: usize) -> int {
    if addr % word_size() == 0 {
        addr as int
    } else {
        addr - addr % word_size() + word_size()
    }
}

/// `addr` rounded down to a multiple of the word size.
pub open spec fn round_down(addr: usize) -> usize {
    (addr - addr % word_size()) as usize
}

/// Rounding moves an address by less than a word, onto a multiple of the
/// word size, and no word-aligned address lies in between.
pub proof fn lemma_rounding(addr: usize, c: usize)
    ensures
        round_up(addr) % (word_size() as int) == 0,
        addr <= round_up(addr) < addr + word_size(),
        is_word_aligned(round_down(addr)),
        round_down(addr) <= addr < round_down(addr) + word_size(),
        is_word_aligned(c) && addr <= c ==> round_up(addr) <= c,
        is_word_aligned(c) && c <= addr ==> c <= round_down(addr),
{
    if word_size() == 8 {
        assert(round_up(addr) % 8 == 0);
        assert(round_down(addr) == addr - addr % 8);
        assert(c % 8 == 0 && addr <= c ==> round_up(addr) <= c);
        assert(c % 8 == 0 && c <= addr ==> c <= round_down(addr));
    } else {
        assert(round_up(addr) % 4 == 0);
        assert(round_down(addr) == addr - addr % 4);
        assert(c % 4 == 0 && addr <= c ==> round_up(addr) <= c);
        assert(c % 4 == 0 && c <= addr ==> c <= round_down(addr));
    }
}

/// The first word-aligned address at or above `addr`, or `None` where the
/// address space holds none.
pub fn align_up(addr: usize) -> (up: Option<usize>)
    ensures
        up == (if round_up(addr) <= usize::MAX {
            Some(round_up(addr) as usize)
        } else {
            None
        }),
{
    let w: usize = get_pointer_size();
    let rem: usize = addr % w;
    assert(rem <= addr && rem < w) by {
        if w == 8 {
            assert(addr % 8 <= addr);
        } else {
            assert(addr % 4 <= addr);
        }
    }
    if rem == 0 {
        Some(addr)
    } else if addr - rem > usize::MAX - w {
        None
    } else {
        Some(addr - rem + w)
    }
}

/// The last word-aligned address at or below `addr`.
pub fn align_down(addr: usize) -> (down: usize)
    ensures
        down == round_down(addr),
{
    let w: usize = get_pointer_size();
    let rem: usize = addr % w;
    assert(rem <= addr) by {
        if w == 8 {
            assert(addr % 8 <= addr);
        } else {
            assert(addr % 4 <= addr);
        }
    }
    addr - rem
}

} // verus!
