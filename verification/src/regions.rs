//! Memory regions, and the line-oriented mapping description they are read
//! from.
//!
//! A line holds fields separated by whitespace. The first field is the
//! region's address range, two hexadecimal numbers with a `-` between them;
//! the second is its permissions. A line that ends in `[stack]` describes the
//! call stack.

use vstd::prelude::*;

verus! {

/// One region of the address space, as a line of the mapping description
/// gives it.
#[derive(Clone, Copy, Debug)]
pub struct MemoryRegion {
    /// The first address of the region.
    pub start: usize,
    /// The address one past the last of the region.
    pub end: usize,
    /// Whether the region can be read and written but not executed.
    pub writable: bool,
    /// Whether the region is the call stack.
    pub is_stack: bool,
}

impl MemoryRegion {
    /// Where the scan of the region begins: at its start, or for the stack at
    /// the stack pointer where that lies above the start.
    pub open spec fn spec_scan_start(&self, stack_pointer: usize) -> usize {
        if self.is_stack && stack_pointer > self.start {
            stack_pointer
        } else {
            self.start
        }
    }

    /// Where the scan of the region begins: at its start, or for the stack at
    /// the stack pointer where that lies above the start.
    #[verifier::when_used_as_spec(spec_scan_start)]
    pub fn scan_start(&self, stack_pointer: usize) -> (from: usize)
        ensures
            from == self.spec_scan_start(stack_pointer),
    {
        if self.is_stack && stack_pointer > self.start {
            stack_pointer
        } else {
            self.start
        }
    }
}

/// Whether `c` is whitespace: a character with the Unicode property
/// `White_Space`.
pub open spec fn is_space(c: char) -> bool {
    let n = c as u32;
    ||| 0x09 <= n <= 0x0D
    ||| n == 0x20
    ||| n == 0x85
    ||| n == 0xA0
    ||| n == 0x1680
    ||| 0x2000 <= n <= 0x200A
    ||| n == 0x2028
    ||| n == 0x2029
    ||| n == 0x202F
    ||| n == 0x205F
    ||| n == 0x3000
}

/// The first index at or after `i` that holds no whitespace, or the length of
/// the text.
pub open spec fn skip_spaces(text: Seq<char>, i: int) -> int
    decreases text.len() - i,
{
    if 0 <= i < text.len() && is_space(text[i]) {
        skip_spaces(text, i + 1)
    } else {
        i
    }
}

/// The first index at or after `i` that holds whitespace, or the length of the
/// text.
pub open spec fn skip_field(text: Seq<char>, i: int) -> int
    decreases text.len() - i,
{
    if 0 <= i < text.len() && !is_space(text[i]) {
        skip_field(text, i + 1)
    } else {
        i
    }
}

/// The first index at or after `i` that holds a `-`, or the length of the
/// text.
pub open spec fn find_dash(text: Seq<char>, i: int) -> int
    decreases text.len() - i,
{
    if 0 <= i < text.len() && text[i] != '-' {
        find_dash(text, i + 1)
    } else {
        i
    }
}

/// The value of a hexadecimal digit of either case.
pub open spec fn hex_digit(c: char) -> Option<nat> {
    let n = c as u32;
    if 0x30 <= n <= 0x39 {
        Some((n - 0x30) as nat)
    } else if 0x61 <= n <= 0x66 {
        Some((n - 0x61 + 10) as nat)
    } else if 0x41 <= n <= 0x46 {
        Some((n - 0x41 + 10) as nat)
    } else {
        None
    }
}

/// Whether every character is a hexadecimal digit.
pub open spec fn is_hex(digits: Seq<char>) -> bool {
    forall|i: int| 0 <= i < digits.len() ==> hex_digit(#[trigger] digits[i]) is Some
}

/// The number that the hexadecimal digits write, most significant first.
pub open spec fn hex_value(digits: Seq<char>) -> nat
    decreases digits.len(),
{
    if digits.len() == 0 {
        0
    } else {
        hex_value(digits.drop_last()) * 16 + match hex_digit(digits.last()) {
            Some(d) => d,
            None => 0,
        }
    }
}

/// The address that `digits` write: one or more hexadecimal digits whose value
/// fits an address.
pub open spec fn parse_digits(digits: Seq<char>) -> Option<usize> {
    if digits.len() > 0 && is_hex(digits) && hex_value(digits) <= usize::MAX {
        Some(hex_value(digits) as usize)
    } else {
        None
    }
}

/// The address that `text` writes: an optional `+` and then one or more
/// hexadecimal digits whose value fits an address.
pub open spec fn parse_hex(text: Seq<char>) -> Option<usize> {
    if text.len() > 0 && text[0] == '+' {
        parse_digits(text.drop_first())
    } else {
        parse_digits(text)
    }
}

/// The permissions of a region that can be read and written but not executed.
pub open spec fn writable_permissions() -> Seq<char> {
    seq!['r', 'w', '-']
}

/// The tag that ends the line of the call stack.
pub open spec fn stack_tag() -> Seq<char> {
    seq!['[', 's', 't', 'a', 'c', 'k', ']']
}

/// Whether `text` begins with `prefix`.
pub open spec fn starts_with(text: Seq<char>, prefix: Seq<char>) -> bool {
    prefix.len() <= text.len() && text.take(prefix.len() as int) == prefix
}

/// Whether `text` ends with `suffix`.
pub open spec fn ends_with(text: Seq<char>, suffix: Seq<char>) -> bool {
    suffix.len() <= text.len() && text.skip(text.len() - suffix.len()) == suffix
}

/// The region that a line of the mapping description gives, or `None` where
/// the line is malformed.
///
/// A line is well-formed if it holds at least two fields and the first holds
/// a `-` with an address on either side; what follows a second `-` in that
/// field is not read. The region is writable if its permissions begin with
/// `rw-`, and it is the stack if the line ends in `[stack]` or the stack
/// pointer lies inside the region.
pub open spec fn region_of(line: Seq<char>, stack_pointer: usize) -> Option<MemoryRegion> {
    let range_from = skip_spaces(line, 0);
    let range_to = skip_field(line, range_from);
    let perms_from = skip_spaces(line, range_to);
    let perms_to = skip_field(line, perms_from);
    let range = line.subrange(range_from, range_to);
    let perms = line.subrange(perms_from, perms_to);
    let dash = find_dash(range, 0);
    let end_to = find_dash(range, dash + 1);
    if range.len() == 0 || perms.len() == 0 || dash == range.len() {
        None
    } else {
        match (parse_hex(range.subrange(0, dash)), parse_hex(range.subrange(dash + 1, end_to))) {
            (Some(start), Some(end)) => Some(
                MemoryRegion {
                    start,
                    end,
                    writable: starts_with(perms, writable_permissions()),
                    is_stack: ends_with(line, stack_tag()) || start <= stack_pointer < end,
                },
            ),
            _ => None,
        }
    }
}

/// Whether `c` is whitespace.
#[verifier::when_used_as_spec(is_space)]
pub fn is_whitespace(c: char) -> (space: bool)
    ensures
        space == is_space(c),
{
    let n: u32 = c as u32;
    (0x09 <= n && n <= 0x0D) || n == 0x20 || n == 0x85 || n == 0xA0 || n == 0x1680 || (0x2000 <= n
        && n <= 0x200A) || n == 0x2028 || n == 0x2029 || n == 0x202F || n == 0x205F || n == 0x3000
}

/// The bounds of the field that begins at or after `from`: the index of its
/// first character and the index one past its last.
fn next_field(text: &Vec<char>, from: usize) -> (bounds: (usize, usize))
    requires
        from <= text@.len(),
    ensures
        bounds.0 == skip_spaces(text@, from as int),
        bounds.1 == skip_field(text@, bounds.0 as int),
        from <= bounds.0 <= bounds.1 <= text@.len(),
{
    let mut lo: usize = from;
    while lo < text.len() && is_whitespace(text[lo])
        invariant
            from <= lo <= text@.len(),
            skip_spaces(text@, from as int) == skip_spaces(text@, lo as int),
        decreases text@.len() - lo,
    {
        lo += 1;
    }
    let mut hi: usize = lo;
    while hi < text.len() && !is_whitespace(text[hi])
        invariant
            lo <= hi <= text@.len(),
            skip_field(text@, lo as int) == skip_field(text@, hi as int),
        decreases text@.len() - hi,
    {
        hi += 1;
    }
    (lo, hi)
}

/// The index of the first `-` in `text[from..to]`, or `to` where it holds
/// none.
fn next_dash(text: &Vec<char>, from: usize, to: usize, Ghost(base): Ghost<int>) -> (dash: usize)
    requires
        0 <= base <= from <= to <= text@.len(),
    ensures
        from <= dash <= to,
        dash - base == find_dash(text@.subrange(base, to as int), from - base),
{
    let ghost part = text@.subrange(base, to as int);
    let mut i: usize = from;
    while i < to && text[i] != '-'
        invariant
            from <= i <= to <= text@.len(),
            0 <= base <= from,
            part == text@.subrange(base, to as int),
            find_dash(part, from - base) == find_dash(part, i - base),
        decreases to - i,
    {
        assert(part[i - base] == text@[i as int]);
        i += 1;
    }
    proof {
        if i < to {
            assert(part[i - base] == text@[i as int]);
        }
    }
    i
}

/// The value of a hexadecimal digit of either case.
fn digit_of(c: char) -> (digit: Option<usize>)
    ensures
        match digit {
            Some(d) => hex_digit(c) == Some(d as nat) && d < 16,
            None => hex_digit(c) is None,
        },
{
    let n: u32 = c as u32;
    if 0x30 <= n && n <= 0x39 {
        Some((n - 0x30) as usize)
    } else if 0x61 <= n && n <= 0x66 {
        Some((n - 0x61 + 10) as usize)
    } else if 0x41 <= n && n <= 0x46 {
        Some((n - 0x41 + 10) as usize)
    } else {
        None
    }
}

/// The digits of a number never write less than a prefix of them does.
proof fn lemma_hex_value_prefix(digits: Seq<char>, k: int)
    requires
        0 <= k <= digits.len(),
    ensures
        hex_value(digits.take(k)) <= hex_value(digits),
    decreases digits.len(),
{
    if k == digits.len() {
        assert(digits.take(k) =~= digits);
    } else {
        lemma_hex_value_prefix(digits.drop_last(), k);
        assert(digits.drop_last().take(k) =~= digits.take(k));
    }
}

/// The address that `text[from..to]` writes.
fn address_of(text: &Vec<char>, from: usize, to: usize) -> (address: Option<usize>)
    requires
        from <= to <= text@.len(),
    ensures
        address == parse_hex(text@.subrange(from as int, to as int)),
{
    let ghost part = text@.subrange(from as int, to as int);
    let first: usize = if from < to && text[from] == '+' {
        from + 1
    } else {
        from
    };
    let ghost digits = text@.subrange(first as int, to as int);
    proof {
        if first == from {
            assert(digits =~= part);
        } else {
            assert(digits =~= part.drop_first());
        }
    }
    assert(parse_hex(part) == parse_digits(digits));
    if first == to {
        return None;
    }
    let mut value: usize = 0;
    let mut i: usize = first;
    while i < to
        invariant
            first <= i <= to <= text@.len(),
            first < to,
            digits == text@.subrange(first as int, to as int),
            parse_hex(text@.subrange(from as int, to as int)) == parse_digits(digits),
            is_hex(digits.take(i - first)),
            value == hex_value(digits.take(i - first)),
        decreases to - i,
    {
        let ghost done = digits.take(i - first);
        let ghost more = digits.take(i - first + 1);
        proof {
            assert(more.drop_last() =~= done);
            assert(more.last() == text@[i as int]);
            assert(digits[i - first] == text@[i as int]);
        }
        match digit_of(text[i]) {
            Some(d) => {
                if value > (usize::MAX - d) / 16 {
                    proof {
                        lemma_hex_value_prefix(digits, i - first + 1);
                    }
                    return None;
                }
                value = value * 16 + d;
                proof {
                    assert forall|k: int| 0 <= k < more.len() implies hex_digit(
                        #[trigger] more[k],
                    ) is Some by {
                        if k < done.len() {
                            assert(more[k] == done[k]);
                        }
                    }
                }
            },
            None => {
                return None;
            },
        }
        i += 1;
    }
    proof {
        assert(digits.take(to - first) =~= digits);
    }
    Some(value)
}

/// The characters of `line`, in order.
fn chars_of(line: &str) -> (chars: Vec<char>)
    ensures
        chars@ == line@,
{
    let mut chars: Vec<char> = Vec::new();
    for c in it: line.chars()
        invariant
            it.seq() == line@,
            chars@.len() == it.index(),
            forall|j: int| 0 <= j < chars@.len() ==> chars@[j] == it.seq()[j],
    {
        chars.push(c);
    }
    chars
}

/// Whether the field `text[from..to]` begins with `rw-`.
fn is_writable(text: &Vec<char>, from: usize, to: usize) -> (writable: bool)
    requires
        from <= to <= text@.len(),
    ensures
        writable == starts_with(text@.subrange(from as int, to as int), writable_permissions()),
{
    let ghost perms = text@.subrange(from as int, to as int);
    let writable = to - from >= 3 && text[from] == 'r' && text[from + 1] == 'w' && text[from + 2]
        == '-';
    proof {
        if perms.len() >= 3 {
            assert(perms.take(3)[0] == perms[0]);
            assert(perms.take(3)[1] == perms[1]);
            assert(perms.take(3)[2] == perms[2]);
            if writable {
                assert(perms.take(3) =~= writable_permissions());
            }
        }
    }
    writable
}

/// Whether the line ends in `[stack]`.
fn is_tagged_stack(text: &Vec<char>) -> (tagged: bool)
    ensures
        tagged == ends_with(text@, stack_tag()),
{
    let n: usize = text.len();
    let tagged = n >= 7 && text[n - 7] == '[' && text[n - 6] == 's' && text[n - 5] == 't' && text[n
        - 4] == 'a' && text[n - 3] == 'c' && text[n - 2] == 'k' && text[n - 1] == ']';
    proof {
        if n >= 7 {
            let tail = text@.skip(n - 7);
            assert(tail[0] == text@[n - 7]);
            assert(tail[1] == text@[n - 6]);
            assert(tail[2] == text@[n - 5]);
            assert(tail[3] == text@[n - 4]);
            assert(tail[4] == text@[n - 3]);
            assert(tail[5] == text@[n - 2]);
            assert(tail[6] == text@[n - 1]);
            if tagged {
                assert(tail =~= stack_tag());
            }
        }
    }
    tagged
}

/// Reads one line of the mapping description.
///
/// Returns the region that the line describes, or `None` where the line is
/// malformed.
pub fn parse_region(line: &str, stack_pointer: usize) -> (region: Option<MemoryRegion>)
    ensures
        region == region_of(line@, stack_pointer),
{
    let text = chars_of(line);
    let (range_from, range_to) = next_field(&text, 0);
    let (perms_from, perms_to) = next_field(&text, range_to);
    let ghost range = text@.subrange(range_from as int, range_to as int);
    if range_from == range_to || perms_from == perms_to {
        return None;
    }
    let dash = next_dash(&text, range_from, range_to, Ghost(range_from as int));
    if dash == range_to {
        return None;
    }
    let end_to = next_dash(&text, dash + 1, range_to, Ghost(range_from as int));
    proof {
        assert(range.subrange(0, dash - range_from) =~= text@.subrange(
            range_from as int,
            dash as int,
        ));
        assert(range.subrange(dash + 1 - range_from, end_to - range_from) =~= text@.subrange(
            dash + 1,
            end_to as int,
        ));
    }
    let start = match address_of(&text, range_from, dash) {
        Some(start) => start,
        None => {
            return None;
        },
    };
    let end = match address_of(&text, dash + 1, end_to) {
        Some(end) => end,
        None => {
            return None;
        },
    };
    let writable = is_writable(&text, perms_from, perms_to);
    let tagged = is_tagged_stack(&text);
    Some(
        MemoryRegion {
            start,
            end,
            writable,
            is_stack: tagged || (start <= stack_pointer && stack_pointer < end),
        },
    )
}

} // verus!
