use conservative_gc::regions::{is_whitespace, parse_region, MemoryRegion};

/// Reads a line with a stack pointer that lies in no region.
fn parse(line: &str) -> Option<(usize, usize, bool, bool)> {
    parse_region(line, usize::MAX).map(|r| (r.start, r.end, r.writable, r.is_stack))
}

#[test]
fn parses_a_heap_line() {
    let line = "55d0c3a4b000-55d0c3a6c000 rw-p 00000000 00:00 0                          [heap]";
    assert_eq!(parse(line), Some((0x55d0c3a4b000, 0x55d0c3a6c000, true, false)));
}

#[test]
fn parses_a_stack_line() {
    let line = "7ffc1c9f5000-7ffc1ca16000 rw-p 00000000 00:00 0                          [stack]";
    assert_eq!(parse(line), Some((0x7ffc1c9f5000, 0x7ffc1ca16000, true, true)));
}

#[test]
fn parses_a_line_without_a_path() {
    assert_eq!(parse("7f1c2000-7f1c4000 rw-p 00000000 00:00 0"), Some((0x7f1c2000, 0x7f1c4000, true, false)));
    assert_eq!(parse("10-20 rw-"), Some((0x10, 0x20, true, false)));
}

#[test]
fn only_read_write_no_execute_is_writable() {
    assert_eq!(parse("1000-2000 rw-p"), Some((0x1000, 0x2000, true, false)));
    assert_eq!(parse("1000-2000 rw-s"), Some((0x1000, 0x2000, true, false)));
    assert_eq!(parse("1000-2000 rwxp"), Some((0x1000, 0x2000, false, false)));
    assert_eq!(parse("1000-2000 r--p"), Some((0x1000, 0x2000, false, false)));
    assert_eq!(parse("1000-2000 r-xp"), Some((0x1000, 0x2000, false, false)));
    assert_eq!(parse("1000-2000 ---p"), Some((0x1000, 0x2000, false, false)));
    assert_eq!(parse("1000-2000 -w-p"), Some((0x1000, 0x2000, false, false)));
    assert_eq!(parse("1000-2000 rw"), Some((0x1000, 0x2000, false, false)));
    assert_eq!(parse("1000-2000 RW-p"), Some((0x1000, 0x2000, false, false)));
}

#[test]
fn the_stack_is_told_by_its_tag_or_by_the_stack_pointer() {
    let tagged = "7000-9000 rw-p 00000000 00:00 0 [stack]";
    let plain = "7000-9000 rw-p 00000000 00:00 0";
    assert!(parse_region(tagged, 0).unwrap().is_stack);
    assert!(parse_region(tagged, 0x8000).unwrap().is_stack);
    assert!(!parse_region(plain, 0).unwrap().is_stack);
    assert!(!parse_region(plain, 0x6fff).unwrap().is_stack);
    assert!(parse_region(plain, 0x7000).unwrap().is_stack);
    assert!(parse_region(plain, 0x8fff).unwrap().is_stack);
    assert!(!parse_region(plain, 0x9000).unwrap().is_stack);
}

#[test]
fn the_tag_must_end_the_line() {
    assert!(!parse_region("7000-9000 rw-p 0 0 0 [stack] ", 0).unwrap().is_stack);
    assert!(!parse_region("7000-9000 rw-p 0 0 0 [stack:12]", 0).unwrap().is_stack);
    assert!(!parse_region("7000-9000 rw-p 0 0 0 stack]", 0).unwrap().is_stack);
    assert!(parse_region("7000-9000 rw-p 0 0 0 x[stack]", 0).unwrap().is_stack);
    assert!(parse_region("7000-9000 [stack]", 0).unwrap().is_stack);
}

#[test]
fn a_line_needs_two_fields() {
    assert_eq!(parse(""), None);
    assert_eq!(parse("   \t "), None);
    assert_eq!(parse("1000-2000"), None);
    assert_eq!(parse("  1000-2000   "), None);
}

#[test]
fn the_range_needs_a_dash_and_two_addresses() {
    assert_eq!(parse("1000 rw-p"), None);
    assert_eq!(parse("-2000 rw-p"), None);
    assert_eq!(parse("1000- rw-p"), None);
    assert_eq!(parse("- rw-p"), None);
    assert_eq!(parse("1000--2000 rw-p"), None);
    assert_eq!(parse("10g0-2000 rw-p"), None);
    assert_eq!(parse("1000-20x0 rw-p"), None);
    assert_eq!(parse("0x1000-0x2000 rw-p"), None);
    assert_eq!(parse("1000_2000 rw-p"), None);
}

#[test]
fn what_follows_a_second_dash_is_not_read() {
    assert_eq!(parse("10-20-30 rw-p"), Some((0x10, 0x20, true, false)));
    assert_eq!(parse("10-20-zz rw-p"), Some((0x10, 0x20, true, false)));
    assert_eq!(parse("10-20- rw-p"), Some((0x10, 0x20, true, false)));
}

#[test]
fn addresses_are_hexadecimal_in_either_case() {
    assert_eq!(parse("abcdef-ABCDEF rw-p"), Some((0xabcdef, 0xabcdef, true, false)));
    assert_eq!(parse("0-9 rw-p"), Some((0, 9, true, false)));
    assert_eq!(parse("a-f rw-p"), Some((10, 15, true, false)));
    assert_eq!(parse("A-F rw-p"), Some((10, 15, true, false)));
    assert_eq!(parse("0000000000000000000000001f-20 rw-p"), Some((0x1f, 0x20, true, false)));
}

#[test]
fn an_address_may_carry_a_plus_sign() {
    assert_eq!(parse("+10-+20 rw-p"), Some((0x10, 0x20, true, false)));
    assert_eq!(parse("+-20 rw-p"), None);
    assert_eq!(parse("10-+ rw-p"), None);
    assert_eq!(parse("++10-20 rw-p"), None);
}

#[test]
fn an_address_must_fit_a_word() {
    assert_eq!(
        parse("0-ffffffffffffffff rw-p"),
        Some((0, usize::MAX, true, false))
    );
    assert_eq!(parse("0-10000000000000000 rw-p"), None);
    assert_eq!(parse("10000000000000000-0 rw-p"), None);
    assert_eq!(parse("0-fffffffffffffffff rw-p"), None);
    assert_eq!(parse("0-1000000000000000g rw-p"), None);
}

#[test]
fn addresses_agree_with_the_standard_library() {
    let texts = [
        "", "+", "-", "0", "+0", "7", "f", "F", "g", "10", "ff", "+ff", "-ff", "dead", "DEAD",
        "dEaD", "0x10", " 10", "10 ", "1_0", "ffffffffffffffff", "10000000000000000",
        "0ffffffffffffffff", "00000000000000000000", "fffffffffffffffff", "123456789abcdef0",
        "٣", "１", "1é",
    ];
    for text in texts.iter() {
        if text.contains('-') || text.chars().any(|c| c.is_whitespace()) {
            continue;
        }
        let expected = usize::from_str_radix(text, 16).ok();
        let line = format!("{}-0 rw-p", text);
        assert_eq!(parse_region(&line, 0).map(|r| r.start), expected, "{:?}", text);
        let line = format!("0-{} rw-p", text);
        assert_eq!(parse_region(&line, 0).map(|r| r.end), expected, "{:?}", text);
    }
}

#[test]
fn fields_are_split_at_any_whitespace() {
    assert_eq!(parse("\t 10-20 \t\r\n rw-p"), Some((0x10, 0x20, true, false)));
    assert_eq!(parse("10-20\u{a0}rw-p"), Some((0x10, 0x20, true, false)));
    assert_eq!(parse("10-20\u{3000}rw-p\u{2003}x"), Some((0x10, 0x20, true, false)));
    assert_eq!(parse("\u{85}10-20\u{1680}rw-p"), Some((0x10, 0x20, true, false)));
    // a zero-width space is no whitespace
    assert_eq!(parse("10-20\u{200b}rw-p"), None);
    assert_eq!(parse("10-20 \u{200b}rw-p"), Some((0x10, 0x20, false, false)));
}

#[test]
fn whitespace_agrees_with_the_standard_library() {
    for n in 0..=0x10ffffu32 {
        if let Some(c) = char::from_u32(n) {
            assert_eq!(is_whitespace(c), c.is_whitespace(), "U+{:04X}", n);
        }
    }
}

#[test]
fn fields_agree_with_the_standard_library() {
    let lines = [
        "10-20 rw-p 0 0 0",
        "  10-20\trw-p",
        "10-20",
        "",
        " ",
        "a-b\u{2028}rw-\u{2029}",
        "a-b\u{202f}rwx",
        "a-b\u{205f}rw-p [stack]",
        "zz rw-p",
    ];
    for line in lines.iter() {
        let mut parts = line.split_whitespace();
        let expected = match (parts.next(), parts.next()) {
            (Some(range), Some(perms)) => {
                let mut bounds = range.split('-');
                match (bounds.next(), bounds.next()) {
                    (Some(a), Some(b)) => {
                        match (usize::from_str_radix(a, 16), usize::from_str_radix(b, 16)) {
                            (Ok(start), Ok(end)) => Some((
                                start,
                                end,
                                perms.starts_with("rw-"),
                                line.ends_with("[stack]") || (start <= 11 && 11 < end),
                            )),
                            _ => None,
                        }
                    }
                    _ => None,
                }
            }
            _ => None,
        };
        let got = parse_region(line, 11).map(|r| (r.start, r.end, r.writable, r.is_stack));
        assert_eq!(got, expected, "{:?}", line);
    }
}

#[test]
fn the_stack_is_scanned_from_the_stack_pointer() {
    let stack = MemoryRegion { start: 0x7000, end: 0x9000, writable: true, is_stack: true };
    assert_eq!(stack.scan_start(0x8000), 0x8000);
    assert_eq!(stack.scan_start(0x7000), 0x7000);
    assert_eq!(stack.scan_start(0x6000), 0x7000);
    assert_eq!(stack.scan_start(0xa000), 0xa000);
    let heap = MemoryRegion { start: 0x7000, end: 0x9000, writable: true, is_stack: false };
    assert_eq!(heap.scan_start(0x8000), 0x7000);
    assert_eq!(heap.scan_start(0), 0x7000);
}
