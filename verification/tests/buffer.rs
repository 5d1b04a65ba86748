use truncfmt::TruncatingFmtBuffer;

#[test]
fn test() {
    let mut buffer = TruncatingFmtBuffer::<30>::new();

    let s = format!("{} - 0x{:x}", 42, 42);
    buffer.write_str(&s).expect("truncated fmt buffer error");

    assert_eq!(("42 - 0x2a", false), buffer.as_str());
}

#[test]
fn test_longer() {
    let mut buffer = TruncatingFmtBuffer::<30>::new();

    let s = format!("{} - 0x{:x}", 4000, 4001);
    buffer.write_str(&s).expect("truncated fmt buffer error");

    assert_eq!(("4000 - 0xfa1", false), buffer.as_str());
}

#[test]
fn test_longer_trunc() {
    let mut buffer = TruncatingFmtBuffer::<30>::new();

    let s = format!("long: {} - 0x{:x}", 400000, 400100);
    buffer.write_str(&s).expect("truncated fmt buffer error");

    assert_eq!(("long: 400000 - 0x61ae4", false), buffer.as_str());
}

#[test]
fn test_too_long() {
    let mut buffer = TruncatingFmtBuffer::<30>::new();

    let s = format!("toooooo long:    {} - 0x{:x}", 400000, 400100);
    buffer.write_str(&s).expect("truncated fmt buffer error");

    assert_eq!(("toooooo long:    400000 - 0x61", true), buffer.as_str());
}

#[test]
fn test_too_long_over_the_end() {
    let mut buffer = TruncatingFmtBuffer::<30>::new();

    buffer.write_str("toooooo long").expect("truncated fmt buffer error");
    assert_eq!(("toooooo long", false), buffer.as_str());

    let s = format!(":    {} - 0x{:x}", 400000, 400100);
    buffer.write_str(&s).expect("truncated fmt buffer error");

    assert_eq!(("toooooo long:    400000 - 0x61", true), buffer.as_str());
    buffer.write_str("some more").expect("truncated fmt buffer error");
    assert_eq!(("toooooo long:    400000 - 0x61", true), buffer.as_str());
}

// The same outputs arrive fragment by fragment, as a formatting
// mechanism would deliver them: one call per literal or interpolated
// piece.

#[test]
fn fragments_fit() {
    let mut buffer = TruncatingFmtBuffer::<30>::new();
    for frag in ["42", " - 0x", "2a"] {
        buffer.write_str(frag).expect("truncated fmt buffer error");
    }
    assert_eq!(("42 - 0x2a", false), buffer.as_str());
}

#[test]
fn fragments_fit_longer() {
    let mut buffer = TruncatingFmtBuffer::<30>::new();
    for frag in ["4000", " - 0x", "fa1"] {
        buffer.write_str(frag).expect("truncated fmt buffer error");
    }
    assert_eq!(("4000 - 0xfa1", false), buffer.as_str());
}

#[test]
fn fragments_fit_exactly_22_bytes() {
    let mut buffer = TruncatingFmtBuffer::<30>::new();
    for frag in ["long: ", "400000", " - 0x", "61ae4"] {
        buffer.write_str(frag).expect("truncated fmt buffer error");
    }
    assert_eq!(("long: 400000 - 0x61ae4", false), buffer.as_str());
}

#[test]
fn fragments_truncate() {
    let mut buffer = TruncatingFmtBuffer::<30>::new();
    for frag in ["toooooo long:    ", "400000", " - 0x", "61ae4"] {
        buffer.write_str(frag).expect("truncated fmt buffer error");
    }
    assert_eq!(("toooooo long:    400000 - 0x61", true), buffer.as_str());
}

#[test]
fn exact_fit_does_not_truncate() {
    let mut buffer = TruncatingFmtBuffer::<5>::new();
    buffer.write_str("hello").expect("write failed");
    assert_eq!(("hello", false), buffer.as_str());
}

#[test]
fn write_after_exact_fit_truncates_with_zero_bytes() {
    let mut buffer = TruncatingFmtBuffer::<5>::new();
    buffer.write_str("hello").expect("write failed");
    buffer.write_str("x").expect("write failed");
    assert_eq!(("hello", true), buffer.as_str());
}

#[test]
fn empty_write_on_full_buffer_is_clean() {
    let mut buffer = TruncatingFmtBuffer::<5>::new();
    buffer.write_str("hello").expect("write failed");
    buffer.write_str("").expect("write failed");
    assert_eq!(("hello", false), buffer.as_str());
}

#[test]
fn multibyte_char_is_never_split() {
    // "né" is 3 bytes; only "n" fits in 2, and the 2-byte char must
    // not be cut in half.
    let mut buffer = TruncatingFmtBuffer::<2>::new();
    buffer.write_str("né").expect("write failed");
    assert_eq!(("n", true), buffer.as_str());
}

#[test]
fn multibyte_boundary_leaves_slack() {
    // Two 2-byte characters against 3 bytes of capacity: one fits,
    // the second would straddle the boundary and is dropped whole.
    let mut buffer = TruncatingFmtBuffer::<3>::new();
    buffer.write_str("éé").expect("write failed");
    assert_eq!(("é", true), buffer.as_str());
    // The byte of slack is still usable by a narrower character.
    buffer.write_str("a").expect("write failed");
    assert_eq!(("éa", true), buffer.as_str());
}

#[test]
fn four_byte_char_cases() {
    // "🦀" is 4 bytes.
    let mut buffer = TruncatingFmtBuffer::<4>::new();
    buffer.write_str("🦀").expect("write failed");
    assert_eq!(("🦀", false), buffer.as_str());

    let mut small = TruncatingFmtBuffer::<3>::new();
    small.write_str("🦀").expect("write failed");
    assert_eq!(("", true), small.as_str());
}

#[test]
fn zero_capacity_buffer() {
    let mut buffer = TruncatingFmtBuffer::<0>::new();
    buffer.write_str("").expect("write failed");
    assert_eq!(("", false), buffer.as_str());
    buffer.write_str("a").expect("write failed");
    assert_eq!(("", true), buffer.as_str());
}

#[test]
fn as_str_is_idempotent() {
    let mut buffer = TruncatingFmtBuffer::<4>::new();
    buffer.write_str("hello").expect("write failed");
    let (first_text, first_flag) = {
        let (t, f) = buffer.as_str();
        (t.to_string(), f)
    };
    let (second_text, second_flag) = buffer.as_str();
    assert_eq!(first_text, second_text);
    assert_eq!(first_flag, second_flag);
}

#[test]
fn used_and_truncated_are_monotonic() {
    let mut buffer = TruncatingFmtBuffer::<10>::new();
    let mut last_used = 0;
    let mut last_truncated = false;
    for frag in ["abc", "", "defg", "hij", "klmnop", ""] {
        buffer.write_str(frag).expect("write failed");
        let (text, truncated) = buffer.as_str();
        let used = text.len();
        assert!(used >= last_used);
        assert!(truncated || !last_truncated);
        last_used = used;
        last_truncated = truncated;
    }
    assert_eq!((10, true), (last_used, last_truncated));
    assert_eq!(("abcdefghij", true), buffer.as_str());
}

#[test]
fn truncation_is_sticky_across_fitting_writes() {
    let mut buffer = TruncatingFmtBuffer::<8>::new();
    buffer.write_str("0123456789").expect("write failed");
    assert_eq!(("01234567", true), buffer.as_str());
    // Nothing fits any more, and the flag never resets.
    buffer.write_str("").expect("write failed");
    assert_eq!(("01234567", true), buffer.as_str());
}
