use cavey::generation::{parse_generation, segment_name};

#[test]
fn names_are_eight_hex_digits_at_least() {
    assert_eq!(segment_name(0), "00000000");
    assert_eq!(segment_name(1), "00000001");
    assert_eq!(segment_name(255), "000000ff");
    assert_eq!(segment_name(0xdeadbeef), "deadbeef");
    assert_eq!(segment_name(0x123456789), "123456789");
    assert_eq!(segment_name(u64::MAX), "ffffffffffffffff");
}

#[test]
fn names_are_read_as_hexadecimal() {
    assert_eq!(parse_generation("00000000"), Some(0));
    assert_eq!(parse_generation("0000000a"), Some(10));
    assert_eq!(parse_generation("0000000A"), Some(10));
    assert_eq!(parse_generation("10"), Some(16));
    assert_eq!(parse_generation("DeadBeef"), Some(0xdeadbeef));
    assert_eq!(parse_generation("ffffffffffffffff"), Some(u64::MAX));
    assert_eq!(parse_generation("00000000000000000000001"), Some(1));
}

#[test]
fn other_names_are_no_generation() {
    for name in ["", "g", "0x10", "+1", "-1", " 1", "1 ", "12.log", ".engine", "10000000000000000", "١"] {
        assert_eq!(parse_generation(name), None);
    }
}

#[test]
fn a_name_denotes_its_generation() {
    for generation in [0, 1, 9, 10, 15, 16, 4095, 0xffff_ffff, 0x1_0000_0000, u64::MAX - 1, u64::MAX] {
        assert_eq!(parse_generation(&segment_name(generation)), Some(generation));
    }
}
