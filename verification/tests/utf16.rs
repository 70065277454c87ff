use supermd::editor::utf16::{offset_from_utf16, offset_to_utf16};

const TEXT: &str = "aé😀b";

#[test]
fn byte_offsets_count_utf16_units() {
    let expect = [(0, 0), (1, 1), (3, 2), (7, 4), (8, 5)];
    for (bytes, units) in expect {
        assert_eq!(offset_to_utf16(TEXT, bytes), units, "byte {bytes}");
    }
    // an offset inside a character counts the whole character
    assert_eq!(offset_to_utf16(TEXT, 2), 2);
    assert_eq!(offset_to_utf16(TEXT, 100), 5);
}

#[test]
fn utf16_offsets_map_back_to_bytes() {
    let expect = [(0, 0), (1, 1), (2, 3), (4, 7), (5, 8)];
    for (units, bytes) in expect {
        assert_eq!(offset_from_utf16(TEXT, units), bytes, "unit {units}");
    }
    // half of a surrogate pair rounds up to the end of the emoji
    assert_eq!(offset_from_utf16(TEXT, 3), 7);
    assert_eq!(offset_from_utf16(TEXT, 99), 8);
}

#[test]
fn boundaries_round_trip_both_ways() {
    for b in [0, 1, 3, 7, 8] {
        assert_eq!(offset_from_utf16(TEXT, offset_to_utf16(TEXT, b)), b);
    }
    for u in [0, 1, 2, 4, 5] {
        assert_eq!(offset_to_utf16(TEXT, offset_from_utf16(TEXT, u)), u);
    }
    assert_eq!(offset_to_utf16("", 3), 0);
    assert_eq!(offset_from_utf16("", 3), 0);
}
