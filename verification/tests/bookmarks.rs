use std::collections::BTreeMap;
use std::path::PathBuf;
use supermd::bookmarks::{hex_decode, hex_encode, needs_scope, prune, Resolution};


#[test]
fn hex_roundtrips_arbitrary_bytes() {
    let bytes: Vec<u8> = (0u8..=255).collect();
    assert_eq!(hex_decode(&hex_encode(&bytes)).unwrap(), bytes);
}

#[test]
fn hex_encode_is_lowercase_and_double_width() {
    assert_eq!(hex_encode(&[0x00, 0x0f, 0xff]), "000fff");
}

#[test]
fn hex_decode_rejects_odd_length_and_non_hex() {
    assert!(hex_decode("abc").is_none());
    assert!(hex_decode("zz").is_none());
    assert_eq!(hex_decode("").unwrap(), Vec::<u8>::new());
}

#[test]
fn prune_drops_bookmarks_with_no_matching_recent() {
    let mut map = BTreeMap::from([
        ("/a".to_string(), "00".to_string()),
        ("/b".to_string(), "11".to_string()),
    ]);
    prune(&mut map, &["/a".to_string()]);
    assert_eq!(map.keys().collect::<Vec<_>>(), vec!["/a"]);
}

#[test]
fn prune_keeps_everything_when_all_are_recent() {
    let mut map = BTreeMap::from([("/a".to_string(), "00".to_string())]);
    prune(&mut map, &["/a".to_string(), "/b".to_string()]);
    assert_eq!(map.len(), 1);
}

#[test]
fn scope_is_only_needed_in_the_sandboxed_build() {
    // This crate has no sandboxed App Store build, so no build needs it.
    assert!(!needs_scope());
}

#[test]
fn hex_decode_accepts_uppercase_digits() {
    assert_eq!(hex_decode("0A").unwrap(), vec![0x0a]);
    assert_eq!(hex_decode("fF").unwrap(), vec![0xff]);
}

#[test]
fn hex_decode_rejects_non_ascii() {
    assert!(hex_decode("\u{e9}a").is_none());
}

#[test]
fn resolutions_compare_by_path() {
    assert_eq!(Resolution::Fresh(PathBuf::from("/a")), Resolution::Fresh(PathBuf::from("/a")));
    assert_ne!(Resolution::Stale(PathBuf::from("/a")), Resolution::Missing);
}
