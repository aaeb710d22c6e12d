//! Checks of path resolution, relative-path stripping, the path set, and
//! the big-endian length fields.

use astra_server::dispatch::glob_diagnostic;
use astra_server::listing::{bytes_eq, strip_two_segments, PathSet};
use astra_server::paths::{resolve_path, trim_bytes};
use astra_server::wire::{be_to_u64, u64_to_be};

#[test]
fn resolution_trims_and_normalizes() {
    assert_eq!(resolve_path(b" \tfoo\\bar\r"), b"rom:/Data/foo/bar".to_vec());
    assert_eq!(resolve_path(b"units/a.bin"), b"rom:/Data/units/a.bin".to_vec());
    assert_eq!(resolve_path(b""), b"rom:/Data/".to_vec());
    assert_eq!(resolve_path(b"  \r\n "), b"rom:/Data/".to_vec());
}

#[test]
fn trimming_is_exact() {
    assert_eq!(trim_bytes(b"  a b  "), b"a b".to_vec());
    assert_eq!(trim_bytes(b"ab"), b"ab".to_vec());
    assert_eq!(trim_bytes(b""), Vec::<u8>::new());
}

#[test]
fn stripping_drops_the_first_two_segments() {
    assert_eq!(strip_two_segments(b"rom:/Data/units/a.bin"), b"units/a.bin".to_vec());
    assert_eq!(strip_two_segments(b"rom:/Data/a.bin"), b"a.bin".to_vec());
    assert_eq!(strip_two_segments(b"rom:/Data"), Vec::<u8>::new());
    assert_eq!(strip_two_segments(b""), Vec::<u8>::new());
    // Repeated separators do not make empty segments.
    assert_eq!(strip_two_segments(b"rom:/Data//units//a.bin"), b"units/a.bin".to_vec());
}

#[test]
fn path_set_deduplicates() {
    let mut set = PathSet::new();
    set.insert(b"units/a.bin".to_vec());
    set.insert(b"units/b.bin".to_vec());
    set.insert(b"units/a.bin".to_vec());
    assert_eq!(set.len(), 2);
    assert!(set.contains(b"units/a.bin"));
    assert!(set.contains(b"units/b.bin"));
    assert!(!set.contains(b"units/c.bin"));
    // First-insertion order is preserved.
    let entries = set.entries();
    assert_eq!(entries[0], b"units/a.bin".to_vec());
    assert_eq!(entries[1], b"units/b.bin".to_vec());
}

#[test]
fn byte_string_comparison() {
    assert!(bytes_eq(b"abc", b"abc"));
    assert!(!bytes_eq(b"abc", b"abd"));
    assert!(!bytes_eq(b"abc", b"ab"));
    assert!(bytes_eq(b"", b""));
}

#[test]
fn big_endian_length_fields() {
    assert_eq!(u64_to_be(42), vec![0, 0, 0, 0, 0, 0, 0, 42]);
    assert_eq!(u64_to_be(0x0102030405060708), vec![1, 2, 3, 4, 5, 6, 7, 8]);
    assert_eq!(be_to_u64(&[0, 0, 0, 0, 0, 0, 1, 0]), 256);
    assert_eq!(be_to_u64(&u64_to_be(u64::MAX)), u64::MAX);
}

#[test]
fn glob_text_is_joined_but_never_filters() {
    let text = glob_diagnostic(b"rom:/Data/units", b"*.bin");
    assert_eq!(text, b"rom:/Data/units/*.bin".to_vec());
}
