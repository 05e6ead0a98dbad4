//! Precompiled character maps.
use tokie::charsmap::{CharsmapError, PrecompiledCharsmap};

#[test]
fn rejects_truncated_blob() {
    assert_eq!(PrecompiledCharsmap::from_blob(&[]), Err(CharsmapError::Truncated));
    assert_eq!(
        PrecompiledCharsmap::from_blob(&[16, 0, 0, 0, 1, 2]),
        Err(CharsmapError::Truncated)
    );
}

#[test]
fn empty_trie_is_identity() {
    // trie_size = 0, empty replacements: every lookup misses.
    let cm = PrecompiledCharsmap::from_blob(&[0, 0, 0, 0]).unwrap();
    let mut out = String::new();
    cm.normalize_into("Hello, wörld!\r\nnext", &mut out);
    assert_eq!(out, "Hello, wörld!\r\nnext");
}
