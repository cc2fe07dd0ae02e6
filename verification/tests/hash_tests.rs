//! The FNV-1a hasher.
use dst::hash::FNV1A;

#[test]
fn test_fnv1a() {
    let mut state = FNV1A::default();
    state.write("Hello, World".as_bytes());
    assert_ne!(state.finish(), 0u64);
}

#[test]
fn fnv1a_known_value() {
    // FNV-1a of the single byte `a`
    let mut state = FNV1A::default();
    state.write(b"a");
    assert_eq!(state.finish(), 0xaf63dc4c8601ec8c);
}

#[test]
fn fnv1a_empty_is_offset_basis() {
    let mut state = FNV1A::default();
    state.write(b"");
    assert_eq!(state.finish(), 0xcbf29ce484222325);
}
