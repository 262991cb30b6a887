use arc::errors::ArcError;
use arc::revid;

#[test]
fn empty_is_empty() {
    let e = revid::empty();
    assert!(e.is_empty());
    assert_eq!(e.value(), 0u128);
}

#[test]
fn empty_renders_as_zeros() {
    let e = revid::empty();
    assert_eq!(e.to_text(), "00000000000000000000000000000000");
}

#[test]
fn new_is_never_empty() {
    for _ in 0..32 {
        let id = revid::new();
        assert!(!id.is_empty());
        assert_ne!(id.value(), u128::MAX);
    }
}

#[test]
fn new_ids_differ() {
    let a = revid::new();
    let b = revid::new();
    assert_ne!(a.value(), b.value());
}

#[test]
fn parse_hyphenated() {
    let text = String::from("550e8400-e29b-41d4-a716-446655440000");
    let id = revid::parse(&text).unwrap();
    // The canonical rendering drops the hyphens: parsing is not identity.
    assert_eq!(id.to_text(), "550e8400e29b41d4a716446655440000");
}

#[test]
fn parse_canonical_round_trip() {
    let id = revid::new();
    let text = id.to_text();
    assert_eq!(text.len(), 32);
    let back = revid::parse(&text).unwrap();
    assert_eq!(back.value(), id.value());
}

#[test]
fn parse_malformed_is_format_error() {
    let bad = String::from("not-an-identifier");
    assert_eq!(revid::parse(&bad).unwrap_err(), ArcError::FormatError);
    let short = String::from("abc");
    assert_eq!(revid::parse(&short).unwrap_err(), ArcError::FormatError);
}
