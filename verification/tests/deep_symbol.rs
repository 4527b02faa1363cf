use latency_ladder::deep::Symbol;

#[test]
fn trims_padding() {
    let s = Symbol::from_bytes(*b"AAPL    ");
    assert_eq!(s.trimmed(), b"AAPL");
    assert_eq!(s.as_str(), Some("AAPL"));
    assert_eq!(s.to_string(), "AAPL");
}

#[test]
fn round_trips_through_ticker() {
    for t in ["A", "AAPL", "GOOGL", "ZVZZT"] {
        assert_eq!(Symbol::from_ticker(t).as_str(), Some(t));
    }
}

#[test]
fn full_width_symbol_has_no_padding() {
    let s = Symbol::from_ticker("ABCDEFGH");
    assert_eq!(s.trimmed(), b"ABCDEFGH");
}

/// Equality must agree whichever way it is computed, since the hot path uses
/// the integer form and diagnostics use the bytes.
#[test]
fn u64_equality_matches_byte_equality() {
    let a = Symbol::from_ticker("AAPL");
    let b = Symbol::from_ticker("AAPL");
    let c = Symbol::from_ticker("AAPY");
    assert_eq!(a.as_u64(), b.as_u64());
    assert_ne!(a.as_u64(), c.as_u64());
}

/// Non-ASCII must not panic; it is a malformed feed, not a crash.
#[test]
fn non_utf8_degrades_gracefully() {
    let s = Symbol::from_bytes([0xff, 0xfe, b' ', b' ', b' ', b' ', b' ', b' ']);
    assert_eq!(s.as_str(), None);
    assert!(!s.to_string().is_empty());
}

#[test]
fn a_diagnostic_names_the_ticker() {
    let s = Symbol::from_ticker("AAPL");
    assert_eq!(s.debug_text(), "Symbol(AAPL)");
    assert_eq!(format!("{s:?}"), "Symbol(AAPL)");
    assert_eq!(format!("{:?}", Some(s)), "Some(Symbol(AAPL))");
    let odd = Symbol::from_bytes([0xff, 0xfe, b' ', b' ', b' ', b' ', b' ', b' ']);
    assert_eq!(format!("{odd:?}"), "Symbol([ff, fe, 20, 20, 20, 20, 20, 20])");
}
