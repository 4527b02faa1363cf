use latency_ladder::deep::{Price, UNITS_PER_DOLLAR};

#[test]
fn displays_exactly() {
    assert_eq!(Price::from_parts(99, 9900).to_string(), "99.99");
    assert_eq!(Price::from_parts(0, 1).to_string(), "0.0001");
    assert_eq!(Price::from_raw(1_000_000).to_string(), "100.00");
    assert_eq!(Price::from_raw(-25_000).to_string(), "-2.50");
    assert_eq!(Price::zero().to_string(), "0.00");
}

/// The whole point of the type: the classic binary-float error must not be
/// representable here.
#[test]
fn tenths_add_exactly() {
    let a = Price::from_parts(0, 1_000); // 0.10
    let b = Price::from_parts(0, 2_000); // 0.20
    assert_eq!(
        Price::from_raw(a.raw() + b.raw()),
        Price::from_parts(0, 3_000)
    );
}

#[test]
fn orders_by_integer() {
    let mut v = [
        Price::from_parts(10, 1),
        Price::from_parts(9, 9999),
        Price::from_parts(10, 0),
    ];
    v.sort();
    assert_eq!(v[0], Price::from_parts(9, 9999));
    assert_eq!(v[2], Price::from_parts(10, 1));
}

/// A penny grid maps prices to array slots; anything off-grid must say so
/// rather than silently rounding into the wrong bucket.
#[test]
fn tick_index_only_accepts_on_grid_prices() {
    let penny = UNITS_PER_DOLLAR / 100; // 100 units
    assert_eq!(Price::from_parts(1, 0).tick_index(penny), Some(100));
    assert_eq!(Price::from_parts(99, 9900).tick_index(penny), Some(9999));
    assert_eq!(Price::from_parts(0, 1).tick_index(penny), None, "sub-penny");
    assert_eq!(Price::from_raw(-100).tick_index(penny), None, "negative");
    assert_eq!(Price::from_parts(1, 0).tick_index(0), None, "zero tick");
}
