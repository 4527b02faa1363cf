use latency_ladder::book::{BTreeLevels, Levels, SortedLevels};
use latency_ladder::deep::Price;

fn px(d: i64, c: i64) -> Price {
    Price::from_parts(d, c * 100)
}

/// The parallel arrays must never disagree in length. If they do, a price
/// and a size from different levels get paired and the book reports a
/// plausible, wrong quote.
fn assert_parallel(l: &SortedLevels) {
    let levels = l.ascending();
    assert_eq!(levels.len(), l.len(), "prices and sizes desynced");
    assert!(
        levels.windows(2).all(|w| w[0].0 < w[1].0),
        "prices must stay strictly ascending: {:?}",
        levels
    );
}

#[test]
fn inserts_stay_sorted_whatever_the_arrival_order() {
    let mut l = SortedLevels::default();
    for (p, s) in [
        (px(10, 2), 2),
        (px(9, 98), 4),
        (px(10, 0), 3),
        (px(11, 0), 1),
        (px(9, 0), 5),
    ] {
        l.set(p, s);
    }
    assert_parallel(&l);
    assert_eq!(l.min(), Some((px(9, 0), 5)));
    assert_eq!(l.max(), Some((px(11, 0), 1)));
    assert_eq!(l.len(), 5);
}

#[test]
fn resize_does_not_duplicate_a_level() {
    let mut l = SortedLevels::default();
    l.set(px(10, 0), 100);
    l.set(px(10, 0), 700);
    assert_parallel(&l);
    assert_eq!(l.len(), 1);
    assert_eq!(l.max(), Some((px(10, 0), 700)));
}

#[test]
fn delete_removes_from_both_arrays() {
    let mut l = SortedLevels::default();
    l.set(px(10, 0), 100);
    l.set(px(10, 1), 200);
    l.set(px(10, 2), 300);
    l.set(px(10, 1), 0);
    assert_parallel(&l);
    assert_eq!(l.len(), 2);
    assert_eq!(l.min(), Some((px(10, 0), 100)));
    assert_eq!(l.max(), Some((px(10, 2), 300)));
}

#[test]
fn deleting_an_absent_level_inserts_nothing() {
    let mut l = SortedLevels::default();
    l.set(px(10, 0), 100);
    l.set(px(42, 0), 0);
    assert_parallel(&l);
    assert_eq!(l.len(), 1);
}

#[test]
fn empties_cleanly() {
    let mut l = SortedLevels::default();
    l.set(px(10, 0), 100);
    l.set(px(10, 0), 0);
    assert_parallel(&l);
    assert!(l.is_empty());
    assert_eq!(l.max(), None);
    assert_eq!(l.min(), None);
}

/// Differential test against the R0 reference.
///
/// The whole point of keeping `BTreeLevels` after writing a faster container
/// is that any disagreement is a bug in the clever one. A deterministic
/// pseudo-random operation stream exercises interleaved inserts, resizes and
/// deletes far past what hand-written cases reach.
#[test]
fn agrees_with_the_btree_reference_over_random_operations() {
    let mut fast = SortedLevels::default();
    let mut reference = BTreeLevels::default();
    let mut state = 0x2545_F491_4F6C_DD1Du64;
    let mut next = || {
        state ^= state << 13;
        state ^= state >> 7;
        state ^= state << 17;
        state
    };

    for step in 0..20_000 {
        let r = next();
        // 40 distinct prices, deliberately narrow so collisions and
        // resizes happen constantly rather than every price being unique.
        let price = Price::from_parts(100, (r % 40) as i64 * 100);
        // Roughly 40% deletes, matching the 38.9% measured on a real day.
        let size = if r % 10 < 4 {
            0
        } else {
            (r >> 8) as u32 % 5_000 + 1
        };
        fast.set(price, size);
        reference.set(price, size);

        assert_parallel(&fast);
        assert_eq!(fast.len(), reference.len(), "len diverged at step {step}");
        assert_eq!(fast.max(), reference.max(), "max diverged at step {step}");
        assert_eq!(fast.min(), reference.min(), "min diverged at step {step}");
        assert_eq!(
            fast.total_size(),
            reference.total_size(),
            "total diverged at step {step}"
        );
    }
}

/// Deep books are rare (p99 = 14, max 52) but must not be wrong.
#[test]
fn handles_a_book_deeper_than_anything_observed() {
    let mut l = SortedLevels::default();
    for i in 0..200 {
        l.set(Price::from_parts(50, i * 100), (i + 1) as u32);
    }
    assert_parallel(&l);
    assert_eq!(l.len(), 200);
    assert_eq!(l.min().unwrap().0, Price::from_parts(50, 0));
    assert_eq!(l.max().unwrap().0, Price::from_parts(50, 199 * 100));
}
