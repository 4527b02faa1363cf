use latency_ladder::book::inline::INLINE;
use latency_ladder::book::{BTreeLevels, InlineLevels, Levels};
use latency_ladder::deep::Price;

fn px(d: i64, c: i64) -> Price {
    Price::from_parts(d, c * 100)
}

fn assert_sorted(l: &InlineLevels) {
    let v: Vec<Price> = l.levels().into_iter().map(|(p, _)| p).collect();
    assert!(
        v.windows(2).all(|w| w[0] < w[1]),
        "levels must stay strictly ascending: {v:?}"
    );
    assert_eq!(v.len(), l.len());
}

#[test]
fn stays_inline_below_capacity() {
    let mut l = InlineLevels::default();
    for i in 0..INLINE {
        l.set(px(10, i as i64), (i + 1) as u32);
    }
    assert!(l.is_inline());
    assert_eq!(l.len(), INLINE);
    assert_sorted(&l);
}

/// The boundary the whole type turns on.
#[test]
fn spills_only_when_a_new_price_will_not_fit() {
    let mut l = InlineLevels::default();
    for i in 0..INLINE {
        l.set(px(10, i as i64), 1);
    }
    assert!(l.is_inline());
    // Resizing an existing level must NOT spill; there is room already.
    l.set(px(10, 0), 999);
    assert!(l.is_inline(), "a resize must not force a spill");
    // A genuinely new price does.
    l.set(px(20, 0), 1);
    assert!(!l.is_inline());
    assert_eq!(l.len(), INLINE + 1);
    assert_sorted(&l);
    assert_eq!(l.max(), Some((px(20, 0), 1)));
}

/// A delete at capacity has nowhere to go and must not allocate.
#[test]
fn delete_at_capacity_does_not_spill() {
    let mut l = InlineLevels::default();
    for i in 0..INLINE {
        l.set(px(10, i as i64), 1);
    }
    l.set(px(99, 0), 0); // absent
    assert!(l.is_inline());
    l.set(px(10, 3), 0); // present
    assert!(l.is_inline());
    assert_eq!(l.len(), INLINE - 1);
    assert_sorted(&l);
}

#[test]
fn inserts_in_the_middle_shift_correctly() {
    let mut l = InlineLevels::default();
    l.set(px(10, 0), 1);
    l.set(px(10, 4), 2);
    l.set(px(10, 2), 3);
    assert_sorted(&l);
    assert_eq!(l.min(), Some((px(10, 0), 1)));
    assert_eq!(l.max(), Some((px(10, 4), 2)));
    let seen = l.levels();
    assert_eq!(seen[1], (px(10, 2), 3));
}

#[test]
fn clear_returns_to_inline_and_releases_the_spill() {
    let mut l = InlineLevels::default();
    for i in 0..(INLINE + 20) {
        l.set(px(10, i as i64), 1);
    }
    assert!(!l.is_inline());
    l.clear();
    assert!(l.is_inline(), "clear must release the spill allocation");
    assert!(l.is_empty());
}

/// Differential test against the R0 reference, driven hard enough to cross
/// the inline/spill boundary in both directions many times.
#[test]
fn agrees_with_the_btree_reference_across_the_spill_boundary() {
    let mut fast = InlineLevels::default();
    let mut reference = BTreeLevels::default();
    let mut state = 0x9E37_79B9_7F4A_7C15u64;
    let mut next = || {
        state ^= state << 13;
        state ^= state >> 7;
        state ^= state << 17;
        state
    };

    for step in 0..50_000 {
        let r = next();
        // 24 prices against an inline capacity of 8 guarantees repeated
        // spilling and repeated draining back below the boundary.
        let price = Price::from_parts(100, (r % 24) as i64 * 100);
        let size = if r % 10 < 4 {
            0
        } else {
            (r >> 8) as u32 % 5_000 + 1
        };
        fast.set(price, size);
        reference.set(price, size);

        assert_sorted(&fast);
        assert_eq!(fast.len(), reference.len(), "len diverged at step {step}");
        assert_eq!(fast.max(), reference.max(), "max diverged at step {step}");
        assert_eq!(fast.min(), reference.min(), "min diverged at step {step}");
        assert_eq!(
            fast.total_size(),
            reference.total_size(),
            "total diverged at step {step}"
        );
    }
}
