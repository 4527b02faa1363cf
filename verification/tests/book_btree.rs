use latency_ladder::book::{BTreeLevels, Levels};
use latency_ladder::deep::Price;

fn px(dollars: i64, cents: i64) -> Price {
    Price::from_parts(dollars, cents * 100)
}

#[test]
fn set_and_find_extremes() {
    let mut l = BTreeLevels::default();
    assert_eq!(l.max(), None);
    assert_eq!(l.min(), None);
    l.set(px(10, 0), 100);
    l.set(px(10, 5), 200);
    l.set(px(9, 95), 300);
    assert_eq!(l.max(), Some((px(10, 5), 200)));
    assert_eq!(l.min(), Some((px(9, 95), 300)));
    assert_eq!(l.len(), 3);
    assert_eq!(l.total_size(), 600);
}

/// Zero size deletes. Storing a zero-size level would leave the touch
/// pointing at a level with nothing on it.
#[test]
fn zero_size_removes_the_level() {
    let mut l = BTreeLevels::default();
    l.set(px(10, 0), 100);
    l.set(px(10, 5), 200);
    l.set(px(10, 5), 0);
    assert_eq!(l.len(), 1);
    assert_eq!(l.max(), Some((px(10, 0), 100)));
}

#[test]
fn deleting_the_only_level_empties_the_side() {
    let mut l = BTreeLevels::default();
    l.set(px(10, 0), 100);
    l.set(px(10, 0), 0);
    assert!(l.is_empty());
    assert_eq!(l.max(), None);
}

/// Deleting a price that was never present must be a no-op, not a panic:
/// a receiver that joins a live feed mid-session sees deletes for levels it
/// never saw created.
#[test]
fn deleting_an_absent_level_is_harmless() {
    let mut l = BTreeLevels::default();
    l.set(px(10, 0), 100);
    l.set(px(42, 0), 0);
    assert_eq!(l.len(), 1);
}

#[test]
fn resize_in_place_keeps_one_level() {
    let mut l = BTreeLevels::default();
    l.set(px(10, 0), 100);
    l.set(px(10, 0), 700);
    assert_eq!(l.len(), 1);
    assert_eq!(l.max(), Some((px(10, 0), 700)));
}

#[test]
fn clear_empties_everything() {
    let mut l = BTreeLevels::default();
    l.set(px(10, 0), 100);
    l.set(px(11, 0), 100);
    l.clear();
    assert!(l.is_empty());
    assert_eq!(l.total_size(), 0);
}
