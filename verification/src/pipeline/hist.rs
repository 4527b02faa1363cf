//! A log-linear latency histogram.
//!
//! Every latency claim is made through this type, so it is the one piece of code
//! that must not be quietly wrong.
//!
//! ## Why not a mean
//!
//! Tail latency is the subject: a feed handler that is fast on average and stalls
//! for a millisecond at p99.9 has stalled through the only messages that
//! mattered. So this records the whole distribution and reports quantiles.
//!
//! ## Why log-linear
//!
//! Recording every distinct nanosecond from 1ns to 10s would need 10^10 counters.
//! Instead the bucket width grows with the magnitude of the value, holding
//! *relative* precision constant: values are stored to within one part in 2048 of
//! their true magnitude.
//!
//! ## Saturation is reported, never silent
//!
//! A value above the recordable range is counted separately and surfaced by
//! [`Histogram::overflows`]. A rank that lands among the overflows reports
//! [`u64::MAX`] rather than a plausible number.
use vstd::arithmetic::power2::{
    lemma_pow2_adds, lemma_pow2_pos, lemma_pow2_strictly_increases, lemma_pow2_unfold, pow2,
};
use vstd::prelude::*;
use vstd::std_specs::bits::u64_leading_zeros;

use crate::tally::sum;

verus! {

/// Values below this are counted exactly, one counter per nanosecond; above it
/// each power of two gets this many counters.
pub const LINEAR_LIMIT: u64 = 2048;

/// Powers of two tracked above the linear part: values up to 2^42 ns, a bit over
/// an hour.
pub const OCTAVES: usize = 31;

/// Counters in all.
pub const SLOTS: usize = 65_536;

/// How many halvings bring `v` below twice the linear limit.
pub open spec fn octave(v: nat) -> nat
    decreases v,
{
    if v < 4096 {
        0
    } else {
        1 + octave(v / 2)
    }
}

/// What those halvings leave.
pub open spec fn scaled(v: nat) -> nat
    decreases v,
{
    if v < 4096 {
        v
    } else {
        scaled(v / 2)
    }
}

/// Where `v` falls on the log-linear scale.
pub open spec fn mark(v: nat) -> nat {
    octave(v) * 2048 + scaled(v)
}

/// The bucket of a value; none if it is too large to record.
pub open spec fn bucket(v: nat) -> Option<nat> {
    if octave(v) < OCTAVES {
        Some(mark(v))
    } else {
        None
    }
}

/// The smallest value of a bucket.
pub open spec fn low(i: nat) -> nat {
    if i < 2048 {
        i
    } else {
        (2048 + i % 2048) * pow2((i / 2048 - 1) as nat)
    }
}

proof fn lemma_octave_step(v: nat)
    ensures
        v >= 4096 ==> octave(v) == 1 + octave(v / 2) && scaled(v) == scaled(v / 2) && mark(v)
            == 2048 + mark(v / 2),
        v < 4096 ==> octave(v) == 0 && scaled(v) == v && mark(v) == v,
        scaled(v) < 4096,
        v >= 2048 ==> scaled(v) >= 2048,
    decreases v,
{
    if v >= 4096 {
        lemma_octave_step(v / 2);
        assert((1 + octave(v / 2)) * 2048 == 2048 + octave(v / 2) * 2048);
    }
}

/// The halvings, taken together: `v` is its scaled part times a power of two,
/// plus a remainder below that power.
proof fn lemma_scaled(v: nat)
    ensures
        scaled(v) == v / pow2(octave(v)),
        scaled(v) * pow2(octave(v)) <= v,
        v < (scaled(v) + 1) * pow2(octave(v)),
    decreases v,
{
    lemma_octave_step(v);
    if v < 4096 {
        assert(pow2(0) == 1) by {
            vstd::arithmetic::power2::lemma2_to64();
        }
    } else {
        lemma_scaled(v / 2);
        let o = octave(v / 2);
        let p = pow2(o);
        let s = scaled(v);
        lemma_pow2_unfold(o + 1);
        lemma_pow2_pos(o);
        assert(pow2(o + 1) == 2 * p);
        let h = v / 2;
        assert(s * (2 * p) <= v) by (nonlinear_arith)
            requires
                s * p <= h,
                h == v / 2,
        ;
        assert(v < (s + 1) * (2 * p)) by (nonlinear_arith)
            requires
                h < (s + 1) * p,
                h == v / 2,
        ;
        assert(s == v / (2 * p)) by (nonlinear_arith)
            requires
                s * (2 * p) <= v,
                v < (s + 1) * (2 * p),
                p > 0,
        ;
    }
}

/// A value that scales to `m` after `o` halvings has that octave.
proof fn lemma_octave_of(v: nat, o: nat)
    requires
        2048 * pow2(o) <= v < 4096 * pow2(o),
        o == 0 || v >= 4096,
    ensures
        octave(v) == o,
    decreases o,
{
    lemma_octave_step(v);
    if o == 0 {
        vstd::arithmetic::power2::lemma2_to64();
    } else {
        lemma_pow2_unfold(o);
        let q = (o - 1) as nat;
        let p = pow2(q);
        lemma_pow2_pos(q);
        assert(2048 * p <= v / 2 < 4096 * p) by (nonlinear_arith)
            requires
                2048 * (2 * p) <= v < 4096 * (2 * p),
        ;
        if q > 0 {
            lemma_pow2_unfold(q);
            lemma_pow2_pos((q - 1) as nat);
        }
        lemma_octave_of(v / 2, q);
    }
}

/// Larger values never fall in smaller buckets.
pub proof fn law_buckets_are_ordered(v: nat, w: nat)
    requires
        v <= w,
    ensures
        mark(v) <= mark(w),
        octave(v) <= octave(w),
    decreases w,
{
    lemma_octave_step(v);
    lemma_octave_step(w);
    if w >= 4096 {
        lemma_octave_step(w / 2);
        if v >= 4096 {
            law_buckets_are_ordered(v / 2, w / 2);
        } else {
            assert(mark(w / 2) >= scaled(w / 2));
        }
    }
}

/// A bucket's smallest value is at most any value in it, and short of it by at
/// most one part in 2048.
pub proof fn law_relative_precision(v: nat)
    ensures
        low(mark(v)) <= v,
        2048 * (v - low(mark(v))) <= v,
        v < 2048 ==> low(mark(v)) == v,
{
    lemma_octave_step(v);
    lemma_scaled(v);
    let o = octave(v);
    let s = scaled(v);
    let p = pow2(o);
    lemma_pow2_pos(o);
    if v >= 2048 {
        let i = mark(v);
        assert(i / 2048 == o + 1 && i % 2048 == s - 2048) by (nonlinear_arith)
            requires
                i == o * 2048 + s,
                2048 <= s < 4096,
        ;
        assert(low(i) == s * p);
        assert(2048 * (v - s * p) <= v) by (nonlinear_arith)
            requires
                s * p <= v,
                v < (s + 1) * p,
                s >= 2048,
                p > 0,
        ;
    } else {
        assert(p == 1) by {
            vstd::arithmetic::power2::lemma2_to64();
        }
    }
}

/// The smallest value of a bucket falls in that bucket.
pub proof fn law_low_is_in_its_bucket(i: nat)
    requires
        i < SLOTS,
    ensures
        bucket(low(i)) == Some(i),
        low(i) < 0x400_0000_0000,
{
    if i < 2048 {
        lemma_octave_step(i);
    } else {
        let o = (i / 2048 - 1) as nat;
        let m = 2048 + i % 2048;
        let p = pow2(o);
        let v = low(i);
        lemma_pow2_pos(o);
        assert(v == m * p);
        assert(2048 * p <= v < 4096 * p) by (nonlinear_arith)
            requires
                v == m * p,
                2048 <= m < 4096,
                p > 0,
        ;
        if o > 0 {
            lemma_pow2_unfold(o);
            lemma_pow2_pos((o - 1) as nat);
        }
        lemma_octave_of(v, o);
        lemma_scaled(v);
        let s = scaled(v);
        assert(s == m) by (nonlinear_arith)
            requires
                s * p <= m * p,
                m * p < (s + 1) * p,
                p > 0,
        ;
        assert(p <= 0x4000_0000) by {
            if o < 30 {
                lemma_pow2_strictly_increases(o, 30);
            }
            vstd::arithmetic::power2::lemma2_to64();
        }
        assert(v < 4096 * 0x4000_0000);
    }
}

/// Where the leading one of a number is.
proof fn lemma_leading_zeros(v: u64, e: nat)
    requires
        pow2(e) <= v < pow2(e + 1),
    ensures
        u64_leading_zeros(v) == 63 - e,
    decreases e,
{
    reveal(u64_leading_zeros);
    lemma_pow2_unfold(e + 1);
    lemma_pow2_pos(e);
    if e == 0 {
        vstd::arithmetic::power2::lemma2_to64();
        assert(v == 1);
        assert(u64_leading_zeros(0) == 64);
        assert(v / 2 == 0);
    } else {
        lemma_pow2_unfold(e);
        lemma_leading_zeros(v / 2, (e - 1) as nat);
    }
}

/// The octave of a number, from where its leading one is.
proof fn lemma_octave_from_leading_zeros(v: u64)
    requires
        v >= 2048,
    ensures
        octave(v as nat) == 52 - u64_leading_zeros(v),
{
    let o = octave(v as nat);
    let s = scaled(v as nat);
    let p = pow2(o);
    lemma_octave_step(v as nat);
    lemma_scaled(v as nat);
    lemma_pow2_pos(o);
    lemma_pow2_adds(11, o);
    lemma_pow2_adds(12, o);
    vstd::arithmetic::power2::lemma2_to64();
    assert(2048 * p <= v < 4096 * p) by (nonlinear_arith)
        requires
            s * p <= v,
            v < (s + 1) * p,
            2048 <= s < 4096,
            p > 0,
    ;
    lemma_leading_zeros(v, 11 + o);
}

/// A histogram's counts.
#[verifier::ext_equal]
pub struct HistView {
    pub counts: Seq<nat>,
    pub total: nat,
    pub overflows: nat,
    pub min: u64,
    pub max: u64,
    pub sum: nat,
}

impl HistView {
    pub open spec fn empty() -> HistView {
        HistView {
            counts: Seq::new(SLOTS as nat, |i: int| 0),
            total: 0,
            overflows: 0,
            min: u64::MAX,
            max: 0,
            sum: 0,
        }
    }

    /// Everything recorded is either in a bucket or an overflow, and the sum is
    /// of values small enough to be in a bucket.
    pub open spec fn wf(self) -> bool {
        &&& self.counts.len() == SLOTS
        &&& self.total == sum(self.counts) + self.overflows
        &&& self.sum <= self.total * 0x400_0000_0000
    }

    /// The histogram with one more value.
    pub open spec fn recorded(self, v: u64) -> HistView {
        let max = if v > self.max {
            v
        } else {
            self.max
        };
        match bucket(v as nat) {
            Some(i) => HistView {
                counts: self.counts.update(i as int, self.counts[i as int] + 1),
                total: self.total + 1,
                overflows: self.overflows,
                min: if v < self.min {
                    v
                } else {
                    self.min
                },
                max,
                sum: self.sum + v as nat,
            },
            None => HistView {
                overflows: self.overflows + 1,
                total: self.total + 1,
                max,
                ..self
            },
        }
    }

    /// Two histograms together.
    pub open spec fn merged(self, other: HistView) -> HistView {
        HistView {
            counts: Seq::new(SLOTS as nat, |i: int| self.counts[i] + other.counts[i]),
            total: self.total + other.total,
            overflows: self.overflows + other.overflows,
            min: if other.min < self.min {
                other.min
            } else {
                self.min
            },
            max: if other.max > self.max {
                other.max
            } else {
                self.max
            },
            sum: self.sum + other.sum,
        }
    }

    /// `i` is the bucket the `rank`-th smallest recorded value is in.
    pub open spec fn at_rank(self, rank: nat, i: int) -> bool {
        &&& 0 <= i < self.counts.len()
        &&& sum(self.counts.take(i)) < rank
        &&& rank <= sum(self.counts.take(i + 1))
    }

    /// `v` is reported for the `rank`-th smallest recorded value: the low end of
    /// its bucket, the greatest number if it lies among the overflows, zero if
    /// nothing was recorded.
    pub open spec fn reads(self, rank: u64, v: u64) -> bool {
        if self.total == 0 {
            v == 0
        } else if rank > sum(self.counts) {
            v == u64::MAX
        } else {
            exists|i: int| #[trigger] self.at_rank(rank as nat, i) && v == low(i as nat)
        }
    }
}

/// A histogram after values are recorded in turn.
pub open spec fn recorded_all(h: HistView, values: Seq<u64>) -> HistView
    decreases values.len(),
{
    if values.len() == 0 {
        h
    } else {
        recorded_all(h, values.drop_last()).recorded(values.last())
    }
}

/// Changing one entry changes the sum by as much.
proof fn lemma_sum_update(s: Seq<nat>, i: int, v: nat)
    requires
        0 <= i < s.len(),
    ensures
        sum(s.update(i, v)) == sum(s) - s[i] + v,
        s[i] <= sum(s),
    decreases s.len(),
{
    let t = s.update(i, v);
    if i == s.len() - 1 {
        assert(t.drop_last() =~= s.drop_last());
    } else {
        lemma_sum_update(s.drop_last(), i, v);
        assert(t.drop_last() =~= s.drop_last().update(i, v));
    }
}

proof fn lemma_sum_zero(s: Seq<nat>)
    requires
        forall|i: int| 0 <= i < s.len() ==> s[i] == 0,
    ensures
        sum(s) == 0,
    decreases s.len(),
{
    if s.len() > 0 {
        lemma_sum_zero(s.drop_last());
    }
}

proof fn lemma_sum_pointwise(a: Seq<nat>, b: Seq<nat>, c: Seq<nat>)
    requires
        a.len() == b.len() == c.len(),
        forall|i: int| 0 <= i < a.len() ==> c[i] == a[i] + b[i],
    ensures
        sum(c) == sum(a) + sum(b),
    decreases a.len(),
{
    if a.len() > 0 {
        lemma_sum_pointwise(a.drop_last(), b.drop_last(), c.drop_last());
    }
}

proof fn lemma_sum_monotone(s: Seq<nat>, i: int, j: int)
    requires
        0 <= i <= j <= s.len(),
    ensures
        sum(s.take(i)) <= sum(s.take(j)),
    decreases j - i,
{
    if i < j {
        lemma_sum_monotone(s, i, j - 1);
        assert(s.take(j).drop_last() =~= s.take(j - 1));
    }
}

/// Marks of recordable values are slots.
proof fn lemma_bucket_in_range(v: nat)
    ensures
        bucket(v) matches Some(i) ==> i < SLOTS && v < 0x400_0000_0000,
{
    lemma_octave_step(v);
    if octave(v) < OCTAVES {
        lemma_scaled(v);
        let o = octave(v);
        assert(o * 2048 <= 30 * 2048);
        let p = pow2(o);
        lemma_pow2_pos(o);
        assert(p <= 0x4000_0000) by {
            if o < 30 {
                lemma_pow2_strictly_increases(o, 30);
            }
            vstd::arithmetic::power2::lemma2_to64();
        }
        let s = scaled(v);
        assert(v < 4096 * p) by (nonlinear_arith)
            requires
                v < (s + 1) * p,
                s < 4096,
                p > 0,
        ;
    }
}

proof fn lemma_recorded(h: HistView, v: u64)
    requires
        h.wf(),
    ensures
        h.recorded(v).wf(),
{
    lemma_bucket_in_range(v as nat);
    match bucket(v as nat) {
        Some(i) => {
            lemma_sum_update(h.counts, i as int, h.counts[i as int] + 1);
            assert((h.total + 1) * 0x400_0000_0000 == h.total * 0x400_0000_0000 + 0x400_0000_0000);
        },
        None => {
            assert((h.total + 1) * 0x400_0000_0000 == h.total * 0x400_0000_0000 + 0x400_0000_0000);
        },
    }
}

proof fn lemma_recorded_all(h: HistView, values: Seq<u64>)
    requires
        h.wf(),
    ensures
        recorded_all(h, values).wf(),
    decreases values.len(),
{
    if values.len() > 0 {
        lemma_recorded_all(h, values.drop_last());
        lemma_recorded(recorded_all(h, values.drop_last()), values.last());
    }
}

proof fn lemma_empty_wf()
    ensures
        HistView::empty().wf(),
{
    lemma_sum_zero(HistView::empty().counts);
}

/// Recording one value into a part of a merge is recording it into the merge.
proof fn lemma_recorded_merged(a: HistView, b: HistView, v: u64)
    requires
        a.wf(),
        b.wf(),
    ensures
        a.merged(b.recorded(v)) == a.merged(b).recorded(v),
{
    lemma_bucket_in_range(v as nat);
    assert(a.merged(b.recorded(v)).counts =~= a.merged(b).recorded(v).counts);
    assert(a.merged(b.recorded(v)) =~= a.merged(b).recorded(v));
}

/// Two values may be recorded in either order.
proof fn lemma_recorded_commutes(h: HistView, v: u64, w: u64)
    requires
        h.wf(),
    ensures
        h.recorded(v).recorded(w) == h.recorded(w).recorded(v),
{
    lemma_bucket_in_range(v as nat);
    lemma_bucket_in_range(w as nat);
    assert(h.recorded(v).recorded(w).counts =~= h.recorded(w).recorded(v).counts);
    assert(h.recorded(v).recorded(w) =~= h.recorded(w).recorded(v));
}

/// Any value may be recorded last.
proof fn lemma_recorded_last(h: HistView, values: Seq<u64>, i: int)
    requires
        h.wf(),
        0 <= i < values.len(),
    ensures
        recorded_all(h, values) == recorded_all(h, values.remove(i)).recorded(values[i]),
    decreases values.len(),
{
    let front = values.drop_last();
    if i == values.len() - 1 {
        assert(values.remove(i) =~= front);
    } else {
        lemma_recorded_last(h, front, i);
        assert(values.remove(i).drop_last() =~= front.remove(i));
        lemma_recorded_all(h, front.remove(i));
        lemma_recorded_commutes(recorded_all(h, front.remove(i)), values[i], values.last());
    }
}

/// The order in which values are recorded makes no difference.
pub proof fn law_recording_order_does_not_matter(xs: Seq<u64>, ys: Seq<u64>)
    requires
        xs.to_multiset() == ys.to_multiset(),
    ensures
        recorded_all(HistView::empty(), xs) == recorded_all(HistView::empty(), ys),
    decreases xs.len(),
{
    broadcast use vstd::seq_lib::group_to_multiset_ensures;

    let e = HistView::empty();
    lemma_empty_wf();
    assert(xs.to_multiset().len() == xs.len() && ys.to_multiset().len() == ys.len());
    if xs.len() > 0 {
        let v = xs.last();
        assert(xs.to_multiset().contains(v)) by {
            assert(xs.contains(xs[xs.len() - 1]));
        }
        assert(ys.contains(v));
        let i = choose|i: int| 0 <= i < ys.len() && ys[i] == v;
        assert(xs.remove(xs.len() - 1) =~= xs.drop_last());
        assert(xs.drop_last().to_multiset() =~= ys.remove(i).to_multiset());
        law_recording_order_does_not_matter(xs.drop_last(), ys.remove(i));
        lemma_recorded_last(e, ys, i);
    }
}

/// Merging is the same as recording everything into one histogram, in any order.
pub proof fn law_merge_is_recording_into_one(xs: Seq<u64>, ys: Seq<u64>, zs: Seq<u64>)
    requires
        zs.to_multiset() == (xs + ys).to_multiset(),
    ensures
        recorded_all(HistView::empty(), xs).merged(recorded_all(HistView::empty(), ys))
            == recorded_all(HistView::empty(), zs),
{
    lemma_merge_is_recording_on(xs, ys);
    law_recording_order_does_not_matter(zs, xs + ys);
}

proof fn lemma_merge_is_recording_on(xs: Seq<u64>, ys: Seq<u64>)
    ensures
        recorded_all(HistView::empty(), xs).merged(recorded_all(HistView::empty(), ys))
            == recorded_all(HistView::empty(), xs + ys),
    decreases ys.len(),
{
    let e = HistView::empty();
    lemma_empty_wf();
    lemma_recorded_all(e, xs);
    let a = recorded_all(e, xs);
    if ys.len() == 0 {
        assert(xs + ys =~= xs);
        assert(a.merged(e).counts =~= a.counts);
        assert(a.merged(e) =~= a);
    } else {
        let front = ys.drop_last();
        lemma_merge_is_recording_on(xs, front);
        lemma_recorded_all(e, front);
        lemma_recorded_merged(a, recorded_all(e, front), ys.last());
        assert((xs + ys).drop_last() =~= xs + front);
    }
}

/// How many of the values are at most `t`.
pub open spec fn at_most(values: Seq<u64>, t: int) -> nat
    decreases values.len(),
{
    if values.len() == 0 {
        0
    } else {
        at_most(values.drop_last(), t) + if values.last() <= t {
            1nat
        } else {
            0
        }
    }
}

/// How many recordable values are below slot `i`.
spec fn below_slot(values: Seq<u64>, i: int) -> nat
    decreases values.len(),
{
    if values.len() == 0 {
        0
    } else {
        below_slot(values.drop_last(), i) + if octave(values.last() as nat) < OCTAVES && mark(
            values.last() as nat,
        ) < i {
            1nat
        } else {
            0
        }
    }
}

/// The first `i` counters hold exactly the values below slot `i`.
proof fn lemma_prefix_counts(values: Seq<u64>, i: int)
    requires
        0 <= i <= SLOTS,
    ensures
        sum(recorded_all(HistView::empty(), values).counts.take(i)) == below_slot(values, i),
    decreases values.len(),
{
    let e = HistView::empty();
    lemma_empty_wf();
    let h = recorded_all(e, values);
    if values.len() == 0 {
        lemma_sum_zero(h.counts.take(i));
    } else {
        let front = values.drop_last();
        let g = recorded_all(e, front);
        lemma_recorded_all(e, front);
        lemma_prefix_counts(front, i);
        let v = values.last();
        lemma_bucket_in_range(v as nat);
        match bucket(v as nat) {
            Some(b) => {
                if b < i {
                    assert(h.counts.take(i) =~= g.counts.take(i).update(
                        b as int,
                        g.counts[b as int] + 1,
                    ));
                    lemma_sum_update(g.counts.take(i), b as int, g.counts[b as int] + 1);
                } else {
                    assert(h.counts.take(i) =~= g.counts.take(i));
                }
            },
            None => {
                assert(h.counts =~= g.counts);
            },
        }
    }
}

proof fn lemma_below_slot_bounds(values: Seq<u64>, t: u64)
    requires
        octave(t as nat) < OCTAVES,
    ensures
        below_slot(values, mark(t as nat) as int) <= at_most(values, t - 1),
        at_most(values, t as int) <= below_slot(values, mark(t as nat) as int + 1),
    decreases values.len(),
{
    if values.len() > 0 {
        let v = values.last();
        lemma_below_slot_bounds(values.drop_last(), t);
        if v <= t {
            law_buckets_are_ordered(v as nat, t as nat);
        } else {
            law_buckets_are_ordered(t as nat, v as nat);
        }
    }
}

/// A reported rank is the true one, to within the precision of a bucket: if `t`
/// is the `rank`-th smallest of the recorded values (fewer than `rank` are below
/// it, at least `rank` are at most it) and is in range, then the histogram finds
/// it in exactly the bucket of `t`.
pub proof fn law_ranks_match_the_values(values: Seq<u64>, rank: nat, t: u64)
    requires
        at_most(values, t - 1) < rank,
        rank <= at_most(values, t as int),
        bucket(t as nat) is Some,
    ensures
        recorded_all(HistView::empty(), values).at_rank(rank, mark(t as nat) as int),
{
    lemma_bucket_in_range(t as nat);
    let i = mark(t as nat) as int;
    lemma_below_slot_bounds(values, t);
    lemma_prefix_counts(values, i);
    lemma_prefix_counts(values, i + 1);
    lemma_empty_wf();
    lemma_recorded_all(HistView::empty(), values);
}

/// A rank is in one bucket only.
pub proof fn law_a_rank_is_in_one_bucket(h: HistView, rank: nat, i: int, j: int)
    requires
        h.at_rank(rank, i),
        h.at_rank(rank, j),
    ensures
        i == j,
{
    if i < j {
        lemma_sum_monotone(h.counts, i + 1, j);
    } else if j < i {
        lemma_sum_monotone(h.counts, j + 1, i);
    }
}

/// What is reported for a rank is one value, so equal histograms report the same.
pub proof fn law_a_rank_reads_one_value(h: HistView, rank: u64, v: u64, w: u64)
    requires
        h.reads(rank, v),
        h.reads(rank, w),
    ensures
        v == w,
{
    if h.total > 0 && rank <= sum(h.counts) {
        let i = choose|i: int| #[trigger] h.at_rank(rank as nat, i) && v == low(i as nat);
        let j = choose|j: int| #[trigger] h.at_rank(rank as nat, j) && w == low(j as nat);
        law_a_rank_is_in_one_bucket(h, rank as nat, i, j);
    }
}

/// How many values are too large for any bucket.
pub open spec fn too_large(values: Seq<u64>) -> nat
    decreases values.len(),
{
    if values.len() == 0 {
        0
    } else {
        too_large(values.drop_last()) + if values.last() >= 0x400_0000_0000 {
            1nat
        } else {
            0
        }
    }
}

/// The values that fit a bucket, added up.
pub open spec fn added_up(values: Seq<u64>) -> nat
    decreases values.len(),
{
    if values.len() == 0 {
        0
    } else {
        added_up(values.drop_last()) + if values.last() >= 0x400_0000_0000 {
            0nat
        } else {
            values.last() as nat
        }
    }
}

/// A value has a bucket exactly if it is below two to the forty-second; below twice the
/// linear limit it is its own bucket.
pub proof fn law_buckets_end_at_an_hour(v: u64)
    ensures
        bucket(v as nat) is Some <==> v < 0x400_0000_0000,
        v < 4096 ==> bucket(v as nat) == Some(v as nat),
        bucket(v as nat) matches Some(i) ==> i < 65_536,
{
    lemma_octave_step(v as nat);
    lemma_scaled(v as nat);
    let o = octave(v as nat);
    let s = scaled(v as nat);
    let p = pow2(o);
    lemma_pow2_pos(o);
    vstd::arithmetic::power2::lemma2_to64();
    if v >= 2048 {
        assert(2048 * p <= v < 4096 * p) by (nonlinear_arith)
            requires
                s * p <= v,
                v < (s + 1) * p,
                2048 <= s < 4096,
                p > 0,
        ;
        if o >= 31 {
            if o > 31 {
                lemma_pow2_strictly_increases(31, o);
            }
            assert(v >= 2048 * 0x8000_0000);
        } else {
            if o < 30 {
                lemma_pow2_strictly_increases(o, 30);
            }
            assert(v < 4096 * 0x4000_0000);
        }
    }
}

/// A histogram sums up what was recorded: how many values, how many of them too large,
/// the largest of all, the smallest and the sum of those that fit.
pub proof fn law_a_histogram_sums_up_its_values(values: Seq<u64>)
    ensures
        ({
            let h = recorded_all(HistView::empty(), values);
            &&& h.total == values.len()
            &&& h.overflows == too_large(values)
            &&& h.sum == added_up(values)
            &&& forall|i: int| 0 <= i < values.len() ==> #[trigger] values[i] <= h.max
            &&& values.len() > 0 ==> values.contains(h.max)
            &&& values.len() == 0 ==> h.max == 0
            &&& forall|i: int|
                0 <= i < values.len() && #[trigger] values[i] < 0x400_0000_0000 ==> h.min
                    <= values[i]
            &&& h.min == u64::MAX || (values.contains(h.min) && h.min < 0x400_0000_0000)
            &&& too_large(values) == values.len() ==> h.min == u64::MAX
            &&& too_large(values) <= values.len()
        }),
    decreases values.len(),
{
    if values.len() > 0 {
        let front = values.drop_last();
        let v = values.last();
        let g = recorded_all(HistView::empty(), front);
        let h = recorded_all(HistView::empty(), values);
        law_a_histogram_sums_up_its_values(front);
        law_buckets_end_at_an_hour(v);
        assert(h == g.recorded(v));
        assert(values[values.len() - 1] == v);
        assert forall|i: int| 0 <= i < values.len() implies #[trigger] values[i] <= h.max by {
            if i < front.len() {
                assert(front[i] == values[i]);
            }
        }
        assert forall|i: int|
            0 <= i < values.len() && #[trigger] values[i] < 0x400_0000_0000 implies h.min
            <= values[i] by {
            if i < front.len() {
                assert(front[i] == values[i]);
            }
        }
        if front.len() > 0 && h.max == g.max {
            let j = choose|j: int| 0 <= j < front.len() && front[j] == g.max;
            assert(values[j] == h.max);
        }
        if h.min == g.min && g.min != u64::MAX {
            let j = choose|j: int| 0 <= j < front.len() && front[j] == g.min;
            assert(values[j] == h.min);
        }
    }
}

/// Every counter but the overflows is below some slot.
proof fn lemma_all_slots(values: Seq<u64>, i: int, t: int)
    requires
        0 <= i <= SLOTS,
    ensures
        below_slot(values, i) <= below_slot(values, SLOTS as int),
        t >= 0x400_0000_0000 ==> below_slot(values, SLOTS as int) <= at_most(values, t - 1),
        sum(recorded_all(HistView::empty(), values).counts) == below_slot(values, SLOTS as int),
    decreases values.len(),
{
    let h = recorded_all(HistView::empty(), values);
    lemma_empty_wf();
    lemma_recorded_all(HistView::empty(), values);
    lemma_prefix_counts(values, SLOTS as int);
    assert(h.counts.take(SLOTS as int) =~= h.counts);
    if values.len() > 0 {
        lemma_all_slots(values.drop_last(), i, t);
        law_buckets_end_at_an_hour(values.last());
    }
}

/// What is reported for a rank is the value of that rank, `t`, to one part in 2048 and
/// never more than it; exact below two thousand; the greatest number where the value
/// was too large to record; and nothing where nothing was recorded.
pub proof fn law_a_rank_reports_its_value(values: Seq<u64>, rank: u64, t: u64, v: u64)
    requires
        recorded_all(HistView::empty(), values).reads(rank, v),
        at_most(values, t - 1) < rank,
        rank <= at_most(values, t as int),
    ensures
        t < 0x400_0000_0000 ==> v <= t && 2048 * (t - v) <= t,
        t < 2048 ==> v == t,
        t >= 0x400_0000_0000 ==> v == u64::MAX,
{
    let h = recorded_all(HistView::empty(), values);
    law_a_histogram_sums_up_its_values(values);
    lemma_at_most_len(values, t as int);
    law_buckets_end_at_an_hour(t);
    if t < 0x400_0000_0000 {
        let i = mark(t as nat) as int;
        law_ranks_match_the_values(values, rank as nat, t);
        lemma_bucket_in_range(t as nat);
        lemma_prefix_counts(values, i + 1);
        lemma_all_slots(values, i + 1, 0);
        let j = choose|j: int| #[trigger] h.at_rank(rank as nat, j) && v == low(j as nat);
        law_a_rank_is_in_one_bucket(h, rank as nat, i, j);
        law_relative_precision(t as nat);
    } else {
        lemma_all_slots(values, 0, t as int);
    }
}

/// An empty histogram reports nothing for any rank.
pub proof fn law_nothing_recorded_reports_nothing(rank: u64, v: u64)
    requires
        HistView::empty().reads(rank, v),
    ensures
        v == 0,
        HistView::empty().total == 0,
        HistView::empty().overflows == 0,
        HistView::empty().max == 0,
        HistView::empty().sum == 0,
{
}

proof fn lemma_at_most_len(values: Seq<u64>, t: int)
    ensures
        at_most(values, t) <= values.len(),
    decreases values.len(),
{
    if values.len() > 0 {
        lemma_at_most_len(values.drop_last(), t);
    }
}

/// The rank of a quantile is the smallest from one on that is at least that share of
/// the total, a share above a whole counting as a whole.
pub proof fn law_a_rank_is_the_least_that_reaches(q: u64, total: u64, r: int)
    requires
        q <= 10_000,
        r >= 1,
    ensures
        rank_of(q, total) >= 1,
        r >= rank_of(q, total) <==> r * 10_000 >= q * total,
        total > 0 ==> rank_of(q, total) <= total,
{
    lemma_rank_of(q, total);
}

/// A share above a whole counts as a whole.
pub proof fn law_more_than_a_whole_is_a_whole(q: u64, total: u64)
    requires
        q >= 10_000,
    ensures
        rank_of(q, total) == if total < 1 {
            1
        } else {
            total
        },
{
    lemma_rank_of(q, total);
    assert(10_000 * total == 10_000 * total as int);
}

/// A whole, in ten-thousandths.
pub const WHOLE: u64 = 10_000;

/// The rank that `q` ten-thousandths of `total` values reach: rounded up, so that
/// everything reaches the last and nothing still reaches the first.
pub open spec fn rank_of(q: u64, total: u64) -> u64 {
    let part: int = if q > WHOLE {
        WHOLE as int
    } else {
        q as int
    };
    let least = (part * total + 9_999) / 10_000;
    if least < 1 {
        1
    } else {
        least as u64
    }
}

proof fn lemma_rank_of(q: u64, total: u64)
    ensures
        ({
            let part: int = if q > WHOLE {
                WHOLE as int
            } else {
                q as int
            };
            &&& 0 <= part * total <= 10_000 * total
            &&& 0 <= (part * total + 9_999) / 10_000 <= total
        }),
{
    let part: int = if q > WHOLE {
        WHOLE as int
    } else {
        q as int
    };
    assert(0 <= part * total <= 10_000 * total) by (nonlinear_arith)
        requires
            0 <= part <= 10_000,
            0 <= total,
    ;
}

/// Quantiles are in order, from the first value to the last.
pub proof fn law_quantile_ranks_are_ordered(p: u64, q: u64, total: u64)
    requires
        p <= q,
        total > 0,
    ensures
        1 <= rank_of(p, total) <= rank_of(q, total) <= total,
        rank_of(0, total) == 1,
        rank_of(WHOLE, total) == total,
{
    lemma_rank_of(p, total);
    lemma_rank_of(q, total);
    lemma_rank_of(WHOLE, total);
    assert(0int * total == 0) by (nonlinear_arith);
    let a: int = if p > WHOLE {
        WHOLE as int
    } else {
        p as int
    };
    let b: int = if q > WHOLE {
        WHOLE as int
    } else {
        q as int
    };
    assert(a * total <= b * total) by (nonlinear_arith)
        requires
            0 <= a <= b,
            0 <= total,
    ;
}

/// Latency counts, bucketed log-linearly.
#[derive(Clone)]
pub struct Histogram {
    counts: Vec<u64>,
    total: u64,
    /// Values too large to record. Never folded into the last bucket.
    overflows: u64,
    min: u64,
    max: u64,
    sum: u128,
}

impl View for Histogram {
    type V = HistView;

    closed spec fn view(&self) -> HistView {
        HistView {
            counts: self.counts@.map_values(|c: u64| c as nat),
            total: self.total as nat,
            overflows: self.overflows as nat,
            min: self.min,
            max: self.max,
            sum: self.sum as nat,
        }
    }
}

impl Default for Histogram {
    fn default() -> (r: Histogram)
        ensures
            r@ == HistView::empty(),
            r@.wf(),
    {
        Histogram::new()
    }
}

impl Histogram {
    pub fn new() -> (r: Histogram)
        ensures
            r@ == HistView::empty(),
            r@.wf(),
    {
        let r = Histogram {
            counts: vec![0u64; SLOTS],
            total: 0,
            overflows: 0,
            min: u64::MAX,
            max: 0,
            sum: 0,
        };
        proof {
            lemma_empty_wf();
            assert(r@.counts =~= HistView::empty().counts);
        }
        r
    }

    /// Bucket index for a value, and the inverse of [`Self::bucket_low`].
    pub fn index(value: u64) -> (r: Option<usize>)
        ensures
            match r {
                Some(i) => i < SLOTS && bucket(value as nat) == Some(i as nat),
                None => bucket(value as nat) is None,
            },
    {
        proof {
            lemma_bucket_in_range(value as nat);
            lemma_octave_step(value as nat);
        }
        if value < LINEAR_LIMIT {
            return Some(value as usize);
        }
        proof {
            lemma_octave_from_leading_zeros(value);
            lemma_scaled(value as nat);
        }
        let shift: u32 = 52 - value.leading_zeros();
        if shift as usize >= OCTAVES {
            return None;
        }
        proof {
            vstd::bits::lemma_u64_shr_is_div(value, shift as u64);
        }
        let mantissa: u64 = value >> shift;
        Some(shift as usize * 2048 + mantissa as usize)
    }

    /// Smallest value that lands in `index`.
    ///
    /// Reporting the bucket's lower bound rather than its midpoint keeps every
    /// quantile a value that was actually representable, and makes the reported
    /// figure an under-estimate by at most the bucket width.
    pub fn bucket_low(index: usize) -> (r: u64)
        requires
            index < SLOTS,
        ensures
            r == low(index as nat),
    {
        if index < 2048 {
            return index as u64;
        }
        let octave: u32 = (index / 2048 - 1) as u32;
        let mantissa: u64 = (index % 2048) as u64;
        proof {
            law_low_is_in_its_bucket(index as nat);
            vstd::bits::lemma_u64_shl_is_mul((2048 + mantissa) as u64, octave as u64);
        }
        (2048 + mantissa) << octave
    }

    pub fn record(&mut self, value: u64)
        requires
            old(self)@.wf(),
            old(self)@.total < u64::MAX,
        ensures
            final(self)@.wf(),
            final(self)@ == old(self)@.recorded(value),
    {
        proof {
            lemma_recorded(self@, value);
        }
        match Self::index(value) {
            Some(i) => {
                proof {
                    lemma_sum_update(self@.counts, i as int, 0);
                    lemma_bucket_in_range(value as nat);
                }
                let c: u64 = self.counts[i];
                self.counts[i] = c + 1;
                self.total = self.total + 1;
                self.sum = self.sum + value as u128;
                if value < self.min {
                    self.min = value;
                }
                if value > self.max {
                    self.max = value;
                }
                assert(self@.counts =~= old(self)@.recorded(value).counts);
            },
            None => {
                self.overflows = self.overflows + 1;
                self.total = self.total + 1;
                if value > self.max {
                    self.max = value;
                }
            },
        }
    }

    pub fn count(&self) -> (r: u64)
        ensures
            r == self@.total,
    {
        self.total
    }

    /// Values that exceeded the recordable range. Never silently clamped.
    pub fn overflows(&self) -> (r: u64)
        ensures
            r == self@.overflows,
    {
        self.overflows
    }

    pub fn min(&self) -> (r: u64)
        ensures
            r == (if self@.total == 0 {
                0
            } else {
                self@.min
            }),
    {
        if self.total == 0 {
            0
        } else {
            self.min
        }
    }

    pub fn max(&self) -> (r: u64)
        ensures
            r == self@.max,
    {
        self.max
    }

    /// Sum of the values that were in range.
    pub fn sum(&self) -> (r: u128)
        ensures
            r == self@.sum,
    {
        self.sum
    }

    /// The `rank`-th smallest value, counting from one: the low end of its
    /// bucket, or [`u64::MAX`] if it lies among the overflows, where no value can
    /// honestly be reported. Nothing recorded reports zero.
    pub fn value_at_rank(&self, rank: u64) -> (r: u64)
        requires
            self@.wf(),
            rank > 0,
        ensures
            self@.reads(rank, r),
    {
        if self.total == 0 {
            return 0;
        }
        let ghost all = self@.counts;
        let mut seen: u64 = 0;
        let mut i: usize = 0;
        while i < self.counts.len()
            invariant
                self@.wf(),
                all == self@.counts,
                i <= all.len(),
                seen == sum(all.take(i as int)),
                seen < rank,
            decreases all.len() - i,
        {
            proof {
                assert(all.take(i + 1).drop_last() =~= all.take(i as int));
                lemma_sum_monotone(all, i + 1, all.len() as int);
                assert(all.take(all.len() as int) =~= all);
            }
            seen = seen + self.counts[i];
            if seen >= rank {
                assert(self@.at_rank(rank as nat, i as int));
                return Self::bucket_low(i);
            }
            i = i + 1;
        }
        assert(all.take(all.len() as int) =~= all);
        u64::MAX
    }

    /// Value at `q` ten-thousandths of what was recorded: the smallest recorded
    /// value, to the precision of its bucket, that this fraction of all values is
    /// at or below. More than a whole counts as a whole, and a fraction of
    /// nothing as the smallest value.
    pub fn quantile(&self, q: u64) -> (r: u64)
        requires
            self@.wf(),
        ensures
            self@.reads(rank_of(q, self@.total as u64), r),
    {
        let part: u128 = if q > WHOLE {
            WHOLE as u128
        } else {
            q as u128
        };
        proof {
            lemma_rank_of(q, self@.total as u64);
        }
        let least: u64 = ((part * self.total as u128 + 9_999) / 10_000) as u64;
        let rank: u64 = if least == 0 {
            1
        } else {
            least
        };
        self.value_at_rank(rank)
    }

    /// Merge another histogram, for combining per-thread samples.
    pub fn merge(&mut self, other: &Histogram)
        requires
            old(self)@.wf(),
            other@.wf(),
            old(self)@.total + other@.total <= u64::MAX,
        ensures
            final(self)@.wf(),
            final(self)@ == old(self)@.merged(other@),
    {
        let ghost a = self@;
        let ghost b = other@;
        proof {
            lemma_sum_pointwise(a.counts, b.counts, a.merged(b).counts);
            assert(a.merged(b).wf()) by {
                assert((a.total + b.total) * 0x400_0000_0000 == a.total * 0x400_0000_0000
                    + b.total * 0x400_0000_0000);
            }
        }
        let mut i: usize = 0;
        while i < self.counts.len()
            invariant
                i <= SLOTS,
                a.wf(),
                b.wf(),
                b == other@,
                a.total + b.total <= u64::MAX,
                self@.counts.len() == SLOTS,
                self.total == a.total,
                self.overflows == a.overflows,
                self.min == a.min,
                self.max == a.max,
                self.sum == a.sum,
                forall|j: int| 0 <= j < i ==> self@.counts[j] == a.counts[j] + b.counts[j],
                forall|j: int| i <= j < SLOTS ==> self@.counts[j] == a.counts[j],
            decreases SLOTS - i,
        {
            proof {
                lemma_sum_update(a.counts, i as int, 0);
                lemma_sum_update(b.counts, i as int, 0);
                assert(self@.counts[i as int] == a.counts[i as int]);
            }
            let ghost before = self@.counts;
            let c: u64 = self.counts[i];
            self.counts[i] = c + other.counts[i];
            assert(self@.counts =~= before.update(
                i as int,
                before[i as int] + b.counts[i as int],
            ));
            i = i + 1;
        }
        self.total = self.total + other.total;
        self.overflows = self.overflows + other.overflows;
        self.sum = self.sum + other.sum;
        if other.min < self.min {
            self.min = other.min;
        }
        if other.max > self.max {
            self.max = other.max;
        }
        assert(self@.counts =~= a.merged(b).counts);
    }

    pub fn clear(&mut self)
        ensures
            final(self)@ == HistView::empty(),
            final(self)@.wf(),
    {
        *self = Histogram::new();
    }
}

}
