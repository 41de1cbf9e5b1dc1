//! Alert tiering: a total, pure classification of a snapshot's rates into the
//! tier that drives notification inclusion and embed colour.

use vstd::prelude::*;
use crate::store::SnapshotRow;

verus! {

/// The alert tier of a snapshot. `Grey` marks no deal worth notifying and is
/// excluded from outbound messages entirely.
#[derive(Debug, Clone, Copy, PartialEq, Eq, Structural)]
pub enum AlertTier {
    Red,
    Yellow,
    Green,
    Grey,
}

/// The discount rate that enters classification: an absent rate counts as
/// zero.
pub open spec fn effective_rate(discount_rate: Option<i64>) -> int {
    match discount_rate {
        None => 0,
        Some(d) => d as int,
    }
}

/// The larger of the two rates, the single figure the thresholds apply to.
pub open spec fn max_rate(discount_rate: Option<i64>, points_rate: u64) -> int {
    if effective_rate(discount_rate) >= points_rate as int {
        effective_rate(discount_rate)
    } else {
        points_rate as int
    }
}

/// Tier policy over the maximum of the two rates, in hundredths of a percent:
/// below 20 % no notification, at 35 % and above red, at 30 % yellow,
/// otherwise green.
pub open spec fn spec_classify(discount_rate: Option<i64>, points_rate: u64) -> AlertTier {
    let m = max_rate(discount_rate, points_rate);
    if m < 2000 {
        AlertTier::Grey
    } else if m >= 3500 {
        AlertTier::Red
    } else if m >= 3000 {
        AlertTier::Yellow
    } else {
        AlertTier::Green
    }
}

/// Tiers ordered by urgency, for stating monotonicity.
pub open spec fn tier_rank(t: AlertTier) -> int {
    match t {
        AlertTier::Grey => 0,
        AlertTier::Green => 1,
        AlertTier::Yellow => 2,
        AlertTier::Red => 3,
    }
}

/// Classifies a snapshot's rates; total over all inputs.
pub fn classify(discount_rate: Option<i64>, points_rate: u64) -> (t: AlertTier)
    ensures
        t == spec_classify(discount_rate, points_rate),
{
    let d: i64 = match discount_rate {
        None => 0,
        Some(v) => v,
    };
    if !(d >= 2000 || points_rate >= 2000) {
        return AlertTier::Grey;
    }
    if d >= 3500 || points_rate >= 3500 {
        return AlertTier::Red;
    }
    if d >= 3000 || points_rate >= 3000 {
        return AlertTier::Yellow;
    }
    AlertTier::Green
}

/// Raising either rate never lowers the tier: classification is monotonic in
/// both inputs.
pub proof fn lemma_classify_monotonic(
    d1: Option<i64>,
    p1: u64,
    d2: Option<i64>,
    p2: u64,
)
    requires
        effective_rate(d1) <= effective_rate(d2),
        p1 <= p2,
    ensures
        tier_rank(spec_classify(d1, p1)) <= tier_rank(spec_classify(d2, p2)),
{
}

/// The tier of one stored snapshot row, from its persisted rates.
pub fn get_color(snapshot: &SnapshotRow) -> (t: AlertTier)
    ensures
        t == spec_classify(snapshot.discount_rate, snapshot.points_rate),
{
    classify(snapshot.discount_rate, snapshot.points_rate)
}

/// The colour code an embed of this tier carries in an outbound message.
pub fn color_code(t: AlertTier) -> (c: u32)
    ensures
        c == spec_color_code(t),
{
    match t {
        AlertTier::Red => 15548997,
        AlertTier::Yellow => 16776960,
        AlertTier::Green => 5763719,
        AlertTier::Grey => 9807270,
    }
}

pub open spec fn spec_color_code(t: AlertTier) -> u32 {
    match t {
        AlertTier::Red => 15548997,
        AlertTier::Yellow => 16776960,
        AlertTier::Green => 5763719,
        AlertTier::Grey => 9807270,
    }
}

} // verus!
