//! Price analytics over one product snapshot: parses the decimal payment
//! strings, derives the points-return rate and, when a comparison price is
//! present, the discount and the discount rate.
//!
//! Rates are exact fixed-point values in hundredths of a percent, floored —
//! never rounded up — to two decimal places: a points rate of 110 reads as
//! 1.10 %. This keeps the arithmetic exact where a floating-point pipeline
//! would smuggle in representation error.

use vstd::prelude::*;
use crate::models::EbookSnapshot;
use crate::text::{digit_val, is_digit, is_digit_exec};

verus! {

/// Largest accepted payment amount, exclusive; amounts at or above it are
/// rejected as malformed. Keeps every derived figure far from overflow.
pub const MAX_AMOUNT: u64 = 1000000000000;

/// Why a snapshot has no analysis: no primary payment at all, a payment
/// string that is not a plain decimal number in range, or a zero price that
/// would put a zero in a denominator.
#[derive(Debug, Clone, Copy, PartialEq, Eq)]
pub enum AnalysisError {
    MissingListPayment,
    MalformedNumber,
    ZeroPrice,
}

/// The figures derived from one snapshot. `points_rate` and `discount_rate`
/// are in hundredths of a percent; `discount` is in currency units and
/// negative where the comparison price is below the purchase price.
#[derive(Debug, Clone, Copy, PartialEq, Eq)]
pub struct PriceAnalysis {
    pub price: u64,
    pub points: u64,
    pub points_rate: u64,
    pub discount: Option<i64>,
    pub discount_rate: Option<i64>,
}

pub open spec fn all_digits(s: Seq<char>) -> bool {
    forall|i: int| 0 <= i < s.len() ==> is_digit(#[trigger] s[i])
}

/// Value of a digit string read in decimal.
pub open spec fn digits_val(s: Seq<char>) -> int
    decreases s.len(),
{
    if s.len() == 0 {
        0
    } else {
        digits_val(s.drop_last()) * 10 + digit_val(s.last())
    }
}

/// A payment string this module accepts: non-empty, digits only, in range.
pub open spec fn valid_amount(s: Seq<char>) -> bool {
    s.len() >= 1 && all_digits(s) && digits_val(s) < MAX_AMOUNT
}

pub proof fn lemma_digits_val_nonneg(s: Seq<char>)
    requires
        all_digits(s),
    ensures
        digits_val(s) >= 0,
    decreases s.len(),
{
    if s.len() > 0 {
        assert(all_digits(s.drop_last())) by {
            assert(forall|i: int| 0 <= i < s.len() - 1 ==> s.drop_last()[i] == #[trigger] s[i]);
        }
        lemma_digits_val_nonneg(s.drop_last());
    }
}

/// Parses a payment string. Returns the value exactly when the string is a
/// non-empty run of decimal digits whose value is below `MAX_AMOUNT`.
pub fn parse_amount(s: &str) -> (r: Option<u64>)
    ensures
        r is Some <==> valid_amount(s@),
        r matches Some(v) ==> v == digits_val(s@) && v < MAX_AMOUNT,
{
    let n = s.unicode_len();
    if n == 0 {
        return None;
    }
    let mut acc: u64 = 0;
    let mut i: usize = 0;
    proof {
        assert(s@.subrange(0, 0) =~= Seq::<char>::empty());
    }
    while i < n
        invariant
            i <= n,
            n == s@.len(),
            acc < MAX_AMOUNT,
            all_digits(s@.subrange(0, i as int)),
            acc == digits_val(s@.subrange(0, i as int)),
        decreases n - i,
    {
        let c = s.get_char(i);
        if !is_digit_exec(c) {
            assert(!valid_amount(s@)) by {
                assert(s@[i as int] == c);
            }
            return None;
        }
        let d = (c as u32) - 48;
        proof {
            assert(s@.subrange(0, i + 1).drop_last() =~= s@.subrange(0, i as int));
            assert(s@.subrange(0, i + 1).last() == s@[i as int]);
            assert(forall|k: int|
                0 <= k < i + 1 ==> is_digit(#[trigger] s@.subrange(0, i + 1)[k]));
        }
        let next = acc * 10 + (d as u64);
        if next >= MAX_AMOUNT {
            assert(digits_val(s@.subrange(0, i + 1)) >= MAX_AMOUNT);
            proof {
                if all_digits(s@) {
                    lemma_prefix_bound(s@, i + 1);
                }
            }
            return None;
        }
        acc = next;
        i = i + 1;
    }
    proof {
        assert(s@.subrange(0, n as int) =~= s@);
    }
    Some(acc)
}

/// Once a digit prefix reaches the cap, the whole string's value is at or
/// above it.
proof fn lemma_prefix_bound(s: Seq<char>, m: int)
    requires
        0 <= m <= s.len(),
        all_digits(s),
        digits_val(s.subrange(0, m)) >= MAX_AMOUNT,
    ensures
        digits_val(s) >= MAX_AMOUNT,
    decreases s.len() - m,
{
    if m < s.len() {
        let p = s.subrange(0, m);
        let q = s.subrange(0, m + 1);
        assert(q.drop_last() =~= p);
        assert(q.last() == s[m]);
        assert(is_digit(s[m]));
        assert(digits_val(q) == digits_val(p) * 10 + digit_val(s[m]));
        lemma_prefix_bound(s, m + 1);
    } else {
        assert(s.subrange(0, m) =~= s);
    }
}

/// What `analyze` yields on a snapshot, case by case.
pub open spec fn spec_analyze(s: EbookSnapshot) -> Result<PriceAnalysis, AnalysisError> {
    match s.payment_ebook {
        None => Err(AnalysisError::MissingListPayment),
        Some(p) => if !valid_amount(p.price@) || !valid_amount(p.points@) {
            Err(AnalysisError::MalformedNumber)
        } else if digits_val(p.price@) == 0 {
            Err(AnalysisError::ZeroPrice)
        } else {
            let price = digits_val(p.price@);
            let points = digits_val(p.points@);
            let comparison = match s.payment_real {
                None => None,
                Some(q) => if valid_amount(q.price@) {
                    Some(digits_val(q.price@))
                } else {
                    None
                },
            };
            Ok(
                PriceAnalysis {
                    price: price as u64,
                    points: points as u64,
                    points_rate: (points * 10000 / price) as u64,
                    discount: match comparison {
                        None => None,
                        Some(c) => Some((c - price) as i64),
                    },
                    discount_rate: match comparison {
                        None => None,
                        Some(c) => Some(((c - price) * 10000 / price) as i64),
                    },
                },
            )
        },
    }
}

/// Floored division by a positive divisor, for a dividend of either sign.
/// Spec-level division already floors, so only the negative executable case
/// needs care.
fn div_floor(num: i64, den: u64) -> (q: i64)
    requires
        den >= 1,
        -0x4000_0000_0000_0000 <= num <= 0x4000_0000_0000_0000,
        den <= 0x4000_0000_0000_0000,
    ensures
        q == num as int / den as int,
{
    if num >= 0 {
        let q = (num as u64) / den;
        assert(q == num as int / den as int);
        q as i64
    } else {
        let m = ((-num) as u64);
        let q = (m + den - 1) / den;
        proof {
            lemma_neg_ceil_div(m as int, den as int);
        }
        -(q as i64)
    }
}

/// Ceiling division of a magnitude gives floored division of its negation.
proof fn lemma_neg_ceil_div(m: int, d: int)
    requires
        m >= 0,
        d >= 1,
    ensures
        -((m + d - 1) / d) == (-m) / d,
{
    let q = (m + d - 1) / d;
    let r = (m + d - 1) % d;
    vstd::arithmetic::div_mod::lemma_fundamental_div_mod(m + d - 1, d);
    vstd::arithmetic::div_mod::lemma_mod_bound(m + d - 1, d);
    assert(m + d - 1 == q * d + r);
    let q2 = (-m) / d;
    let r2 = (-m) % d;
    vstd::arithmetic::div_mod::lemma_fundamental_div_mod(-m, d);
    vstd::arithmetic::div_mod::lemma_mod_bound(-m, d);
    assert(-m == q2 * d + r2);
    assert(m == (-q2) * d - r2) by (nonlinear_arith)
        requires
            -m == q2 * d + r2,
    ;
    assert(q * d == m + d - 1 - r);
    assert((-q2) * d == m + r2);
    assert((q - (-q2)) * d == d - 1 - r - r2) by (nonlinear_arith)
        requires
            q * d == m + d - 1 - r,
            (-q2) * d == m + r2,
    ;
    let k = q - (-q2);
    assert(k * d == d - 1 - r - r2);
    assert(-d < k * d < d);
    assert(k == 0) by (nonlinear_arith)
        requires
            -d < k * d < d,
            d >= 1,
    ;
}

impl EbookSnapshot {
    /// Derives the analytics of this snapshot. Fails with
    /// `MissingListPayment` where there is no primary payment, with
    /// `MalformedNumber` where a payment string does not parse, and with
    /// `ZeroPrice` where the price parses to zero; otherwise every derived
    /// figure is exact, with both rates floored to two decimal places. An
    /// absent or malformed comparison payment is no error: the discount
    /// fields simply stay empty.
    pub fn analyze(&self) -> (r: Result<PriceAnalysis, AnalysisError>)
        ensures
            r == spec_analyze(*self),
            r matches Ok(a) ==> {
                &&& a.price >= 1
                &&& a.points_rate * a.price <= a.points * 10000 < (a.points_rate + 1) * a.price
            },
    {
        let payment = match &self.payment_ebook {
            None => {
                return Err(AnalysisError::MissingListPayment);
            },
            Some(p) => p,
        };
        let price = match parse_amount(payment.price.as_str()) {
            None => {
                return Err(AnalysisError::MalformedNumber);
            },
            Some(v) => v,
        };
        let points = match parse_amount(payment.points.as_str()) {
            None => {
                return Err(AnalysisError::MalformedNumber);
            },
            Some(v) => v,
        };
        if price == 0 {
            return Err(AnalysisError::ZeroPrice);
        }
        proof {
            lemma_digits_val_nonneg(self.payment_ebook->0.price@);
            lemma_digits_val_nonneg(self.payment_ebook->0.points@);
        }
        let points_rate = points * 10000 / price;
        let comparison = match &self.payment_real {
            None => None,
            Some(q) => parse_amount(q.price.as_str()),
        };
        let (discount, discount_rate) = match comparison {
            None => (None, None),
            Some(c) => {
                proof {
                    lemma_digits_val_nonneg(self.payment_real->0.price@);
                }
                let d = (c as i64) - (price as i64);
                let rate = div_floor(
                    if d >= 0 {
                        d * 10000
                    } else {
                        -((-d) * 10000)
                    },
                    price,
                );
                assert(d * 10000 == (if d >= 0 { d * 10000 } else { -((-d) * 10000int) }));
                (Some(d), Some(rate))
            },
        };
        let a = PriceAnalysis { price, points, points_rate, discount, discount_rate };
        proof {
            let pr = a.points_rate as int;
            let p = a.price as int;
            let pts = a.points as int;
            vstd::arithmetic::div_mod::lemma_fundamental_div_mod(pts * 10000, p);
            vstd::arithmetic::div_mod::lemma_mod_bound(pts * 10000, p);
            assert(pr * p <= pts * 10000 < (pr + 1) * p) by (nonlinear_arith)
                requires
                    pts * 10000 == pr * p + (pts * 10000) % p,
                    0 <= (pts * 10000) % p < p,
            ;
        }
        Ok(a)
    }
}

} // verus!
