//! Structured extraction of prices and points from free page text.
//!
//! A price is a currency-prefixed, comma-grouped number (`￥3,344`); a points
//! figure is a comma-grouped number suffixed with `pt` (`152pt`). The scan
//! finds the leftmost match first, continues after each match, keeps matches
//! in document order and drops duplicate values, so extraction is
//! deterministic. Thousands separators are stripped before a value is stored
//! in a [`Payment`].

use vstd::prelude::*;
use crate::models::Payment;
use crate::text::{is_digit, is_digit_exec, push_char};

verus! {

/// How many leading digits stand at `i`, capped at the three the number
/// grammar takes before the first thousands group.
pub open spec fn lead_digits(t: Seq<char>, i: int) -> int {
    if 0 <= i && i < t.len() && is_digit(t[i]) {
        if i + 1 < t.len() && is_digit(t[i + 1]) {
            if i + 2 < t.len() && is_digit(t[i + 2]) {
                3
            } else {
                2
            }
        } else {
            1
        }
    } else {
        0
    }
}

/// A thousands group `,ddd` stands at `p`.
pub open spec fn group_at(t: Seq<char>, p: int) -> bool {
    &&& 0 <= p
    &&& p + 4 <= t.len()
    &&& t[p] == ','
    &&& is_digit(t[p + 1])
    &&& is_digit(t[p + 2])
    &&& is_digit(t[p + 3])
}

/// Position after greedily consuming thousands groups from `p`.
pub open spec fn groups_end(t: Seq<char>, p: int) -> int
    decreases t.len() - p,
{
    if group_at(t, p) {
        groups_end(t, p + 4)
    } else {
        p
    }
}

pub proof fn lemma_groups_end_bounds(t: Seq<char>, p: int)
    requires
        0 <= p <= t.len(),
    ensures
        p <= groups_end(t, p) <= t.len(),
    decreases t.len() - p,
{
    if group_at(t, p) {
        lemma_groups_end_bounds(t, p + 4);
    }
}

/// A price match starts at `i`: the currency mark followed by at least one
/// digit.
pub open spec fn price_starts_at(t: Seq<char>, i: int) -> bool {
    &&& 0 <= i
    &&& i < t.len()
    &&& t[i] == '￥'
    &&& lead_digits(t, i + 1) >= 1
}

/// End of the number captured by a price match starting at `i`.
pub open spec fn price_cap_end(t: Seq<char>, i: int) -> int {
    groups_end(t, i + 1 + lead_digits(t, i + 1))
}

/// All price captures of `t` from position `i` on, in document order,
/// scanning past each match.
pub open spec fn price_matches_from(t: Seq<char>, i: int) -> Seq<Seq<char>>
    decreases t.len() - i,
    via price_matches_from_dec
{
    if i < 0 || i >= t.len() {
        Seq::empty()
    } else if price_starts_at(t, i) {
        Seq::empty().push(t.subrange(i + 1, price_cap_end(t, i))) + price_matches_from(
            t,
            price_cap_end(t, i),
        )
    } else {
        price_matches_from(t, i + 1)
    }
}

#[via_fn]
proof fn price_matches_from_dec(t: Seq<char>, i: int) {
    if 0 <= i && i < t.len() && price_starts_at(t, i) {
        lemma_groups_end_bounds(t, i + 1 + lead_digits(t, i + 1));
    }
}

/// The literal suffix `pt` stands at `p`.
pub open spec fn pt_at(t: Seq<char>, p: int) -> bool {
    &&& 0 <= p
    &&& p + 2 <= t.len()
    &&& t[p] == 'p'
    &&& t[p + 1] == 't'
}

/// End of the number captured by a points match starting at `i`.
pub open spec fn points_cap_end(t: Seq<char>, i: int) -> int {
    groups_end(t, i + lead_digits(t, i))
}

/// A points match starts at `i`: a comma-grouped number whose end is directly
/// followed by `pt`. Starting anywhere later inside the same digit run would
/// leave a digit right before the suffix, so the leftmost such start is the
/// match the scan reports.
pub open spec fn points_starts_at(t: Seq<char>, i: int) -> bool {
    &&& 0 <= i
    &&& i < t.len()
    &&& lead_digits(t, i) >= 1
    &&& pt_at(t, points_cap_end(t, i))
}

/// All points captures of `t` from position `i` on, in document order,
/// scanning past each match and its suffix.
pub open spec fn points_matches_from(t: Seq<char>, i: int) -> Seq<Seq<char>>
    decreases t.len() - i,
    via points_matches_from_dec
{
    if i < 0 || i >= t.len() {
        Seq::empty()
    } else if points_starts_at(t, i) {
        Seq::empty().push(t.subrange(i, points_cap_end(t, i))) + points_matches_from(
            t,
            points_cap_end(t, i) + 2,
        )
    } else {
        points_matches_from(t, i + 1)
    }
}

#[via_fn]
proof fn points_matches_from_dec(t: Seq<char>, i: int) {
    if 0 <= i && i < t.len() && points_starts_at(t, i) {
        lemma_groups_end_bounds(t, i + lead_digits(t, i));
    }
}

/// Order-preserving deduplication: a value is kept at its first occurrence.
pub open spec fn dedup_first(s: Seq<Seq<char>>) -> Seq<Seq<char>>
    decreases s.len(),
{
    if s.len() == 0 {
        Seq::empty()
    } else {
        let rest = dedup_first(s.drop_last());
        if s.drop_last().contains(s.last()) {
            rest
        } else {
            rest.push(s.last())
        }
    }
}

pub proof fn lemma_dedup_contains(s: Seq<Seq<char>>, x: Seq<char>)
    ensures
        dedup_first(s).contains(x) == s.contains(x),
    decreases s.len(),
{
    if s.len() > 0 {
        let d = s.drop_last();
        let rest = dedup_first(d);
        lemma_dedup_contains(d, x);
        assert(s.contains(x) == (d.contains(x) || s.last() == x)) by {
            if d.contains(x) {
                let k = choose|k: int| 0 <= k < d.len() && d[k] == x;
                assert(s[k] == x);
            }
            if s.last() == x {
                assert(s[s.len() - 1] == x);
            }
            if s.contains(x) {
                let k = choose|k: int| 0 <= k < s.len() && s[k] == x;
                if k < s.len() - 1 {
                    assert(d[k] == x);
                }
            }
        }
        if !d.contains(s.last()) {
            assert(rest.push(s.last()).contains(x) == (rest.contains(x) || s.last() == x)) by {
                if rest.contains(x) {
                    let k = choose|k: int| 0 <= k < rest.len() && rest[k] == x;
                    assert(rest.push(s.last())[k] == x);
                }
                if s.last() == x {
                    assert(rest.push(s.last())[rest.len() as int] == x);
                }
                if rest.push(s.last()).contains(x) {
                    let k = choose|k: int| 0 <= k < rest.len() + 1 && rest.push(s.last())[k] == x;
                    if k < rest.len() {
                        assert(rest[k] == x);
                    }
                }
            }
        }
    }
}

/// The price values of `t`: captures in document order, duplicates dropped.
pub open spec fn price_tokens(t: Seq<char>) -> Seq<Seq<char>> {
    dedup_first(price_matches_from(t, 0))
}

/// The points values of `t`: captures in document order, duplicates dropped.
pub open spec fn points_tokens(t: Seq<char>) -> Seq<Seq<char>> {
    dedup_first(points_matches_from(t, 0))
}

fn contains_string(v: &Vec<String>, x: &String) -> (r: bool)
    ensures
        r == v.deep_view().contains(x@),
{
    let mut j: usize = 0;
    while j < v.len()
        invariant
            j <= v.len(),
            forall|k: int| 0 <= k < j ==> v.deep_view()[k] != x@,
        decreases v.len() - j,
    {
        if x.eq(&v[j]) {
            assert(v.deep_view()[j as int] == x@);
            return true;
        }
        j = j + 1;
    }
    false
}

fn lead_digits_exec(text: &str, i: usize, n: usize) -> (k: usize)
    requires
        n == text@.len(),
        i <= n,
    ensures
        k as int == lead_digits(text@, i as int),
{
    if i < n && is_digit_exec(text.get_char(i)) {
        if i + 1 < n && is_digit_exec(text.get_char(i + 1)) {
            if i + 2 < n && is_digit_exec(text.get_char(i + 2)) {
                3
            } else {
                2
            }
        } else {
            1
        }
    } else {
        0
    }
}

fn groups_end_exec(text: &str, p0: usize, n: usize) -> (e: usize)
    requires
        n == text@.len(),
        p0 <= n,
    ensures
        e as int == groups_end(text@, p0 as int),
        p0 <= e <= n,
{
    let mut p = p0;
    loop
        invariant
            p0 <= p <= n,
            n == text@.len(),
            groups_end(text@, p0 as int) == groups_end(text@, p as int),
        decreases n - p,
    {
        let is_group = n - p >= 4 && text.get_char(p) == ',' && is_digit_exec(
            text.get_char(p + 1),
        ) && is_digit_exec(text.get_char(p + 2)) && is_digit_exec(text.get_char(p + 3));
        if is_group {
            p = p + 4;
        } else {
            assert(!group_at(text@, p as int));
            return p;
        }
    }
}

/// Pushes `cap` on `out` unless an equal value is already there, keeping
/// `out` the deduplication of the ghost capture list `found`.
fn dedup_push(out: &mut Vec<String>, cap: String, Ghost(found): Ghost<Seq<Seq<char>>>)
    requires
        old(out).deep_view() =~= dedup_first(found),
    ensures
        final(out).deep_view() =~= dedup_first(found.push(cap@)),
{
    proof {
        assert(found.push(cap@).drop_last() =~= found);
        lemma_dedup_contains(found, cap@);
    }
    if !contains_string(out, &cap) {
        out.push(cap);
        assert(out.deep_view() =~= old(out).deep_view().push(cap@));
    }
}

/// All distinct price captures of `text` in document order, the first one
/// being the leftmost match.
pub fn extract_price(text: &str) -> (r: Vec<String>)
    ensures
        r.deep_view() =~= price_tokens(text@),
{
    let n = text.unicode_len();
    let mut out: Vec<String> = Vec::new();
    let ghost t = text@;
    let ghost mut found: Seq<Seq<char>> = Seq::empty();
    let mut i: usize = 0;
    proof {
        assert(dedup_first(found) =~= Seq::<Seq<char>>::empty());
        assert(price_matches_from(t, 0) =~= found + price_matches_from(t, 0));
    }
    while i < n
        invariant
            i <= n,
            n == t.len(),
            t == text@,
            price_matches_from(t, 0) =~= found + price_matches_from(t, i as int),
            out.deep_view() =~= dedup_first(found),
        decreases n - i,
    {
        let k = lead_digits_exec(text, i + 1, n);
        if text.get_char(i) == '￥' && k >= 1 {
            assert(price_starts_at(t, i as int));
            let e = groups_end_exec(text, i + 1 + k, n);
            assert(e as int == price_cap_end(t, i as int));
            let cap = text.substring_char(i + 1, e).to_owned();
            proof {
                assert(cap@ == t.subrange(i + 1, e as int));
                assert(price_matches_from(t, i as int) =~= Seq::empty().push(cap@)
                    + price_matches_from(t, e as int));
                assert(found.push(cap@) + price_matches_from(t, e as int) =~= found
                    + price_matches_from(t, i as int));
            }
            dedup_push(&mut out, cap, Ghost(found));
            proof {
                found = found.push(t.subrange(i + 1, e as int));
            }
            assert(e >= i + 2);
            i = e;
        } else {
            assert(!price_starts_at(t, i as int));
            assert(price_matches_from(t, i as int) =~= price_matches_from(t, i + 1));
            i = i + 1;
        }
    }
    assert(price_matches_from(t, i as int) =~= Seq::empty());
    assert(price_matches_from(t, 0) =~= found);
    out
}

/// All distinct points captures of `text` in document order, the first one
/// being the leftmost match.
pub fn extract_points(text: &str) -> (r: Vec<String>)
    ensures
        r.deep_view() =~= points_tokens(text@),
{
    let n = text.unicode_len();
    let mut out: Vec<String> = Vec::new();
    let ghost t = text@;
    let ghost mut found: Seq<Seq<char>> = Seq::empty();
    let mut i: usize = 0;
    proof {
        assert(dedup_first(found) =~= Seq::<Seq<char>>::empty());
        assert(points_matches_from(t, 0) =~= found + points_matches_from(t, 0));
    }
    while i < n
        invariant
            i <= n,
            n == t.len(),
            t == text@,
            points_matches_from(t, 0) =~= found + points_matches_from(t, i as int),
            out.deep_view() =~= dedup_first(found),
        decreases n - i,
    {
        let k = lead_digits_exec(text, i, n);
        let mut matched = false;
        if k >= 1 {
            let e = groups_end_exec(text, i + k, n);
            assert(e as int == points_cap_end(t, i as int));
            if n - e >= 2 && text.get_char(e) == 'p' && text.get_char(e + 1) == 't' {
                assert(points_starts_at(t, i as int));
                let cap = text.substring_char(i, e).to_owned();
                proof {
                    assert(cap@ == t.subrange(i as int, e as int));
                    assert(points_matches_from(t, i as int) =~= Seq::empty().push(cap@)
                        + points_matches_from(t, e + 2));
                    assert(found.push(cap@) + points_matches_from(t, e + 2) =~= found
                        + points_matches_from(t, i as int));
                }
                dedup_push(&mut out, cap, Ghost(found));
                proof {
                    found = found.push(t.subrange(i as int, e as int));
                }
                i = e + 2;
                matched = true;
            }
        }
        if !matched {
            assert(!points_starts_at(t, i as int));
            assert(points_matches_from(t, i as int) =~= points_matches_from(t, i + 1));
            i = i + 1;
        }
    }
    assert(points_matches_from(t, i as int) =~= Seq::empty());
    assert(points_matches_from(t, 0) =~= found);
    out
}

/// `s` with every comma removed; other characters keep their order.
pub open spec fn comma_stripped(s: Seq<char>) -> Seq<char>
    decreases s.len(),
{
    if s.len() == 0 {
        Seq::empty()
    } else if s.last() == ',' {
        comma_stripped(s.drop_last())
    } else {
        comma_stripped(s.drop_last()).push(s.last())
    }
}

/// Removes thousands separators from a matched number.
pub fn strip_commas(s: &str) -> (r: String)
    ensures
        r@ == comma_stripped(s@),
{
    let n = s.unicode_len();
    let mut out = String::new();
    let mut i: usize = 0;
    proof {
        assert(s@.subrange(0, 0) =~= Seq::<char>::empty());
    }
    while i < n
        invariant
            i <= n,
            n == s@.len(),
            out@ == comma_stripped(s@.subrange(0, i as int)),
        decreases n - i,
    {
        let c = s.get_char(i);
        proof {
            assert(s@.subrange(0, i + 1).drop_last() =~= s@.subrange(0, i as int));
            assert(s@.subrange(0, i + 1).last() == s@[i as int]);
        }
        if c != ',' {
            push_char(&mut out, c);
        }
        i = i + 1;
    }
    proof {
        assert(s@.subrange(0, n as int) =~= s@);
    }
    out
}

/// What `extract_payment` yields on `t`: the first price and the first points
/// value, commas stripped, or nothing if either pattern has no match.
pub open spec fn spec_extract_payment(t: Seq<char>) -> Option<(Seq<char>, Seq<char>)> {
    if price_tokens(t).len() > 0 && points_tokens(t).len() > 0 {
        Some((comma_stripped(price_tokens(t)[0]), comma_stripped(points_tokens(t)[0])))
    } else {
        None
    }
}

/// Scans `text` for a price and a points figure; both must be present for a
/// `Payment` to come back, and the first match of each populates it.
pub fn extract_payment(text: &str) -> (r: Option<Payment>)
    ensures
        r is Some <==> spec_extract_payment(text@) is Some,
        r matches Some(p) ==> Some((p.price@, p.points@)) == spec_extract_payment(text@),
{
    let prices = extract_price(text);
    let points = extract_points(text);
    if prices.len() > 0 && points.len() > 0 {
        assert(prices.deep_view()[0] == prices@[0]@);
        assert(points.deep_view()[0] == points@[0]@);
        let price = strip_commas(prices[0].as_str());
        let pts = strip_commas(points[0].as_str());
        Some(Payment { price, points: pts })
    } else {
        None
    }
}

impl Payment {
    /// Extracts a payment from free text; equivalent to [`extract_payment`].
    pub fn new(text: &str) -> (r: Option<Payment>)
        ensures
            r is Some <==> spec_extract_payment(text@) is Some,
            r matches Some(p) ==> Some((p.price@, p.points@)) == spec_extract_payment(text@),
    {
        extract_payment(text)
    }
}

} // verus!
