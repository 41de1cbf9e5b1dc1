//! Domain records produced by extraction and consumed by analytics,
//! persistence and notification.

use vstd::prelude::*;

verus! {

/// A price/points pair extracted from free page text. Both fields are decimal
/// digit strings with thousands separators already stripped; a fragment that
/// yields only one of the two yields no `Payment` at all.
#[derive(Debug, Clone, PartialEq, Eq)]
pub struct Payment {
    pub price: String,
    pub points: String,
}

/// Metadata of one wishlist item, scraped from a product link. Identity is
/// `id`, the product path segment of the canonical URL.
#[derive(Debug, Clone, PartialEq, Eq)]
pub struct ItemMetaData {
    pub id: String,
    pub url: String,
    pub title: String,
    pub price: String,
}

/// One scrape of one tracked wishlist. `items` is an ordered set: sorted by
/// item id with no duplicate ids.
#[derive(Debug, Clone, PartialEq, Eq)]
pub struct WishListSnapshot {
    pub id: String,
    pub title: String,
    pub url: String,
    pub scraped_at: i64,
    pub items: Vec<ItemMetaData>,
}

/// One scrape of one product page. `payment_ebook` is the primary purchase
/// price; `payment_real` is the optional comparison price a discount is
/// computed against.
#[derive(Debug, Clone, PartialEq, Eq)]
pub struct EbookSnapshot {
    pub ebook_id: String,
    pub scraped_at: i64,
    pub thumbnail_url: String,
    pub payment_ebook: Option<Payment>,
    pub payment_real: Option<Payment>,
}

/// Lexicographic order on character sequences by code point, the order the
/// item list of a `WishListSnapshot` is kept in.
pub open spec fn lex_lt(a: Seq<char>, b: Seq<char>) -> bool
    decreases a.len(),
{
    if b.len() == 0 {
        false
    } else if a.len() == 0 {
        true
    } else if (a[0] as u32) < (b[0] as u32) {
        true
    } else if a[0] == b[0] {
        lex_lt(a.skip(1), b.skip(1))
    } else {
        false
    }
}

/// The item list is strictly sorted by id, which also makes the ids unique.
pub open spec fn items_strictly_sorted(items: Seq<ItemMetaData>) -> bool {
    forall|i: int, j: int|
        0 <= i < j < items.len() ==> lex_lt(#[trigger] items[i].id@, #[trigger] items[j].id@)
}

impl WishListSnapshot {
    /// Well-formedness: the items form an ordered set keyed by id.
    pub open spec fn wf(self) -> bool {
        items_strictly_sorted(self.items@)
    }
}

pub proof fn lemma_lex_lt_irrefl(a: Seq<char>)
    ensures
        !lex_lt(a, a),
    decreases a.len(),
{
    if a.len() > 0 {
        lemma_lex_lt_irrefl(a.skip(1));
    }
}

pub proof fn lemma_lex_lt_trans(a: Seq<char>, b: Seq<char>, c: Seq<char>)
    requires
        lex_lt(a, b),
        lex_lt(b, c),
    ensures
        lex_lt(a, c),
    decreases a.len(),
{
    if b.len() == 0 {
    } else if a.len() == 0 {
    } else if c.len() == 0 {
    } else if a[0] == b[0] && b[0] == c[0] {
        lemma_lex_lt_trans(a.skip(1), b.skip(1), c.skip(1));
    }
}

/// Totality: two distinct sequences are ordered one way or the other.
pub proof fn lemma_lex_lt_total(a: Seq<char>, b: Seq<char>)
    ensures
        lex_lt(a, b) || lex_lt(b, a) || a =~= b,
    decreases a.len(),
{
    if a.len() == 0 || b.len() == 0 {
        if a.len() == 0 && b.len() == 0 {
            assert(a =~= b);
        }
    } else if a[0] != b[0] && !((a[0] as u32) < (b[0] as u32)) {
        vstd::utf8::char_u32_cast(a[0], a[0] as u32);
        vstd::utf8::char_u32_cast(b[0], b[0] as u32);
        assert((b[0] as u32) < (a[0] as u32));
        assert(lex_lt(b, a));
    } else if a[0] == b[0] {
        lemma_lex_lt_total(a.skip(1), b.skip(1));
        if !lex_lt(a.skip(1), b.skip(1)) && !lex_lt(b.skip(1), a.skip(1)) {
            assert(a.skip(1) =~= b.skip(1));
            assert forall|i: int| 0 <= i < a.len() implies a[i] == b[i] by {
                if i > 0 {
                    assert(a[i] == a.skip(1)[i - 1]);
                    assert(b[i] == b.skip(1)[i - 1]);
                }
            }
            assert(a =~= b);
        }
    }
}

} // verus!
