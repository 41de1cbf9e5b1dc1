//! Assembly of domain snapshots from raw scraped fragments.
//!
//! The page driver hands over plain values: attribute lists per element and
//! text fragments per price block. Everything that happens to them — picking
//! attributes, resolving the link, extracting payments, ordering and
//! deduplicating the item list — is verified here. Fragments that fail to
//! extract are skipped, never fatal.

use vstd::prelude::*;
use crate::attrs::{search_from, spec_search};
use crate::extract::{extract_payment, spec_extract_payment};
use crate::models::{EbookSnapshot, ItemMetaData, Payment, WishListSnapshot, lex_lt,
    items_strictly_sorted};
use crate::models::{lemma_lex_lt_irrefl, lemma_lex_lt_total, lemma_lex_lt_trans};
use crate::store::{has_item_id};
use crate::urls::{ExtractionError, spec_item_parts};

verus! {

/// The attribute lists scraped from one item element: those of its product
/// link and those of the element itself.
pub struct RawItem {
    pub link_attrs: Vec<String>,
    pub item_attrs: Vec<String>,
}

/// The three attribute values an item is built from: href and title off the
/// link, the price off the element.
pub open spec fn spec_item_inputs(link: Seq<Seq<char>>, item: Seq<Seq<char>>) -> Option<
    (Seq<char>, Seq<char>, Seq<char>),
> {
    match spec_search(link, "href"@) {
        None => None,
        Some(h) => match spec_search(link, "title"@) {
            None => None,
            Some(t) => match spec_search(item, "data-price"@) {
                None => None,
                Some(p) => Some((h, t, p)),
            },
        },
    }
}

/// A raw element yields an item: all three attributes are present and the
/// href resolves with a product id in its path.
pub open spec fn raw_item_ok(r: RawItem) -> bool {
    match spec_item_inputs(r.link_attrs.deep_view(), r.item_attrs.deep_view()) {
        None => false,
        Some(inp) => spec_item_parts(inp.0) is Ok,
    }
}

/// The item a raw element yields, where it yields one.
pub open spec fn raw_item_matches(r: RawItem, m: ItemMetaData) -> bool {
    match spec_item_inputs(r.link_attrs.deep_view(), r.item_attrs.deep_view()) {
        None => false,
        Some(inp) => match spec_item_parts(inp.0) {
            Err(_) => false,
            Ok(parts) => m.url@ == parts.0 && m.id@ == parts.1 && m.title@ == inp.1 && m.price@
                == inp.2,
        },
    }
}

/// `m` is the item some raw element of `raws` yields.
pub open spec fn item_from_some_raw(raws: Seq<RawItem>, m: ItemMetaData) -> bool {
    exists|j: int| 0 <= j < raws.len() && raw_item_matches(#[trigger] raws[j], m)
}

/// The id a raw element's item carries.
pub open spec fn raw_item_id(r: RawItem) -> Seq<char> {
    (spec_item_parts(
        (spec_item_inputs(r.link_attrs.deep_view(), r.item_attrs.deep_view())->0).0,
    )->Ok_0).1
}

/// Builds one item from the attribute lists of its element.
pub fn item_from_attributes(link_attrs: &Vec<String>, item_attrs: &Vec<String>) -> (r: Result<
    ItemMetaData,
    ExtractionError,
>)
    ensures
        spec_item_inputs(link_attrs.deep_view(), item_attrs.deep_view()) is None ==> r == Err::<
            ItemMetaData,
            ExtractionError,
        >(ExtractionError::MissingAttribute),
        spec_item_inputs(link_attrs.deep_view(), item_attrs.deep_view()) matches Some(inp) ==> {
            &&& r is Ok <==> spec_item_parts(inp.0) is Ok
            &&& (r matches Ok(m) ==> spec_item_parts(inp.0) matches Ok(p) && m.url@ == p.0 && m.id@
                == p.1 && m.title@ == inp.1 && m.price@ == inp.2)
            &&& (r matches Err(e) ==> Err::<(Seq<char>, Seq<char>), ExtractionError>(e)
                == spec_item_parts(inp.0))
        },
{
    let href = match search_from(link_attrs, "href") {
        None => {
            return Err(ExtractionError::MissingAttribute);
        },
        Some(h) => h,
    };
    let title = match search_from(link_attrs, "title") {
        None => {
            return Err(ExtractionError::MissingAttribute);
        },
        Some(t) => t,
    };
    let price = match search_from(item_attrs, "data-price") {
        None => {
            return Err(ExtractionError::MissingAttribute);
        },
        Some(p) => p,
    };
    ItemMetaData::new(href.as_str(), title.as_str(), price.as_str())
}

/// Inserts an item into a list kept strictly sorted by id; an id already
/// present keeps its earlier item, so the first occurrence wins.
fn insert_item_sorted(items: &mut Vec<ItemMetaData>, item: ItemMetaData)
    requires
        items_strictly_sorted(old(items)@),
    ensures
        items_strictly_sorted(final(items)@),
        forall|e: Seq<char>|
            #[trigger] has_item_id(final(items)@, e) <==> has_item_id(old(items)@, e) || e
                == item.id@,
        forall|k: int|
            0 <= k < final(items)@.len() ==> final(items)@[k] == item || old(items)@.contains(
                #[trigger] final(items)@[k],
            ),
{
    let ghost before = items@;
    let mut p: usize = 0;
    while p < items.len() && lex_lt_ids(&items[p], &item)
        invariant
            before == items@,
            items_strictly_sorted(before),
            p <= items@.len(),
            forall|i: int| 0 <= i < p ==> lex_lt((#[trigger] items@[i]).id@, item.id@),
        decreases items@.len() - p,
    {
        p = p + 1;
    }
    if p < items.len() && items[p].id.eq(&item.id) {
        proof {
            assert(has_item_id(before, item.id@)) by {
                assert((#[trigger] before[p as int]).id@ == item.id@);
            };
            assert forall|k: int|
                0 <= k < items@.len() implies items@[k] == item || before.contains(
                #[trigger] items@[k],
            ) by {
                contains_intro_item(before, k);
            };
            assert forall|e: Seq<char>| #[trigger] has_item_id(items@, e) implies has_item_id(
                before,
                e,
            ) || e == item.id@ by {};
        }
        return ;
    }
    proof {
        if p < before.len() {
            assert(!lex_lt(before[p as int].id@, item.id@));
            assert(before[p as int].id@ != item.id@);
            lemma_lex_lt_total(before[p as int].id@, item.id@);
            assert(lex_lt(item.id@, before[p as int].id@));
        }
        if has_item_id(before, item.id@) {
            let w = choose|w: int| 0 <= w < before.len() && (#[trigger] before[w]).id@ == item.id@;
            if w < p {
                assert(lex_lt(before[w].id@, item.id@));
                lemma_lex_lt_irrefl(item.id@);
            } else {
                if w > p {
                    assert(lex_lt(before[p as int].id@, before[w].id@));
                    lemma_lex_lt_trans(item.id@, before[p as int].id@, before[w].id@);
                }
                lemma_lex_lt_irrefl(item.id@);
            }
        }
    }
    let ghost item_g = item;
    items.insert(p, item);
    proof {
        let cur = items@;
        assert(cur == before.insert(p as int, item_g));
        assert(cur[p as int] == item_g);
        assert(items_strictly_sorted(cur)) by {
            assert forall|i: int, j: int|
                0 <= i < j < cur.len() implies lex_lt(
                (#[trigger] cur[i]).id@,
                (#[trigger] cur[j]).id@,
            ) by {
                if i < p && j == p {
                    assert(cur[i] == before[i]);
                } else if i == p && j > p {
                    assert(cur[j] == before[j - 1]);
                    assert(p < before.len());
                    lemma_sorted_after(before, p as int, j - 1, item_g.id@);
                } else if i < p && j > p {
                    assert(cur[i] == before[i] && cur[j] == before[j - 1]);
                } else if i != p && j != p {
                    if j < p {
                        assert(cur[i] == before[i]);
                        assert(cur[j] == before[j]);
                    } else if i > p {
                        assert(cur[i] == before[i - 1]);
                        assert(cur[j] == before[j - 1]);
                    }
                }
            };
        };
        assert forall|e: Seq<char>| #[trigger] has_item_id(cur, e) implies has_item_id(before, e)
            || e == item_g.id@ by {
            let w = choose|w: int| 0 <= w < cur.len() && (#[trigger] cur[w]).id@ == e;
            if w < p {
                assert((#[trigger] before[w]).id@ == e);
            } else if w > p {
                assert((#[trigger] before[w - 1]).id@ == e);
            }
        };
        assert forall|e: Seq<char>|
            has_item_id(before, e) || e == item_g.id@ implies #[trigger] has_item_id(cur, e) by {
            if has_item_id(before, e) {
                let w = choose|w: int| 0 <= w < before.len() && (#[trigger] before[w]).id@ == e;
                if w < p {
                    assert((#[trigger] cur[w]).id@ == e);
                } else {
                    assert((#[trigger] cur[w + 1]).id@ == e);
                }
            } else {
                assert((#[trigger] cur[p as int]).id@ == e);
            }
        };
        assert forall|k: int|
            0 <= k < cur.len() implies cur[k] == item_g || before.contains(#[trigger] cur[k]) by {
            if k < p {
                contains_intro_item(before, k);
                assert(before[k] == cur[k]);
            } else if k > p {
                contains_intro_item(before, k - 1);
                assert(before[k - 1] == cur[k]);
            }
        };
    }
}

proof fn contains_intro_item(s: Seq<ItemMetaData>, k: int)
    requires
        0 <= k < s.len(),
    ensures
        s.contains(s[k]),
{
    assert(exists|i: int| 0 <= i < s.len() && s[i] == s[k]) by {
        assert(0 <= k < s.len() && s[k] == s[k]);
    }
}

/// In a strictly sorted list, the id at `a` is below the id at `b`; stated
/// against an id known to sit below the id at `a`.
proof fn lemma_sorted_after(items: Seq<ItemMetaData>, a: int, b: int, id: Seq<char>)
    requires
        items_strictly_sorted(items),
        0 <= a <= b < items.len(),
        lex_lt(id, items[a].id@),
    ensures
        lex_lt(id, items[b].id@),
{
    if a < b {
        assert(lex_lt((#[trigger] items[a]).id@, (#[trigger] items[b]).id@));
        lemma_lex_lt_trans(id, items[a].id@, items[b].id@);
    }
}

fn lex_lt_ids(a: &ItemMetaData, b: &ItemMetaData) -> (r: bool)
    ensures
        r == lex_lt(a.id@, b.id@),
{
    crate::text::lex_lt_exec(a.id.as_str(), b.id.as_str())
}

/// Builds one wishlist snapshot from its scraped parts. Elements that fail
/// to extract are skipped; the rest become an ordered set of items, sorted
/// by id, duplicates dropped with the first occurrence winning.
pub fn build_wish_list_snapshot(
    id: &str,
    url: &str,
    scraped_at: i64,
    title: &str,
    raws: &Vec<RawItem>,
) -> (r: WishListSnapshot)
    ensures
        r.wf(),
        r.id@ == id@,
        r.url@ == url@,
        r.scraped_at == scraped_at,
        r.title@ == title@,
        forall|e: Seq<char>|
            #[trigger] has_item_id(r.items@, e) <==> exists|j: int|
                0 <= j < raws@.len() && raw_item_ok(#[trigger] raws@[j]) && raw_item_id(raws@[j])
                    == e,
        forall|k: int|
            0 <= k < r.items@.len() ==> item_from_some_raw(raws@, #[trigger] r.items@[k]),
{
    let mut items: Vec<ItemMetaData> = Vec::new();
    let mut j: usize = 0;
    while j < raws.len()
        invariant
            j <= raws@.len(),
            items_strictly_sorted(items@),
            forall|e: Seq<char>|
                #[trigger] has_item_id(items@, e) <==> exists|j2: int|
                    0 <= j2 < j && raw_item_ok(#[trigger] raws@[j2]) && raw_item_id(raws@[j2]) == e,
            forall|k: int|
                0 <= k < items@.len() ==> item_from_some_raw(raws@, #[trigger] items@[k]),
        decreases raws@.len() - j,
    {
        let raw = &raws[j];
        let ghost prev = items@;
        match item_from_attributes(&raw.link_attrs, &raw.item_attrs) {
            Err(_) => {
                proof {
                    assert(!raw_item_ok(raws@[j as int]));
                    assert forall|e: Seq<char>| #[trigger] has_item_id(items@, e) implies exists|
                        j2: int,
                    |
                        0 <= j2 < j + 1 && raw_item_ok(#[trigger] raws@[j2]) && raw_item_id(
                            raws@[j2],
                        ) == e by {};
                    assert forall|e: Seq<char>|
                        (exists|j2: int|
                            0 <= j2 < j + 1 && raw_item_ok(#[trigger] raws@[j2]) && raw_item_id(
                                raws@[j2],
                            ) == e) implies #[trigger] has_item_id(items@, e) by {
                        let j2 = choose|j2: int|
                            0 <= j2 < j + 1 && raw_item_ok(#[trigger] raws@[j2]) && raw_item_id(
                                raws@[j2],
                            ) == e;
                        assert(j2 < j);
                    };
                }
            },
            Ok(m) => {
                proof {
                    assert(raw_item_ok(raws@[j as int]));
                    assert(raw_item_matches(raws@[j as int], m));
                    assert(raw_item_id(raws@[j as int]) == m.id@);
                }
                let ghost m_g = m;
                insert_item_sorted(&mut items, m);
                proof {
                    assert forall|e: Seq<char>| #[trigger] has_item_id(items@, e) implies exists|
                        j2: int,
                    |
                        0 <= j2 < j + 1 && raw_item_ok(#[trigger] raws@[j2]) && raw_item_id(
                            raws@[j2],
                        ) == e by {
                        if e == m_g.id@ {
                            assert(raw_item_ok(#[trigger] raws@[j as int]) && raw_item_id(
                                raws@[j as int],
                            ) == e);
                        } else {
                            assert(has_item_id(prev, e));
                        }
                    };
                    assert forall|e: Seq<char>|
                        (exists|j2: int|
                            0 <= j2 < j + 1 && raw_item_ok(#[trigger] raws@[j2]) && raw_item_id(
                                raws@[j2],
                            ) == e) implies #[trigger] has_item_id(items@, e) by {
                        let j2 = choose|j2: int|
                            0 <= j2 < j + 1 && raw_item_ok(#[trigger] raws@[j2]) && raw_item_id(
                                raws@[j2],
                            ) == e;
                        if j2 < j {
                            assert(has_item_id(prev, e));
                        }
                    };
                    assert forall|k: int|
                        0 <= k < items@.len() implies item_from_some_raw(
                        raws@,
                        #[trigger] items@[k],
                    ) by {
                        if items@[k] == m_g {
                            assert(raw_item_matches(#[trigger] raws@[j as int], items@[k]));
                        } else {
                            assert(prev.contains(items@[k]));
                            let w = choose|w: int| 0 <= w < prev.len() && prev[w] == items@[k];
                            assert(item_from_some_raw(raws@, prev[w]));
                        }
                    };
                }
            },
        }
        j = j + 1;
    }
    WishListSnapshot {
        id: id.to_owned(),
        title: title.to_owned(),
        url: url.to_owned(),
        scraped_at,
        items,
    }
}

/// The payments extracted from the scraped price fragments, in order,
/// fragments without both figures skipped.
pub open spec fn spec_payments(ts: Seq<Seq<char>>) -> Seq<(Seq<char>, Seq<char>)>
    decreases ts.len(),
{
    if ts.len() == 0 {
        Seq::empty()
    } else {
        spec_payments(ts.drop_last()) + (match spec_extract_payment(ts.last()) {
            Some(p) => Seq::empty().push(p),
            None => Seq::empty(),
        })
    }
}

/// Builds one product snapshot from its scraped parts: the first extracted
/// payment is the purchase price, the second the comparison price.
pub fn build_ebook_snapshot(
    id: &str,
    scraped_at: i64,
    thumbnail_url: &str,
    texts: &Vec<String>,
) -> (r: EbookSnapshot)
    ensures
        r.ebook_id@ == id@,
        r.scraped_at == scraped_at,
        r.thumbnail_url@ == thumbnail_url@,
        r.payment_ebook is Some <==> spec_payments(texts.deep_view()).len() >= 1,
        r.payment_ebook matches Some(p) ==> (p.price@, p.points@) == spec_payments(
            texts.deep_view(),
        )[0],
        r.payment_real is Some <==> spec_payments(texts.deep_view()).len() >= 2,
        r.payment_real matches Some(p) ==> (p.price@, p.points@) == spec_payments(
            texts.deep_view(),
        )[1],
{
    let ghost tv = texts.deep_view();
    let mut pays: Vec<Payment> = Vec::new();
    let mut i: usize = 0;
    proof {
        assert(tv.take(0) =~= Seq::<Seq<char>>::empty());
    }
    while i < texts.len()
        invariant
            i <= texts@.len(),
            tv == texts.deep_view(),
            tv.len() == texts@.len(),
            pays@.len() == spec_payments(tv.take(i as int)).len(),
            forall|k: int|
                0 <= k < pays@.len() ==> ((#[trigger] pays@[k]).price@, pays@[k].points@)
                    == spec_payments(tv.take(i as int))[k],
        decreases texts@.len() - i,
    {
        let ghost ti = tv.take(i as int);
        let ghost ti1 = tv.take(i + 1);
        proof {
            assert(ti1.drop_last() =~= ti);
            assert(ti1.last() == tv[i as int]);
            assert(tv[i as int] == texts@[i as int]@);
        }
        let p = extract_payment(texts[i].as_str());
        match p {
            Some(pay) => {
                pays.push(pay);
                proof {
                    assert(spec_payments(ti1) =~= spec_payments(ti).push(
                        (pays@.last().price@, pays@.last().points@),
                    ));
                }
            },
            None => {
                proof {
                    assert(spec_payments(ti1) =~= spec_payments(ti));
                }
            },
        }
        i = i + 1;
    }
    proof {
        assert(tv.take(i as int) =~= tv);
    }
    let payment_ebook = if pays.len() > 0 {
        let p = &pays[0];
        Some(Payment { price: p.price.clone(), points: p.points.clone() })
    } else {
        None
    };
    let payment_real = if pays.len() > 1 {
        let p = &pays[1];
        Some(Payment { price: p.price.clone(), points: p.points.clone() })
    } else {
        None
    };
    EbookSnapshot {
        ebook_id: id.to_owned(),
        scraped_at,
        thumbnail_url: thumbnail_url.to_owned(),
        payment_ebook,
        payment_real,
    }
}

} // verus!
