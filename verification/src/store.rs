//! The snapshot store: reconciles scraped state against persisted state.
//!
//! Tables live in memory here; a deployment backs them with a database whose
//! keyed upsert/find/delete operations this module's contracts describe. The
//! semantics are the point: items are created once and never overwritten, a
//! wishlist row is overwritten on every scrape, the wishlist-to-item relation
//! set is replaced wholesale (delete, then recreate) so stale memberships
//! never survive a scrape, and product snapshots are append-only.

use vstd::prelude::*;
use crate::models::{ItemMetaData, WishListSnapshot, lex_lt};
use crate::models::lemma_lex_lt_irrefl;

verus! {

/// One tracked product, created on first sight and stable afterwards.
#[derive(Debug, Clone, PartialEq, Eq)]
pub struct EbookRow {
    pub id: String,
    pub url: String,
    pub title: String,
    pub price: String,
}

/// One tracked wishlist; url, title and scrape time follow the latest scrape.
#[derive(Debug, Clone, PartialEq, Eq)]
pub struct WishListRow {
    pub id: String,
    pub url: String,
    pub scraped_at: i64,
    pub title: String,
}

/// Membership of one item in one wishlist.
#[derive(Debug, Clone, PartialEq, Eq)]
pub struct RelationRow {
    pub wish_list_id: String,
    pub ebook_id: String,
}

/// One point of the per-product price time series, keyed by
/// `(ebook_id, scraped_at)`.
#[derive(Debug, Clone, PartialEq, Eq)]
pub struct SnapshotRow {
    pub ebook_id: String,
    pub scraped_at: i64,
    pub thumbnail_url: String,
    pub price: u64,
    pub points: u64,
    pub points_rate: u64,
    pub discount: Option<i64>,
    pub discount_rate: Option<i64>,
}

/// A constraint violation. Failures touch only the unit that caused them;
/// the store is left as it was.
#[derive(Debug, Clone, Copy, PartialEq, Eq)]
pub enum StoreError {
    /// The snapshot key `(ebook_id, scraped_at)` already exists.
    Conflict,
    /// The snapshot references a product the store does not know.
    MissingEbook,
}

pub struct Store {
    pub ebooks: Vec<EbookRow>,
    pub wish_lists: Vec<WishListRow>,
    pub relations: Vec<RelationRow>,
    pub snapshots: Vec<SnapshotRow>,
}

pub open spec fn unique_ebook_ids(rows: Seq<EbookRow>) -> bool {
    forall|i: int, j: int|
        0 <= i < j < rows.len() ==> (#[trigger] rows[i]).id@ != (#[trigger] rows[j]).id@
}

pub open spec fn unique_wish_list_ids(rows: Seq<WishListRow>) -> bool {
    forall|i: int, j: int|
        0 <= i < j < rows.len() ==> (#[trigger] rows[i]).id@ != (#[trigger] rows[j]).id@
}

pub open spec fn same_relation(a: RelationRow, b: RelationRow) -> bool {
    a.wish_list_id@ == b.wish_list_id@ && a.ebook_id@ == b.ebook_id@
}

pub open spec fn unique_relations(rows: Seq<RelationRow>) -> bool {
    forall|i: int, j: int|
        0 <= i < j < rows.len() ==> !same_relation(#[trigger] rows[i], #[trigger] rows[j])
}

pub open spec fn unique_snapshot_keys(rows: Seq<SnapshotRow>) -> bool {
    forall|i: int, j: int|
        0 <= i < j < rows.len() ==> !((#[trigger] rows[i]).ebook_id@
            == (#[trigger] rows[j]).ebook_id@ && rows[i].scraped_at == rows[j].scraped_at)
}

pub open spec fn has_ebook(rows: Seq<EbookRow>, id: Seq<char>) -> bool {
    exists|i: int| 0 <= i < rows.len() && (#[trigger] rows[i]).id@ == id
}

pub open spec fn has_wish_list(rows: Seq<WishListRow>, id: Seq<char>) -> bool {
    exists|i: int| 0 <= i < rows.len() && (#[trigger] rows[i]).id@ == id
}

pub open spec fn has_item_id(items: Seq<ItemMetaData>, id: Seq<char>) -> bool {
    exists|i: int| 0 <= i < items.len() && (#[trigger] items[i]).id@ == id
}

/// The wishlist `wl` holds the item `eb`, per the relation table.
pub open spec fn rel_has(rows: Seq<RelationRow>, wl: Seq<char>, eb: Seq<char>) -> bool {
    exists|i: int|
        0 <= i < rows.len() && (#[trigger] rows[i]).wish_list_id@ == wl && rows[i].ebook_id@ == eb
}

pub open spec fn has_snapshot_key(rows: Seq<SnapshotRow>, eb: Seq<char>, at: i64) -> bool {
    exists|i: int|
        0 <= i < rows.len() && (#[trigger] rows[i]).ebook_id@ == eb && rows[i].scraped_at == at
}

proof fn rel_witness(rows: Seq<RelationRow>, w: Seq<char>, e: Seq<char>) -> (k: int)
    requires
        rel_has(rows, w, e),
    ensures
        0 <= k < rows.len(),
        rows[k].wish_list_id@ == w,
        rows[k].ebook_id@ == e,
{
    choose|k: int|
        0 <= k < rows.len() && (#[trigger] rows[k]).wish_list_id@ == w && rows[k].ebook_id@ == e
}

proof fn rel_intro(rows: Seq<RelationRow>, k: int)
    requires
        0 <= k < rows.len(),
    ensures
        rel_has(rows, rows[k].wish_list_id@, rows[k].ebook_id@),
{
    assert((#[trigger] rows[k]).wish_list_id@ == rows[k].wish_list_id@);
}

proof fn item_witness(items: Seq<ItemMetaData>, id: Seq<char>) -> (k: int)
    requires
        has_item_id(items, id),
    ensures
        0 <= k < items.len(),
        items[k].id@ == id,
{
    choose|k: int| 0 <= k < items.len() && (#[trigger] items[k]).id@ == id
}

proof fn item_intro(items: Seq<ItemMetaData>, k: int)
    requires
        0 <= k < items.len(),
    ensures
        has_item_id(items, items[k].id@),
{
    assert((#[trigger] items[k]).id@ == items[k].id@);
}

proof fn ebook_witness(rows: Seq<EbookRow>, id: Seq<char>) -> (k: int)
    requires
        has_ebook(rows, id),
    ensures
        0 <= k < rows.len(),
        rows[k].id@ == id,
{
    choose|k: int| 0 <= k < rows.len() && (#[trigger] rows[k]).id@ == id
}

proof fn ebook_intro(rows: Seq<EbookRow>, k: int)
    requires
        0 <= k < rows.len(),
    ensures
        has_ebook(rows, rows[k].id@),
{
    assert((#[trigger] rows[k]).id@ == rows[k].id@);
}

/// The row an item creates on first sight.
pub open spec fn row_from_item(r: EbookRow, it: ItemMetaData) -> bool {
    r.id@ == it.id@ && r.url@ == it.url@ && r.title@ == it.title@ && r.price@ == it.price@
}

pub open spec fn wish_list_row_matches(r: WishListRow, s: WishListSnapshot) -> bool {
    r.id@ == s.id@ && r.url@ == s.url@ && r.scraped_at == s.scraped_at && r.title@ == s.title@
}

/// Every row of `rows` from `start` on was created from one of `items`.
pub open spec fn rows_from_items(rows: Seq<EbookRow>, start: int, items: Seq<ItemMetaData>) -> bool {
    forall|k: int|
        start <= k < rows.len() ==> exists|j: int|
            0 <= j < items.len() && row_from_item(#[trigger] rows[k], items[j])
}

/// Create-if-absent semantics of the item upsert: existing rows stay exactly
/// as they were, a new row is appended for each id not seen before, and its
/// fields come from an item that carries that id.
pub open spec fn upsert_items_post(
    old_rows: Seq<EbookRow>,
    new_rows: Seq<EbookRow>,
    items: Seq<ItemMetaData>,
) -> bool {
    &&& new_rows.len() >= old_rows.len()
    &&& forall|k: int| 0 <= k < old_rows.len() ==> new_rows[k] == old_rows[k]
    &&& forall|id: Seq<char>|
        #[trigger] has_ebook(new_rows, id) <==> has_ebook(old_rows, id) || has_item_id(items, id)
    &&& rows_from_items(new_rows, old_rows.len() as int, items)
}

/// Full effect of one wishlist upsert.
pub open spec fn upsert_wish_list_post(old: Store, new: Store, s: WishListSnapshot) -> bool {
    &&& upsert_items_post(old.ebooks@, new.ebooks@, s.items@)
    &&& new.snapshots@ == old.snapshots@
    // the wishlist row itself: overwritten in place or appended
    &&& new.wish_lists@.len() == old.wish_lists@.len() + (if has_wish_list(
        old.wish_lists@,
        s.id@,
    ) {
        0int
    } else {
        1int
    })
    &&& forall|k: int|
        0 <= k < old.wish_lists@.len() ==> if (#[trigger] old.wish_lists@[k]).id@ == s.id@ {
            wish_list_row_matches(new.wish_lists@[k], s)
        } else {
            new.wish_lists@[k] == old.wish_lists@[k]
        }
    &&& !has_wish_list(old.wish_lists@, s.id@) ==> wish_list_row_matches(
        new.wish_lists@[old.wish_lists@.len() as int],
        s,
    )
    // the relation replace: membership of this wishlist is exactly the
    // snapshot's items, other wishlists' membership is untouched
    &&& forall|e: Seq<char>|
        #[trigger] rel_has(new.relations@, s.id@, e) <==> has_item_id(s.items@, e)
    &&& forall|w: Seq<char>, e: Seq<char>|
        w != s.id@ ==> (#[trigger] rel_has(new.relations@, w, e) <==> rel_has(
            old.relations@,
            w,
            e,
        ))
}

/// Outcome of appending one snapshot row.
pub open spec fn spec_insert_snapshot(old: Store, row: SnapshotRow) -> Result<(), StoreError> {
    if !has_ebook(old.ebooks@, row.ebook_id@) {
        Err(StoreError::MissingEbook)
    } else if has_snapshot_key(old.snapshots@, row.ebook_id@, row.scraped_at) {
        Err(StoreError::Conflict)
    } else {
        Ok(())
    }
}

impl Store {
    /// Table invariant: every table is keyed, as the database schema keys it.
    pub open spec fn inv(self) -> bool {
        &&& unique_ebook_ids(self.ebooks@)
        &&& unique_wish_list_ids(self.wish_lists@)
        &&& unique_relations(self.relations@)
        &&& unique_snapshot_keys(self.snapshots@)
    }

    /// An empty store.
    pub fn new() -> (r: Store)
        ensures
            r.inv(),
            r.ebooks@.len() == 0,
            r.wish_lists@.len() == 0,
            r.relations@.len() == 0,
            r.snapshots@.len() == 0,
    {
        Store {
            ebooks: Vec::new(),
            wish_lists: Vec::new(),
            relations: Vec::new(),
            snapshots: Vec::new(),
        }
    }

    fn find_ebook(&self, id: &String) -> (r: Option<usize>)
        ensures
            r matches Some(i) ==> i < self.ebooks@.len() && self.ebooks@[i as int].id@ == id@,
            r is None ==> !has_ebook(self.ebooks@, id@),
    {
        let mut i: usize = 0;
        while i < self.ebooks.len()
            invariant
                i <= self.ebooks@.len(),
                forall|k: int| 0 <= k < i ==> (#[trigger] self.ebooks@[k]).id@ != id@,
            decreases self.ebooks@.len() - i,
        {
            if self.ebooks[i].id.eq(id) {
                return Some(i);
            }
            i = i + 1;
        }
        None
    }

    fn find_wish_list(&self, id: &String) -> (r: Option<usize>)
        ensures
            r matches Some(i) ==> i < self.wish_lists@.len() && self.wish_lists@[i as int].id@
                == id@,
            r is None ==> !has_wish_list(self.wish_lists@, id@),
    {
        let mut i: usize = 0;
        while i < self.wish_lists.len()
            invariant
                i <= self.wish_lists@.len(),
                forall|k: int| 0 <= k < i ==> (#[trigger] self.wish_lists@[k]).id@ != id@,
            decreases self.wish_lists@.len() - i,
        {
            if self.wish_lists[i].id.eq(id) {
                return Some(i);
            }
            i = i + 1;
        }
        None
    }

    /// Creates a row for every item id the store has not seen; rows that
    /// exist keep all their fields — item identity is stable once created.
    pub fn upsert_items(&mut self, items: &Vec<ItemMetaData>)
        requires
            old(self).inv(),
        ensures
            final(self).inv(),
            upsert_items_post(old(self).ebooks@, final(self).ebooks@, items@),
            final(self).wish_lists@ == old(self).wish_lists@,
            final(self).relations@ == old(self).relations@,
            final(self).snapshots@ == old(self).snapshots@,
    {
        let ghost orig = self.ebooks@;
        let mut j: usize = 0;
        while j < items.len()
            invariant
                self.inv(),
                j <= items@.len(),
                self.wish_lists@ == old(self).wish_lists@,
                self.relations@ == old(self).relations@,
                self.snapshots@ == old(self).snapshots@,
                orig == old(self).ebooks@,
                self.ebooks@.len() >= orig.len(),
                forall|k: int| 0 <= k < orig.len() ==> self.ebooks@[k] == orig[k],
                forall|id: Seq<char>|
                    #[trigger] has_ebook(self.ebooks@, id) <==> has_ebook(orig, id) || has_item_id(
                        items@.take(j as int),
                        id,
                    ),
                rows_from_items(self.ebooks@, orig.len() as int, items@),
            decreases items@.len() - j,
        {
            let ghost before = self.ebooks@;
            let ghost tj = items@.take(j as int);
            let ghost tj1 = items@.take(j + 1);
            proof {
                assert(tj1.drop_last() =~= tj);
                assert(tj1[j as int] == items@[j as int]);
                // membership in the one-longer prefix
                assert forall|id: Seq<char>| #[trigger] has_item_id(tj1, id) implies has_item_id(
                    tj,
                    id,
                ) || items@[j as int].id@ == id by {
                    let w = item_witness(tj1, id);
                    if w < tj.len() {
                        item_intro(tj, w);
                    }
                };
                assert forall|id: Seq<char>| has_item_id(tj, id) implies #[trigger] has_item_id(
                    tj1,
                    id,
                ) by {
                    let w = item_witness(tj, id);
                    item_intro(tj1, w);
                };
                item_intro(tj1, j as int);
                assert(has_item_id(tj1, items@[j as int].id@));
            }
            let item = &items[j];
            let found = self.find_ebook(&item.id);
            if found.is_none() {
                let row = EbookRow {
                    id: item.id.clone(),
                    url: item.url.clone(),
                    title: item.title.clone(),
                    price: item.price.clone(),
                };
                proof {
                    assert(row.id@ == items@[j as int].id@);
                }
                self.ebooks.push(row);
                proof {
                    let cur = self.ebooks@;
                    assert(cur == before.push(cur.last()));
                    assert(cur.last().id@ == items@[j as int].id@);
                    assert(row_from_item(cur.last(), items@[j as int]));
                    assert(rows_from_items(cur, orig.len() as int, items@)) by {
                        assert forall|k: int| orig.len() <= k < cur.len() implies exists|j2: int|
                            0 <= j2 < items@.len() && row_from_item(
                                #[trigger] cur[k],
                                items@[j2],
                            ) by {
                            if k < before.len() {
                                assert(cur[k] == before[k]);
                                assert(exists|j2: int|
                                    0 <= j2 < items@.len() && row_from_item(
                                        #[trigger] before[k],
                                        items@[j2],
                                    ));
                                let j2 = choose|j2: int|
                                    0 <= j2 < items@.len() && row_from_item(
                                        #[trigger] before[k],
                                        items@[j2],
                                    );
                                assert(row_from_item(cur[k], items@[j2]));
                            } else {
                                assert(row_from_item(cur[k], items@[j as int]));
                            }
                        };
                    };
                    // membership in the one-longer table
                    assert forall|id: Seq<char>| #[trigger] has_ebook(cur, id) implies has_ebook(
                        before,
                        id,
                    ) || items@[j as int].id@ == id by {
                        let w = ebook_witness(cur, id);
                        if w < before.len() {
                            ebook_intro(before, w);
                        }
                    };
                    assert forall|id: Seq<char>| has_ebook(before, id) implies #[trigger] has_ebook(
                        cur,
                        id,
                    ) by {
                        let w = ebook_witness(before, id);
                        ebook_intro(cur, w);
                    };
                    ebook_intro(cur, cur.len() - 1);
                    assert(has_ebook(cur, items@[j as int].id@));
                    // the pushed id is fresh, so ids stay unique
                    assert(unique_ebook_ids(cur)) by {
                        assert forall|a: int, b: int|
                            0 <= a < b < cur.len() implies (#[trigger] cur[a]).id@
                            != (#[trigger] cur[b]).id@ by {
                            if b == cur.len() - 1 {
                                if cur[a].id@ == cur[b].id@ {
                                    ebook_intro(before, a);
                                    assert(has_ebook(before, items@[j as int].id@));
                                }
                            }
                        };
                    };
                    // the iff over the extended prefix
                    assert forall|id: Seq<char>| #[trigger] has_ebook(cur, id) implies has_ebook(
                        orig,
                        id,
                    ) || has_item_id(tj1, id) by {};
                    assert forall|id: Seq<char>|
                        has_ebook(orig, id) || has_item_id(tj1, id) implies #[trigger] has_ebook(
                        cur,
                        id,
                    ) by {};
                }
            } else {
                proof {
                    let k = found->0 as int;
                    assert(self.ebooks@[k].id@ == items@[j as int].id@);
                    ebook_intro(self.ebooks@, k);
                    assert(has_ebook(self.ebooks@, items@[j as int].id@));
                    assert forall|id: Seq<char>| #[trigger] has_ebook(self.ebooks@, id) implies
                        has_ebook(orig, id) || has_item_id(tj1, id) by {};
                    assert forall|id: Seq<char>|
                        has_ebook(orig, id) || has_item_id(tj1, id) implies #[trigger] has_ebook(
                        self.ebooks@,
                        id,
                    ) by {};
                }
            }
            j = j + 1;
        }
        proof {
            assert(items@.take(j as int) =~= items@);
        }
    }

    /// Upserts one wishlist scrape: items first (create-if-absent), then the
    /// wishlist row (overwrite on conflict), then the membership relation,
    /// replaced wholesale so that exactly the scraped items remain related.
    pub fn upsert_wish_list(&mut self, snapshot: &WishListSnapshot)
        requires
            old(self).inv(),
            snapshot.wf(),
        ensures
            final(self).inv(),
            upsert_wish_list_post(*old(self), *final(self), *snapshot),
    {
        self.upsert_items(&snapshot.items);

        // wishlist row: overwrite url, scrape time and title, or create
        let row = WishListRow {
            id: snapshot.id.clone(),
            url: snapshot.url.clone(),
            scraped_at: snapshot.scraped_at,
            title: snapshot.title.clone(),
        };
        proof {
            assert(wish_list_row_matches(row, *snapshot));
        }
        let found = self.find_wish_list(&snapshot.id);
        match found {
            Some(k) => {
                let ghost before = self.wish_lists@;
                self.wish_lists.remove(k);
                self.wish_lists.insert(k, row);
                proof {
                    assert(self.wish_lists@ =~= before.update(k as int, row));
                    assert(before[k as int].id@ == snapshot.id@);
                    assert(has_wish_list(before, snapshot.id@)) by {
                        assert((#[trigger] before[k as int]).id@ == snapshot.id@);
                    };
                    assert(unique_wish_list_ids(self.wish_lists@)) by {
                        assert forall|a: int, b: int|
                            0 <= a < b < self.wish_lists@.len() implies
                            (#[trigger] self.wish_lists@[a]).id@
                            != (#[trigger] self.wish_lists@[b]).id@ by {
                            assert(before[a].id@ != before[b].id@);
                            if a == k {
                                assert(self.wish_lists@[a].id@ == before[k as int].id@);
                            }
                            if b == k {
                                assert(self.wish_lists@[b].id@ == before[k as int].id@);
                            }
                        };
                    };
                }
            },
            None => {
                let ghost before = self.wish_lists@;
                self.wish_lists.push(row);
                proof {
                    assert(self.wish_lists@ == before.push(row));
                    assert(unique_wish_list_ids(self.wish_lists@)) by {
                        assert forall|a: int, b: int|
                            0 <= a < b < self.wish_lists@.len() implies
                            (#[trigger] self.wish_lists@[a]).id@
                            != (#[trigger] self.wish_lists@[b]).id@ by {
                            if b == self.wish_lists@.len() - 1 {
                                if self.wish_lists@[a].id@ == self.wish_lists@[b].id@ {
                                    assert((#[trigger] before[a]).id@ == snapshot.id@);
                                    assert(has_wish_list(before, snapshot.id@));
                                }
                            } else {
                                assert(before[a].id@ != before[b].id@);
                            }
                        };
                    };
                }
            },
        }

        self.replace_relations(snapshot);
    }

    /// The relation replace of one wishlist upsert: every membership row of
    /// this wishlist is deleted, then one row per scraped item is recreated.
    fn replace_relations(&mut self, snapshot: &WishListSnapshot)
        requires
            old(self).inv(),
            snapshot.wf(),
        ensures
            final(self).inv(),
            final(self).ebooks@ == old(self).ebooks@,
            final(self).wish_lists@ == old(self).wish_lists@,
            final(self).snapshots@ == old(self).snapshots@,
            forall|e: Seq<char>|
                #[trigger] rel_has(final(self).relations@, snapshot.id@, e) <==> has_item_id(
                    snapshot.items@,
                    e,
                ),
            forall|w: Seq<char>, e: Seq<char>|
                w != snapshot.id@ ==> (#[trigger] rel_has(final(self).relations@, w, e) <==> rel_has(
                    old(self).relations@,
                    w,
                    e,
                )),
    {
        let ghost old_rels = self.relations@;
        let mut kept: Vec<RelationRow> = Vec::new();
        let mut i: usize = 0;
        while i < self.relations.len()
            invariant
                *self == *old(self),
                i <= old_rels.len(),
                old_rels == self.relations@,
                unique_relations(old_rels),
                unique_relations(kept@),
                forall|k: int|
                    0 <= k < kept@.len() ==> (#[trigger] kept@[k]).wish_list_id@ != snapshot.id@,
                forall|w: Seq<char>, e: Seq<char>|
                    #[trigger] rel_has(kept@, w, e) <==> rel_has(old_rels.take(i as int), w, e)
                        && w != snapshot.id@,
            decreases old_rels.len() - i,
        {
            let ghost ti = old_rels.take(i as int);
            let ghost ti1 = old_rels.take(i + 1);
            proof {
                assert(ti1.drop_last() =~= ti);
                assert(ti1[i as int] == old_rels[i as int]);
            }
            let r = &self.relations[i];
            if !r.wish_list_id.eq(&snapshot.id) {
                let ghost kept_before = kept@;
                proof {
                    // the pair at i is not yet in kept: it would have to come
                    // from an earlier index of a table with unique pairs
                    if rel_has(kept_before, old_rels[i as int].wish_list_id@, old_rels[i as int].ebook_id@) {
                        let w = rel_witness(
                            kept_before,
                            old_rels[i as int].wish_list_id@,
                            old_rels[i as int].ebook_id@,
                        );
                        let src = rel_witness(
                            ti,
                            old_rels[i as int].wish_list_id@,
                            old_rels[i as int].ebook_id@,
                        );
                        assert(old_rels[src] == ti[src]);
                        assert(same_relation(old_rels[src], old_rels[i as int]));
                    }
                }
                kept.push(RelationRow {
                    wish_list_id: r.wish_list_id.clone(),
                    ebook_id: r.ebook_id.clone(),
                });
                proof {
                    let cur = kept@;
                    assert(cur == kept_before.push(cur.last()));
                    assert(cur.last().wish_list_id@ == old_rels[i as int].wish_list_id@);
                    assert(cur.last().ebook_id@ == old_rels[i as int].ebook_id@);
                    assert(unique_relations(cur)) by {
                        assert forall|a: int, b: int|
                            0 <= a < b < cur.len() implies !same_relation(
                            #[trigger] cur[a],
                            #[trigger] cur[b],
                        ) by {
                            if b == cur.len() - 1 {
                                if same_relation(cur[a], cur[b]) {
                                    rel_intro(kept_before, a);
                                    assert(rel_has(
                                        kept_before,
                                        old_rels[i as int].wish_list_id@,
                                        old_rels[i as int].ebook_id@,
                                    ));
                                }
                            }
                        };
                    };
                    assert forall|w: Seq<char>, e: Seq<char>| #[trigger] rel_has(cur, w, e) implies
                        rel_has(ti1, w, e) && w != snapshot.id@ by {
                        let k = rel_witness(cur, w, e);
                        if k < kept_before.len() {
                            rel_intro(kept_before, k);
                            assert(rel_has(kept_before, w, e));
                            let k2 = rel_witness(ti, w, e);
                            rel_intro(ti1, k2);
                        } else {
                            rel_intro(ti1, i as int);
                        }
                    };
                    assert forall|w: Seq<char>, e: Seq<char>|
                        rel_has(ti1, w, e) && w != snapshot.id@ implies #[trigger] rel_has(
                        cur,
                        w,
                        e,
                    ) by {
                        let k = rel_witness(ti1, w, e);
                        if k < ti.len() {
                            rel_intro(ti, k);
                            let k2 = rel_witness(kept_before, w, e);
                            rel_intro(cur, k2);
                        } else {
                            rel_intro(cur, cur.len() - 1);
                        }
                    };
                }
            } else {
                proof {
                    assert(old_rels[i as int].wish_list_id@ == snapshot.id@);
                    assert forall|w: Seq<char>, e: Seq<char>| #[trigger] rel_has(kept@, w, e)
                        implies rel_has(ti1, w, e) && w != snapshot.id@ by {
                        let k = rel_witness(ti, w, e);
                        rel_intro(ti1, k);
                    };
                    assert forall|w: Seq<char>, e: Seq<char>|
                        rel_has(ti1, w, e) && w != snapshot.id@ implies #[trigger] rel_has(
                        kept@,
                        w,
                        e,
                    ) by {
                        let k = rel_witness(ti1, w, e);
                        if k < ti.len() {
                            rel_intro(ti, k);
                        } else {
                            assert(ti1[k].wish_list_id@ == snapshot.id@);
                        }
                    };
                }
            }
            i = i + 1;
        }
        proof {
            assert(old_rels.take(i as int) =~= old_rels);
        }

        let mut j: usize = 0;
        while j < snapshot.items.len()
            invariant
                self.ebooks@ == old(self).ebooks@,
                self.wish_lists@ == old(self).wish_lists@,
                self.snapshots@ == old(self).snapshots@,
                self.inv(),
                old_rels == old(self).relations@,
                j <= snapshot.items@.len(),
                snapshot.wf(),
                unique_relations(kept@),
                forall|w: Seq<char>, e: Seq<char>|
                    w != snapshot.id@ ==> (#[trigger] rel_has(kept@, w, e) <==> rel_has(
                        old_rels,
                        w,
                        e,
                    )),
                forall|e: Seq<char>|
                    #[trigger] rel_has(kept@, snapshot.id@, e) <==> has_item_id(
                        snapshot.items@.take(j as int),
                        e,
                    ),
            decreases snapshot.items@.len() - j,
        {
            let ghost kept_before = kept@;
            let ghost tj = snapshot.items@.take(j as int);
            let ghost tj1 = snapshot.items@.take(j + 1);
            proof {
                assert(tj1.drop_last() =~= tj);
                assert(tj1[j as int] == snapshot.items@[j as int]);
                // this item's id is fresh among the inserted relations: the
                // sorted item list puts strictly smaller ids before it
                if has_item_id(tj, snapshot.items@[j as int].id@) {
                    let w = item_witness(tj, snapshot.items@[j as int].id@);
                    assert(lex_lt(snapshot.items@[w].id@, snapshot.items@[j as int].id@));
                    lemma_lex_lt_irrefl(snapshot.items@[j as int].id@);
                }
            }
            kept.push(
                RelationRow {
                    wish_list_id: snapshot.id.clone(),
                    ebook_id: snapshot.items[j].id.clone(),
                },
            );
            proof {
                let cur = kept@;
                assert(cur == kept_before.push(cur.last()));
                assert(cur.last().wish_list_id@ == snapshot.id@);
                assert(cur.last().ebook_id@ == snapshot.items@[j as int].id@);
                assert(unique_relations(cur)) by {
                    assert forall|a: int, b: int|
                        0 <= a < b < cur.len() implies !same_relation(
                        #[trigger] cur[a],
                        #[trigger] cur[b],
                    ) by {
                        if b == cur.len() - 1 {
                            if same_relation(cur[a], cur[b]) {
                                rel_intro(kept_before, a);
                                assert(rel_has(
                                    kept_before,
                                    snapshot.id@,
                                    snapshot.items@[j as int].id@,
                                ));
                                assert(has_item_id(tj, snapshot.items@[j as int].id@));
                            }
                        }
                    };
                };
                assert forall|e: Seq<char>| #[trigger] rel_has(cur, snapshot.id@, e) implies
                    has_item_id(tj1, e) by {
                    let k = rel_witness(cur, snapshot.id@, e);
                    if k < kept_before.len() {
                        rel_intro(kept_before, k);
                        let w = item_witness(tj, e);
                        item_intro(tj1, w);
                    } else {
                        item_intro(tj1, j as int);
                    }
                };
                assert forall|e: Seq<char>| has_item_id(tj1, e) implies #[trigger] rel_has(
                    cur,
                    snapshot.id@,
                    e,
                ) by {
                    let w = item_witness(tj1, e);
                    if w < tj.len() {
                        item_intro(tj, w);
                        let k = rel_witness(kept_before, snapshot.id@, e);
                        rel_intro(cur, k);
                    } else {
                        rel_intro(cur, cur.len() - 1);
                    }
                };
                assert forall|w: Seq<char>, e: Seq<char>| w != snapshot.id@ implies (
                #[trigger] rel_has(cur, w, e) <==> rel_has(old_rels, w, e)) by {
                    if rel_has(cur, w, e) {
                        let k = rel_witness(cur, w, e);
                        rel_intro(kept_before, k);
                    }
                    if rel_has(old_rels, w, e) {
                        let k = rel_witness(kept_before, w, e);
                        rel_intro(cur, k);
                    }
                };
            }
            j = j + 1;
        }
        proof {
            assert(snapshot.items@.take(j as int) =~= snapshot.items@);
        }
        self.relations = kept;
    }

    /// Appends one snapshot row to the time series; never updates a row. The
    /// product must exist and the `(ebook_id, scraped_at)` key must be fresh,
    /// else the store is left untouched.
    pub fn insert_snapshot(&mut self, row: SnapshotRow) -> (r: Result<(), StoreError>)
        requires
            old(self).inv(),
        ensures
            final(self).inv(),
            r == spec_insert_snapshot(*old(self), row),
            r is Ok ==> final(self).snapshots@ == old(self).snapshots@.push(row),
            r is Err ==> final(self).snapshots@ == old(self).snapshots@,
            final(self).ebooks@ == old(self).ebooks@,
            final(self).wish_lists@ == old(self).wish_lists@,
            final(self).relations@ == old(self).relations@,
    {
        match self.find_ebook(&row.ebook_id) {
            None => {
                return Err(StoreError::MissingEbook);
            },
            Some(k) => {
                proof {
                    ebook_intro(self.ebooks@, k as int);
                }
            },
        }
        let mut i: usize = 0;
        while i < self.snapshots.len()
            invariant
                *self == *old(self),
                old(self).inv(),
                has_ebook(self.ebooks@, row.ebook_id@),
                i <= self.snapshots@.len(),
                forall|k: int|
                    0 <= k < i ==> !((#[trigger] self.snapshots@[k]).ebook_id@ == row.ebook_id@
                        && self.snapshots@[k].scraped_at == row.scraped_at),
            decreases self.snapshots@.len() - i,
        {
            if self.snapshots[i].ebook_id.eq(&row.ebook_id) && self.snapshots[i].scraped_at
                == row.scraped_at {
                proof {
                    assert((#[trigger] self.snapshots@[i as int]).ebook_id@ == row.ebook_id@);
                    assert(has_snapshot_key(self.snapshots@, row.ebook_id@, row.scraped_at));
                }
                return Err(StoreError::Conflict);
            }
            i = i + 1;
        }
        assert(!has_snapshot_key(self.snapshots@, row.ebook_id@, row.scraped_at));
        let ghost before = self.snapshots@;
        self.snapshots.push(row);
        proof {
            assert(unique_snapshot_keys(self.snapshots@)) by {
                assert forall|a: int, b: int|
                    0 <= a < b < self.snapshots@.len() implies !((#[trigger] self.snapshots@[a]).ebook_id@
                    == (#[trigger] self.snapshots@[b]).ebook_id@ && self.snapshots@[a].scraped_at
                    == self.snapshots@[b].scraped_at) by {
                    if b == self.snapshots@.len() - 1 {
                        if self.snapshots@[a].ebook_id@ == self.snapshots@[b].ebook_id@
                            && self.snapshots@[a].scraped_at == self.snapshots@[b].scraped_at {
                            assert((#[trigger] before[a]).ebook_id@ == row.ebook_id@
                                && before[a].scraped_at == row.scraped_at);
                            assert(has_snapshot_key(before, row.ebook_id@, row.scraped_at));
                        }
                    } else {
                        assert(before[a] == self.snapshots@[a]);
                        assert(before[b] == self.snapshots@[b]);
                    }
                };
            };
        }
        Ok(())
    }

    /// All tracked wishlists, as stored.
    pub fn select_all_wish_list(&self) -> (r: Vec<WishListRow>)
        ensures
            r@ =~= self.wish_lists@,
    {
        let mut out: Vec<WishListRow> = Vec::new();
        let mut i: usize = 0;
        while i < self.wish_lists.len()
            invariant
                i <= self.wish_lists@.len(),
                out@ =~= self.wish_lists@.take(i as int),
            decreases self.wish_lists@.len() - i,
        {
            let w = &self.wish_lists[i];
            out.push(
                WishListRow {
                    id: w.id.clone(),
                    url: w.url.clone(),
                    scraped_at: w.scraped_at,
                    title: w.title.clone(),
                },
            );
            proof {
                assert(out@.last() == self.wish_lists@[i as int]);
                assert(out@ =~= self.wish_lists@.take(i + 1));
            }
            i = i + 1;
        }
        proof {
            assert(self.wish_lists@.take(i as int) =~= self.wish_lists@);
        }
        out
    }

    /// All tracked products, as stored.
    pub fn select_all(&self) -> (r: Vec<EbookRow>)
        ensures
            r@ =~= self.ebooks@,
    {
        let mut out: Vec<EbookRow> = Vec::new();
        let mut i: usize = 0;
        while i < self.ebooks.len()
            invariant
                i <= self.ebooks@.len(),
                out@ =~= self.ebooks@.take(i as int),
            decreases self.ebooks@.len() - i,
        {
            let e = &self.ebooks[i];
            out.push(
                EbookRow {
                    id: e.id.clone(),
                    url: e.url.clone(),
                    title: e.title.clone(),
                    price: e.price.clone(),
                },
            );
            proof {
                assert(out@.last() == self.ebooks@[i as int]);
                assert(out@ =~= self.ebooks@.take(i + 1));
            }
            i = i + 1;
        }
        proof {
            assert(self.ebooks@.take(i as int) =~= self.ebooks@);
        }
        out
    }
}

/// Two upserts of the same wishlist in a row leave its membership at exactly
/// the later snapshot's items: nothing of the first scrape survives the
/// second unless the second lists it too.
pub proof fn lemma_relation_replace(
    s0: Store,
    s1: Store,
    s2: Store,
    a: WishListSnapshot,
    b: WishListSnapshot,
)
    requires
        upsert_wish_list_post(s0, s1, a),
        upsert_wish_list_post(s1, s2, b),
        a.id@ == b.id@,
    ensures
        forall|e: Seq<char>|
            #[trigger] rel_has(s2.relations@, b.id@, e) <==> has_item_id(b.items@, e),
        forall|e: Seq<char>|
            has_item_id(a.items@, e) && !has_item_id(b.items@, e) ==> !rel_has(
                s2.relations@,
                b.id@,
                e,
            ),
{
}

} // verus!
