//! Per-unit pipeline steps and whole-batch drivers.
//!
//! A unit is one wishlist or one product. The shell scrapes; what it scraped
//! arrives here as a plain outcome value — a snapshot, or nothing where the
//! scrape failed — and everything from analytics to persistence is verified.
//! A failed unit never aborts the batch and never touches the store.

use vstd::prelude::*;
use crate::analytics::{AnalysisError, PriceAnalysis, spec_analyze};
use crate::models::{EbookSnapshot, WishListSnapshot};
use crate::notify::{alert_text, spec_alert_text};
use crate::query::JoinedWishList;
use crate::store::{
    Store, StoreError, has_ebook, has_item_id, has_snapshot_key, has_wish_list, rel_has,
    upsert_wish_list_post, wish_list_row_matches, SnapshotRow,
};

verus! {

/// Why one unit failed: its snapshot had no usable analytics, or the store
/// refused the write.
#[derive(Debug, Clone, Copy, PartialEq, Eq)]
pub enum UnitError {
    Analysis(AnalysisError),
    Store(StoreError),
}

/// The row a snapshot and its analysis persist as.
pub open spec fn snapshot_row_matches(
    row: SnapshotRow,
    snapshot: EbookSnapshot,
    a: PriceAnalysis,
) -> bool {
    &&& row.ebook_id@ == snapshot.ebook_id@
    &&& row.scraped_at == snapshot.scraped_at
    &&& row.thumbnail_url@ == snapshot.thumbnail_url@
    &&& row.price == a.price
    &&& row.points == a.points
    &&& row.points_rate == a.points_rate
    &&& row.discount == a.discount
    &&& row.discount_rate == a.discount_rate
}

/// Persists one analysed snapshot: append-only, keyed by product and scrape
/// time. The caller must have run the analysis; on any refusal the store is
/// left exactly as it was.
pub fn insert_product_snapshot(
    store: &mut Store,
    snapshot: &EbookSnapshot,
    analysis: &PriceAnalysis,
) -> (r: Result<(), StoreError>)
    requires
        old(store).inv(),
    ensures
        final(store).inv(),
        r is Ok <==> has_ebook(old(store).ebooks@, snapshot.ebook_id@) && !has_snapshot_key(
            old(store).snapshots@,
            snapshot.ebook_id@,
            snapshot.scraped_at,
        ),
        r is Ok ==> final(store).snapshots@.len() == old(store).snapshots@.len() + 1
            && final(store).snapshots@.drop_last() == old(store).snapshots@
            && snapshot_row_matches(final(store).snapshots@.last(), *snapshot, *analysis),
        r is Err ==> final(store).snapshots@ == old(store).snapshots@,
        r matches Err(e) ==> e == (if !has_ebook(old(store).ebooks@, snapshot.ebook_id@) {
            StoreError::MissingEbook
        } else {
            StoreError::Conflict
        }),
        final(store).ebooks@ == old(store).ebooks@,
        final(store).wish_lists@ == old(store).wish_lists@,
        final(store).relations@ == old(store).relations@,
{
    let row = SnapshotRow {
        ebook_id: snapshot.ebook_id.clone(),
        scraped_at: snapshot.scraped_at,
        thumbnail_url: snapshot.thumbnail_url.clone(),
        price: analysis.price,
        points: analysis.points,
        points_rate: analysis.points_rate,
        discount: analysis.discount,
        discount_rate: analysis.discount_rate,
    };
    let ghost row_g = row;
    let r = store.insert_snapshot(row);
    proof {
        if r is Ok {
            assert(store.snapshots@ == old(store).snapshots@.push(row_g));
            assert(store.snapshots@.drop_last() =~= old(store).snapshots@);
        }
    }
    r
}

/// Analyses one product snapshot and persists it. A snapshot without a
/// usable analysis — no primary payment, malformed number, zero price — is
/// rejected before anything reaches the store, so it is never persisted.
pub fn snap_ebook(store: &mut Store, snapshot: &EbookSnapshot) -> (r: Result<
    PriceAnalysis,
    UnitError,
>)
    requires
        old(store).inv(),
    ensures
        final(store).inv(),
        spec_analyze(*snapshot) matches Err(e) ==> r == Err::<PriceAnalysis, UnitError>(
            UnitError::Analysis(e),
        ) && final(store).snapshots@ == old(store).snapshots@,
        spec_analyze(*snapshot) matches Ok(a) ==> {
            let can_insert = has_ebook(old(store).ebooks@, snapshot.ebook_id@)
                && !has_snapshot_key(
                old(store).snapshots@,
                snapshot.ebook_id@,
                snapshot.scraped_at,
            );
            &&& (r is Ok <==> can_insert)
            &&& (r is Ok ==> {
                &&& r == Ok::<PriceAnalysis, UnitError>(a)
                &&& final(store).snapshots@.len() == old(store).snapshots@.len() + 1
                &&& final(store).snapshots@.drop_last() == old(store).snapshots@
                &&& snapshot_row_matches(final(store).snapshots@.last(), *snapshot, a)
            })
            &&& (r is Err ==> final(store).snapshots@ == old(store).snapshots@)
        },
        final(store).ebooks@ == old(store).ebooks@,
        final(store).wish_lists@ == old(store).wish_lists@,
        final(store).relations@ == old(store).relations@,
{
    let analysis = match snapshot.analyze() {
        Err(e) => {
            return Err(UnitError::Analysis(e));
        },
        Ok(a) => a,
    };
    match insert_product_snapshot(store, snapshot, &analysis) {
        Err(e) => Err(UnitError::Store(e)),
        Ok(()) => Ok(analysis),
    }
}

/// Upserts one scraped wishlist; the whole effect is the store's
/// upsert-with-diff contract.
pub fn update_wish_list(store: &mut Store, snapshot: &WishListSnapshot)
    requires
        old(store).inv(),
        snapshot.wf(),
    ensures
        final(store).inv(),
        upsert_wish_list_post(*old(store), *final(store), *snapshot),
{
    store.upsert_wish_list(snapshot);
}

/// What one wishlist scrape produced: the unit's id, and its snapshot where
/// the scrape succeeded.
pub struct WishListOutcome {
    pub id: String,
    pub snapshot: Option<WishListSnapshot>,
}

/// The indices of the failed outcomes, in order.
pub open spec fn failed_outcome_idxs(os: Seq<WishListOutcome>) -> Seq<int>
    decreases os.len(),
{
    if os.len() == 0 {
        Seq::empty()
    } else {
        failed_outcome_idxs(os.drop_last()) + (if os.last().snapshot is None {
            Seq::empty().push(os.len() - 1)
        } else {
            Seq::empty()
        })
    }
}

pub proof fn lemma_failed_outcome_idxs_range(os: Seq<WishListOutcome>)
    ensures
        failed_outcome_idxs(os).len() <= os.len(),
        forall|k: int|
            0 <= k < failed_outcome_idxs(os).len() ==> 0 <= #[trigger] failed_outcome_idxs(os)[k]
                < os.len(),
    decreases os.len(),
{
    if os.len() > 0 {
        let d = os.drop_last();
        lemma_failed_outcome_idxs_range(d);
        assert forall|k: int|
            0 <= k < failed_outcome_idxs(os).len() implies 0 <= #[trigger] failed_outcome_idxs(
            os,
        )[k] < os.len() by {
            if k < failed_outcome_idxs(d).len() {
                assert(failed_outcome_idxs(os)[k] == failed_outcome_idxs(d)[k]);
            } else {
                assert(failed_outcome_idxs(os)[k] == os.len() - 1);
            }
        };
    }
}

/// A later scrape of the same wishlist stands after `j` in the batch, so
/// `j`'s snapshot is not the one the batch leaves behind.
pub open spec fn superseded(os: Seq<WishListOutcome>, j: int) -> bool {
    exists|j2: int|
        j < j2 < os.len() && (#[trigger] os[j2]).snapshot is Some && os[j2].snapshot->0.id@
            == os[j].snapshot->0.id@
}

/// The store shows exactly this snapshot for its wishlist: a row carries its
/// fields — with unique wishlist ids, the row — and its membership relation
/// is exactly the snapshot's items.
pub open spec fn wish_list_state_matches(store: Store, s: WishListSnapshot) -> bool {
    &&& has_wish_list(store.wish_lists@, s.id@)
    &&& exists|k: int|
        0 <= k < store.wish_lists@.len() && wish_list_row_matches(
            #[trigger] store.wish_lists@[k],
            s,
        )
    &&& forall|e: Seq<char>|
        #[trigger] rel_has(store.relations@, s.id@, e) <==> has_item_id(s.items@, e)
}

proof fn wl_witness(rows: Seq<crate::store::WishListRow>, id: Seq<char>) -> (k: int)
    requires
        has_wish_list(rows, id),
    ensures
        0 <= k < rows.len(),
        rows[k].id@ == id,
{
    choose|k: int| 0 <= k < rows.len() && (#[trigger] rows[k]).id@ == id
}

proof fn wl_intro(rows: Seq<crate::store::WishListRow>, k: int)
    requires
        0 <= k < rows.len(),
    ensures
        has_wish_list(rows, rows[k].id@),
{
    assert((#[trigger] rows[k]).id@ == rows[k].id@);
}

/// Applies a whole batch of wishlist scrape outcomes to the store. Every
/// scraped snapshot is upserted — so the store afterwards shows each
/// wishlist exactly as its last successful scrape in the batch, membership
/// included — and every failed scrape yields one operational alert text
/// naming its unit and touches nothing. The batch never aborts: the counts
/// always add up to the number of units.
pub fn update_all_wish_list(store: &mut Store, outcomes: &Vec<WishListOutcome>) -> (r: (
    usize,
    usize,
    Vec<String>,
))
    requires
        old(store).inv(),
        forall|j: int|
            0 <= j < outcomes@.len() ==> ((#[trigger] outcomes@[j]).snapshot matches Some(s)
                ==> s.wf()),
    ensures
        final(store).inv(),
        final(store).snapshots@ == old(store).snapshots@,
        // item identity is stable: a batch only ever adds product rows
        final(store).ebooks@.len() >= old(store).ebooks@.len(),
        forall|k: int|
            0 <= k < old(store).ebooks@.len() ==> final(store).ebooks@[k] == old(
                store,
            ).ebooks@[k],
        // the store ends at each wishlist's last successful scrape
        forall|j: int|
            0 <= j < outcomes@.len() && (#[trigger] outcomes@[j]).snapshot is Some && !superseded(
                outcomes@,
                j,
            ) ==> wish_list_state_matches(*final(store), outcomes@[j].snapshot->0),
        r.0 + r.1 == outcomes@.len(),
        r.1 == failed_outcome_idxs(outcomes@).len(),
        r.2@.len() == r.1,
        forall|k: int|
            0 <= k < r.2@.len() ==> (#[trigger] r.2@[k])@ == spec_alert_text(
                outcomes@[failed_outcome_idxs(outcomes@)[k]].id@,
            ),
{
    let mut done: usize = 0;
    let mut failed: usize = 0;
    let mut alerts: Vec<String> = Vec::new();
    let mut j: usize = 0;
    let ghost os = outcomes@;
    proof {
        assert(os.take(0) =~= Seq::<WishListOutcome>::empty());
    }
    while j < outcomes.len()
        invariant
            j <= os.len(),
            os == outcomes@,
            forall|j2: int|
                0 <= j2 < os.len() ==> ((#[trigger] os[j2]).snapshot matches Some(s) ==> s.wf()),
            store.inv(),
            store.snapshots@ == old(store).snapshots@,
            store.ebooks@.len() >= old(store).ebooks@.len(),
            forall|k: int|
                0 <= k < old(store).ebooks@.len() ==> store.ebooks@[k] == old(store).ebooks@[k],
            done + failed == j,
            failed == failed_outcome_idxs(os.take(j as int)).len(),
            alerts@.len() == failed,
            forall|k: int|
                0 <= k < alerts@.len() ==> (#[trigger] alerts@[k])@ == spec_alert_text(
                    os[failed_outcome_idxs(os.take(j as int))[k]].id@,
                ),
            forall|j2: int|
                0 <= j2 < j && (#[trigger] os[j2]).snapshot is Some && !superseded(
                    os.take(j as int),
                    j2,
                ) ==> wish_list_state_matches(*store, os[j2].snapshot->0),
        decreases os.len() - j,
    {
        let ghost tj = os.take(j as int);
        let ghost tj1 = os.take(j + 1);
        proof {
            assert(tj1.drop_last() =~= tj);
            assert(tj1.last() == os[j as int]);
            lemma_failed_outcome_idxs_range(tj);
        }
        let outcome = &outcomes[j];
        match &outcome.snapshot {
            Some(s) => {
                let ghost before = *store;
                store.upsert_wish_list(s);
                done = done + 1;
                proof {
                    assert(failed_outcome_idxs(tj1) =~= failed_outcome_idxs(tj));
                    // the upserted unit's own state
                    assert(wish_list_state_matches(*store, *s)) by {
                        if has_wish_list(before.wish_lists@, s.id@) {
                            let k = wl_witness(before.wish_lists@, s.id@);
                            assert(wish_list_row_matches(store.wish_lists@[k], *s));
                            wl_intro(store.wish_lists@, k);
                        } else {
                            let k = before.wish_lists@.len() as int;
                            assert(wish_list_row_matches(store.wish_lists@[k], *s));
                            wl_intro(store.wish_lists@, k);
                        }
                    };
                    assert forall|j2: int|
                        0 <= j2 < j + 1 && (#[trigger] os[j2]).snapshot is Some && !superseded(
                            tj1,
                            j2,
                        ) implies wish_list_state_matches(*store, os[j2].snapshot->0) by {
                        if j2 < j {
                            let s2 = os[j2].snapshot->0;
                            // a supersession in the shorter prefix carries over
                            assert(!superseded(tj, j2)) by {
                                if superseded(tj, j2) {
                                    let w = choose|w: int|
                                        j2 < w < tj.len() && (#[trigger] tj[w]).snapshot is Some
                                            && tj[w].snapshot->0.id@ == tj[j2].snapshot->0.id@;
                                    assert((#[trigger] tj1[w]).snapshot is Some
                                        && tj1[w].snapshot->0.id@ == tj1[j2].snapshot->0.id@);
                                }
                            };
                            assert(wish_list_state_matches(before, s2));
                            // a shared id would make this very unit supersede j2
                            assert(s2.id@ != s.id@) by {
                                if s2.id@ == s.id@ {
                                    assert((#[trigger] tj1[j as int]).snapshot is Some
                                        && tj1[j as int].snapshot->0.id@
                                        == tj1[j2].snapshot->0.id@);
                                }
                            };
                            // rows and membership of other wishlists are untouched
                            let km = choose|km: int|
                                0 <= km < before.wish_lists@.len() && wish_list_row_matches(
                                    #[trigger] before.wish_lists@[km],
                                    s2,
                                );
                            assert(store.wish_lists@[km] == before.wish_lists@[km]);
                            assert(wish_list_row_matches(store.wish_lists@[km], s2));
                            wl_intro(store.wish_lists@, km);
                            assert forall|e: Seq<char>|
                                #[trigger] rel_has(store.relations@, s2.id@, e) <==> has_item_id(
                                    s2.items@,
                                    e,
                                ) by {
                                assert(rel_has(store.relations@, s2.id@, e) <==> rel_has(
                                    before.relations@,
                                    s2.id@,
                                    e,
                                ));
                            };
                        }
                    };
                }
            },
            None => {
                let ghost prev = alerts@;
                alerts.push(alert_text(outcome.id.as_str()));
                failed = failed + 1;
                proof {
                    assert(failed_outcome_idxs(tj1) =~= failed_outcome_idxs(tj).push(j as int));
                    assert(alerts@ == prev.push(alerts@.last()));
                    assert forall|j2: int|
                        0 <= j2 < j + 1 && (#[trigger] os[j2]).snapshot is Some && !superseded(
                            tj1,
                            j2,
                        ) implies wish_list_state_matches(*store, os[j2].snapshot->0) by {
                        assert(j2 < j);
                        assert(!superseded(tj, j2)) by {
                            if superseded(tj, j2) {
                                let w = choose|w: int|
                                    j2 < w < tj.len() && (#[trigger] tj[w]).snapshot is Some
                                        && tj[w].snapshot->0.id@ == tj[j2].snapshot->0.id@;
                                assert((#[trigger] tj1[w]).snapshot is Some
                                    && tj1[w].snapshot->0.id@ == tj1[j2].snapshot->0.id@);
                            }
                        };
                    };
                    assert forall|k: int|
                        0 <= k < alerts@.len() implies (#[trigger] alerts@[k])@ == spec_alert_text(
                        os[failed_outcome_idxs(tj1)[k]].id@,
                    ) by {
                        if k < prev.len() {
                            assert(failed_outcome_idxs(tj1)[k] == failed_outcome_idxs(tj)[k]);
                            assert(alerts@[k] == prev[k]);
                        } else {
                            assert(failed_outcome_idxs(tj1)[k] == j as int);
                        }
                    };
                }
            },
        }
        j = j + 1;
    }
    proof {
        assert(os.take(j as int) =~= os);
    }
    (done, failed, alerts)
}

/// What one product scrape produced.
pub struct EbookOutcome {
    pub id: String,
    pub snapshot: Option<EbookSnapshot>,
}

/// Among the successful units before this point of the batch, some snapshot
/// already claimed this series key.
pub open spec fn pending_key(store0: Store, os: Seq<EbookOutcome>, eb: Seq<char>, at: i64) -> bool
    decreases os.len(), 0int,
{
    if os.len() == 0 {
        false
    } else {
        pending_key(store0, os.drop_last(), eb, at) || (spec_snap_ok(
            store0,
            os.drop_last(),
            os.last(),
        ) && os.last().snapshot->0.ebook_id@ == eb && os.last().snapshot->0.scraped_at == at)
    }
}

/// One product unit of the batch succeeds: it scraped, its analysis holds,
/// the product is known, and its series key is fresh — fresh against the
/// store as the earlier units of the batch leave it.
pub open spec fn spec_snap_ok(store0: Store, earlier: Seq<EbookOutcome>, o: EbookOutcome) -> bool
    decreases earlier.len(), 1int,
{
    match o.snapshot {
        None => false,
        Some(s) => {
            &&& spec_analyze(s) is Ok
            &&& has_ebook(store0.ebooks@, s.ebook_id@)
            &&& !has_snapshot_key(store0.snapshots@, s.ebook_id@, s.scraped_at)
            &&& !pending_key(store0, earlier, s.ebook_id@, s.scraped_at)
        },
    }
}

/// The indices of the product-batch units that succeed, in order.
pub open spec fn snap_done_idxs(store0: Store, os: Seq<EbookOutcome>) -> Seq<int>
    decreases os.len(),
{
    if os.len() == 0 {
        Seq::empty()
    } else {
        snap_done_idxs(store0, os.drop_last()) + (if spec_snap_ok(
            store0,
            os.drop_last(),
            os.last(),
        ) {
            Seq::empty().push(os.len() - 1)
        } else {
            Seq::empty()
        })
    }
}

/// The indices of the product-batch units that fail, in order.
pub open spec fn snap_failed_idxs(store0: Store, os: Seq<EbookOutcome>) -> Seq<int>
    decreases os.len(),
{
    if os.len() == 0 {
        Seq::empty()
    } else {
        snap_failed_idxs(store0, os.drop_last()) + (if spec_snap_ok(
            store0,
            os.drop_last(),
            os.last(),
        ) {
            Seq::empty()
        } else {
            Seq::empty().push(os.len() - 1)
        })
    }
}

pub proof fn lemma_snap_idxs_range(store0: Store, os: Seq<EbookOutcome>)
    ensures
        snap_done_idxs(store0, os).len() + snap_failed_idxs(store0, os).len() == os.len(),
        forall|k: int|
            0 <= k < snap_done_idxs(store0, os).len() ==> 0 <= #[trigger] snap_done_idxs(
                store0,
                os,
            )[k] < os.len(),
        forall|k: int|
            0 <= k < snap_failed_idxs(store0, os).len() ==> 0 <= #[trigger] snap_failed_idxs(
                store0,
                os,
            )[k] < os.len(),
    decreases os.len(),
{
    if os.len() > 0 {
        let d = os.drop_last();
        lemma_snap_idxs_range(store0, d);
        assert forall|k: int|
            0 <= k < snap_done_idxs(store0, os).len() implies 0 <= #[trigger] snap_done_idxs(
            store0,
            os,
        )[k] < os.len() by {
            if k < snap_done_idxs(store0, d).len() {
                assert(snap_done_idxs(store0, os)[k] == snap_done_idxs(store0, d)[k]);
            } else {
                assert(snap_done_idxs(store0, os)[k] == os.len() - 1);
            }
        };
        assert forall|k: int|
            0 <= k < snap_failed_idxs(store0, os).len() implies 0 <= #[trigger] snap_failed_idxs(
            store0,
            os,
        )[k] < os.len() by {
            if k < snap_failed_idxs(store0, d).len() {
                assert(snap_failed_idxs(store0, os)[k] == snap_failed_idxs(store0, d)[k]);
            } else {
                assert(snap_failed_idxs(store0, os)[k] == os.len() - 1);
            }
        };
    }
}

proof fn snapkey_witness(rows: Seq<SnapshotRow>, eb: Seq<char>, at: i64) -> (k: int)
    requires
        has_snapshot_key(rows, eb, at),
    ensures
        0 <= k < rows.len(),
        rows[k].ebook_id@ == eb,
        rows[k].scraped_at == at,
{
    choose|k: int|
        0 <= k < rows.len() && (#[trigger] rows[k]).ebook_id@ == eb && rows[k].scraped_at == at
}

proof fn snapkey_intro(rows: Seq<SnapshotRow>, k: int)
    requires
        0 <= k < rows.len(),
    ensures
        has_snapshot_key(rows, rows[k].ebook_id@, rows[k].scraped_at),
{
    assert((#[trigger] rows[k]).ebook_id@ == rows[k].ebook_id@);
}

/// Applies a whole batch of product scrape outcomes to the store: each
/// scraped snapshot is analysed and appended, so the series grows by exactly
/// one row per successful unit, in batch order. A unit fails — and only
/// fails — where its scrape produced nothing, its analysis is refused, its
/// product is unknown, or its series key is already taken; each failure
/// yields one operational alert text naming its unit and changes nothing.
pub fn snap_all_ebook(store: &mut Store, outcomes: &Vec<EbookOutcome>) -> (r: (
    usize,
    usize,
    Vec<String>,
))
    requires
        old(store).inv(),
    ensures
        final(store).inv(),
        final(store).ebooks@ == old(store).ebooks@,
        final(store).wish_lists@ == old(store).wish_lists@,
        final(store).relations@ == old(store).relations@,
        r.0 == snap_done_idxs(*old(store), outcomes@).len(),
        r.1 == snap_failed_idxs(*old(store), outcomes@).len(),
        r.0 + r.1 == outcomes@.len(),
        r.2@.len() == r.1,
        forall|k: int|
            0 <= k < r.2@.len() ==> (#[trigger] r.2@[k])@ == spec_alert_text(
                outcomes@[snap_failed_idxs(*old(store), outcomes@)[k]].id@,
            ),
        final(store).snapshots@.len() == old(store).snapshots@.len() + r.0,
        forall|k: int|
            0 <= k < old(store).snapshots@.len() ==> final(store).snapshots@[k] == old(
                store,
            ).snapshots@[k],
        forall|k: int|
            0 <= k < r.0 ==> snapshot_row_matches(
                final(store).snapshots@[old(store).snapshots@.len() + k],
                outcomes@[#[trigger] snap_done_idxs(*old(store), outcomes@)[k]].snapshot->0,
                spec_analyze(
                    outcomes@[snap_done_idxs(*old(store), outcomes@)[k]].snapshot->0,
                )->Ok_0,
            ),
{
    let ghost store0 = *old(store);
    let ghost os = outcomes@;
    let mut done: usize = 0;
    let mut failed: usize = 0;
    let mut alerts: Vec<String> = Vec::new();
    let mut j: usize = 0;
    proof {
        assert(os.take(0) =~= Seq::<EbookOutcome>::empty());
    }
    while j < outcomes.len()
        invariant
            j <= os.len(),
            os == outcomes@,
            store0 == *old(store),
            store.inv(),
            store.ebooks@ == store0.ebooks@,
            store.wish_lists@ == store0.wish_lists@,
            store.relations@ == store0.relations@,
            done == snap_done_idxs(store0, os.take(j as int)).len(),
            failed == snap_failed_idxs(store0, os.take(j as int)).len(),
            done + failed == j,
            alerts@.len() == failed,
            forall|k: int|
                0 <= k < alerts@.len() ==> (#[trigger] alerts@[k])@ == spec_alert_text(
                    os[snap_failed_idxs(store0, os.take(j as int))[k]].id@,
                ),
            store.snapshots@.len() == store0.snapshots@.len() + done,
            forall|k: int|
                0 <= k < store0.snapshots@.len() ==> store.snapshots@[k] == store0.snapshots@[k],
            forall|k: int|
                0 <= k < done ==> snapshot_row_matches(
                    store.snapshots@[store0.snapshots@.len() + k],
                    os[#[trigger] snap_done_idxs(store0, os.take(j as int))[k]].snapshot->0,
                    spec_analyze(
                        os[snap_done_idxs(store0, os.take(j as int))[k]].snapshot->0,
                    )->Ok_0,
                ),
            forall|eb: Seq<char>, at: i64|
                #[trigger] has_snapshot_key(store.snapshots@, eb, at) <==> has_snapshot_key(
                    store0.snapshots@,
                    eb,
                    at,
                ) || pending_key(store0, os.take(j as int), eb, at),
        decreases os.len() - j,
    {
        let ghost tj = os.take(j as int);
        let ghost tj1 = os.take(j + 1);
        let ghost unit_ok = spec_snap_ok(store0, tj, os[j as int]);
        proof {
            assert(tj1.drop_last() =~= tj);
            assert(tj1.last() == os[j as int]);
            lemma_snap_idxs_range(store0, tj);
            assert(snap_done_idxs(store0, tj1) =~= if unit_ok {
                snap_done_idxs(store0, tj).push(j as int)
            } else {
                snap_done_idxs(store0, tj)
            });
            assert(snap_failed_idxs(store0, tj1) =~= if unit_ok {
                snap_failed_idxs(store0, tj)
            } else {
                snap_failed_idxs(store0, tj).push(j as int)
            });
        }
        let outcome = &outcomes[j];
        let ghost snaps_before = store.snapshots@;
        let mut ok = false;
        match &outcome.snapshot {
            Some(s) => {
                let r = snap_ebook(store, s);
                proof {
                    // the exec outcome coincides with the batch-level spec:
                    // the store's current keys are the initial keys plus the
                    // earlier units' pending keys
                    if spec_analyze(*s) is Ok {
                        assert(r is Ok <==> unit_ok);
                    } else {
                        assert(r is Err && !unit_ok);
                    }
                    if r is Ok {
                        let cur = store.snapshots@;
                        assert(cur.drop_last() == snaps_before);
                        assert forall|k: int| 0 <= k < snaps_before.len() implies cur[k]
                            == snaps_before[k] by {
                            assert(cur.drop_last()[k] == cur[k]);
                        };
                        assert(snapshot_row_matches(cur.last(), *s, spec_analyze(*s)->Ok_0));
                        // key sets: one key joins, the rest carry over
                        assert forall|eb: Seq<char>, at: i64|
                            #[trigger] has_snapshot_key(cur, eb, at) <==> has_snapshot_key(
                                store0.snapshots@,
                                eb,
                                at,
                            ) || pending_key(store0, tj1, eb, at) by {
                            if has_snapshot_key(cur, eb, at) {
                                let k = snapkey_witness(cur, eb, at);
                                if k < snaps_before.len() {
                                    snapkey_intro(snaps_before, k);
                                } else {
                                    assert(eb == s.ebook_id@ && at == s.scraped_at);
                                }
                            }
                            if has_snapshot_key(store0.snapshots@, eb, at) || pending_key(
                                store0,
                                tj,
                                eb,
                                at,
                            ) {
                                let k = snapkey_witness(snaps_before, eb, at);
                                snapkey_intro(cur, k);
                            }
                            if pending_key(store0, tj1, eb, at) && !pending_key(store0, tj, eb, at) {
                                assert(eb == s.ebook_id@ && at == s.scraped_at);
                                snapkey_intro(cur, cur.len() - 1);
                            }
                        };
                    } else {
                        assert(store.snapshots@ == snaps_before);
                        assert forall|eb: Seq<char>, at: i64|
                            #[trigger] has_snapshot_key(store.snapshots@, eb, at)
                                <==> has_snapshot_key(store0.snapshots@, eb, at) || pending_key(
                                store0,
                                tj1,
                                eb,
                                at,
                            ) by {};
                    }
                }
                ok = r.is_ok();
            },
            None => {
                proof {
                    assert(!unit_ok);
                    assert forall|eb: Seq<char>, at: i64|
                        #[trigger] has_snapshot_key(store.snapshots@, eb, at) <==> has_snapshot_key(
                            store0.snapshots@,
                            eb,
                            at,
                        ) || pending_key(store0, tj1, eb, at) by {};
                }
            },
        }
        if ok {
            done = done + 1;
            proof {
                let didx1 = snap_done_idxs(store0, tj1);
                assert(didx1[didx1.len() - 1] == j as int);
                assert forall|k: int|
                    0 <= k < done implies snapshot_row_matches(
                    store.snapshots@[store0.snapshots@.len() + k],
                    os[#[trigger] didx1[k]].snapshot->0,
                    spec_analyze(os[didx1[k]].snapshot->0)->Ok_0,
                ) by {
                    if k < done - 1 {
                        assert(didx1[k] == snap_done_idxs(store0, tj)[k]);
                        assert(store.snapshots@[store0.snapshots@.len() + k] == snaps_before[
                            store0.snapshots@.len() + k]) by {
                            assert(store.snapshots@.drop_last()[store0.snapshots@.len() + k]
                                == store.snapshots@[store0.snapshots@.len() + k]);
                        };
                    } else {
                        assert(store.snapshots@[store0.snapshots@.len() + k]
                            == store.snapshots@.last());
                    }
                };
            }
        } else {
            let ghost prev = alerts@;
            alerts.push(alert_text(outcome.id.as_str()));
            failed = failed + 1;
            proof {
                let fidx1 = snap_failed_idxs(store0, tj1);
                assert(alerts@ == prev.push(alerts@.last()));
                assert forall|k: int|
                    0 <= k < alerts@.len() implies (#[trigger] alerts@[k])@ == spec_alert_text(
                    os[fidx1[k]].id@,
                ) by {
                    if k < prev.len() {
                        assert(fidx1[k] == snap_failed_idxs(store0, tj)[k]);
                        assert(alerts@[k] == prev[k]);
                    } else {
                        assert(fidx1[k] == j as int);
                    }
                };
            }
        }
        j = j + 1;
    }
    proof {
        assert(os.take(j as int) =~= os);
    }
    (done, failed, alerts)
}

impl Store {
    /// The notifier's read path: every wishlist joined with its items'
    /// latest snapshots, most recent first.
    pub fn select_all_wish_list_and_snapshot(&self) -> (r: Vec<JoinedWishList>)
        requires
            self.inv(),
        ensures
            r@.len() == self.wish_lists@.len(),
            forall|k: int|
                0 <= k < r@.len() ==> (#[trigger] r@[k]).wish_list == self.wish_lists@[k]
                    && crate::query::joined_wish_list_ok(*self, r@[k]),
    {
        self.select_all_with_snapshot()
    }
}

} // verus!
