use wishlist_watch::analytics::AnalysisError;
use wishlist_watch::models::{EbookSnapshot, ItemMetaData, Payment, WishListSnapshot};
use wishlist_watch::pipeline::{
    EbookOutcome, UnitError, WishListOutcome, snap_all_ebook, snap_ebook, update_all_wish_list,
    update_wish_list,
};
use wishlist_watch::scrape::{RawItem, build_ebook_snapshot, build_wish_list_snapshot};
use wishlist_watch::store::Store;

fn item(id: &str) -> ItemMetaData {
    ItemMetaData {
        id: id.to_string(),
        url: format!("https://www.amazon.co.jp/dp/{}/", id),
        title: "title".to_string(),
        price: "100".to_string(),
    }
}

fn ebook_snapshot(id: &str, at: i64, list: Option<(&str, &str)>) -> EbookSnapshot {
    EbookSnapshot {
        ebook_id: id.to_string(),
        scraped_at: at,
        thumbnail_url: String::new(),
        payment_ebook: list.map(|(p, pts)| Payment {
            price: p.to_string(),
            points: pts.to_string(),
        }),
        payment_real: None,
    }
}

#[test]
fn snap_ebook_persists_an_analysed_snapshot() {
    let mut store = Store::new();
    store.upsert_items(&vec![item("B09RQGMYKZ")]);
    let a = snap_ebook(&mut store, &ebook_snapshot("B09RQGMYKZ", 1, Some(("1000", "11")))).unwrap();
    assert_eq!(a.points_rate, 110);
    assert_eq!(store.snapshots.len(), 1);
    assert_eq!(store.snapshots[0].price, 1000);
    assert_eq!(store.snapshots[0].points_rate, 110);
}

#[test]
fn snapshot_without_list_payment_is_never_persisted() {
    let mut store = Store::new();
    store.upsert_items(&vec![item("B09RQGMYKZ")]);
    let r = snap_ebook(&mut store, &ebook_snapshot("B09RQGMYKZ", 1, None));
    assert_eq!(r, Err(UnitError::Analysis(AnalysisError::MissingListPayment)));
    assert_eq!(store.snapshots.len(), 0);
}

#[test]
fn update_all_wish_list_counts_and_alerts() {
    let mut store = Store::new();
    let snapshot = WishListSnapshot {
        id: "w1".to_string(),
        title: "t".to_string(),
        url: "u".to_string(),
        scraped_at: 1,
        items: vec![item("A1")],
    };
    let outcomes = vec![
        WishListOutcome { id: "w1".to_string(), snapshot: Some(snapshot) },
        WishListOutcome { id: "w2".to_string(), snapshot: None },
    ];
    let (done, failed, alerts) = update_all_wish_list(&mut store, &outcomes);
    assert_eq!(done, 1);
    assert_eq!(failed, 1);
    assert_eq!(alerts, vec!["update failed: w2".to_string()]);
    assert_eq!(store.wish_lists.len(), 1);
}

#[test]
fn snap_all_ebook_counts_failures_without_aborting() {
    let mut store = Store::new();
    store.upsert_items(&vec![item("A"), item("B")]);
    let outcomes = vec![
        EbookOutcome { id: "A".to_string(), snapshot: Some(ebook_snapshot("A", 1, Some(("500", "5")))) },
        EbookOutcome { id: "X".to_string(), snapshot: None },
        EbookOutcome { id: "B".to_string(), snapshot: Some(ebook_snapshot("B", 1, None)) },
    ];
    let (done, failed, alerts) = snap_all_ebook(&mut store, &outcomes);
    assert_eq!(done, 1);
    assert_eq!(failed, 2);
    // one alert per failed unit, naming it, in batch order
    assert_eq!(
        alerts,
        vec!["update failed: X".to_string(), "update failed: B".to_string()]
    );
    // exactly the successful unit's row was appended
    assert_eq!(store.snapshots.len(), 1);
    assert_eq!(store.snapshots[0].ebook_id, "A");
    assert_eq!(store.snapshots[0].price, 500);
    assert_eq!(store.snapshots[0].points_rate, 100);
}

#[test]
fn snap_all_ebook_refuses_a_key_taken_earlier_in_the_batch() {
    let mut store = Store::new();
    store.upsert_items(&vec![item("A")]);
    let outcomes = vec![
        EbookOutcome { id: "A".to_string(), snapshot: Some(ebook_snapshot("A", 1, Some(("500", "5")))) },
        EbookOutcome { id: "A".to_string(), snapshot: Some(ebook_snapshot("A", 1, Some(("900", "9")))) },
        EbookOutcome { id: "A".to_string(), snapshot: Some(ebook_snapshot("A", 2, Some(("900", "9")))) },
    ];
    let (done, failed, alerts) = snap_all_ebook(&mut store, &outcomes);
    assert_eq!(done, 2);
    assert_eq!(failed, 1);
    assert_eq!(alerts, vec!["update failed: A".to_string()]);
    // the duplicate key never overwrote the first row
    assert_eq!(store.snapshots.len(), 2);
    assert_eq!(store.snapshots[0].price, 500);
    assert_eq!(store.snapshots[1].scraped_at, 2);
}

#[test]
fn update_all_wish_list_last_scrape_of_a_wishlist_wins() {
    let mut store = Store::new();
    let first = WishListSnapshot {
        id: "w1".to_string(),
        title: "first".to_string(),
        url: "u".to_string(),
        scraped_at: 1,
        items: vec![item("A1"), item("A2")],
    };
    let second = WishListSnapshot {
        id: "w1".to_string(),
        title: "second".to_string(),
        url: "u".to_string(),
        scraped_at: 2,
        items: vec![item("B1")],
    };
    let outcomes = vec![
        WishListOutcome { id: "w1".to_string(), snapshot: Some(first) },
        WishListOutcome { id: "w1".to_string(), snapshot: Some(second) },
    ];
    let (done, failed, _) = update_all_wish_list(&mut store, &outcomes);
    assert_eq!((done, failed), (2, 0));
    assert_eq!(store.wish_lists.len(), 1);
    assert_eq!(store.wish_lists[0].title, "second");
    let members: Vec<String> =
        store.relations.iter().map(|r| r.ebook_id.clone()).collect();
    assert_eq!(members, vec!["B1".to_string()]);
}

#[test]
fn update_wish_list_applies_the_upsert() {
    let mut store = Store::new();
    let snapshot = WishListSnapshot {
        id: "w1".to_string(),
        title: "t".to_string(),
        url: "u".to_string(),
        scraped_at: 1,
        items: vec![item("A1"), item("A2")],
    };
    update_wish_list(&mut store, &snapshot);
    assert_eq!(store.relations.len(), 2);
}

fn raw(href: &str, title: &str, price: &str) -> RawItem {
    RawItem {
        link_attrs: vec![
            "href".to_string(),
            href.to_string(),
            "title".to_string(),
            title.to_string(),
        ],
        item_attrs: vec!["data-price".to_string(), price.to_string()],
    }
}

#[test]
fn build_wish_list_snapshot_sorts_and_dedups_by_id() {
    let raws = vec![
        raw("/dp/ZZZ/?x=1", "z", "300"),
        raw("/dp/AAA/?x=1", "a", "100"),
        raw("/dp/ZZZ/?y=2", "z again", "300"),
        // an element missing its attributes is skipped, not fatal
        RawItem { link_attrs: vec![], item_attrs: vec![] },
    ];
    let s = build_wish_list_snapshot("W", "url", 7, "title", &raws);
    assert_eq!(s.id, "W");
    assert_eq!(s.scraped_at, 7);
    let ids: Vec<String> = s.items.iter().map(|i| i.id.clone()).collect();
    assert_eq!(ids, vec!["AAA".to_string(), "ZZZ".to_string()]);
    // the first occurrence of a duplicated id wins
    assert_eq!(s.items[1].title, "z");
}

#[test]
fn build_ebook_snapshot_takes_the_first_two_payments() {
    let texts = vec![
        "nothing to see".to_string(),
        "￥3,344 獲得ポイント: 152pt".to_string(),
        "￥4,180 獲得ポイント: 0pt".to_string(),
    ];
    let s = build_ebook_snapshot("B09RQGMYKZ", 3, "thumb", &texts);
    assert_eq!(s.ebook_id, "B09RQGMYKZ");
    assert_eq!(
        s.payment_ebook,
        Some(Payment { price: "3344".to_string(), points: "152".to_string() })
    );
    assert_eq!(
        s.payment_real,
        Some(Payment { price: "4180".to_string(), points: "0".to_string() })
    );
}

#[test]
fn join_read_path_feeds_the_notifier() {
    let mut store = Store::new();
    let snapshot = WishListSnapshot {
        id: "w1".to_string(),
        title: "t".to_string(),
        url: "u".to_string(),
        scraped_at: 1,
        items: vec![item("A1")],
    };
    update_wish_list(&mut store, &snapshot);
    snap_ebook(&mut store, &ebook_snapshot("A1", 2, Some(("1000", "11")))).unwrap();
    let joined = store.select_all_wish_list_and_snapshot();
    assert_eq!(joined.len(), 1);
    assert_eq!(joined[0].items.len(), 1);
    assert_eq!(joined[0].items[0].snapshots.len(), 1);
}
