use wishlist_watch::models::{ItemMetaData, WishListSnapshot};
use wishlist_watch::store::{SnapshotRow, Store, StoreError};

fn item(id: &str, title: &str) -> ItemMetaData {
    ItemMetaData {
        id: id.to_string(),
        url: format!("https://www.amazon.co.jp/dp/{}/", id),
        title: title.to_string(),
        price: "100".to_string(),
    }
}

fn wish_list(id: &str, title: &str, scraped_at: i64, items: Vec<ItemMetaData>) -> WishListSnapshot {
    WishListSnapshot {
        id: id.to_string(),
        title: title.to_string(),
        url: format!("https://www.amazon.jp/hz/wishlist/ls/{}", id),
        scraped_at,
        items,
    }
}

fn relation_ids(store: &Store, wish_list_id: &str) -> Vec<String> {
    let mut ids: Vec<String> = store
        .relations
        .iter()
        .filter(|r| r.wish_list_id == wish_list_id)
        .map(|r| r.ebook_id.clone())
        .collect();
    ids.sort();
    ids
}

#[test]
fn upsert_twice_replaces_the_relation_set() {
    // scrape A, then scrape B with a disjoint item set: nothing of A survives
    let mut store = Store::new();
    let a = wish_list("2BDAPI9RQ09E9", "test_title", 1, vec![item("A1", "t"), item("A2", "t")]);
    let b = wish_list("2BDAPI9RQ09E9", "test_title", 2, vec![item("B1", "t"), item("B2", "t")]);
    store.upsert_wish_list(&a);
    assert_eq!(relation_ids(&store, "2BDAPI9RQ09E9"), vec!["A1".to_string(), "A2".to_string()]);
    store.upsert_wish_list(&b);
    assert_eq!(relation_ids(&store, "2BDAPI9RQ09E9"), vec!["B1".to_string(), "B2".to_string()]);
    // the item rows themselves stay: identity is never deleted by a rescrape
    assert_eq!(store.ebooks.len(), 4);
}

#[test]
fn relation_replace_leaves_other_wishlists_alone() {
    let mut store = Store::new();
    let other = wish_list("OTHER", "o", 1, vec![item("X1", "t")]);
    let a = wish_list("W", "w", 1, vec![item("X1", "t"), item("X2", "t")]);
    let b = wish_list("W", "w", 2, vec![]);
    store.upsert_wish_list(&other);
    store.upsert_wish_list(&a);
    store.upsert_wish_list(&b);
    assert_eq!(relation_ids(&store, "W"), Vec::<String>::new());
    assert_eq!(relation_ids(&store, "OTHER"), vec!["X1".to_string()]);
}

#[test]
fn upsert_items_creates_once_and_never_overwrites() {
    let mut store = Store::new();
    store.upsert_items(&vec![item("B09RQGMYKZ", "first title")]);
    store.upsert_items(&vec![item("B09RQGMYKZ", "changed title")]);
    assert_eq!(store.ebooks.len(), 1);
    assert_eq!(store.ebooks[0].title, "first title");
}

#[test]
fn upsert_wish_list_overwrites_the_row() {
    let mut store = Store::new();
    store.upsert_wish_list(&wish_list("W", "old title", 1, vec![]));
    store.upsert_wish_list(&wish_list("W", "new title", 2, vec![]));
    assert_eq!(store.wish_lists.len(), 1);
    assert_eq!(store.wish_lists[0].title, "new title");
    assert_eq!(store.wish_lists[0].scraped_at, 2);
}

fn snapshot_row(id: &str, at: i64) -> SnapshotRow {
    SnapshotRow {
        ebook_id: id.to_string(),
        scraped_at: at,
        thumbnail_url: String::new(),
        price: 1000,
        points: 11,
        points_rate: 110,
        discount: None,
        discount_rate: None,
    }
}

#[test]
fn insert_snapshot_is_append_only() {
    let mut store = Store::new();
    store.upsert_items(&vec![item("B09RQGMYKZ", "t")]);
    assert_eq!(store.insert_snapshot(snapshot_row("B09RQGMYKZ", 1)), Ok(()));
    assert_eq!(store.insert_snapshot(snapshot_row("B09RQGMYKZ", 2)), Ok(()));
    // the same key again is a conflict, and the row is not updated
    assert_eq!(store.insert_snapshot(snapshot_row("B09RQGMYKZ", 1)), Err(StoreError::Conflict));
    assert_eq!(store.snapshots.len(), 2);
}

#[test]
fn insert_snapshot_needs_a_known_product() {
    let mut store = Store::new();
    assert_eq!(store.insert_snapshot(snapshot_row("NOBODY", 1)), Err(StoreError::MissingEbook));
    assert_eq!(store.snapshots.len(), 0);
}

#[test]
fn select_all_returns_the_tables() {
    let mut store = Store::new();
    store.upsert_wish_list(&wish_list("W", "w", 1, vec![item("X1", "t")]));
    assert_eq!(store.select_all_wish_list().len(), 1);
    assert_eq!(store.select_all().len(), 1);
    assert_eq!(store.select_all()[0].id, "X1");
}

#[test]
fn join_orders_snapshots_most_recent_first() {
    let mut store = Store::new();
    store.upsert_wish_list(&wish_list("W", "w", 1, vec![item("X1", "t")]));
    store.insert_snapshot(snapshot_row("X1", 5)).unwrap();
    store.insert_snapshot(snapshot_row("X1", 9)).unwrap();
    store.insert_snapshot(snapshot_row("X1", 7)).unwrap();
    let joined = store.select_all_with_snapshot();
    assert_eq!(joined.len(), 1);
    assert_eq!(joined[0].wish_list.id, "W");
    assert_eq!(joined[0].items.len(), 1);
    let stamps: Vec<i64> = joined[0].items[0].snapshots.iter().map(|s| s.scraped_at).collect();
    assert_eq!(stamps, vec![9, 7, 5]);
}
