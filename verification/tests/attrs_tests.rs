use wishlist_watch::attrs::{from, search_from};

#[test]
fn search_from_returns_some() {
    let mock_vec = vec!["key_1".to_string(), "val_1".to_string()];
    let actual = search_from(&mock_vec, "key_1");
    assert_eq!(actual, Some("val_1".to_string()))
}

#[test]
fn search_from_returns_none() {
    let mock_vec = vec!["key_1".to_string(), "val_1".to_string()];
    let actual = search_from(&mock_vec, "key_999");
    assert_eq!(actual, None)
}

#[test]
fn search_from_returns_none2() {
    let mock_vec = vec!["key_1".to_string(), "val_1".to_string()];
    let actual = search_from(&mock_vec, "val_1");
    assert_eq!(actual, None)
}

#[test]
fn scraper_search_from_returns_some() {
    let mock_vec = vec!["key_1".to_string(), "val_1".to_string()];
    let actual = search_from(&mock_vec, "key_1");
    assert_eq!(actual, Some("val_1".to_string()))
}

#[test]
fn scraper_search_from_returns_none() {
    let mock_vec = vec!["key_1".to_string(), "val_1".to_string()];
    let actual = search_from(&mock_vec, "key_999");
    assert_eq!(actual, None)
}

#[test]
fn scraper_search_from_returns_none2() {
    let mock_vec = vec!["key_1".to_string(), "val_1".to_string()];
    let actual = search_from(&mock_vec, "val_1");
    assert_eq!(actual, None)
}

#[test]
fn it_works() {
    let result = 2 + 2;
    assert_eq!(result, 4);
}

#[test]
fn lib_it_works() {
    let result = 2 + 2;
    assert_eq!(result, 4);
}

#[test]
fn from_pairs_up_and_drops_the_odd_tail() {
    let attrs = vec![
        "href".to_string(),
        "/dp/X/".to_string(),
        "title".to_string(),
        "a book".to_string(),
        "dangling".to_string(),
    ];
    let pairs = from(&attrs);
    assert_eq!(
        pairs,
        vec![
            ("href".to_string(), "/dp/X/".to_string()),
            ("title".to_string(), "a book".to_string()),
        ]
    );
}

#[test]
fn search_from_last_pair_wins() {
    let attrs = vec![
        "k".to_string(),
        "first".to_string(),
        "k".to_string(),
        "second".to_string(),
    ];
    assert_eq!(search_from(&attrs, "k"), Some("second".to_string()));
}
