use wishlist_watch::models::ItemMetaData;
use wishlist_watch::urls::{
    ExtractionError, create, create_item_url, create_url, create_wish_list_url, nth_segment,
};

#[test]
fn test_create_item_url() {
    assert_eq!(
        create_item_url("/dp/2BDAPI9RQ09E9/?coliid=IH").unwrap(),
        "https://www.amazon.co.jp/dp/2BDAPI9RQ09E9/".to_string()
    );
}

#[test]
fn test_create_wish_list_url() {
    assert_eq!(
        create_wish_list_url("2BDAPI9RQ09E9").unwrap(),
        "https://www.amazon.jp/hz/wishlist/ls/2BDAPI9RQ09E9".to_string()
    );
}

#[test]
fn test_create_url() {
    assert_eq!(
        create_wish_list_url("2BDAPI9RQ09E9").unwrap(),
        "https://www.amazon.jp/hz/wishlist/ls/2BDAPI9RQ09E9".to_string()
    );
}

#[test]
fn create_url_builds_the_product_page() {
    assert_eq!(
        create_url("B09RQGMYKZ").unwrap(),
        "https://www.amazon.co.jp/dp/B09RQGMYKZ".to_string()
    );
}

#[test]
fn test_create() {
    let expected = ItemMetaData {
        id: String::from("2BDAPI9RQ09E9"),
        url: String::from("https://www.amazon.co.jp/dp/2BDAPI9RQ09E9/"),
        title: String::from("title"),
        price: String::from("100"),
    };
    assert_eq!(
        ItemMetaData::new("/dp/2BDAPI9RQ09E9/?coliid=IH", "title", "100").unwrap(),
        expected
    );
}

#[test]
fn item_metadata_test_create() {
    let expected = ItemMetaData {
        id: String::from("2BDAPI9RQ09E9"),
        url: String::from("https://www.amazon.co.jp/dp/2BDAPI9RQ09E9/"),
        title: String::from("title"),
        price: String::from("100"),
    };
    assert_eq!(create("/dp/2BDAPI9RQ09E9/?coliid=IH", "title", "100").unwrap(), expected);
}

#[test]
fn item_new_rejects_a_short_path() {
    assert_eq!(
        ItemMetaData::new("/", "title", "100"),
        Err(ExtractionError::MissingSegment)
    );
}

#[test]
fn item_new_rejects_an_href_that_does_not_resolve() {
    assert_eq!(
        ItemMetaData::new("http://[bad/", "title", "100"),
        Err(ExtractionError::MalformedUrl)
    );
}

#[test]
fn nth_segment_counts_empty_segments() {
    assert_eq!(nth_segment("/dp/X/", 0), Some(String::new()));
    assert_eq!(nth_segment("/dp/X/", 1), Some("dp".to_string()));
    assert_eq!(nth_segment("/dp/X/", 2), Some("X".to_string()));
    assert_eq!(nth_segment("/dp/X/", 3), Some(String::new()));
    assert_eq!(nth_segment("/dp/X/", 4), None);
}
