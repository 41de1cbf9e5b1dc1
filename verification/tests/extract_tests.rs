use wishlist_watch::extract::{extract_payment, extract_points, extract_price};
use wishlist_watch::models::Payment;

#[test]
fn test_extract_payment() {
    let actual = extract_payment(
        r#"
            Kindle版 (電子書籍)
            ￥3,344
            獲得ポイント: 152pt
            "#,
    );
    let expected = Some(Payment { price: String::from("3344"), points: String::from("152") });
    assert_eq!(actual, expected);
}

#[test]
fn scraper_test_extract_payment() {
    let actual = extract_payment(
        r#"
            Kindle版 (電子書籍)
            ￥3,344
            獲得ポイント: 152pt
            "#,
    );
    let expected = Some(Payment { price: String::from("3344"), points: String::from("152") });
    assert_eq!(actual, expected);
}

#[test]
fn test_payment_new() {
    let actual = Payment::new(
        r#"
            Kindle版 (電子書籍)
            ￥3,344
            獲得ポイント: 152pt
            "#,
    );
    let expected = Some(Payment { price: String::from("3344"), points: String::from("152") });
    assert_eq!(actual, expected);
}

#[test]
fn ebook_snapshots_test_payment_new() {
    let actual = Payment::new(
        r#"
            Kindle版 (電子書籍)
            ￥3,344
            獲得ポイント: 152pt
            "#,
    );
    let expected = Some(Payment { price: String::from("3344"), points: String::from("152") });
    assert_eq!(actual, expected);
}

#[test]
fn extract_payment_without_currency_number_is_none() {
    assert_eq!(extract_payment("no prices here, just 152pt"), None);
    assert_eq!(extract_payment("￥1,200 but no points"), None);
    assert_eq!(extract_payment(""), None);
}

#[test]
fn extract_price_keeps_document_order_and_drops_duplicates() {
    let prices = extract_price("a ￥1,000 b ￥2,000 c ￥1,000 d");
    assert_eq!(prices, vec![String::from("1,000"), String::from("2,000")]);
}

#[test]
fn extract_price_takes_three_digits_before_a_group() {
    // four digits without a separator: the number grammar captures three
    let prices = extract_price("￥1234");
    assert_eq!(prices, vec![String::from("123")]);
    let grouped = extract_price("￥12,345");
    assert_eq!(grouped, vec![String::from("12,345")]);
}

#[test]
fn extract_points_matches_just_before_the_suffix() {
    let points = extract_points("1234pt");
    assert_eq!(points, vec![String::from("234")]);
    let grouped = extract_points("earn 12,345pt today");
    assert_eq!(grouped, vec![String::from("12,345")]);
}

#[test]
fn extract_payment_strips_thousands_separators() {
    let actual = extract_payment("￥12,345 and 1,001pt");
    let expected = Some(Payment { price: String::from("12345"), points: String::from("1001") });
    assert_eq!(actual, expected);
}

#[test]
fn extract_payment_uses_first_match_of_each() {
    let actual = extract_payment("￥500 ￥900 3pt 7pt");
    let expected = Some(Payment { price: String::from("500"), points: String::from("3") });
    assert_eq!(actual, expected);
}
