use wishlist_watch::analytics::AnalysisError;
use wishlist_watch::models::{EbookSnapshot, Payment};

fn snapshot(list: Option<(&str, &str)>, comparison: Option<(&str, &str)>) -> EbookSnapshot {
    EbookSnapshot {
        ebook_id: String::from("B09RQGMYKZ"),
        scraped_at: 0,
        thumbnail_url: String::from("https://m.media-amazon.com/images/I/51CTnaTcJtL.jpg"),
        payment_ebook: list.map(|(p, pts)| Payment {
            price: p.to_string(),
            points: pts.to_string(),
        }),
        payment_real: comparison.map(|(p, pts)| Payment {
            price: p.to_string(),
            points: pts.to_string(),
        }),
    }
}

#[test]
fn points_rate_is_floored_to_two_decimals() {
    // 11 / 1000 = 1.1 %, carried as exactly 110 hundredths of a percent
    let a = snapshot(Some(("1000", "11")), None).analyze().unwrap();
    assert_eq!(a.price, 1000);
    assert_eq!(a.points, 11);
    assert_eq!(a.points_rate, 110);
    assert_eq!(a.discount, None);
    assert_eq!(a.discount_rate, None);
}

#[test]
fn analyze_missing_list_payment_is_an_error() {
    assert_eq!(
        snapshot(None, Some(("1100", "11"))).analyze(),
        Err(AnalysisError::MissingListPayment)
    );
}

#[test]
fn analyze_zero_price_is_an_error() {
    assert_eq!(snapshot(Some(("0", "11")), None).analyze(), Err(AnalysisError::ZeroPrice));
}

#[test]
fn analyze_malformed_number_is_an_error() {
    assert_eq!(snapshot(Some(("12a", "11")), None).analyze(), Err(AnalysisError::MalformedNumber));
    assert_eq!(snapshot(Some(("", "11")), None).analyze(), Err(AnalysisError::MalformedNumber));
    assert_eq!(
        snapshot(Some(("1000", "9999999999999999")), None).analyze(),
        Err(AnalysisError::MalformedNumber)
    );
}

#[test]
fn analyze_computes_discount_against_the_comparison_price() {
    let a = snapshot(Some(("800", "8")), Some(("1000", "0"))).analyze().unwrap();
    assert_eq!(a.discount, Some(200));
    // 200 / 800 = 25 %, carried as 2500
    assert_eq!(a.discount_rate, Some(2500));
    assert_eq!(a.points_rate, 100);
}

#[test]
fn analyze_floors_a_negative_discount_rate() {
    // comparison below the price: -100 / 300 = -33.33… %, floored to -33.34 %
    let a = snapshot(Some(("300", "0")), Some(("200", "0"))).analyze().unwrap();
    assert_eq!(a.discount, Some(-100));
    assert_eq!(a.discount_rate, Some(-3334));
}

#[test]
fn analyze_ignores_an_unparsable_comparison() {
    let a = snapshot(Some(("1000", "11")), Some(("n/a", "0"))).analyze().unwrap();
    assert_eq!(a.discount, None);
    assert_eq!(a.discount_rate, None);
}

#[test]
fn analyze_is_deterministic() {
    let s = snapshot(Some(("3344", "152")), Some(("4180", "0")));
    assert_eq!(s.analyze(), s.analyze());
    let a = s.analyze().unwrap();
    // 152 / 3344 = 4.5454… %, floored to 4.54 %
    assert_eq!(a.points_rate, 454);
    // 836 / 3344 = 25 %
    assert_eq!(a.discount, Some(836));
    assert_eq!(a.discount_rate, Some(2500));
}
