use wishlist_watch::store::SnapshotRow;
use wishlist_watch::tier::{AlertTier, classify, color_code, get_color};

#[test]
fn classify_thresholds() {
    // below 20 %: no notification
    assert_eq!(classify(None, 1999), AlertTier::Grey);
    assert_eq!(classify(Some(1999), 0), AlertTier::Grey);
    // 20 % up to 30 %: green
    assert_eq!(classify(None, 2000), AlertTier::Green);
    assert_eq!(classify(Some(2999), 0), AlertTier::Green);
    // 30 % up to 35 %: yellow
    assert_eq!(classify(Some(3000), 0), AlertTier::Yellow);
    assert_eq!(classify(Some(3499), 2999), AlertTier::Yellow);
    // 35 % and above: red
    assert_eq!(classify(None, 3500), AlertTier::Red);
    assert_eq!(classify(Some(9000), 0), AlertTier::Red);
}

#[test]
fn classify_uses_the_larger_rate() {
    assert_eq!(classify(Some(100), 3600), AlertTier::Red);
    assert_eq!(classify(Some(3600), 100), AlertTier::Red);
    // an absent discount rate counts as zero
    assert_eq!(classify(None, 0), AlertTier::Grey);
    // a negative discount rate never outranks the points rate
    assert_eq!(classify(Some(-500), 2000), AlertTier::Green);
}

#[test]
fn classify_is_monotonic_spot_check() {
    let lo = classify(Some(1000), 1500);
    let hi = classify(Some(1000), 3100);
    assert_eq!(lo, AlertTier::Grey);
    assert_eq!(hi, AlertTier::Yellow);
}

#[test]
fn color_codes_match_the_channel_palette() {
    assert_eq!(color_code(AlertTier::Red), 15548997);
    assert_eq!(color_code(AlertTier::Yellow), 16776960);
    assert_eq!(color_code(AlertTier::Green), 5763719);
    assert_eq!(color_code(AlertTier::Grey), 9807270);
}

#[test]
fn get_color_reads_the_stored_rates() {
    let row = SnapshotRow {
        ebook_id: "id".to_string(),
        scraped_at: 0,
        thumbnail_url: String::new(),
        price: 42,
        points: 1,
        points_rate: 10,
        discount: None,
        discount_rate: None,
    };
    assert_eq!(get_color(&row), AlertTier::Grey);
    let hot = SnapshotRow { discount_rate: Some(3600), ..row };
    assert_eq!(get_color(&hot), AlertTier::Red);
}
