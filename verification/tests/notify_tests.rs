use wishlist_watch::clock::render_jst;
use wishlist_watch::notify::{
    EmbedItem, NotifyConfig, SaleNotification, alert_text, build_alert_message, build_messages,
    rate_string,
};
use wishlist_watch::query::{JoinedEbook, JoinedWishList};
use wishlist_watch::store::{EbookRow, SnapshotRow, WishListRow};
use wishlist_watch::tier::AlertTier;

fn config() -> NotifyConfig {
    NotifyConfig {
        bot_name: "sale-bot".to_string(),
        avatar_url: "https://example.com/avatar.png".to_string(),
        alert_chanel: "https://example.com/alert".to_string(),
        sale_chanel: "https://example.com/sale".to_string(),
    }
}

fn joined_item(id: &str, points_rate: u64, discount_rate: Option<i64>) -> JoinedEbook {
    JoinedEbook {
        ebook: EbookRow {
            id: id.to_string(),
            url: format!("https://www.amazon.co.jp/dp/{}/", id),
            title: format!("book {}", id),
            price: "1000".to_string(),
        },
        snapshots: vec![SnapshotRow {
            ebook_id: id.to_string(),
            scraped_at: 0,
            thumbnail_url: String::new(),
            price: 1000,
            points: 11,
            points_rate,
            discount: None,
            discount_rate,
        }],
    }
}

fn joined_wish_list(items: Vec<JoinedEbook>) -> JoinedWishList {
    JoinedWishList {
        wish_list: WishListRow {
            id: "W".to_string(),
            url: "https://www.amazon.jp/hz/wishlist/ls/W".to_string(),
            scraped_at: 0,
            title: "deals".to_string(),
        },
        items,
    }
}

#[test]
fn build_messages_chunks_ten_embeds_per_message() {
    let mut items = Vec::new();
    for i in 0..11 {
        items.push(joined_item(&format!("B{:02}", i), 3600, None));
    }
    // one grey item and one without snapshots: both dropped
    items.push(joined_item("GREY", 10, None));
    items.push(JoinedEbook {
        ebook: EbookRow {
            id: "EMPTY".to_string(),
            url: String::new(),
            title: String::new(),
            price: String::new(),
        },
        snapshots: vec![],
    });
    let messages = build_messages(&config(), &joined_wish_list(items));
    assert_eq!(messages.len(), 2);
    assert_eq!(messages[0].embeds.len(), 10);
    assert_eq!(messages[1].embeds.len(), 1);
    assert_eq!(messages[0].username, "sale-bot");
    assert_eq!(messages[0].content, "deals のセール情報");
    assert_eq!(messages[0].embeds[0].title, "book B00");
    assert_eq!(messages[1].embeds[0].title, "book B10");
}

#[test]
fn build_messages_drops_grey_items_entirely() {
    let messages = build_messages(&config(), &joined_wish_list(vec![joined_item("G", 100, None)]));
    assert_eq!(messages.len(), 0);
}

#[test]
fn embed_fields_render_the_snapshot() {
    let jw = joined_wish_list(vec![joined_item("B01", 110, Some(2500))]);
    let messages = build_messages(&config(), &jw);
    assert_eq!(messages.len(), 1);
    let embed = &messages[0].embeds[0];
    assert_eq!(embed.color, 5763719); // green at 25 %
    assert_eq!(embed.fields.len(), 4);
    assert_eq!(embed.fields[0].name, "金額");
    assert_eq!(embed.fields[0].value, "¥1000");
    assert_eq!(embed.fields[1].name, "値引き率");
    assert_eq!(embed.fields[1].value, "25.00%");
    assert_eq!(embed.fields[2].name, "ポイント還元率");
    assert_eq!(embed.fields[2].value, "1.10%");
    assert_eq!(embed.fields[3].name, "更新日");
    assert_eq!(embed.fields[3].value, "1970/01/01 09:00:00 +09:00");
}

#[test]
fn render_jst_formats_at_utc_plus_nine() {
    assert_eq!(render_jst(0).unwrap(), "1970/01/01 09:00:00 +09:00");
    assert_eq!(render_jst(1660000000).unwrap(), "2022/08/09 08:06:40 +09:00");
    assert_eq!(render_jst(i64::MAX), None);
}

#[test]
fn rate_string_keeps_two_decimals() {
    assert_eq!(rate_string(0), "0.00");
    assert_eq!(rate_string(110), "1.10");
    assert_eq!(rate_string(2500), "25.00");
    assert_eq!(rate_string(-3334), "-33.34");
    assert_eq!(rate_string(7), "0.07");
}

#[test]
fn alert_message_has_no_embeds() {
    let m = build_alert_message(&config(), "unit-test");
    assert_eq!(m.username, "sale-bot");
    assert_eq!(m.content, "unit-test");
    assert_eq!(m.embeds.len(), 0);
}

#[test]
fn alert_text_names_the_unit() {
    assert_eq!(alert_text("2BDAPI9RQ09E9"), "update failed: 2BDAPI9RQ09E9");
}

#[test]
fn embed_item_keeps_grey_items() {
    let e = EmbedItem::new(&joined_item("G", 10, None)).unwrap();
    assert_eq!(e.color, AlertTier::Grey);
    assert_eq!(e.price, "¥1000");
    let none = EmbedItem::new(&JoinedEbook {
        ebook: EbookRow {
            id: "E".to_string(),
            url: String::new(),
            title: String::new(),
            price: String::new(),
        },
        snapshots: vec![],
    });
    assert!(none.is_none());
}

#[test]
fn sale_notification_gathers_all_items_with_snapshots() {
    let jw = joined_wish_list(vec![joined_item("A", 10, None), joined_item("B", 3600, None)]);
    let n = SaleNotification::new(&config(), &jw);
    assert_eq!(n.to, "https://example.com/sale");
    assert_eq!(n.content, "deals のセール情報");
    assert_eq!(n.embeds.len(), 2);
    assert_eq!(n.embeds[0].color, AlertTier::Grey);
    assert_eq!(n.embeds[1].color, AlertTier::Red);
}
