//! Outbound sale notifications: turns a joined wishlist into webhook message
//! payloads. Items whose latest snapshot classifies `Grey` are dropped;
//! survivors are chunked into at most ten embeds per message, the channel's
//! batching cap. The channel configuration is handed in by the caller; the
//! unverified shell performs the actual send.

use vstd::prelude::*;
use crate::clock::{jst_datetime_of, render_jst, ts_renderable};
use crate::query::{JoinedEbook, JoinedWishList};
use crate::text::{dec_digits, push_char, u64_to_string};
use crate::tier::{AlertTier, classify, color_code, effective_rate, spec_classify,
    spec_color_code};

verus! {

/// How many embeds one outbound message may carry.
pub const MESSAGE_EMBED_CAP: usize = 10;

/// A channel failure while delivering a message. Delivery happens in the
/// shell around this library; the failure is logged and alerted there, never
/// fatal to the pipeline that produced the data.
#[derive(Debug, Clone, Copy, PartialEq, Eq)]
pub enum NotifyError {
    ChannelFailure,
}

/// The notification channel settings, loaded from the environment by the
/// shell around this library.
pub struct NotifyConfig {
    pub bot_name: String,
    pub avatar_url: String,
    pub alert_chanel: String,
    pub sale_chanel: String,
}

/// One labeled field of an embed block.
pub struct EmbedField {
    pub name: String,
    pub value: String,
    pub inline: bool,
}

/// One embed block of an outbound message.
pub struct Embed {
    pub title: String,
    pub url: String,
    pub color: u32,
    pub fields: Vec<EmbedField>,
}

/// One outbound webhook message.
pub struct Message {
    pub username: String,
    pub avatar_url: String,
    pub content: String,
    pub embeds: Vec<Embed>,
}

/// One item rendered for notification, colour still symbolic.
#[derive(Debug)]
pub struct EmbedItem {
    pub title: String,
    pub url: String,
    pub color: AlertTier,
    pub price: String,
    pub discount_rate: String,
    pub points_rate: String,
    pub update_datetime: String,
}

/// One wishlist's sale notification, before chunking into messages.
#[derive(Debug)]
pub struct SaleNotification {
    pub to: String,
    pub from_user_name: String,
    pub from_avatar_url: String,
    pub content: String,
    pub embeds: Vec<EmbedItem>,
}

/// Fixed-point rate rendered with its two decimal places, `110` as `1.10`.
pub open spec fn spec_rate_str(x: int) -> Seq<char> {
    if x < 0 {
        seq!['-'] + spec_rate_mag(-x)
    } else {
        spec_rate_mag(x)
    }
}

pub open spec fn spec_rate_mag(a: int) -> Seq<char> {
    dec_digits(a / 100) + seq!['.'] + (if a % 100 < 10 {
        seq!['0'] + dec_digits(a % 100)
    } else {
        dec_digits(a % 100)
    })
}

/// Renders a fixed-point rate with two decimal places.
pub fn rate_string(x: i64) -> (r: String)
    ensures
        r@ == spec_rate_str(x as int),
{
    let mag: u64 = if x >= 0 {
        x as u64
    } else {
        (-(x + 1)) as u64 + 1
    };
    let whole = u64_to_string(mag / 100);
    let frac = mag % 100;
    let mut s = String::new();
    if x < 0 {
        push_char(&mut s, '-');
    }
    s.append(whole.as_str());
    push_char(&mut s, '.');
    if frac < 10 {
        push_char(&mut s, '0');
    }
    let frac_str = u64_to_string(frac);
    s.append(frac_str.as_str());
    proof {
        if x >= 0 {
            assert(s@ =~= spec_rate_str(x as int));
        } else {
            assert(mag == -(x as int));
            assert(s@ =~= seq!['-'] + spec_rate_mag(mag as int));
        }
    }
    s
}

/// The rate value a field shows, suffixed with a percent sign.
pub open spec fn spec_percent_str(x: int) -> Seq<char> {
    spec_rate_str(x) + seq!['%']
}

fn percent_string(x: i64) -> (r: String)
    ensures
        r@ == spec_percent_str(x as int),
{
    let mut s = rate_string(x);
    push_char(&mut s, '%');
    s
}

fn percent_string_u64(x: u64) -> (r: String)
    ensures
        r@ == spec_percent_str(x as int),
{
    let whole = u64_to_string(x / 100);
    let frac = x % 100;
    let mut s = String::new();
    s.append(whole.as_str());
    push_char(&mut s, '.');
    if frac < 10 {
        push_char(&mut s, '0');
    }
    let frac_str = u64_to_string(frac);
    s.append(frac_str.as_str());
    push_char(&mut s, '%');
    proof {
        assert(s@ =~= spec_percent_str(x as int));
    }
    s
}

/// The price value a field shows: a currency mark and the amount.
pub open spec fn spec_price_str(p: u64) -> Seq<char> {
    seq!['¥'] + dec_digits(p as int)
}

fn price_string(p: u64) -> (r: String)
    ensures
        r@ == spec_price_str(p),
{
    let mut s = String::new();
    push_char(&mut s, '¥');
    let d = u64_to_string(p);
    s.append(d.as_str());
    proof {
        assert(s@ =~= spec_price_str(p));
    }
    s
}

/// The freshness stamp a field shows: the snapshot time at UTC+9, or empty
/// where the timestamp lies outside the renderable band.
pub open spec fn spec_update_str(ts: int) -> Seq<char> {
    if ts_renderable(ts) {
        jst_datetime_of(ts)
    } else {
        Seq::empty()
    }
}

fn update_string(ts: i64) -> (r: String)
    ensures
        r@ == spec_update_str(ts as int),
{
    match render_jst(ts) {
        Some(s) => s,
        None => String::new(),
    }
}

/// An item enters the outbound notification: it has a snapshot and its
/// latest snapshot does not classify `Grey`.
pub open spec fn is_notified(je: JoinedEbook) -> bool {
    &&& je.snapshots@.len() > 0
    &&& spec_classify(je.snapshots@[0].discount_rate, je.snapshots@[0].points_rate)
        != AlertTier::Grey
}

/// The indices of the notified items, in order.
pub open spec fn notified_idxs(items: Seq<JoinedEbook>) -> Seq<int>
    decreases items.len(),
{
    if items.len() == 0 {
        Seq::empty()
    } else {
        notified_idxs(items.drop_last()) + (if is_notified(items.last()) {
            Seq::empty().push(items.len() - 1)
        } else {
            Seq::empty()
        })
    }
}

pub proof fn lemma_notified_idxs_range(items: Seq<JoinedEbook>)
    ensures
        forall|k: int|
            0 <= k < notified_idxs(items).len() ==> 0 <= #[trigger] notified_idxs(items)[k]
                < items.len(),
    decreases items.len(),
{
    if items.len() > 0 {
        let d = items.drop_last();
        lemma_notified_idxs_range(d);
        assert forall|k: int|
            0 <= k < notified_idxs(items).len() implies 0 <= #[trigger] notified_idxs(items)[k]
            < items.len() by {
            if k < notified_idxs(d).len() {
                assert(notified_idxs(items)[k] == notified_idxs(d)[k]);
            } else {
                assert(notified_idxs(items)[k] == items.len() - 1);
            }
        };
    }
}

pub proof fn lemma_with_snapshot_idxs_range(items: Seq<JoinedEbook>)
    ensures
        forall|k: int|
            0 <= k < with_snapshot_idxs(items).len() ==> 0 <= #[trigger] with_snapshot_idxs(
                items,
            )[k] < items.len(),
    decreases items.len(),
{
    if items.len() > 0 {
        let d = items.drop_last();
        lemma_with_snapshot_idxs_range(d);
        assert forall|k: int|
            0 <= k < with_snapshot_idxs(items).len() implies 0 <= #[trigger] with_snapshot_idxs(
            items,
        )[k] < items.len() by {
            if k < with_snapshot_idxs(d).len() {
                assert(with_snapshot_idxs(items)[k] == with_snapshot_idxs(d)[k]);
            } else {
                assert(with_snapshot_idxs(items)[k] == items.len() - 1);
            }
        };
    }
}

/// The embed block rendered for one notified item.
pub open spec fn embed_matches(e: Embed, je: JoinedEbook) -> bool {
    &&& je.snapshots@.len() > 0
    &&& e.title@ == je.ebook.title@
    &&& e.url@ == je.ebook.url@
    &&& e.color == spec_color_code(
        spec_classify(je.snapshots@[0].discount_rate, je.snapshots@[0].points_rate),
    )
    &&& e.fields@.len() == 4
    &&& e.fields@[0].name@ == "金額"@ && e.fields@[0].value@ == spec_price_str(
        je.snapshots@[0].price,
    ) && e.fields@[0].inline
    &&& e.fields@[1].name@ == "値引き率"@ && e.fields@[1].value@ == spec_percent_str(
        effective_rate(je.snapshots@[0].discount_rate),
    ) && e.fields@[1].inline
    &&& e.fields@[2].name@ == "ポイント還元率"@ && e.fields@[2].value@ == spec_percent_str(
        je.snapshots@[0].points_rate as int,
    ) && e.fields@[2].inline
    &&& e.fields@[3].name@ == "更新日"@ && e.fields@[3].value@ == spec_update_str(
        je.snapshots@[0].scraped_at as int,
    ) && e.fields@[3].inline
}

/// The message header every sale notification carries.
pub open spec fn spec_content_str(title: Seq<char>) -> Seq<char> {
    title + " のセール情報"@
}

fn build_embed(je: &JoinedEbook) -> (r: Embed)
    requires
        je.snapshots@.len() > 0,
    ensures
        embed_matches(r, *je),
{
    let snap = &je.snapshots[0];
    let tier = classify(snap.discount_rate, snap.points_rate);
    let d: i64 = match snap.discount_rate {
        None => 0,
        Some(v) => v,
    };
    let mut fields: Vec<EmbedField> = Vec::new();
    fields.push(
        EmbedField { name: String::from_str("金額"), value: price_string(snap.price), inline: true },
    );
    fields.push(
        EmbedField {
            name: String::from_str("値引き率"),
            value: percent_string(d),
            inline: true,
        },
    );
    fields.push(
        EmbedField {
            name: String::from_str("ポイント還元率"),
            value: percent_string_u64(snap.points_rate),
            inline: true,
        },
    );
    fields.push(
        EmbedField {
            name: String::from_str("更新日"),
            value: update_string(snap.scraped_at),
            inline: true,
        },
    );
    Embed {
        title: je.ebook.title.clone(),
        url: je.ebook.url.clone(),
        color: color_code(tier),
        fields,
    }
}

/// The embed blocks of a joined wishlist's notified items, in item order.
fn build_embeds(jw: &JoinedWishList) -> (r: Vec<Embed>)
    ensures
        r@.len() == notified_idxs(jw.items@).len(),
        forall|k: int|
            0 <= k < r@.len() ==> 0 <= notified_idxs(jw.items@)[k] < jw.items@.len()
                && embed_matches(#[trigger] r@[k], jw.items@[notified_idxs(jw.items@)[k]]),
{
    let mut out: Vec<Embed> = Vec::new();
    let mut i: usize = 0;
    let ghost items = jw.items@;
    proof {
        assert(items.take(0) =~= Seq::<JoinedEbook>::empty());
    }
    while i < jw.items.len()
        invariant
            i <= items.len(),
            items == jw.items@,
            out@.len() == notified_idxs(items.take(i as int)).len(),
            forall|k: int|
                0 <= k < out@.len() ==> embed_matches(
                    #[trigger] out@[k],
                    items[notified_idxs(items.take(i as int))[k]],
                ),
        decreases items.len() - i,
    {
        let ghost ti = items.take(i as int);
        let ghost ti1 = items.take(i + 1);
        proof {
            assert(ti1.drop_last() =~= ti);
            assert(ti1.last() == items[i as int]);
        }
        let je = &jw.items[i];
        let has_snap = je.snapshots.len() > 0;
        let mut keep = false;
        if has_snap {
            let snap = &je.snapshots[0];
            let tier = classify(snap.discount_rate, snap.points_rate);
            keep = match tier {
                AlertTier::Grey => false,
                _ => true,
            };
        }
        if keep {
            assert(is_notified(items[i as int]));
            let ghost prev = out@;
            let e = build_embed(je);
            out.push(e);
            proof {
                assert(notified_idxs(ti1) =~= notified_idxs(ti).push(i as int));
                assert(out@ == prev.push(out@.last()));
                assert(embed_matches(out@.last(), items[i as int]));
                assert forall|k: int|
                    0 <= k < out@.len() implies embed_matches(
                    #[trigger] out@[k],
                    items[notified_idxs(ti1)[k]],
                ) by {
                    if k < prev.len() {
                        assert(notified_idxs(ti1)[k] == notified_idxs(ti)[k]);
                        assert(out@[k] == prev[k]);
                        assert(embed_matches(prev[k], items[notified_idxs(ti)[k]]));
                    } else {
                        assert(notified_idxs(ti1)[k] == i as int);
                    }
                };
            }
        } else {
            assert(!is_notified(items[i as int]));
            proof {
                assert(notified_idxs(ti1) =~= notified_idxs(ti));
            }
        }
        i = i + 1;
    }
    proof {
        assert(items.take(i as int) =~= items);
        lemma_notified_idxs_range(items);
    }
    out
}

/// Splits the embeds of one wishlist into messages of at most
/// `MESSAGE_EMBED_CAP` blocks, all carrying the same header.
fn chunk_messages(config: &NotifyConfig, content: &String, mut embeds: Vec<Embed>) -> (r: Vec<
    Message,
>)
    ensures
        r@.len() == (embeds@.len() + MESSAGE_EMBED_CAP - 1) as int / MESSAGE_EMBED_CAP as int,
        forall|m: int|
            0 <= m < r@.len() ==> {
                &&& (#[trigger] r@[m]).username@ == config.bot_name@
                &&& r@[m].avatar_url@ == config.avatar_url@
                &&& r@[m].content@ == content@
                &&& r@[m].embeds@ =~= embeds@.subrange(
                    m * MESSAGE_EMBED_CAP,
                    if (m + 1) * MESSAGE_EMBED_CAP <= embeds@.len() {
                        (m + 1) * MESSAGE_EMBED_CAP
                    } else {
                        embeds@.len() as int
                    },
                )
            },
{
    let ghost orig = embeds@;
    let cap = MESSAGE_EMBED_CAP;
    let mut messages: Vec<Message> = Vec::new();
    let mut cur: Vec<Embed> = Vec::new();
    let ghost mut consumed: int = 0;
    proof {
        assert(orig.skip(0) =~= orig);
        assert(cur@ =~= orig.subrange(0, 0));
    }
    while embeds.len() > 0
        invariant
            cap == MESSAGE_EMBED_CAP,
            0 <= consumed <= orig.len(),
            embeds@ =~= orig.skip(consumed),
            cur@.len() == consumed - messages@.len() * cap,
            cur@.len() < cap,
            cur@ =~= orig.subrange(messages@.len() * cap, consumed),
            forall|m: int|
                0 <= m < messages@.len() ==> {
                    &&& (#[trigger] messages@[m]).username@ == config.bot_name@
                    &&& messages@[m].avatar_url@ == config.avatar_url@
                    &&& messages@[m].content@ == content@
                    &&& messages@[m].embeds@ =~= orig.subrange(m * cap, (m + 1) * cap)
                },
        decreases embeds@.len(),
    {
        let e = embeds.remove(0);
        proof {
            assert(e == orig[consumed]);
            assert(embeds@ =~= orig.skip(consumed + 1));
        }
        cur.push(e);
        proof {
            consumed = consumed + 1;
            assert(cur@ =~= orig.subrange(messages@.len() * cap, consumed));
        }
        if cur.len() == cap {
            let ghost msgs_before = messages@;
            let full = cur;
            cur = Vec::new();
            messages.push(
                Message {
                    username: config.bot_name.clone(),
                    avatar_url: config.avatar_url.clone(),
                    content: content.clone(),
                    embeds: full,
                },
            );
            proof {
                assert(messages@.last().embeds@ =~= orig.subrange(
                    msgs_before.len() * cap,
                    consumed,
                ));
                assert(consumed == (msgs_before.len() + 1) * cap);
                assert(cur@ =~= orig.subrange(messages@.len() * cap, consumed));
            }
        }
    }
    proof {
        assert(consumed == orig.len());
    }
    if cur.len() > 0 {
        let ghost msgs_before = messages@;
        messages.push(
            Message {
                username: config.bot_name.clone(),
                avatar_url: config.avatar_url.clone(),
                content: content.clone(),
                embeds: cur,
            },
        );
        proof {
            assert(messages@.last().embeds@ =~= orig.subrange(
                msgs_before.len() * cap,
                orig.len() as int,
            ));
        }
    }
    proof {
        let n = orig.len() as int;
        let c = cap as int;
        let full = n / c;
        vstd::arithmetic::div_mod::lemma_fundamental_div_mod(n, c);
    }
    messages
}

/// Builds the outbound messages for one joined wishlist: `Grey` items are
/// dropped, the rest are chunked ten embeds to a message, each message
/// headed by the wishlist's title. Every message is filled to the cap except
/// the last, which takes the remainder — so the embeds across all messages
/// are exactly the notified items, each once, in order, and equal inputs
/// give equal messages.
pub fn build_messages(config: &NotifyConfig, jw: &JoinedWishList) -> (r: Vec<Message>)
    ensures
        r@.len() == (notified_idxs(jw.items@).len() + MESSAGE_EMBED_CAP - 1) as int
            / MESSAGE_EMBED_CAP as int,
        forall|m: int|
            0 <= m < r@.len() ==> {
                &&& (#[trigger] r@[m]).username@ == config.bot_name@
                &&& r@[m].avatar_url@ == config.avatar_url@
                &&& r@[m].content@ == spec_content_str(jw.wish_list.title@)
                &&& r@[m].embeds@.len() == (if (m + 1) * MESSAGE_EMBED_CAP <= notified_idxs(
                    jw.items@,
                ).len() {
                    MESSAGE_EMBED_CAP as int
                } else {
                    notified_idxs(jw.items@).len() - m * MESSAGE_EMBED_CAP
                })
            },
        forall|m: int, l: int|
            #![trigger r@[m].embeds@[l]]
            0 <= m < r@.len() && 0 <= l < r@[m].embeds@.len() ==> {
                let g = m * MESSAGE_EMBED_CAP + l;
                &&& 0 <= g < notified_idxs(jw.items@).len()
                &&& embed_matches(r@[m].embeds@[l], jw.items@[notified_idxs(jw.items@)[g]])
            },
{
    let embeds = build_embeds(jw);
    let ghost embeds_view = embeds@;
    let content = jw.wish_list.title.clone().concat(" のセール情報");
    let r = chunk_messages(config, &content, embeds);
    proof {
        assert forall|m: int, l: int|
            #![trigger r@[m].embeds@[l]]
            0 <= m < r@.len() && 0 <= l < r@[m].embeds@.len() implies {
            let g = m * MESSAGE_EMBED_CAP + l;
            &&& 0 <= g < notified_idxs(jw.items@).len()
            &&& embed_matches(r@[m].embeds@[l], jw.items@[notified_idxs(jw.items@)[g]])
        } by {
            assert(r@[m].embeds@[l] == embeds_view[m * MESSAGE_EMBED_CAP + l]);
        };
    }
    r
}

/// The plain-text operational alert for one failed unit.
pub open spec fn spec_alert_text(id: Seq<char>) -> Seq<char> {
    "update failed: "@ + id
}

/// Renders the operational alert text for one failed unit.
pub fn alert_text(id: &str) -> (r: String)
    ensures
        r@ == spec_alert_text(id@),
{
    String::from_str("update failed: ").concat(id)
}

/// Builds a plain operational alert message, bound for the alert channel,
/// with no embeds.
pub fn build_alert_message(config: &NotifyConfig, text: &str) -> (r: Message)
    ensures
        r.username@ == config.bot_name@,
        r.avatar_url@ == config.avatar_url@,
        r.content@ == text@,
        r.embeds@.len() == 0,
{
    Message {
        username: config.bot_name.clone(),
        avatar_url: config.avatar_url.clone(),
        content: text.to_owned(),
        embeds: Vec::new(),
    }
}

/// The items a sale notification lists: those with at least one snapshot,
/// whatever their tier — tier filtering happens at message building.
pub open spec fn with_snapshot_idxs(items: Seq<JoinedEbook>) -> Seq<int>
    decreases items.len(),
{
    if items.len() == 0 {
        Seq::empty()
    } else {
        with_snapshot_idxs(items.drop_last()) + (if items.last().snapshots@.len() > 0 {
            Seq::empty().push(items.len() - 1)
        } else {
            Seq::empty()
        })
    }
}

/// The rendered form of one item, colour symbolic.
pub open spec fn embed_item_matches(e: EmbedItem, je: JoinedEbook) -> bool {
    &&& je.snapshots@.len() > 0
    &&& e.title@ == je.ebook.title@
    &&& e.url@ == je.ebook.url@
    &&& e.color == spec_classify(je.snapshots@[0].discount_rate, je.snapshots@[0].points_rate)
    &&& e.price@ == spec_price_str(je.snapshots@[0].price)
    &&& e.discount_rate@ == spec_percent_str(effective_rate(je.snapshots@[0].discount_rate))
    &&& e.points_rate@ == spec_percent_str(je.snapshots@[0].points_rate as int)
    &&& e.update_datetime@ == spec_update_str(je.snapshots@[0].scraped_at as int)
}

impl EmbedItem {
    /// Renders one joined item, or nothing where it has no snapshot yet.
    pub fn new(je: &JoinedEbook) -> (r: Option<EmbedItem>)
        ensures
            r is Some <==> je.snapshots@.len() > 0,
            r matches Some(e) ==> embed_item_matches(e, *je),
    {
        if je.snapshots.len() == 0 {
            return None;
        }
        let snap = &je.snapshots[0];
        let tier = classify(snap.discount_rate, snap.points_rate);
        let d: i64 = match snap.discount_rate {
            None => 0,
            Some(v) => v,
        };
        Some(
            EmbedItem {
                title: je.ebook.title.clone(),
                url: je.ebook.url.clone(),
                color: tier,
                price: price_string(snap.price),
                discount_rate: percent_string(d),
                points_rate: percent_string_u64(snap.points_rate),
                update_datetime: update_string(snap.scraped_at),
            },
        )
    }
}

impl SaleNotification {
    /// Gathers one wishlist's items with snapshots into a notification bound
    /// for the sale channel.
    pub fn new(config: &NotifyConfig, jw: &JoinedWishList) -> (r: SaleNotification)
        ensures
            r.to@ == config.sale_chanel@,
            r.from_user_name@ == config.bot_name@,
            r.from_avatar_url@ == config.avatar_url@,
            r.content@ == spec_content_str(jw.wish_list.title@),
            r.embeds@.len() == with_snapshot_idxs(jw.items@).len(),
            forall|k: int|
                0 <= k < r.embeds@.len() ==> 0 <= with_snapshot_idxs(jw.items@)[k]
                    < jw.items@.len() && embed_item_matches(
                    #[trigger] r.embeds@[k],
                    jw.items@[with_snapshot_idxs(jw.items@)[k]],
                ),
    {
        let ghost items = jw.items@;
        let mut embeds: Vec<EmbedItem> = Vec::new();
        let mut i: usize = 0;
        proof {
            assert(items.take(0) =~= Seq::<JoinedEbook>::empty());
        }
        while i < jw.items.len()
            invariant
                i <= items.len(),
                items == jw.items@,
                embeds@.len() == with_snapshot_idxs(items.take(i as int)).len(),
                forall|k: int|
                    0 <= k < embeds@.len() ==> embed_item_matches(
                        #[trigger] embeds@[k],
                        items[with_snapshot_idxs(items.take(i as int))[k]],
                    ),
            decreases items.len() - i,
        {
            let ghost ti = items.take(i as int);
            let ghost ti1 = items.take(i + 1);
            proof {
                assert(ti1.drop_last() =~= ti);
                assert(ti1.last() == items[i as int]);
            }
            match EmbedItem::new(&jw.items[i]) {
                Some(e) => {
                    let ghost prev = embeds@;
                    embeds.push(e);
                    proof {
                        assert(with_snapshot_idxs(ti1) =~= with_snapshot_idxs(ti).push(i as int));
                        assert(embeds@ == prev.push(embeds@.last()));
                        assert(embed_item_matches(embeds@.last(), items[i as int]));
                        assert forall|k: int|
                            0 <= k < embeds@.len() implies embed_item_matches(
                            #[trigger] embeds@[k],
                            items[with_snapshot_idxs(ti1)[k]],
                        ) by {
                            if k < prev.len() {
                                assert(with_snapshot_idxs(ti1)[k] == with_snapshot_idxs(ti)[k]);
                                assert(embeds@[k] == prev[k]);
                                assert(embed_item_matches(
                                    prev[k],
                                    items[with_snapshot_idxs(ti)[k]],
                                ));
                            } else {
                                assert(with_snapshot_idxs(ti1)[k] == i as int);
                            }
                        };
                    }
                },
                None => {
                    proof {
                        assert(with_snapshot_idxs(ti1) =~= with_snapshot_idxs(ti));
                    }
                },
            }
            i = i + 1;
        }
        proof {
            assert(items.take(i as int) =~= items);
            lemma_with_snapshot_idxs_range(items);
        }
        SaleNotification {
            to: config.sale_chanel.clone(),
            from_user_name: config.bot_name.clone(),
            from_avatar_url: config.avatar_url.clone(),
            content: jw.wish_list.title.clone().concat(" のセール情報"),
            embeds,
        }
    }
}

} // verus!
