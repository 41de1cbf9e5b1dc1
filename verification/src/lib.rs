//! Watches e-commerce wishlists and product pages: structured extraction of
//! prices and points from scraped page text, snapshot persistence with
//! upsert-and-diff semantics, price analytics on a fixed-point scale, and
//! tiered sale notifications.
//!
//! Everything that decides or computes lives here, verified. The unverified
//! shell around this library performs the browser automation, the real
//! persistence and the outbound webhooks, and hands plain values in and out.

pub mod analytics;
pub mod attrs;
pub mod batch;
pub mod clock;
pub mod extract;
pub mod models;
pub mod notify;
pub mod pipeline;
pub mod query;
pub mod scrape;
pub mod store;
pub mod text;
pub mod tier;
pub mod urls;
