//! Watches a content-search feed for items that link to PDF documents:
//! classifies raw search hits, extracts the qualifying document link, and
//! keeps the qualifying items in a deduplicated, timestamp-ordered store
//! with paginated listing, keyed lookup and text search.

pub mod client;
pub mod decimal;
pub mod extract;
pub mod scrape;
pub mod store;
pub mod text;
