//! Verified core of the trackit event tracker and of the tech-event
//! announcement generator: announcement templates, the Mastodon length rule,
//! per-period event counting, import-line and query-string parsing, date
//! formatting and the ordering and paging of event lists.

pub mod templates;
pub mod text;
pub mod mastodon;
pub mod counts;
pub mod query;
pub mod digits;
pub mod time;
pub mod events;
pub mod gestures;
pub mod export;
