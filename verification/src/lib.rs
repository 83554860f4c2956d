//! Privacy-respecting page view counting for static sites.
//!
//! A site's pages report their views; the library decides which are counted. Only paths that the
//! site's sitemap lists are, so many per minute and so many per hour, and nothing of a view is
//! kept but the path and the hour.

pub mod clock;
pub mod config;
pub mod error;
pub mod handlers;
pub mod rate_limit;
pub mod sitemap;
pub mod state;
pub mod stats;
pub mod text;
pub mod time;
