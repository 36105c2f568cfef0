//! Change detection and snapshot persistence for a periodically scraped listing.
pub mod bot;
pub mod listing;
pub mod naming;
pub mod results;
pub mod state;
pub mod storage;
pub mod text;
