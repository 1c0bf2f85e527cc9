//! Websocket arbitration for redundant order-book feeds.
//!
//! Several upstream nodes publish the same market data. This library decides,
//! frame by frame, which copy goes out to the subscribed clients, keeps the
//! registry of who is subscribed to what, holds frames back for clients that
//! wait for a snapshot, and renders the statistics page. The same frames are what
//! the load test of [`loadtest`] measures and compares. Sockets, clocks and files
//! stay with the program around it: every decision here is a function of plain
//! values.

pub mod text;
pub mod order;
pub mod key;
pub mod text_laws;
pub mod wire;
pub mod wire_laws;
pub mod arbitration;
pub mod ruling_laws;
pub mod race_laws;
pub mod entry;
pub mod entry_laws;
pub mod stats;
pub mod stats_laws;
pub mod registry;
pub mod client;
pub mod state;
pub mod state_laws;
pub mod update_laws;
pub mod request_laws;
pub mod upstream;
pub mod upstream_laws;
pub mod probes;
pub mod page;
pub mod page_laws;
pub mod loadtest;
