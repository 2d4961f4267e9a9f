//! The verified core of a desktop BitTorrent client: what the user sees
//! (sizes, dates, status words, file lists, peer names), the rules the app
//! follows (download queue, seeding limits, failing closed on a missing
//! network interface, settings validation), the loopback preview server's
//! request handling, moving a torrent's files, and torrent search through
//! declarative plugins.
pub mod text;
pub mod sort;
pub mod encoding;
pub mod units;
pub mod calendar;
pub mod peers;
pub mod settings;
pub mod network;
pub mod status;
pub mod torrents;
pub mod relocate;
pub mod detail;
pub mod queue;
pub mod preview;
pub mod search;
