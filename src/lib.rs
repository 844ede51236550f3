pub mod bencode;
pub mod client;
pub mod error;
pub mod round_trip;
pub mod text;
pub mod torrent;
pub mod tracker;

pub use bencode::{decode_bencoded_value, encode, Term, Value};
pub use error::{Error, Field};
pub use torrent::{Torrent, TorrentInfo};
pub use tracker::{decode_compact_peers, PeerAddress, TrackerResponse};
pub use client::{append_info_hash, build_tracker_url, Client};
