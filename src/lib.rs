pub mod canonical;
pub mod error;
pub mod peer;
pub mod peer_id;
pub mod torrent;
pub mod tracker;
pub mod value;
