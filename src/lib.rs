pub mod bencode;
pub mod digest;
pub mod endian;
pub mod handshake;
pub mod metainfo;
pub mod peer_id;
pub mod scheduler;
pub mod session;
pub mod tracker;
pub mod wire;
