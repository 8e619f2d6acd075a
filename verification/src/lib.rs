//! A BitTorrent client library: the peer wire protocol, the torrent
//! metainfo model, the tracker exchange and the download bookkeeping.

pub mod bencode;
pub mod decode;
pub mod outside;
pub mod peer;
pub mod seqs;
pub mod torrent_file;
pub mod tracker;
pub mod worker;
