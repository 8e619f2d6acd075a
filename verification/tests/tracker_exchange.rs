use bittorrent::torrent_file::{Info, Keys, Torrent, TorrentError};
use bittorrent::tracker::{
    decimal_string, deserialize_tracker_response, tracker_request, urlencode, TrackerError,
    TrackerRequest, TrackerResponse, TRACKER_PORT,
};

#[test]
fn urlencode_escapes_every_byte() {
    assert_eq!(urlencode(&[0x12, 0xab, 0x00, 0xff]), "%12%ab%00%ff");
    assert_eq!(urlencode(&[]), "");
}

#[test]
fn decimal_text() {
    assert_eq!(decimal_string(0), "0");
    assert_eq!(decimal_string(6881), "6881");
    assert_eq!(decimal_string(u64::MAX), "18446744073709551615");
}

#[test]
fn request_fields() {
    let r = TrackerRequest::new([1u8; 20], "10112233445366778898", 92063);
    assert_eq!(r.info_hash, [1u8; 20]);
    assert_eq!(r.peer_id, "10112233445366778898");
    assert_eq!(r.port, TRACKER_PORT);
    assert_eq!(r.uploaded, 0);
    assert_eq!(r.downloaded, 0);
    assert_eq!(r.left, 92063);
    assert_eq!(r.compact, 1);
}

#[test]
fn request_query_text() {
    let r = TrackerRequest::new([0xd6u8; 20], "10112233445366778898", 92063);
    assert_eq!(
        r.url_params().unwrap(),
        "peer_id=10112233445366778898&port=6881&uploaded=0&downloaded=0&left=92063&compact=1"
    );
    let url = r.tracker_url("http://bittorrent-test-tracker.codecrafters.io/announce").unwrap();
    let mut expected = "http://bittorrent-test-tracker.codecrafters.io/announce?peer_id=10112233445366778898&port=6881&uploaded=0&downloaded=0&left=92063&compact=1&info_hash=".to_string();
    for _ in 0..20 {
        expected.push_str("%d6");
    }
    assert_eq!(url, expected);
}

#[test]
fn request_peer_id_is_form_encoded() {
    let r = TrackerRequest::new([0u8; 20], "a b&c", 1);
    assert!(r.url_params().unwrap().starts_with("peer_id=a+b%26c&port="));
}

#[test]
fn request_for_torrent() {
    let mut t = Torrent {
        announce: "http://t/a".to_string(),
        created_by: Some("me".to_string()),
        info: Info {
            name: "f".to_string(),
            piece_length: 4,
            pieces: vec![[2u8; 20]],
            keys: Keys::SingleFile { length: 3 },
        },
    };
    let r = tracker_request(&t, "10112233445366778898").unwrap();
    assert_eq!(r.left, 3);
    assert_eq!(r.info_hash, t.info_hash().unwrap());
    t.info.keys = Keys::MultiFile { files: Vec::new() };
    assert_eq!(tracker_request(&t, "x").unwrap_err(), TorrentError::MultiFile);
}

#[test]
fn compact_peers() {
    let resp = TrackerResponse {
        interval: Some(60),
        peers: vec![165, 232, 33, 77, 0x1a, 0xe1, 10, 0, 0, 1, 0, 80],
    };
    let peers = resp.peers().unwrap();
    assert_eq!(peers.len(), 2);
    assert_eq!(peers[0], ([165, 232, 33, 77], 6881));
    assert_eq!(peers[1], ([10, 0, 0, 1], 80));
    let bad = TrackerResponse { interval: None, peers: vec![1, 2, 3, 4, 5, 6, 7] };
    assert_eq!(bad.peers(), Err(TrackerError::InvalidPeers(7)));
    let none = TrackerResponse { interval: None, peers: Vec::new() };
    assert_eq!(none.peers(), Ok(Vec::new()));
}

#[test]
fn compact_list_length_is_checked() {
    assert_eq!(deserialize_tracker_response(vec![0; 12]), Ok(vec![0; 12]));
    assert_eq!(deserialize_tracker_response(vec![0; 5]), Err(TrackerError::InvalidPeers(5)));
}
