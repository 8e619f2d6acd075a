use bittorrent::peer::{
    Handshake, MsgFramed, PeerError, PeerMessage, Piece, Request, Tag, HANDSHAKE_LEN,
    MAX_FRAME_LEN,
};

const PROTOCOL: &[u8; 19] = b"BitTorrent protocol";

#[test]
fn handshake_new_sets_protocol_and_ids() {
    let h = Handshake::new([7u8; 20], *b"10112233445366778898");
    assert_eq!(h.lenght, 19);
    assert_eq!(&h.protocol, PROTOCOL);
    assert_eq!(h.reserve, [0u8; 8]);
    assert_eq!(h.info_hash, [7u8; 20]);
    assert_eq!(&h.peer_id, b"10112233445366778898");
}

#[test]
fn handshake_bytes_layout() {
    let h = Handshake::new([7u8; 20], *b"10112233445366778898");
    let b = h.as_bytes();
    assert_eq!(b.len(), HANDSHAKE_LEN);
    assert_eq!(b[0], 19);
    assert_eq!(&b[1..20], PROTOCOL);
    assert_eq!(&b[20..28], &[0u8; 8]);
    assert_eq!(&b[28..48], &[7u8; 20]);
    assert_eq!(&b[48..68], b"10112233445366778898");
}

#[test]
fn handshake_roundtrip_through_bytes() {
    let h = Handshake::new([3u8; 20], [9u8; 20]);
    let back = Handshake::from_bytes(&h.as_bytes());
    assert_eq!(back.lenght, h.lenght);
    assert_eq!(back.protocol, h.protocol);
    assert_eq!(back.reserve, h.reserve);
    assert_eq!(back.info_hash, h.info_hash);
    assert_eq!(back.peer_id, h.peer_id);

    let mut raw = [0u8; 68];
    for (i, b) in raw.iter_mut().enumerate() {
        *b = i as u8;
    }
    let parsed = Handshake::from_bytes(&raw);
    assert_eq!(parsed.lenght, 0);
    assert_eq!(parsed.peer_id[0], 48);
    assert_eq!(parsed.as_bytes(), raw);
}

#[test]
fn request_bytes_are_big_endian() {
    let r = Request { index: 1, begin: 16384, length: 0x0102_0304 };
    assert_eq!(r.as_bytes(), [0, 0, 0, 1, 0, 0, 64, 0, 1, 2, 3, 4]);
}

#[test]
fn piece_payload_is_read() {
    let payload = [0u8, 0, 0, 2, 0, 0, 1, 0, 9, 8, 7];
    let p = Piece::ref_from_payload(&payload).expect("piece");
    assert_eq!(p.index, 2);
    assert_eq!(p.begin, 256);
    assert_eq!(p.piece, &[9, 8, 7]);
    let empty_block = [0u8, 0, 0, 1, 0, 0, 0, 0];
    let p = Piece::ref_from_payload(&empty_block).expect("piece");
    assert!(p.piece.is_empty());
    assert!(Piece::ref_from_payload(&[0u8, 0, 0, 1, 0, 0, 0]).is_none());
    assert!(Piece::ref_from_payload(&[]).is_none());
}

#[test]
fn tags_read_back_from_their_numbers() {
    let tags = [
        Tag::_Choke,
        Tag::Unchoke,
        Tag::Interested,
        Tag::_NotInterested,
        Tag::_Have,
        Tag::Bitfield,
        Tag::Request,
        Tag::_Cancel,
        Tag::Piece,
    ];
    for (i, t) in tags.iter().enumerate() {
        assert_eq!(t.as_u8(), i as u8);
        assert_eq!(Tag::try_from(i as u8), Ok(*t));
    }
    assert_eq!(Tag::try_from(9), Err(PeerError::InvalidTag(9)));
    assert_eq!(Tag::try_from(255), Err(PeerError::InvalidTag(255)));
}

#[test]
fn frame_decode_needs_whole_frames() {
    let mut codec = MsgFramed;
    assert_eq!(codec.decode(&[]).0, 0);
    assert!(codec.decode(&[0, 0, 0]).1.unwrap().is_none());
    let (used, msg) = codec.decode(&[0, 0, 0, 3, 5, 1]);
    assert_eq!(used, 0);
    assert!(msg.unwrap().is_none());
    let (used, msg) = codec.decode(&[0, 0, 0, 3, 5, 1, 2, 99]);
    assert_eq!(used, 7);
    let msg = msg.unwrap().expect("message");
    assert_eq!(msg.tag, Tag::Bitfield);
    assert_eq!(msg.payload, vec![1, 2]);
}

#[test]
fn frame_decode_skips_keep_alives() {
    let mut codec = MsgFramed;
    let (used, msg) = codec.decode(&[0, 0, 0, 0, 0, 0, 0, 0, 0, 0, 0, 1, 1]);
    assert_eq!(used, 13);
    assert_eq!(msg.unwrap().expect("message").tag, Tag::Unchoke);
    let (used, msg) = codec.decode(&[0, 0, 0, 0, 0, 0]);
    assert_eq!(used, 4);
    assert!(msg.unwrap().is_none());
}

#[test]
fn frame_decode_errors() {
    let mut codec = MsgFramed;
    let (used, msg) = codec.decode(&[0, 1, 0, 1, 7]);
    assert_eq!(used, 0);
    assert_eq!(msg.unwrap_err(), PeerError::FrameTooLarge(65537));
    let (used, msg) = codec.decode(&[0, 0, 0, 1, 12]);
    assert_eq!(used, 0);
    assert_eq!(msg.unwrap_err(), PeerError::InvalidTag(12));
    // Keep-alives before a refused frame are used up all the same.
    let (used, msg) = codec.decode(&[0, 0, 0, 0, 0, 0, 0, 0, 0, 0, 0, 1, 12]);
    assert_eq!(used, 8);
    assert_eq!(msg.unwrap_err(), PeerError::InvalidTag(12));
    // A frame of the largest length with only its prefix in is not refused.
    assert!(codec.decode(&[0, 1, 0, 0, 1]).1.unwrap().is_none());
    // A prefix alone is awaited, however large.
    assert!(codec.decode(&[255, 255, 255, 255]).1.unwrap().is_none());
}

#[test]
fn frame_encode_then_decode() {
    let mut codec = MsgFramed;
    let mut out = vec![42u8];
    codec
        .encode(PeerMessage { tag: Tag::Request, payload: vec![0, 0, 0, 1, 0, 0, 0, 0, 0, 0, 64, 0] }, &mut out)
        .unwrap();
    assert_eq!(out[..5], [42, 0, 0, 0, 13]);
    assert_eq!(out[5], 6);
    let (used, msg) = codec.decode(&out[1..]);
    assert_eq!(used, 17);
    let msg = msg.unwrap().unwrap();
    assert_eq!(msg.tag, Tag::Request);
    assert_eq!(msg.payload, vec![0, 0, 0, 1, 0, 0, 0, 0, 0, 0, 64, 0]);

    let mut out = Vec::new();
    codec.encode(PeerMessage { tag: Tag::Interested, payload: Vec::new() }, &mut out).unwrap();
    assert_eq!(out, vec![0, 0, 0, 1, 2]);
}

#[test]
fn frame_encode_refuses_large_messages() {
    let mut codec = MsgFramed;
    let mut out = vec![1u8];
    let r = codec.encode(PeerMessage { tag: Tag::Piece, payload: vec![0; MAX_FRAME_LEN] }, &mut out);
    assert_eq!(r, Err(PeerError::MessageTooLarge(MAX_FRAME_LEN + 1)));
    assert_eq!(out, vec![1u8]);
    let mut out = Vec::new();
    codec
        .encode(PeerMessage { tag: Tag::Piece, payload: vec![0; MAX_FRAME_LEN - 1] }, &mut out)
        .unwrap();
    assert_eq!(out.len(), 4 + MAX_FRAME_LEN);
    assert_eq!(PeerMessage::MAX, MAX_FRAME_LEN);
}
