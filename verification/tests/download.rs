use sha1::Digest;

use bittorrent::peer::{PeerMessage, Tag};
use bittorrent::torrent_file::{Info, Keys, Torrent};
use bittorrent::worker::{
    can_start, piece_size, DownloadError, PieceDownload, PieceStore, PieceWorker, PiecesQueue,
    WorkerAction, BLOCK_SIZE,
};

fn sha1_digest(data: &[u8]) -> [u8; 20] {
    let mut hasher = sha1::Sha1::new();
    hasher.update(data);
    hasher.finalize().into()
}

fn torrent(file_len: usize, piece_length: usize, hashes: Vec<[u8; 20]>) -> Torrent {
    Torrent {
        announce: "http://t/a".to_string(),
        created_by: None,
        info: Info {
            name: "f".to_string(),
            piece_length,
            pieces: hashes,
            keys: Keys::SingleFile { length: file_len },
        },
    }
}

fn block_payload(index: u32, begin: u32, data: &[u8]) -> Vec<u8> {
    let mut v = index.to_be_bytes().to_vec();
    v.extend_from_slice(&begin.to_be_bytes());
    v.extend_from_slice(data);
    v
}

#[test]
fn queue_is_first_in_first_out() {
    let mut q = PiecesQueue::new(0..3);
    assert_eq!(q.len(), 3);
    assert_eq!(q.take_piece(), Some(0));
    q.push_piece(0);
    assert_eq!(q.take_piece(), Some(1));
    assert_eq!(q.take_piece(), Some(2));
    assert_eq!(q.take_piece(), Some(0));
    assert_eq!(q.take_piece(), None);
    let mut e = PiecesQueue::new(5..2);
    assert_eq!(e.take_piece(), None);
}

#[test]
fn piece_sizes() {
    let t = torrent(100, 40, vec![[0; 20]; 3]);
    assert_eq!(piece_size(&t, 100, 0), 40);
    assert_eq!(piece_size(&t, 100, 2), 20);
    let even = torrent(80, 40, vec![[0; 20]; 2]);
    assert_eq!(piece_size(&even, 80, 1), 40);
}

#[test]
fn blocks_cover_a_piece() {
    let t = torrent(40000, 40000, vec![[0; 20]]);
    let d = PieceDownload::new(&t, 40000, 0);
    assert_eq!(d.piece_size, 40000);
    assert_eq!(d.n_blocks, 3);
    let r = d.next_request().unwrap();
    assert_eq!((r.index, r.begin, r.length), (0, 0, BLOCK_SIZE as u32));
    let t2 = torrent(32768, 32768, vec![[0; 20]]);
    let d2 = PieceDownload::new(&t2, 32768, 0);
    assert_eq!(d2.n_blocks, 2);
}

#[test]
fn blocks_are_checked_and_kept() {
    let data: Vec<u8> = (0..20000u32).map(|i| (i % 251) as u8).collect();
    let hash = sha1_digest(&data);
    let t = torrent(20000, 20000, vec![hash]);
    let mut d = PieceDownload::new(&t, 20000, 0);
    assert!(!d.accept_block(&[]));
    assert!(!d.accept_block(&[0, 0, 0, 0, 0, 0, 0]));
    assert!(!d.accept_block(&block_payload(1, 0, &data[..BLOCK_SIZE])));
    assert!(!d.accept_block(&block_payload(0, 1, &data[..BLOCK_SIZE])));
    assert!(!d.accept_block(&block_payload(0, 0, &data[..100])));
    assert_eq!(d.block, 0);
    assert!(d.accept_block(&block_payload(0, 0, &data[..BLOCK_SIZE])));
    let r = d.next_request().unwrap();
    assert_eq!((r.index, r.begin, r.length), (0, BLOCK_SIZE as u32, (20000 - BLOCK_SIZE) as u32));
    assert!(!d.is_valid());
    assert!(d.accept_block(&block_payload(0, BLOCK_SIZE as u32, &data[BLOCK_SIZE..])));
    assert!(d.next_request().is_none());
    assert!(d.is_valid());
    assert_eq!(d.data, data);
}

#[test]
fn worker_fetches_a_piece() {
    let data = vec![7u8; 10];
    let t = torrent(10, 10, vec![sha1_digest(&data)]);
    let (mut w, first) = PieceWorker::new(10);
    assert!(matches!(first, WorkerAction::Take));
    let req = match w.on_taken(&t, Some(0)) {
        WorkerAction::Send(r) => r,
        other => panic!("unexpected {:?}", other),
    };
    assert_eq!((req.index, req.begin, req.length), (0, 0, 10));
    assert!(matches!(w.on_sent(true), WorkerAction::Receive));
    let msg = PeerMessage { tag: Tag::Piece, payload: block_payload(0, 0, &data) };
    match w.on_received(Some(msg)) {
        WorkerAction::Deliver(p, out) => {
            assert_eq!(p, 0);
            assert_eq!(out, data);
        }
        other => panic!("unexpected {:?}", other),
    }
    assert!(matches!(w.on_taken(&t, None), WorkerAction::Stop));
}

#[test]
fn worker_gives_pieces_up() {
    let data = vec![7u8; 10];
    let t = torrent(10, 10, vec![sha1_digest(&data)]);
    let (mut w, _) = PieceWorker::new(10);
    w.on_taken(&t, Some(0));
    assert!(matches!(w.on_sent(false), WorkerAction::GiveUp(0, 1)));

    w.on_taken(&t, Some(0));
    w.on_sent(true);
    assert!(matches!(w.on_received(None), WorkerAction::GiveUp(0, 2)));

    w.on_taken(&t, Some(0));
    w.on_sent(true);
    let short = PeerMessage { tag: Tag::Piece, payload: vec![0, 0, 0, 0] };
    assert!(matches!(w.on_received(Some(short)), WorkerAction::GiveUp(0, 1)));

    w.on_taken(&t, Some(0));
    w.on_sent(true);
    let wrong = PeerMessage { tag: Tag::Piece, payload: block_payload(0, 0, &[8u8; 10]) };
    assert!(matches!(w.on_received(Some(wrong)), WorkerAction::GiveUp(0, 1)));
}

#[test]
fn pieces_that_cannot_start() {
    let t = torrent(10, 0, vec![[0; 20]; 2]);
    assert!(can_start(&t, 10, 0));
    assert!(!can_start(&t, 10, 1));
    assert!(!can_start(&t, 10, 2));
}

#[test]
fn store_puts_pieces_in_order() {
    let mut s = PieceStore::new();
    assert_eq!(s.insert(1, vec![3, 4]), Ok(()));
    assert_eq!(s.insert(0, vec![1, 2]), Ok(()));
    assert_eq!(s.check_complete(3), Err(DownloadError::MissingPieces(2, 3)));
    assert_eq!(s.check_complete(2), Ok(()));
    assert_eq!(s.ordered_chunks(), vec![1, 2, 3, 4]);
    assert_eq!(s.insert(1, vec![9]), Err(DownloadError::RepeatedPiece(1)));
    assert_eq!(s.len(), 2);
    assert_eq!(s.ordered_chunks(), vec![1, 2, 9]);
}
