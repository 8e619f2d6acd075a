use sha1::Digest;

use bittorrent::bencode::{parse_bencode, BValue};
use bittorrent::torrent_file::{
    deserialize_pieces, serialize_pieces, File, Info, Keys, Torrent, TorrentError,
};

fn sha1_digest(data: &[u8]) -> [u8; 20] {
    let mut hasher = sha1::Sha1::new();
    hasher.update(data);
    hasher.finalize().into()
}

fn sample(keys: Keys) -> Torrent {
    let mut pieces = Vec::new();
    pieces.push([1u8; 20]);
    pieces.push([0xabu8; 20]);
    Torrent {
        announce: "http://tracker.example/announce".to_string(),
        created_by: None,
        info: Info { name: "sample.txt".to_string(), piece_length: 32768, pieces, keys },
    }
}

fn expected_single() -> Vec<u8> {
    let mut v = b"d6:lengthi92063e4:name10:sample.txt12:piece lengthi32768e6:pieces40:".to_vec();
    v.extend_from_slice(&[1u8; 20]);
    v.extend_from_slice(&[0xabu8; 20]);
    v.push(b'e');
    v
}

#[test]
fn info_dictionary_single_file() {
    let t = sample(Keys::SingleFile { length: 92063 });
    assert_eq!(t.info.bencoded(), expected_single());
}

#[test]
fn info_dictionary_several_files() {
    let files = vec![
        File { length: 5, path: vec!["a".to_string(), "b.txt".to_string()] },
        File { length: 0, path: Vec::new() },
    ];
    let t = sample(Keys::MultiFile { files });
    let mut v = b"d5:filesld6:lengthi5e4:pathl1:a5:b.txteed6:lengthi0e4:pathleee4:name10:sample.txt12:piece lengthi32768e6:pieces40:".to_vec();
    v.extend_from_slice(&[1u8; 20]);
    v.extend_from_slice(&[0xabu8; 20]);
    v.push(b'e');
    assert_eq!(t.info.bencoded(), v);
}

#[test]
fn info_hash_is_the_digest_of_the_info_dictionary() {
    let t = sample(Keys::SingleFile { length: 92063 });
    let h = t.info_hash().unwrap();
    assert_eq!(h, sha1_digest(&expected_single()));
    assert_eq!(hex::encode(h), "dd5994ca52e1e7a1d97f6e49d1ff66b937815ba5");
}

#[test]
fn file_length_and_pieces() {
    let t = sample(Keys::SingleFile { length: 92063 });
    assert_eq!(t.info.file_length(), Some(92063));
    assert_eq!(t.num_pieces(), 2);
    let m = sample(Keys::MultiFile { files: Vec::new() });
    assert_eq!(m.info.file_length(), None);
}

#[test]
fn piece_hashes_are_hex() {
    let t = sample(Keys::SingleFile { length: 1 });
    let h = t.piece_hashes();
    assert_eq!(h.len(), 2);
    assert_eq!(h[0], "0101010101010101010101010101010101010101");
    assert_eq!(h[1], "abababababababababababababababababababab");
}

#[test]
fn pieces_field_splits_into_hashes() {
    let mut buf = vec![0u8; 40];
    buf[20] = 5;
    let p = deserialize_pieces(&buf).unwrap();
    assert_eq!(p.len(), 2);
    assert_eq!(p[1][0], 5);
    assert_eq!(serialize_pieces(&p), buf);
    assert_eq!(deserialize_pieces(&[0u8; 41]), Err(TorrentError::InvalidPiecesLength(41)));
    assert_eq!(deserialize_pieces(&[]).unwrap().len(), 0);
}

#[test]
fn info_dictionary_reads_back() {
    let t = sample(Keys::SingleFile { length: 92063 });
    let bytes = t.info.bencoded();
    let (v, used) = parse_bencode(&bytes).unwrap();
    assert_eq!(used, bytes.len());
    let mut flat = vec![1u8; 20];
    flat.extend_from_slice(&[0xabu8; 20]);
    assert_eq!(
        v,
        BValue::Dict(vec![
            (b"length".to_vec(), BValue::Int(92063)),
            (b"name".to_vec(), BValue::Bytes(b"sample.txt".to_vec())),
            (b"piece length".to_vec(), BValue::Int(32768)),
            (b"pieces".to_vec(), BValue::Bytes(flat)),
        ])
    );
}
