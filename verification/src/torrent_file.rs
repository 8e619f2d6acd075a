//! The torrent metainfo: what a `.torrent` file describes, the hash that
//! names a torrent, and the piece hashes.
use vstd::prelude::*;
use vstd::utf8::encode_utf8;

use crate::bencode::{
    encode, i64_pos_limit, keys_unique, lemma_encode_entries_push, lemma_encode_list_push,
    lemma_parse_encode, parse_value, wf, wf_entries, wf_list, write_bytes, write_uint, Bencode,
    TOKEN_DICT, TOKEN_END, TOKEN_LIST,
};
use crate::outside::{hex_encode, hex_text, sha1_digest, sha1_digest_of};
use crate::seqs::append_bytes;

verus! {

/// The length of a SHA-1 digest.
pub const SHA1_LEN: usize = 20;

/// The length of each piece hash in the `pieces` field.
pub const PIECES_HASH_LEN: usize = SHA1_LEN;

/// A torrent: the tracker to ask for peers, and what is shared.
#[derive(Debug)]
pub struct Torrent {
    pub announce: String,
    pub created_by: Option<String>,
    pub info: Info,
}

/// What a torrent shares: its name, the length of its pieces, the SHA-1
/// hash of each piece, and its file or files.
#[derive(Debug)]
pub struct Info {
    pub name: String,
    pub piece_length: usize,
    pub pieces: Vec<[u8; PIECES_HASH_LEN]>,
    pub keys: Keys,
}

/// A single file with its length, or several files.
#[derive(Debug, Clone)]
pub enum Keys {
    SingleFile { length: usize },
    MultiFile { files: Vec<File> },
}

/// One file of a torrent with several files.
#[derive(Debug, Clone)]
pub struct File {
    pub length: usize,
    pub path: Vec<String>,
}

/// Errors about torrents.
#[derive(Debug, Clone, Copy, PartialEq, Eq, Structural)]
pub enum TorrentError {
    /// The torrent has several files, which is not handled.
    MultiFile,
    /// The `pieces` field's length (held) is not a multiple of 20.
    InvalidPiecesLength(usize),
}

// ---------------------------------------------------------------------------
// Piece hashes as one byte string
// ---------------------------------------------------------------------------

/// The piece hashes one after the other.
pub open spec fn flat_pieces(p: Seq<[u8; PIECES_HASH_LEN]>) -> Seq<u8>
    decreases p.len(),
{
    if p.len() == 0 {
        Seq::empty()
    } else {
        flat_pieces(p.drop_last()) + p.last()@
    }
}

proof fn lemma_flat_pieces_len(p: Seq<[u8; PIECES_HASH_LEN]>)
    ensures
        flat_pieces(p).len() == 20 * p.len(),
    decreases p.len(),
{
    if p.len() > 0 {
        lemma_flat_pieces_len(p.drop_last());
    }
}

/// Hash lists with the same bytes are the same list, and their bytes are a
/// whole number of hashes.
pub proof fn lemma_flat_pieces_injective(p: Seq<[u8; PIECES_HASH_LEN]>, q: Seq<[u8; PIECES_HASH_LEN]>)
    requires
        flat_pieces(p) == flat_pieces(q),
    ensures
        p == q,
        flat_pieces(p).len() % 20 == 0,
    decreases p.len(),
{
    lemma_flat_pieces_len(p);
    lemma_flat_pieces_len(q);
    if p.len() > 0 {
        let a = flat_pieces(p.drop_last());
        let b = flat_pieces(q.drop_last());
        lemma_flat_pieces_len(p.drop_last());
        lemma_flat_pieces_len(q.drop_last());
        let f = flat_pieces(p);
        assert(a =~= f.subrange(0, a.len() as int));
        assert(b =~= f.subrange(0, a.len() as int));
        assert(p.last()@ =~= f.subrange(a.len() as int, f.len() as int));
        assert(q.last()@ =~= f.subrange(a.len() as int, f.len() as int));
        lemma_flat_pieces_injective(p.drop_last(), q.drop_last());
        assert(p.last() == q.last());
        assert(p =~= p.drop_last().push(p.last()));
        assert(q =~= q.drop_last().push(q.last()));
    } else {
        assert(p =~= q);
    }
}

/// Joins piece hashes into one byte string, as the `pieces` field holds them.
pub fn serialize_pieces(pieces: &[[u8; PIECES_HASH_LEN]]) -> (r: Vec<u8>)
    ensures
        r@ == flat_pieces(pieces@),
{
    let mut out: Vec<u8> = Vec::new();
    let mut i: usize = 0;
    while i < pieces.len()
        invariant
            i <= pieces@.len(),
            out@ == flat_pieces(pieces@.subrange(0, i as int)),
        decreases pieces@.len() - i,
    {
        proof {
            assert(pieces@.subrange(0, i + 1).drop_last() =~= pieces@.subrange(0, i as int));
        }
        append_bytes(&mut out, pieces[i].as_slice());
        i = i + 1;
    }
    proof {
        assert(pieces@.subrange(0, i as int) =~= pieces@);
    }
    out
}

/// Splits the `pieces` field into 20-byte hashes; a length that is not a
/// multiple of 20 is refused.
pub fn deserialize_pieces(buf: &[u8]) -> (r: Result<Vec<[u8; PIECES_HASH_LEN]>, TorrentError>)
    ensures
        buf@.len() % 20 != 0 ==> r == Err::<Vec<[u8; PIECES_HASH_LEN]>, TorrentError>(
            TorrentError::InvalidPiecesLength(buf@.len() as usize),
        ),
        buf@.len() % 20 == 0 ==> r is Ok,
        r matches Ok(v) ==> flat_pieces(v@) == buf@,
{
    if buf.len() % PIECES_HASH_LEN != 0 {
        return Err(TorrentError::InvalidPiecesLength(buf.len()));
    }
    let mut out: Vec<[u8; PIECES_HASH_LEN]> = Vec::new();
    let mut off: usize = 0;
    while off < buf.len()
        invariant
            buf@.len() % 20 == 0,
            off <= buf@.len(),
            off % 20 == 0,
            flat_pieces(out@) == buf@.subrange(0, off as int),
        decreases buf@.len() - off,
    {
        assert(off + 20 <= buf@.len()) by (nonlinear_arith)
            requires
                off < buf@.len(),
                off % 20 == 0,
                buf@.len() % 20 == 0,
        ;
        let blen = buf.len();
        let mut array = [0u8; PIECES_HASH_LEN];
        let mut k: usize = 0;
        while k < PIECES_HASH_LEN
            invariant
                blen == buf@.len(),
                off + 20 <= blen,
                k <= 20,
                array@.len() == 20,
                forall|j: int| 0 <= j < k ==> array@[j] == buf@[off + j],
            decreases 20 - k,
        {
            array[k] = buf[off + k];
            k = k + 1;
        }
        let ghost before = out@;
        out.push(array);
        proof {
            assert(array@ =~= buf@.subrange(off as int, off + 20));
            assert(out@.drop_last() =~= before);
            assert(buf@.subrange(0, off + 20) =~= buf@.subrange(0, off as int) + buf@.subrange(
                off as int,
                off + 20,
            ));
        }
        off = off + PIECES_HASH_LEN;
    }
    proof {
        assert(buf@.subrange(0, off as int) =~= buf@);
    }
    Ok(out)
}

/// The piece hashes read back from their joined bytes are the same hashes.
pub proof fn lemma_pieces_roundtrip(p: Seq<[u8; PIECES_HASH_LEN]>, q: Seq<[u8; PIECES_HASH_LEN]>)
    ensures
        flat_pieces(p).len() % 20 == 0,
        flat_pieces(q) == flat_pieces(p) ==> q == p,
{
    lemma_flat_pieces_len(p);
    if flat_pieces(q) == flat_pieces(p) {
        lemma_flat_pieces_injective(q, p);
    }
}

// ---------------------------------------------------------------------------
// The info dictionary and the info hash
// ---------------------------------------------------------------------------

/// `length`.
pub open spec fn key_length() -> Seq<u8> {
    seq![108u8, 101, 110, 103, 116, 104]
}

/// `files`.
pub open spec fn key_files() -> Seq<u8> {
    seq![102u8, 105, 108, 101, 115]
}

/// `name`.
pub open spec fn key_name() -> Seq<u8> {
    seq![110u8, 97, 109, 101]
}

/// `piece length`.
pub open spec fn key_piece_length() -> Seq<u8> {
    seq![112u8, 105, 101, 99, 101, 32, 108, 101, 110, 103, 116, 104]
}

/// `pieces`.
pub open spec fn key_pieces() -> Seq<u8> {
    seq![112u8, 105, 101, 99, 101, 115]
}

/// `path`.
pub open spec fn key_path() -> Seq<u8> {
    seq![112u8, 97, 116, 104]
}

/// The path components of a file as byte strings.
pub open spec fn path_values(path: Seq<String>) -> Seq<Bencode> {
    Seq::new(path.len(), |i: int| Bencode::Bytes(encode_utf8(path[i]@)))
}

/// A file as a dictionary: its length, then its path.
pub open spec fn file_value(f: File) -> Bencode {
    Bencode::Dict(
        seq![
            (key_length(), Bencode::Int(f.length as int)),
            (key_path(), Bencode::List(path_values(f.path@))),
        ],
    )
}

/// The files as dictionaries.
pub open spec fn files_value(files: Seq<File>) -> Seq<Bencode> {
    Seq::new(files.len(), |i: int| file_value(files[i]))
}

/// The entry that describes the file or files.
pub open spec fn keys_entry(k: Keys) -> (Seq<u8>, Bencode) {
    match k {
        Keys::SingleFile { length } => (key_length(), Bencode::Int(length as int)),
        Keys::MultiFile { files } => (key_files(), Bencode::List(files_value(files@))),
    }
}

/// The info dictionary, its keys in byte order: the file entry (`files` or
/// `length`), `name`, `piece length`, `pieces`.
pub open spec fn info_value(info: Info) -> Bencode {
    Bencode::Dict(
        seq![
            keys_entry(info.keys),
            (key_name(), Bencode::Bytes(encode_utf8(info.name@))),
            (key_piece_length(), Bencode::Int(info.piece_length as int)),
            (key_pieces(), Bencode::Bytes(flat_pieces(info.pieces@))),
        ],
    )
}

/// The info hash: the SHA-1 digest of the bencoded info dictionary.
pub open spec fn info_hash_of(info: Info) -> Seq<u8> {
    sha1_digest_of(encode(info_value(info)))
}

fn write_key(k: &[u8], out: &mut Vec<u8>)
    ensures
        final(out)@ == old(out)@ + crate::bencode::encode_bytes(k@),
{
    write_bytes(k, out);
}

fn write_str(s: &String, out: &mut Vec<u8>)
    ensures
        final(out)@ == old(out)@ + encode(Bencode::Bytes(encode_utf8(s@))),
{
    write_bytes(s.as_str().as_bytes(), out);
}

fn write_file(f: &File, out: &mut Vec<u8>)
    ensures
        final(out)@ == old(out)@ + encode(file_value(*f)),
{
    let ghost start = out@;
    out.push(TOKEN_DICT);
    write_key(&[108u8, 101, 110, 103, 116, 104], out);
    write_uint(f.length as u64, out);
    write_key(&[112u8, 97, 116, 104], out);
    let ghost mid = out@;
    out.push(TOKEN_LIST);
    let mut i: usize = 0;
    while i < f.path.len()
        invariant
            i <= f.path@.len(),
            out@ == mid + seq![TOKEN_LIST] + crate::bencode::encode_list(
                path_values(f.path@).subrange(0, i as int),
            ),
        decreases f.path@.len() - i,
    {
        write_str(&f.path[i], out);
        proof {
            let pv = path_values(f.path@);
            assert(pv.subrange(0, i + 1) =~= pv.subrange(0, i as int).push(pv[i as int]));
            lemma_encode_list_push(pv.subrange(0, i as int), pv[i as int]);
        }
        i = i + 1;
    }
    out.push(TOKEN_END);
    out.push(TOKEN_END);
    proof {
        let pv = path_values(f.path@);
        assert(pv.subrange(0, i as int) =~= pv);
        let es = seq![
            (key_length(), Bencode::Int(f.length as int)),
            (key_path(), Bencode::List(pv)),
        ];
        lemma_encode_entries_push(Seq::empty(), key_length(), Bencode::Int(f.length as int));
        assert(Seq::<(Seq<u8>, Bencode)>::empty().push((key_length(), Bencode::Int(f.length as int)))
            =~= seq![(key_length(), Bencode::Int(f.length as int))]);
        lemma_encode_entries_push(
            seq![(key_length(), Bencode::Int(f.length as int))],
            key_path(),
            Bencode::List(pv),
        );
        assert(seq![(key_length(), Bencode::Int(f.length as int))].push(
            (key_path(), Bencode::List(pv)),
        ) =~= es);
        assert(crate::bencode::encode_entries(Seq::empty()) == Seq::<u8>::empty());
        assert(out@ =~= start + encode(file_value(*f)));
    }
}

/// The writing of a dictionary of four entries.
proof fn lemma_encode_four_entries(
    e0: (Seq<u8>, Bencode),
    e1: (Seq<u8>, Bencode),
    e2: (Seq<u8>, Bencode),
    e3: (Seq<u8>, Bencode),
)
    ensures
        encode(Bencode::Dict(seq![e0, e1, e2, e3])) == seq![TOKEN_DICT] + crate::bencode::encode_bytes(
            e0.0,
        ) + encode(e0.1) + crate::bencode::encode_bytes(e1.0) + encode(e1.1)
            + crate::bencode::encode_bytes(e2.0) + encode(e2.1) + crate::bencode::encode_bytes(e3.0)
            + encode(e3.1) + seq![TOKEN_END],
{
    let s0 = Seq::<(Seq<u8>, Bencode)>::empty();
    assert(crate::bencode::encode_entries(s0) == Seq::<u8>::empty());
    lemma_encode_entries_push(s0, e0.0, e0.1);
    lemma_encode_entries_push(s0.push(e0), e1.0, e1.1);
    lemma_encode_entries_push(s0.push(e0).push(e1), e2.0, e2.1);
    lemma_encode_entries_push(s0.push(e0).push(e1).push(e2), e3.0, e3.1);
    assert(s0.push(e0).push(e1).push(e2).push(e3) =~= seq![e0, e1, e2, e3]);
    assert(encode(Bencode::Dict(seq![e0, e1, e2, e3])) =~= seq![TOKEN_DICT]
        + crate::bencode::encode_bytes(e0.0) + encode(e0.1) + crate::bencode::encode_bytes(e1.0)
        + encode(e1.1) + crate::bencode::encode_bytes(e2.0) + encode(e2.1)
        + crate::bencode::encode_bytes(e3.0) + encode(e3.1) + seq![TOKEN_END]);
}

fn write_files(files: &Vec<File>, out: &mut Vec<u8>)
    ensures
        final(out)@ == old(out)@ + encode(Bencode::List(files_value(files@))),
{
    let ghost mid = out@;
    out.push(TOKEN_LIST);
    let mut i: usize = 0;
    while i < files.len()
        invariant
            i <= files@.len(),
            out@ == mid + seq![TOKEN_LIST] + crate::bencode::encode_list(
                files_value(files@).subrange(0, i as int),
            ),
        decreases files@.len() - i,
    {
        write_file(&files[i], out);
        proof {
            let fv = files_value(files@);
            assert(fv.subrange(0, i + 1) =~= fv.subrange(0, i as int).push(fv[i as int]));
            lemma_encode_list_push(fv.subrange(0, i as int), fv[i as int]);
        }
        i = i + 1;
    }
    out.push(TOKEN_END);
    proof {
        assert(files_value(files@).subrange(0, i as int) =~= files_value(files@));
        assert(out@ =~= mid + encode(Bencode::List(files_value(files@))));
    }
}

fn write_keys_entry(keys: &Keys, out: &mut Vec<u8>)
    ensures
        final(out)@ == old(out)@ + crate::bencode::encode_bytes(keys_entry(*keys).0) + encode(
            keys_entry(*keys).1,
        ),
{
    match keys {
        Keys::SingleFile { length } => {
            write_key(&[108u8, 101, 110, 103, 116, 104], out);
            write_uint(*length as u64, out);
        },
        Keys::MultiFile { files } => {
            write_key(&[102u8, 105, 108, 101, 115], out);
            write_files(files, out);
        },
    }
    assert(out@ =~= old(out)@ + crate::bencode::encode_bytes(keys_entry(*keys).0) + encode(
        keys_entry(*keys).1,
    ));
}

impl Info {
    /// The length of the file, when the torrent has a single file.
    pub fn file_length(&self) -> (r: Option<usize>)
        ensures
            r == match self.keys {
                Keys::SingleFile { length } => Some(length),
                Keys::MultiFile { .. } => None::<usize>,
            },
    {
        if let Keys::SingleFile { length } = self.keys {
            Some(length)
        } else {
            None
        }
    }

    /// The bencoded info dictionary.
    pub fn bencoded(&self) -> (r: Vec<u8>)
        ensures
            r@ == encode(info_value(*self)),
    {
        let mut out: Vec<u8> = Vec::new();
        out.push(TOKEN_DICT);
        write_keys_entry(&self.keys, &mut out);
        write_key(&[110u8, 97, 109, 101], &mut out);
        write_str(&self.name, &mut out);
        write_key(&[112u8, 105, 101, 99, 101, 32, 108, 101, 110, 103, 116, 104], &mut out);
        write_uint(self.piece_length as u64, &mut out);
        write_key(&[112u8, 105, 101, 99, 101, 115], &mut out);
        let flat = serialize_pieces(self.pieces.as_slice());
        write_bytes(flat.as_slice(), &mut out);
        out.push(TOKEN_END);
        proof {
            lemma_encode_four_entries(
                keys_entry(self.keys),
                (key_name(), Bencode::Bytes(encode_utf8(self.name@))),
                (key_piece_length(), Bencode::Int(self.piece_length as int)),
                (key_pieces(), Bencode::Bytes(flat_pieces(self.pieces@))),
            );
            assert(out@ =~= encode(info_value(*self)));
        }
        out
    }
}


// ---------------------------------------------------------------------------
// The info dictionary reads back
// ---------------------------------------------------------------------------

/// Whether the info dictionary's numbers fit a 64-bit signed integer and
/// its texts fit in memory, so that its bencoding can be read.
pub open spec fn info_readable(info: Info) -> bool {
    &&& info.piece_length <= i64_pos_limit()
    &&& encode_utf8(info.name@).len() <= usize::MAX
    &&& flat_pieces(info.pieces@).len() <= usize::MAX
    &&& match info.keys {
        Keys::SingleFile { length } => length <= i64_pos_limit(),
        Keys::MultiFile { files } => forall|i: int|
            0 <= i < files@.len() ==> file_readable(#[trigger] files@[i]),
    }
}

/// Whether a file's length fits a 64-bit signed integer and its path
/// components fit in memory.
pub open spec fn file_readable(f: File) -> bool {
    &&& f.length <= i64_pos_limit()
    &&& forall|j: int| 0 <= j < f.path@.len() ==> encode_utf8(#[trigger] f.path@[j]@).len() <= usize::MAX
}

proof fn lemma_wf_list_all(items: Seq<Bencode>)
    requires
        forall|i: int| 0 <= i < items.len() ==> wf(#[trigger] items[i]),
    ensures
        wf_list(items),
    decreases items.len(),
{
    if items.len() > 0 {
        assert forall|i: int| 0 <= i < items.drop_first().len() implies wf(
            #[trigger] items.drop_first()[i],
        ) by {
            assert(items.drop_first()[i] == items[i + 1]);
        }
        lemma_wf_list_all(items.drop_first());
        assert(wf(items[0]));
    }
}

proof fn lemma_two_entries_wf(e0: (Seq<u8>, Bencode), e1: (Seq<u8>, Bencode))
    requires
        e0.0 != e1.0,
        e0.0.len() <= usize::MAX,
        e1.0.len() <= usize::MAX,
        wf(e0.1),
        wf(e1.1),
    ensures
        wf(Bencode::Dict(seq![e0, e1])),
{
    let es = seq![e0, e1];
    assert(es.drop_first() =~= seq![e1]);
    assert(seq![e1].drop_first() =~= Seq::<(Seq<u8>, Bencode)>::empty());
    assert(wf_entries(Seq::<(Seq<u8>, Bencode)>::empty()));
    assert(seq![e1][0] == e1);
    assert(wf_entries(seq![e1]));
    assert(es[0] == e0);
    assert(wf_entries(es));
    assert(keys_unique(es));
}

proof fn lemma_file_value_wf(f: File)
    requires
        file_readable(f),
    ensures
        wf(file_value(f)),
{
    let pv = path_values(f.path@);
    assert forall|i: int| 0 <= i < pv.len() implies wf(#[trigger] pv[i]) by {
        assert(encode_utf8(f.path@[i]@).len() <= usize::MAX);
    }
    lemma_wf_list_all(pv);
    assert(key_length()[0] != key_path()[0]);
    lemma_two_entries_wf(
        (key_length(), Bencode::Int(f.length as int)),
        (key_path(), Bencode::List(pv)),
    );
}

/// The bencoded info dictionary reads back as the info dictionary, and
/// uses all of its bytes.
pub proof fn lemma_info_reads_back(info: Info)
    requires
        info_readable(info),
    ensures
        parse_value(encode(info_value(info)), 0) == Some(
            (info_value(info), encode(info_value(info)).len() as int),
        ),
{
    let e0 = keys_entry(info.keys);
    let e1 = (key_name(), Bencode::Bytes(encode_utf8(info.name@)));
    let e2 = (key_piece_length(), Bencode::Int(info.piece_length as int));
    let e3 = (key_pieces(), Bencode::Bytes(flat_pieces(info.pieces@)));
    match info.keys {
        Keys::SingleFile { length } => {},
        Keys::MultiFile { files } => {
            let fv = files_value(files@);
            assert forall|i: int| 0 <= i < fv.len() implies wf(#[trigger] fv[i]) by {
                assert(file_readable(files@[i]));
                lemma_file_value_wf(files@[i]);
            }
            lemma_wf_list_all(fv);
        },
    }
    assert(wf(e0.1));
    let es = seq![e0, e1, e2, e3];
    assert(es.drop_first() =~= seq![e1, e2, e3]);
    assert(seq![e1, e2, e3].drop_first() =~= seq![e2, e3]);
    assert(seq![e2, e3].drop_first() =~= seq![e3]);
    assert(seq![e3].drop_first() =~= Seq::<(Seq<u8>, Bencode)>::empty());
    assert(wf_entries(Seq::<(Seq<u8>, Bencode)>::empty()));
    assert(seq![e3][0] == e3);
    assert(wf(e3.1));
    assert(wf_entries(seq![e3]));
    assert(seq![e2, e3][0] == e2);
    assert(wf(e2.1));
    assert(wf_entries(seq![e2, e3]));
    assert(seq![e1, e2, e3][0] == e1);
    assert(wf(e1.1));
    assert(wf_entries(seq![e1, e2, e3]));
    assert(es[0] == e0);
    assert(wf_entries(es));
    assert(e0.0[0] != e1.0[0] && e0.0[0] != e2.0[0] && e0.0[0] != e3.0[0]);
    assert(e1.0[0] != e2.0[0] && e1.0[0] != e3.0[0]);
    assert(e2.0[5] != e3.0[5]);
    assert(keys_unique(es));
    let s = encode(info_value(info));
    assert(s.subrange(0, s.len() as int) =~= s);
    lemma_parse_encode(info_value(info), s, 0);
}

impl Torrent {
    /// The info hash that names this torrent: the SHA-1 digest of its info
    /// dictionary written in bencode.
    pub fn info_hash(&self) -> (r: Result<[u8; SHA1_LEN], TorrentError>)
        ensures
            r matches Ok(h) && h@ == info_hash_of(self.info),
    {
        let info = self.info.bencoded();
        Ok(sha1_digest(info.as_slice()))
    }

    /// Each piece hash as lowercase hex text.
    pub fn piece_hashes(&self) -> (r: Vec<String>)
        ensures
            r@.len() == self.info.pieces@.len(),
            forall|i: int| 0 <= i < r@.len() ==> #[trigger] r@[i]@ == hex_text(self.info.pieces@[i]@),
    {
        let mut out: Vec<String> = Vec::new();
        let mut i: usize = 0;
        while i < self.info.pieces.len()
            invariant
                i <= self.info.pieces@.len(),
                out@.len() == i,
                forall|k: int| 0 <= k < i ==> #[trigger] out@[k]@ == hex_text(self.info.pieces@[k]@),
            decreases self.info.pieces@.len() - i,
        {
            out.push(hex_encode(self.info.pieces[i].as_slice()));
            i = i + 1;
        }
        out
    }

    /// The number of pieces.
    pub fn num_pieces(&self) -> (r: usize)
        ensures
            r == self.info.pieces@.len(),
    {
        self.info.pieces.len()
    }
}

} // verus!
