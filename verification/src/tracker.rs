//! The tracker exchange: the announce request's query text and the
//! compact peer list of the reply.
use vstd::prelude::*;

use crate::bencode::dec_digits;
use crate::outside::{hex_digit, hex_encode, hex_text, string_push, urlencode_pair, urlencoded_pair};
use crate::torrent_file::{info_hash_of, Keys, Torrent, TorrentError, SHA1_LEN};

verus! {

/// The port that requests announce.
pub const TRACKER_PORT: u16 = 6881;

/// An announce request to a tracker.
#[derive(Debug)]
pub struct TrackerRequest {
    pub info_hash: [u8; SHA1_LEN],
    pub peer_id: String,
    pub port: u16,
    pub uploaded: usize,
    pub downloaded: usize,
    pub left: usize,
    pub compact: u8,
}

/// A tracker's reply: how long to wait before asking again, and the peers
/// in compact form, six bytes each.
#[derive(Debug)]
pub struct TrackerResponse {
    pub interval: Option<u64>,
    pub peers: Vec<u8>,
}

/// Errors of the tracker exchange.
#[derive(Debug, Clone, Copy, PartialEq, Eq, Structural)]
pub enum TrackerError {
    /// The request's parameters could not be form-encoded.
    UrlEncode,
    /// The compact peer list's length (held) is not a multiple of six.
    InvalidPeers(usize),
}

// ---------------------------------------------------------------------------
// Text helpers
// ---------------------------------------------------------------------------

/// The decimal digits of `n` as characters.
pub open spec fn dec_text(n: nat) -> Seq<char> {
    Seq::new(dec_digits(n).len(), |i: int| dec_digits(n)[i] as char)
}

fn push_decimal_chars(n: u64, s: &mut String)
    ensures
        final(s)@ == old(s)@ + dec_text(n as nat),
    decreases n,
{
    if n >= 10 {
        push_decimal_chars(n / 10, s);
    }
    let d = (48 + n % 10) as u8;
    string_push(s, d as char);
    proof {
        if n >= 10 {
            assert(dec_digits(n as nat) == dec_digits((n / 10) as nat).push(d));
        } else {
            assert(dec_digits(n as nat) == seq![d]);
        }
        assert(s@ =~= old(s)@ + dec_text(n as nat));
    }
}

/// The decimal text of `n`.
pub fn decimal_string(n: u64) -> (r: String)
    ensures
        r@ == dec_text(n as nat),
{
    let mut s = String::new();
    push_decimal_chars(n, &mut s);
    assert(s@ =~= dec_text(n as nat));
    s
}

/// `%` and two lowercase hex digits for each byte.
pub open spec fn percent_text(t: Seq<u8>) -> Seq<char>
    decreases t.len(),
{
    if t.len() == 0 {
        Seq::empty()
    } else {
        percent_text(t.drop_last()) + seq!['%', hex_digit(t.last() / 16), hex_digit(t.last() % 16)]
    }
}

proof fn lemma_hex_text_one(b: u8)
    ensures
        hex_text(seq![b]) == seq![hex_digit(b / 16), hex_digit(b % 16)],
{
    let one = seq![b];
    assert(one.drop_last() =~= Seq::<u8>::empty());
    assert(hex_text(Seq::<u8>::empty()) == Seq::<char>::empty());
    assert(hex_text(one) =~= seq![hex_digit(b / 16), hex_digit(b % 16)]);
}

/// Each byte is escaped as exactly three characters: byte `i` becomes
/// characters `3i`, `3i + 1` and `3i + 2`, which are `%` followed by the
/// two hex digits of that byte alone, leading zero included.
pub proof fn lemma_percent_text(t: Seq<u8>)
    ensures
        percent_text(t).len() == 3 * t.len(),
        forall|i: int|
            0 <= i < t.len() ==> #[trigger] percent_text(t).subrange(3 * i, 3 * i + 3) == seq!['%']
                + hex_text(seq![t[i]]),
    decreases t.len(),
{
    if t.len() > 0 {
        let front = t.drop_last();
        lemma_percent_text(front);
        let last = seq!['%', hex_digit(t.last() / 16), hex_digit(t.last() % 16)];
        assert(percent_text(t) == percent_text(front) + last);
        assert forall|i: int| 0 <= i < t.len() implies #[trigger] percent_text(t).subrange(
            3 * i,
            3 * i + 3,
        ) == seq!['%'] + hex_text(seq![t[i]]) by {
            lemma_hex_text_one(t[i]);
            if i < t.len() - 1 {
                assert(percent_text(t).subrange(3 * i, 3 * i + 3) =~= percent_text(front).subrange(
                    3 * i,
                    3 * i + 3,
                ));
                assert(front[i] == t[i]);
            } else {
                assert(percent_text(t).subrange(3 * i, 3 * i + 3) =~= last);
                assert(seq!['%'] + hex_text(seq![t[i]]) =~= last);
            }
        }
    }
}

/// Escapes every byte as `%` and two lowercase hex digits.
pub fn urlencode(t: &[u8]) -> (r: String)
    ensures
        r@ == percent_text(t@),
        r@.len() == 3 * t@.len(),
        forall|i: int|
            0 <= i < t@.len() ==> #[trigger] r@.subrange(3 * i, 3 * i + 3) == seq!['%'] + hex_text(
                seq![t@[i]],
            ),
{
    proof {
        lemma_percent_text(t@);
    }
    let mut encoded = String::new();
    let mut i: usize = 0;
    while i < t.len()
        invariant
            i <= t@.len(),
            encoded@ == percent_text(t@.subrange(0, i as int)),
        decreases t@.len() - i,
    {
        let byte = t[i];
        string_push(&mut encoded, '%');
        let h = hex_encode(&[byte]);
        proof {
            lemma_hex_text_one(byte);
            assert([byte]@ =~= seq![byte]);
        }
        encoded.append(h.as_str());
        proof {
            assert(t@.subrange(0, i + 1).drop_last() =~= t@.subrange(0, i as int));
        }
        i = i + 1;
        assert(encoded@ =~= percent_text(t@.subrange(0, i as int)));
    }
    assert(t@.subrange(0, i as int) =~= t@);
    encoded
}

// ---------------------------------------------------------------------------
// The request
// ---------------------------------------------------------------------------

/// The form fields of a request, each a name and its text, in order.
pub open spec fn query_pairs(r: TrackerRequest) -> Seq<(Seq<char>, Seq<char>)> {
    seq![
        ("peer_id"@, r.peer_id@),
        ("port"@, dec_text(r.port as nat)),
        ("uploaded"@, dec_text(r.uploaded as nat)),
        ("downloaded"@, dec_text(r.downloaded as nat)),
        ("left"@, dec_text(r.left as nat)),
        ("compact"@, dec_text(r.compact as nat)),
    ]
}

/// The encoded form fields joined by `&`.
pub open spec fn joined_pairs(pairs: Seq<(Seq<char>, Seq<char>)>) -> Seq<char>
    decreases pairs.len(),
{
    if pairs.len() == 0 {
        Seq::empty()
    } else if pairs.len() == 1 {
        urlencoded_pair(pairs[0].0, pairs[0].1)
    } else {
        joined_pairs(pairs.drop_last()) + seq!['&'] + urlencoded_pair(
            pairs.last().0,
            pairs.last().1,
        )
    }
}

/// The query text of a request: its form fields, and then the info hash
/// escaped byte by byte.
pub open spec fn request_url(r: TrackerRequest, url: Seq<char>) -> Seq<char> {
    url + seq!['?'] + joined_pairs(query_pairs(r)) + "&info_hash="@ + percent_text(r.info_hash@)
}

impl TrackerRequest {
    /// A request for a torrent, from a client that has nothing yet and
    /// wants the compact peer list.
    pub fn new(info_hash: [u8; SHA1_LEN], peer_id: &str, left: usize) -> (r: Self)
        ensures
            r.info_hash == info_hash,
            r.peer_id@ == peer_id@,
            r.port == TRACKER_PORT,
            r.uploaded == 0,
            r.downloaded == 0,
            r.left == left,
            r.compact == 1,
    {
        Self {
            info_hash,
            peer_id: peer_id.to_owned(),
            port: TRACKER_PORT,
            uploaded: 0,
            downloaded: 0,
            left,
            compact: 1,
        }
    }

    /// The form-encoded fields of the request (all but the info hash).
    pub fn url_params(&self) -> (r: Result<String, TrackerError>)
        ensures
            r matches Ok(s) && s@ == joined_pairs(query_pairs(*self)),
    {
        let ghost pairs = query_pairs(*self);
        let mut out = match urlencode_pair("peer_id", self.peer_id.as_str()) {
            Ok(s) => s,
            Err(_) => return Err(TrackerError::UrlEncode),
        };
        proof {
            assert(pairs.subrange(0, 1).len() == 1);
            assert(pairs.subrange(0, 1)[0] == pairs[0]);
            assert(out@ == joined_pairs(pairs.subrange(0, 1)));
        }
        let names: [&str; 5] = ["port", "uploaded", "downloaded", "left", "compact"];
        let values: [u64; 5] = [
            self.port as u64,
            self.uploaded as u64,
            self.downloaded as u64,
            self.left as u64,
            self.compact as u64,
        ];
        let mut i: usize = 0;
        while i < 5
            invariant
                i <= 5,
                pairs == query_pairs(*self),
                names@ == seq!["port", "uploaded", "downloaded", "left", "compact"],
                values@ == seq![
                    self.port as u64,
                    self.uploaded as u64,
                    self.downloaded as u64,
                    self.left as u64,
                    self.compact as u64,
                ],
                out@ == joined_pairs(pairs.subrange(0, i + 1)),
            decreases 5 - i,
        {
            let text = decimal_string(values[i]);
            let pair = match urlencode_pair(names[i], text.as_str()) {
                Ok(s) => s,
                Err(_) => return Err(TrackerError::UrlEncode),
            };
            proof {
                assert(pairs.subrange(0, i + 2).drop_last() =~= pairs.subrange(0, i + 1));
                assert(pairs.subrange(0, i + 2).last() == pairs[i + 1]);
                assert(pairs[i + 1] == (names@[i as int]@, text@));
            }
            string_push(&mut out, '&');
            out.append(pair.as_str());
            i = i + 1;
        }
        assert(pairs.subrange(0, 6) =~= pairs);
        Ok(out)
    }

    /// The full announce address: `url`, `?`, the form-encoded fields,
    /// `&info_hash=` and the info hash escaped byte by byte.
    pub fn tracker_url(&self, url: &str) -> (r: Result<String, TrackerError>)
        ensures
            r matches Ok(s) && s@ == request_url(*self, url@),
    {
        let params = match self.url_params() {
            Ok(p) => p,
            Err(e) => return Err(e),
        };
        let mut out = url.to_owned();
        string_push(&mut out, '?');
        out.append(params.as_str());
        out.append("&info_hash=");
        let hash = urlencode(self.info_hash.as_slice());
        out.append(hash.as_str());
        assert(out@ =~= request_url(*self, url@));
        Ok(out)
    }
}

/// The announce request for a torrent with a single file: its info hash,
/// the client's peer id, and the whole file left to fetch.
pub fn tracker_request(torrent: &Torrent, peer_id: &str) -> (r: Result<TrackerRequest, TorrentError>)
    ensures
        torrent.info.keys is MultiFile ==> r == Err::<TrackerRequest, TorrentError>(
            TorrentError::MultiFile,
        ),
        torrent.info.keys is SingleFile ==> (r matches Ok(req) && req.info_hash@ == info_hash_of(
            torrent.info,
        ) && req.peer_id@ == peer_id@ && req.port == TRACKER_PORT && req.uploaded == 0
            && req.downloaded == 0 && req.left == torrent.info.keys->SingleFile_length
            && req.compact == 1),
{
    let info_hash = match torrent.info_hash() {
        Ok(h) => h,
        Err(e) => return Err(e),
    };
    let file_len = match torrent.info.file_length() {
        Some(l) => l,
        None => return Err(TorrentError::MultiFile),
    };
    Ok(TrackerRequest::new(info_hash, peer_id, file_len))
}

// ---------------------------------------------------------------------------
// The reply
// ---------------------------------------------------------------------------

/// The peer in the compact list at `i`: four address bytes and the port,
/// big-endian.
pub open spec fn compact_peer(s: Seq<u8>, i: int) -> (Seq<u8>, int) {
    (s.subrange(6 * i, 6 * i + 4), s[6 * i + 4] * 256 + s[6 * i + 5])
}

/// Accepts a compact peer list only when its length is a multiple of six.
pub fn deserialize_tracker_response(buf: Vec<u8>) -> (r: Result<Vec<u8>, TrackerError>)
    ensures
        buf@.len() % 6 == 0 ==> (r matches Ok(v) && v@ == buf@),
        buf@.len() % 6 != 0 ==> r == Err::<Vec<u8>, TrackerError>(
            TrackerError::InvalidPeers(buf@.len() as usize),
        ),
{
    if buf.len() % 6 != 0 {
        return Err(TrackerError::InvalidPeers(buf.len()));
    }
    Ok(buf)
}

impl TrackerResponse {
    /// The peers of the reply, each an IPv4 address and a port.
    pub fn peers(&self) -> (r: Result<Vec<([u8; 4], u16)>, TrackerError>)
        ensures
            self.peers@.len() % 6 != 0 ==> r == Err::<Vec<([u8; 4], u16)>, TrackerError>(
                TrackerError::InvalidPeers(self.peers@.len() as usize),
            ),
            self.peers@.len() % 6 == 0 ==> r is Ok,
            r matches Ok(v) ==> 6 * v@.len() == self.peers@.len() && forall|i: int|
                0 <= i < v@.len() ==> (#[trigger] v@[i]).0@ == compact_peer(self.peers@, i).0
                    && v@[i].1 == compact_peer(self.peers@, i).1,
    {
        let n = self.peers.len();
        if n % 6 != 0 {
            return Err(TrackerError::InvalidPeers(n));
        }
        let mut out: Vec<([u8; 4], u16)> = Vec::new();
        let mut off: usize = 0;
        while off < n
            invariant
                n == self.peers@.len(),
                n % 6 == 0,
                off <= n,
                off == 6 * out@.len(),
                forall|i: int|
                    0 <= i < out@.len() ==> (#[trigger] out@[i]).0@ == compact_peer(self.peers@, i).0
                        && out@[i].1 == compact_peer(self.peers@, i).1,
            decreases n - off,
        {
            assert(off + 6 <= n) by (nonlinear_arith)
                requires
                    off < n,
                    off % 6 == 0,
                    n % 6 == 0,
            ;
            let b = &self.peers;
            let ip: [u8; 4] = [b[off], b[off + 1], b[off + 2], b[off + 3]];
            let port: u16 = (b[off + 4] as u16) * 256 + (b[off + 5] as u16);
            let ghost k = out@.len() as int;
            out.push((ip, port));
            proof {
                assert(ip@ =~= self.peers@.subrange(6 * k, 6 * k + 4));
            }
            off = off + 6;
        }
        proof {
            assert(6 * out@.len() == n);
        }
        Ok(out)
    }
}

} // verus!
