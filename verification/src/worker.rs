//! Download bookkeeping: the queue of pieces still to fetch, how a piece
//! splits into block requests, the checks on each block and on a finished
//! piece, the decisions of a worker that fetches pieces from one peer, and
//! the store that puts finished pieces together.
use vstd::prelude::*;
use std::collections::HashMap;
use std::collections::VecDeque;
use std::ops::Range;

use crate::outside::{sha1_digest, sha1_digest_of};
use crate::peer::{piece_fields, PeerMessage, Piece, Request};
use crate::seqs::append_bytes;
use crate::torrent_file::{Torrent, SHA1_LEN};

verus! {

broadcast use vstd::std_specs::hash::group_hash_axioms;

// ---------------------------------------------------------------------------
// The queue of pieces
// ---------------------------------------------------------------------------

/// The pieces that are still to be fetched, first in first out.
#[derive(Debug)]
pub struct PiecesQueue(VecDeque<usize>);

impl View for PiecesQueue {
    type V = Seq<usize>;

    closed spec fn view(&self) -> Seq<usize> {
        self.0@
    }
}

impl PiecesQueue {
    /// A queue of the pieces in `pieces`, in increasing order.
    pub fn new(pieces: Range<usize>) -> (r: Self)
        ensures
            r@ == Seq::new(
                if pieces.start <= pieces.end {
                    (pieces.end - pieces.start) as nat
                } else {
                    0
                },
                |i: int| (pieces.start + i) as usize,
            ),
    {
        let mut queue: VecDeque<usize> = VecDeque::new();
        let start = pieces.start;
        let end = pieces.end;
        let mut i = start;
        while i < end
            invariant
                start <= i <= end || (i == start && end < start),
                queue@ == Seq::new((i - start) as nat, |k: int| (start + k) as usize),
            decreases end - i,
        {
            queue.push_back(i);
            i = i + 1;
            assert(queue@ =~= Seq::new((i - start) as nat, |k: int| (start + k) as usize));
        }
        let r = PiecesQueue(queue);
        assert(r@ =~= Seq::new(
            if start <= end {
                (end - start) as nat
            } else {
                0
            },
            |k: int| (start + k) as usize,
        ));
        r
    }

    /// Takes the piece at the front of the queue, if any.
    pub fn take_piece(&mut self) -> (r: Option<usize>)
        ensures
            old(self)@.len() == 0 ==> r is None && final(self)@ == old(self)@,
            old(self)@.len() > 0 ==> r == Some(old(self)@[0]) && final(self)@ == old(
                self,
            )@.drop_first(),
    {
        let r = self.0.pop_front();
        proof {
            if old(self)@.len() > 0 {
                assert(self@ =~= old(self)@.drop_first());
            }
        }
        r
    }

    /// Puts a piece at the back of the queue.
    pub fn push_piece(&mut self, piece: usize)
        ensures
            final(self)@ == old(self)@.push(piece),
    {
        self.0.push_back(piece)
    }

    /// The number of pieces in the queue.
    pub fn len(&self) -> (r: usize)
        ensures
            r == self@.len(),
    {
        self.0.len()
    }
}

/// A piece put back behind the waiting pieces comes out after all of them:
/// the queue is first in, first out.
pub proof fn lemma_queue_fifo(q: Seq<usize>, x: usize)
    ensures
        q.len() > 0 ==> q.push(x)[0] == q[0] && q.push(x).drop_first() == q.drop_first().push(x),
        q.len() == 0 ==> q.push(x)[0] == x && q.push(x).drop_first() == Seq::<usize>::empty(),
{
    assert(q.push(x).drop_first() =~= if q.len() > 0 {
        q.drop_first().push(x)
    } else {
        Seq::<usize>::empty()
    });
}

// ---------------------------------------------------------------------------
// Pieces and blocks
// ---------------------------------------------------------------------------

/// The size of a block request.
pub const BLOCK_SIZE: usize = 16384;

/// The size of piece `piece_i`: the piece length, except for the last
/// piece, which holds what remains of the file (a whole piece length when
/// the file divides evenly).
pub open spec fn piece_size_of(num_pieces: int, piece_length: int, file_len: int, piece_i: int) -> int {
    if piece_i == num_pieces - 1 {
        if file_len % piece_length == 0 {
            piece_length
        } else {
            file_len % piece_length
        }
    } else {
        piece_length
    }
}

/// The number of blocks of a piece of `piece_size` bytes.
pub open spec fn block_count_of(piece_size: int) -> int {
    (piece_size + BLOCK_SIZE - 1) / (BLOCK_SIZE as int)
}

/// The size of block `block` of a piece: a whole block, except for the
/// last, which holds what remains of the piece.
pub open spec fn block_size_of(piece_size: int, n_blocks: int, block: int) -> int {
    if block == n_blocks - 1 {
        if piece_size % (BLOCK_SIZE as int) == 0 {
            BLOCK_SIZE as int
        } else {
            piece_size % (BLOCK_SIZE as int)
        }
    } else {
        BLOCK_SIZE as int
    }
}

/// The blocks of a piece cover it exactly: all but the last are whole
/// blocks, the last is not empty and not larger than a block, and together
/// they are as long as the piece.
pub proof fn lemma_blocks_cover_piece(piece_size: int)
    requires
        piece_size > 0,
    ensures
        block_count_of(piece_size) >= 1,
        (block_count_of(piece_size) - 1) * BLOCK_SIZE + block_size_of(
            piece_size,
            block_count_of(piece_size),
            block_count_of(piece_size) - 1,
        ) == piece_size,
        0 < block_size_of(piece_size, block_count_of(piece_size), block_count_of(piece_size) - 1)
            <= BLOCK_SIZE,
        forall|b: int|
            0 <= b < block_count_of(piece_size) - 1 ==> block_size_of(
                piece_size,
                block_count_of(piece_size),
                b,
            ) == BLOCK_SIZE,
{
    let q = piece_size / 16384;
    let r = piece_size % 16384;
    assert(piece_size == q * 16384 + r && 0 <= r < 16384);
    if r == 0 {
        assert((piece_size + 16383) / 16384 == q);
    } else {
        assert((piece_size + 16383) / 16384 == q + 1);
    }
}

/// The pieces of a file cover it exactly: with as many pieces as it takes
/// to hold the file, all but the last are whole pieces and the last holds
/// the rest, so together they are as long as the file.
pub proof fn lemma_pieces_cover_file(piece_length: int, file_len: int)
    requires
        piece_length > 0,
        file_len > 0,
    ensures
        ({
            let n = (file_len + piece_length - 1) / piece_length;
            &&& n >= 1
            &&& (n - 1) * piece_length + piece_size_of(n, piece_length, file_len, n - 1) == file_len
            &&& 0 < piece_size_of(n, piece_length, file_len, n - 1) <= piece_length
        }),
{
    let n = (file_len + piece_length - 1) / piece_length;
    let q = file_len / piece_length;
    let r = file_len % piece_length;
    vstd::arithmetic::div_mod::lemma_fundamental_div_mod(file_len, piece_length);
    assert(file_len == piece_length * q + r && 0 <= r < piece_length);
    if r == 0 {
        assert(file_len + piece_length - 1 == q * piece_length + (piece_length - 1)) by (nonlinear_arith)
            requires
                file_len == piece_length * q + r,
                r == 0,
        ;
        vstd::arithmetic::div_mod::lemma_fundamental_div_mod_converse(
            file_len + piece_length - 1,
            piece_length,
            q,
            piece_length - 1,
        );
        assert(n == q);
        assert(q >= 1) by (nonlinear_arith)
            requires
                file_len == piece_length * q,
                file_len > 0,
                piece_length > 0,
        ;
        assert((n - 1) * piece_length + piece_length == file_len) by (nonlinear_arith)
            requires
                n == q,
                file_len == piece_length * q,
        ;
    } else {
        assert(file_len + piece_length - 1 == (q + 1) * piece_length + (r - 1)) by (nonlinear_arith)
            requires
                file_len == piece_length * q + r,
        ;
        vstd::arithmetic::div_mod::lemma_fundamental_div_mod_converse(
            file_len + piece_length - 1,
            piece_length,
            q + 1,
            r - 1,
        );
        assert(n == q + 1);
        assert(q >= 0) by (nonlinear_arith)
            requires
                file_len == piece_length * q + r,
                file_len > 0,
                piece_length > 0,
                0 <= r < piece_length,
        ;
        assert((n - 1) * piece_length + r == file_len) by (nonlinear_arith)
            requires
                n == q + 1,
                file_len == piece_length * q + r,
        ;
    }
}

/// The size of piece `piece_i` of a torrent whose file is `file_len` bytes.
pub fn piece_size(torrent: &Torrent, file_len: usize, piece_i: usize) -> (r: usize)
    requires
        torrent.info.pieces@.len() > 0,
        piece_i == torrent.info.pieces@.len() - 1 ==> torrent.info.piece_length > 0,
    ensures
        r == piece_size_of(
            torrent.info.pieces@.len() as int,
            torrent.info.piece_length as int,
            file_len as int,
            piece_i as int,
        ),
{
    let num_pieces = torrent.num_pieces();
    if piece_i == num_pieces - 1 {
        let base_len = file_len % torrent.info.piece_length;
        if base_len == 0 {
            torrent.info.piece_length
        } else {
            base_len
        }
    } else {
        torrent.info.piece_length
    }
}

/// Whether a block payload is the expected block: it is not empty, holds
/// the index and offset, names piece `piece_i` at offset `begin`, and
/// carries `size` bytes.
pub open spec fn block_fits(payload: Seq<u8>, piece_i: int, begin: int, size: int) -> bool {
    &&& payload.len() > 0
    &&& piece_fields(payload) matches Some((index, offset, data))
    &&& index == piece_i
    &&& offset == begin
    &&& data.len() == size
}

/// The download of one piece, block by block.
#[derive(Debug)]
pub struct PieceDownload {
    pub piece_i: usize,
    pub piece_size: usize,
    pub n_blocks: usize,
    pub block: usize,
    pub data: Vec<u8>,
    pub piece_hash: [u8; SHA1_LEN],
}

impl PieceDownload {
    /// The download's bookkeeping holds together: the blocks are those of
    /// the piece, and the data holds exactly the blocks received so far.
    pub open spec fn wf(&self) -> bool {
        &&& self.piece_size + BLOCK_SIZE - 1 <= usize::MAX
        &&& self.n_blocks == block_count_of(self.piece_size as int)
        &&& self.block <= self.n_blocks
        &&& self.data@.len() == if self.block < self.n_blocks {
            self.block * BLOCK_SIZE
        } else {
            self.piece_size as int
        }
    }

    /// The size of the block to fetch next.
    pub open spec fn next_block_size(&self) -> int {
        block_size_of(self.piece_size as int, self.n_blocks as int, self.block as int)
    }

    /// The request for the block to fetch next.
    pub open spec fn next_request_spec(&self) -> Request {
        Request {
            index: self.piece_i as u32,
            begin: (self.block * BLOCK_SIZE) as u32,
            length: self.next_block_size() as u32,
        }
    }

    /// Starts the download of piece `piece_i`.
    pub fn new(torrent: &Torrent, file_len: usize, piece_i: usize) -> (r: Self)
        requires
            piece_i < torrent.info.pieces@.len(),
            piece_i == torrent.info.pieces@.len() - 1 ==> torrent.info.piece_length > 0,
            piece_size_of(
                torrent.info.pieces@.len() as int,
                torrent.info.piece_length as int,
                file_len as int,
                piece_i as int,
            ) + BLOCK_SIZE - 1 <= usize::MAX,
        ensures
            r.wf(),
            r.piece_i == piece_i,
            r.piece_size == piece_size_of(
                torrent.info.pieces@.len() as int,
                torrent.info.piece_length as int,
                file_len as int,
                piece_i as int,
            ),
            r.block == 0,
            r.data@ == Seq::<u8>::empty(),
            r.piece_hash == torrent.info.pieces@[piece_i as int],
    {
        let piece_hash = torrent.info.pieces[piece_i];
        let piece_size = piece_size(torrent, file_len, piece_i);
        let n_blocks = (piece_size + (BLOCK_SIZE - 1)) / BLOCK_SIZE;
        PieceDownload { piece_i, piece_size, n_blocks, block: 0, data: Vec::new(), piece_hash }
    }

    /// The request for the next block, or none when all blocks are in.
    pub fn next_request(&self) -> (r: Option<Request>)
        requires
            self.wf(),
        ensures
            self.block < self.n_blocks ==> r == Some(self.next_request_spec()),
            self.block >= self.n_blocks ==> r is None,
            r matches Some(req) ==> req.index == self.piece_i as u32 && req.begin == (self.block
                * BLOCK_SIZE) as u32 && 0 < req.length <= BLOCK_SIZE && (self.block + 1
                < self.n_blocks ==> req.length == BLOCK_SIZE) && (self.block + 1 == self.n_blocks
                ==> self.block * BLOCK_SIZE + req.length == self.piece_size),
    {
        if self.block >= self.n_blocks {
            return None;
        }
        proof {
            lemma_next_request_fields(*self);
        }
        proof {
            lemma_blocks_cover_piece(self.piece_size as int);
            assert(self.block * BLOCK_SIZE <= self.piece_size) by (nonlinear_arith)
                requires
                    self.block < self.n_blocks,
                    (self.n_blocks - 1) * BLOCK_SIZE + self.next_block_size()
                        == self.piece_size || self.block != self.n_blocks - 1,
                    self.block <= self.n_blocks - 1,
                    (self.n_blocks - 1) * BLOCK_SIZE < self.piece_size,
            ;
        }
        let block_size = self.current_block_size();
        Some(
            Request {
                index: self.piece_i as u32,
                begin: (self.block * BLOCK_SIZE) as u32,
                length: block_size as u32,
            },
        )
    }

    /// The size of the block to fetch next.
    pub fn current_block_size(&self) -> (r: usize)
        requires
            self.wf(),
            self.block < self.n_blocks,
        ensures
            r == self.next_block_size(),
    {
        if self.block == self.n_blocks - 1 {
            let base_len = self.piece_size % BLOCK_SIZE;
            if base_len == 0 {
                BLOCK_SIZE
            } else {
                base_len
            }
        } else {
            BLOCK_SIZE
        }
    }

    /// Takes the payload of a piece message as the next block. A payload
    /// that is empty, too short, names another piece or offset, or has the
    /// wrong length is refused and leaves the download as it was.
    pub fn accept_block(&mut self, payload: &[u8]) -> (r: bool)
        requires
            old(self).wf(),
            old(self).block < old(self).n_blocks,
        ensures
            r == block_fits(
                payload@,
                old(self).piece_i as int,
                old(self).block * BLOCK_SIZE,
                old(self).next_block_size(),
            ),
            final(self).wf(),
            r ==> final(self).block == old(self).block + 1 && final(self).data@ == old(self).data@
                + payload@.subrange(8, payload@.len() as int),
            !r ==> *final(self) == *old(self),
            final(self).piece_i == old(self).piece_i,
            final(self).piece_size == old(self).piece_size,
            final(self).n_blocks == old(self).n_blocks,
            final(self).piece_hash == old(self).piece_hash,
    {
        proof {
            lemma_blocks_cover_piece(self.piece_size as int);
        }
        if payload.len() == 0 {
            return false;
        }
        let piece = match Piece::ref_from_payload(payload) {
            Some(p) => p,
            None => return false,
        };
        let block_size = self.current_block_size();
        assert(self.block * BLOCK_SIZE <= self.piece_size) by (nonlinear_arith)
            requires
                self.block < self.n_blocks,
                (self.n_blocks - 1) * BLOCK_SIZE < self.piece_size,
        ;
        if piece.index as usize != self.piece_i || piece.begin as usize != self.block * BLOCK_SIZE
            || piece.piece.len() != block_size {
            return false;
        }
        append_bytes(&mut self.data, piece.piece);
        self.block = self.block + 1;
        proof {
            if self.block < self.n_blocks {
                assert(self.data@.len() == self.block * BLOCK_SIZE) by (nonlinear_arith)
                    requires
                        self.data@.len() == (self.block - 1) * BLOCK_SIZE + BLOCK_SIZE,
                ;
            }
        }
        true
    }

    /// Whether the data is the whole piece and has the piece's hash.
    pub fn is_valid(&self) -> (r: bool)
        ensures
            r == (self.data@.len() == self.piece_size && sha1_digest_of(self.data@)
                == self.piece_hash@),
    {
        if self.data.len() != self.piece_size {
            return false;
        }
        let hash = sha1_digest(self.data.as_slice());
        assert(hash@ == sha1_digest_of(self.data@));
        let mut i: usize = 0;
        while i < SHA1_LEN
            invariant
                i <= 20,
                hash@ == sha1_digest_of(self.data@),
                hash@.len() == 20,
                self.piece_hash@.len() == 20,
                forall|k: int| 0 <= k < i ==> hash@[k] == self.piece_hash@[k],
            decreases 20 - i,
        {
            if hash[i] != self.piece_hash[i] {
                assert(hash@[i as int] != self.piece_hash@[i as int]);
                assert(hash@ != self.piece_hash@);
                return false;
            }
            i = i + 1;
        }
        assert(hash@ =~= self.piece_hash@);
        true
    }
}


/// The request for the next block of a download names the piece being
/// downloaded and the block's offset in it; every block but the last is a
/// whole block, and the last one ends where the piece ends.
pub proof fn lemma_next_request_fields(d: PieceDownload)
    requires
        d.wf(),
        d.block < d.n_blocks,
    ensures
        d.next_request_spec().index == d.piece_i as u32,
        d.next_request_spec().begin == (d.block * BLOCK_SIZE) as u32,
        0 < d.next_request_spec().length <= BLOCK_SIZE,
        d.block + 1 < d.n_blocks ==> d.next_request_spec().length == BLOCK_SIZE,
        d.block + 1 == d.n_blocks ==> d.block * BLOCK_SIZE + d.next_request_spec().length
            == d.piece_size,
{
    lemma_blocks_cover_piece(d.piece_size as int);
    let sz = d.next_block_size();
    assert(0 < sz <= BLOCK_SIZE);
    assert((sz as u32) as int == sz);
}

/// Every piece of a torrent with a positive piece length can start, the
/// last piece included, when its size leaves room for one block more in a
/// `usize` (as it does whenever the piece length does); a piece past the
/// end never can.
pub proof fn lemma_can_start(torrent: &Torrent, file_len: usize, piece_i: usize)
    ensures
        piece_i >= torrent.info.pieces@.len() ==> !can_start_spec(torrent, file_len, piece_i),
        piece_i < torrent.info.pieces@.len() && 0 < torrent.info.piece_length
            && torrent.info.piece_length + BLOCK_SIZE - 1 <= usize::MAX ==> can_start_spec(
            torrent,
            file_len,
            piece_i,
        ),
        piece_i < torrent.info.pieces@.len() && 0 < torrent.info.piece_length && piece_size_of(
            torrent.info.pieces@.len() as int,
            torrent.info.piece_length as int,
            file_len as int,
            piece_i as int,
        ) + BLOCK_SIZE - 1 <= usize::MAX ==> can_start_spec(torrent, file_len, piece_i),
{
    let pl = torrent.info.piece_length as int;
    if pl > 0 {
        assert(file_len as int % pl < pl);
        assert(piece_size_of(
            torrent.info.pieces@.len() as int,
            pl,
            file_len as int,
            piece_i as int,
        ) <= pl);
    }
}

// ---------------------------------------------------------------------------
// The worker's decisions
// ---------------------------------------------------------------------------

/// What a worker asks its driver to do next.
#[derive(Debug)]
pub enum WorkerAction {
    /// Take the next piece from the queue and report it with `on_taken`.
    Take,
    /// Send this block request and report with `on_sent`.
    Send(Request),
    /// Read the next message from the peer and report it with `on_received`.
    Receive,
    /// Hand over the finished piece, then take the next one.
    Deliver(usize, Vec<u8>),
    /// Put the piece back on the queue this many times, then stop.
    GiveUp(usize, usize),
    /// Stop: there are no more pieces.
    Stop,
}

/// The decisions of a worker that fetches pieces of one torrent from one
/// peer: what to do after each outcome of the last thing it asked for.
#[derive(Debug)]
pub struct PieceWorker {
    pub file_len: usize,
    pub current: Option<PieceDownload>,
}

/// Whether piece `piece_i` of `torrent` can be fetched: it exists, the
/// last piece has a positive piece length to divide by, and the piece is
/// small enough to split into blocks.
pub open spec fn can_start_spec(torrent: &Torrent, file_len: usize, piece_i: usize) -> bool {
    &&& piece_i < torrent.info.pieces@.len()
    &&& piece_i == torrent.info.pieces@.len() - 1 ==> torrent.info.piece_length > 0
    &&& piece_size_of(
        torrent.info.pieces@.len() as int,
        torrent.info.piece_length as int,
        file_len as int,
        piece_i as int,
    ) + BLOCK_SIZE - 1 <= usize::MAX
}

/// Whether piece `piece_i` of `torrent` can be fetched.
pub fn can_start(torrent: &Torrent, file_len: usize, piece_i: usize) -> (r: bool)
    ensures
        r == can_start_spec(torrent, file_len, piece_i),
        piece_i >= torrent.info.pieces@.len() ==> !r,
        piece_i < torrent.info.pieces@.len() && 0 < torrent.info.piece_length
            && torrent.info.piece_length + BLOCK_SIZE - 1 <= usize::MAX ==> r,
        piece_i < torrent.info.pieces@.len() && 0 < torrent.info.piece_length && piece_size_of(
            torrent.info.pieces@.len() as int,
            torrent.info.piece_length as int,
            file_len as int,
            piece_i as int,
        ) + BLOCK_SIZE - 1 <= usize::MAX ==> r,
{
    proof {
        lemma_can_start(torrent, file_len, piece_i);
    }
    let n = torrent.num_pieces();
    if piece_i >= n {
        return false;
    }
    if piece_i == n - 1 && torrent.info.piece_length == 0 {
        return false;
    }
    let size = piece_size(torrent, file_len, piece_i);
    size <= usize::MAX - (BLOCK_SIZE - 1)
}

impl PieceWorker {
    /// A worker for a torrent whose file is `file_len` bytes. It starts by
    /// taking a piece.
    pub fn new(file_len: usize) -> (r: (Self, WorkerAction))
        ensures
            r.0.file_len == file_len,
            r.0.current is None,
            r.1 is Take,
    {
        (PieceWorker { file_len, current: None }, WorkerAction::Take)
    }

    /// What follows once the current download has moved: the next request,
    /// or, with all blocks in, the piece if it is whole and has its hash,
    /// else giving it up.
    fn advance(&mut self) -> (r: WorkerAction)
        requires
            old(self).current matches Some(d) && d.wf(),
        ensures
            final(self).file_len == old(self).file_len,
            ({
                let d = old(self).current->Some_0;
                if d.block < d.n_blocks {
                    r == WorkerAction::Send(d.next_request_spec()) && final(self).current == old(
                        self,
                    ).current
                } else if d.data@.len() == d.piece_size && sha1_digest_of(d.data@)
                    == d.piece_hash@ {
                    r matches WorkerAction::Deliver(p, data) && p == d.piece_i && data@ == d.data@
                        && final(self).current is None
                } else {
                    r == WorkerAction::GiveUp(d.piece_i, 1) && final(self).current is None
                }
            }),
    {
        let d = self.current.take().unwrap();
        match d.next_request() {
            Some(req) => {
                self.current = Some(d);
                WorkerAction::Send(req)
            },
            None => {
                if d.is_valid() {
                    WorkerAction::Deliver(d.piece_i, d.data)
                } else {
                    WorkerAction::GiveUp(d.piece_i, 1)
                }
            },
        }
    }

    /// After taking from the queue: stop when it is empty, else start on
    /// the piece taken.
    pub fn on_taken(&mut self, torrent: &Torrent, piece: Option<usize>) -> (r: WorkerAction)
        requires
            old(self).current is None,
            piece matches Some(p) ==> can_start_spec(torrent, old(self).file_len, p),
        ensures
            final(self).file_len == old(self).file_len,
            piece is None ==> r is Stop && final(self).current is None,
            piece matches Some(p) ==> ({
                let size = piece_size_of(
                    torrent.info.pieces@.len() as int,
                    torrent.info.piece_length as int,
                    old(self).file_len as int,
                    p as int,
                );
                let hash = torrent.info.pieces@[p as int]@;
                if size > 0 {
                    final(self).current matches Some(d) && d.wf() && d.piece_i == p && d.block == 0
                        && d.data@.len() == 0 && d.piece_hash@ == hash && d.piece_size == size
                        && r == WorkerAction::Send(d.next_request_spec())
                } else if sha1_digest_of(Seq::empty()) == hash {
                    r matches WorkerAction::Deliver(q, out) && q == p && out@.len() == 0
                        && final(self).current is None
                } else {
                    r == WorkerAction::GiveUp(p, 1) && final(self).current is None
                }
            }),
    {
        match piece {
            None => WorkerAction::Stop,
            Some(p) => {
                let d = PieceDownload::new(torrent, self.file_len, p);
                proof {
                    if d.piece_size > 0 {
                        lemma_blocks_cover_piece(d.piece_size as int);
                    } else {
                        assert(d.n_blocks == 0);
                        assert(d.data@ =~= Seq::<u8>::empty());
                    }
                }
                self.current = Some(d);
                self.advance()
            },
        }
    }

    /// After sending a request: read the reply, or give the piece up when
    /// sending failed.
    pub fn on_sent(&mut self, sent: bool) -> (r: WorkerAction)
        requires
            old(self).current matches Some(d) && d.wf() && d.block < d.n_blocks,
        ensures
            final(self).file_len == old(self).file_len,
            sent ==> r is Receive && final(self).current == old(self).current,
            !sent ==> r == WorkerAction::GiveUp(old(self).current->Some_0.piece_i, 1)
                && final(self).current is None,
    {
        if sent {
            WorkerAction::Receive
        } else {
            let d = self.current.take().unwrap();
            WorkerAction::GiveUp(d.piece_i, 1)
        }
    }

    /// After reading from the peer (`None` when the stream ended or a frame
    /// could not be read): a failed read gives the piece up and, the piece
    /// being incomplete, gives it up once more; a block that does not fit
    /// gives it up; a fitting block is kept and the download moves on.
    pub fn on_received(&mut self, msg: Option<PeerMessage>) -> (r: WorkerAction)
        requires
            old(self).current matches Some(d) && d.wf() && d.block < d.n_blocks,
        ensures
            final(self).file_len == old(self).file_len,
            ({
                let d = old(self).current->Some_0;
                match msg {
                    None => r == WorkerAction::GiveUp(d.piece_i, 2) && final(self).current is None,
                    Some(m) => if block_fits(
                        m.payload@,
                        d.piece_i as int,
                        d.block * BLOCK_SIZE,
                        d.next_block_size(),
                    ) {
                        let data = d.data@ + m.payload@.subrange(8, m.payload@.len() as int);
                        if d.block + 1 < d.n_blocks {
                            final(self).current matches Some(d2) && d2.wf() && d2.block == d.block
                                + 1 && d2.data@ == data && d2.piece_i == d.piece_i
                                && d2.piece_size == d.piece_size && d2.n_blocks == d.n_blocks
                                && d2.piece_hash == d.piece_hash && r == WorkerAction::Send(
                                d2.next_request_spec(),
                            )
                        } else if data.len() == d.piece_size && sha1_digest_of(data)
                            == d.piece_hash@ {
                            r matches WorkerAction::Deliver(p, out) && p == d.piece_i && out@
                                == data && final(self).current is None
                        } else {
                            r == WorkerAction::GiveUp(d.piece_i, 1) && final(self).current is None
                        }
                    } else {
                        r == WorkerAction::GiveUp(d.piece_i, 1) && final(self).current is None
                    },
                }
            }),
    {
        let mut d = self.current.take().unwrap();
        match msg {
            None => {
                proof {
                    lemma_blocks_cover_piece(d.piece_size as int);
                    assert(d.data@.len() < d.piece_size) by (nonlinear_arith)
                        requires
                            d.data@.len() == d.block * BLOCK_SIZE,
                            d.block < d.n_blocks,
                            (d.n_blocks - 1) * BLOCK_SIZE < d.piece_size,
                    ;
                }
                WorkerAction::GiveUp(d.piece_i, 2)
            },
            Some(m) => {
                if d.accept_block(m.payload.as_slice()) {
                    self.current = Some(d);
                    self.advance()
                } else {
                    WorkerAction::GiveUp(d.piece_i, 1)
                }
            },
        }
    }
}

// ---------------------------------------------------------------------------
// Putting the pieces together
// ---------------------------------------------------------------------------

/// Errors when putting a download together.
#[derive(Debug, Clone, Copy, PartialEq, Eq, Structural)]
pub enum DownloadError {
    /// The same piece arrived twice.
    RepeatedPiece(usize),
    /// Fewer or more pieces than the torrent has: got, require.
    MissingPieces(usize, usize),
}

/// The pieces received, by index.
#[derive(Debug)]
pub struct PieceStore {
    map: HashMap<usize, Vec<u8>>,
}

/// The pieces with indices `0..n` that are present, one after the other.
pub open spec fn ordered_data(m: Map<usize, Seq<u8>>, n: nat) -> Seq<u8>
    decreases n,
{
    if n == 0 {
        Seq::empty()
    } else {
        ordered_data(m, (n - 1) as nat) + if m.contains_key((n - 1) as usize) {
            m[(n - 1) as usize]
        } else {
            Seq::empty()
        }
    }
}

impl View for PieceStore {
    type V = Map<usize, Seq<u8>>;

    closed spec fn view(&self) -> Map<usize, Seq<u8>> {
        self.map@.map_values(|v: Vec<u8>| v@)
    }
}

impl PieceStore {
    /// An empty store.
    pub fn new() -> (r: Self)
        ensures
            r@ == Map::<usize, Seq<u8>>::empty(),
    {
        let r = PieceStore { map: HashMap::new() };
        assert(r@ =~= Map::<usize, Seq<u8>>::empty());
        r
    }

    /// Stores piece `piece_i`. A piece that was already there is refused
    /// (the new data takes its place all the same).
    pub fn insert(&mut self, piece_i: usize, data: Vec<u8>) -> (r: Result<(), DownloadError>)
        ensures
            final(self)@ == old(self)@.insert(piece_i, data@),
            old(self)@.contains_key(piece_i) ==> r == Err::<(), DownloadError>(
                DownloadError::RepeatedPiece(piece_i),
            ),
            !old(self)@.contains_key(piece_i) ==> r is Ok,
    {
        let ghost dv = data@;
        let previous = self.map.insert(piece_i, data);
        assert(self@ =~= old(self)@.insert(piece_i, dv));
        if previous.is_some() {
            Err(DownloadError::RepeatedPiece(piece_i))
        } else {
            Ok(())
        }
    }

    /// The number of pieces stored.
    pub fn len(&self) -> (r: usize)
        ensures
            r == self@.dom().len(),
    {
        assert(self@.dom() =~= self.map@.dom());
        self.map.len()
    }

    /// Checks that the store holds as many pieces as the torrent has.
    pub fn check_complete(&self, num_pieces: usize) -> (r: Result<(), DownloadError>)
        ensures
            self@.dom().len() == num_pieces ==> r is Ok,
            self@.dom().len() != num_pieces ==> r == Err::<(), DownloadError>(
                DownloadError::MissingPieces(self@.dom().len() as usize, num_pieces),
            ),
    {
        let got = self.len();
        if got != num_pieces {
            return Err(DownloadError::MissingPieces(got, num_pieces));
        }
        Ok(())
    }

    /// The pieces with indices below the number stored, in index order.
    pub fn ordered_chunks(&self) -> (r: Vec<u8>)
        ensures
            r@ == ordered_data(self@, self@.dom().len()),
    {
        let n = self.len();
        let mut out: Vec<u8> = Vec::new();
        let mut key: usize = 0;
        while key < n
            invariant
                key <= n,
                n == self@.dom().len(),
                out@ == ordered_data(self@, key as nat),
            decreases n - key,
        {
            match self.map.get(&key) {
                Some(chunk) => {
                    append_bytes(&mut out, chunk.as_slice());
                },
                None => {},
            }
            key = key + 1;
        }
        out
    }
}

} // verus!
