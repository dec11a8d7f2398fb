use vstd::prelude::*;

use crate::bitfield::count_set;

verus! {

/// Size in bytes of one requested block.
pub const BLOCK: u32 = 16384;

/// Whether the torrent sizes can drive a picker: the piece length is a
/// positive multiple of `BLOCK`, the piece count is the rounded-up quotient of
/// the total length by the piece length, and block indices fit in `u32`.
pub open spec fn sizes_valid(piece_len: int, total_len: int, num_pieces: int) -> bool {
    &&& 0 < piece_len <= u32::MAX
    &&& piece_len % (BLOCK as int) == 0
    &&& num_pieces >= 1
    &&& piece_len * (num_pieces - 1) < total_len <= piece_len * num_pieces
    &&& (piece_len / (BLOCK as int)) * num_pieces <= u32::MAX
}

/// Blocks in a full piece.
pub open spec fn scale_of(piece_len: int) -> int {
    piece_len / (BLOCK as int)
}

/// Bytes in the last piece.
pub open spec fn last_piece_bytes_of(piece_len: int, total_len: int, num_pieces: int) -> int {
    total_len - piece_len * (num_pieces - 1)
}

/// Blocks in the last piece: its byte count divided by `BLOCK`, rounded up.
pub open spec fn last_piece_blocks_of(piece_len: int, total_len: int, num_pieces: int) -> int {
    (last_piece_bytes_of(piece_len, total_len, num_pieces) + BLOCK - 1) / (BLOCK as int)
}

/// Blocks in the whole torrent.
pub open spec fn total_blocks_of(piece_len: int, total_len: int, num_pieces: int) -> int {
    scale_of(piece_len) * (num_pieces - 1) + last_piece_blocks_of(piece_len, total_len, num_pieces)
}

/// The abstract state of a picker.
pub struct PickerView {
    /// One entry per block: scheduled (in flight or done) or not.
    pub blocks: Seq<bool>,
    /// Blocks in flight.
    pub waiting: Set<u32>,
    /// For each block in flight, the peers that were asked for it.
    pub waiting_peers: Map<u32, Set<usize>>,
    /// First piece that is not known to be done.
    pub piece_idx: nat,
    /// Blocks never scheduled.
    pub endgame_cnt: nat,
    /// Blocks in a full piece.
    pub scale: nat,
    /// Pieces in the torrent.
    pub num_pieces: nat,
    /// For each piece, how many peers are known to hold it.
    pub holders: Seq<u32>,
    /// Whether pieces are ranked by fewest holders rather than by index.
    pub rarest: bool,
}

impl PickerView {
    pub open spec fn total_blocks(self) -> int {
        self.blocks.len() as int
    }

    /// Block `b` belongs to piece `p`.
    pub open spec fn in_piece(self, b: int, p: int) -> bool {
        p * self.scale <= b < p * self.scale + self.scale
    }

    /// Block `b` exists and has never been scheduled.
    pub open spec fn fresh(self, b: int) -> bool {
        0 <= b < self.total_blocks() && !self.blocks[b]
    }

    /// Block `b` is scheduled and no longer in flight.
    pub open spec fn settled(self, b: int) -> bool {
        self.blocks[b] && !self.waiting.contains(b as u32)
    }

    /// Every block of piece `p` is settled.
    pub open spec fn piece_done(self, p: int) -> bool {
        forall|j: int|
            0 <= j < self.scale && p * self.scale + j < self.total_blocks() ==> #[trigger] self.settled(
                p * self.scale + j,
            )
    }

    /// Piece `p` still has a fresh block.
    pub open spec fn has_fresh(self, p: int) -> bool {
        exists|j: int| 0 <= j < self.scale && #[trigger] self.fresh(p * self.scale + j)
    }

    /// `j` is the lowest offset of a fresh block in piece `p`.
    pub open spec fn first_fresh(self, p: int, j: int) -> bool {
        &&& 0 <= j < self.scale
        &&& self.fresh(p * self.scale + j)
        &&& forall|k: int| 0 <= k < j ==> !#[trigger] self.fresh(p * self.scale + k)
    }

    /// Piece `p` may be picked fresh for a peer advertising `view`.
    pub open spec fn candidate(self, view: Seq<bool>, p: int) -> bool {
        &&& self.piece_idx <= p < self.num_pieces
        &&& view[p]
        &&& self.has_fresh(p)
    }

    /// Piece `a` is scanned before piece `b`.
    pub open spec fn precedes(self, a: int, b: int) -> bool {
        if self.rarest {
            self.holders[a] < self.holders[b] || (self.holders[a] == self.holders[b] && a < b)
        } else {
            a < b
        }
    }

    /// `p` is the first candidate in scan order.
    pub open spec fn normal_choice(self, view: Seq<bool>, p: int) -> bool {
        &&& self.candidate(view, p)
        &&& forall|q: int| #[trigger] self.candidate(view, q) && q != p ==> self.precedes(p, q)
    }

    /// Block `q` is in flight, its piece is advertised in `view`, and peer
    /// `id` has not been asked for it.
    pub open spec fn eligible(self, view: Seq<bool>, id: usize, q: int) -> bool {
        &&& 0 <= q < self.total_blocks()
        &&& self.waiting.contains(q as u32)
        &&& view[q / (self.scale as int)]
        &&& !self.waiting_peers[q as u32].contains(id)
    }

    /// `q` is the lowest eligible block.
    pub open spec fn endgame_choice(self, view: Seq<bool>, id: usize, q: int) -> bool {
        &&& self.eligible(view, id, q)
        &&& forall|k: int| 0 <= k < q ==> !#[trigger] self.eligible(view, id, k)
    }

    /// The state after block `b` is scheduled fresh for peer `id`.
    pub open spec fn scheduled(self, b: int, id: usize) -> PickerView {
        PickerView {
            blocks: self.blocks.update(b, true),
            waiting: self.waiting.insert(b as u32),
            waiting_peers: self.waiting_peers.insert(b as u32, set![id]),
            endgame_cnt: (self.endgame_cnt - 1) as nat,
            ..self
        }
    }

    /// The state after peer `id` joins the requesters of in-flight block `q`.
    pub open spec fn with_waiter(self, q: int, id: usize) -> PickerView {
        PickerView {
            waiting_peers: self.waiting_peers.insert(
                q as u32,
                self.waiting_peers[q as u32].insert(id),
            ),
            ..self
        }
    }

    /// The state after block `b` stops being in flight.
    pub open spec fn arrived(self, b: int) -> PickerView {
        PickerView {
            waiting: self.waiting.remove(b as u32),
            waiting_peers: self.waiting_peers.remove(b as u32),
            ..self
        }
    }

    /// `k` is where the cursor stops when it advances from `from`: every
    /// piece in between is done, and `k` is the last piece index or not done.
    pub open spec fn cursor_stop(self, from: int, k: int) -> bool {
        &&& from <= k <= self.num_pieces
        &&& forall|p: int| from <= p < k ==> #[trigger] self.piece_done(p)
        &&& (k == self.num_pieces || !self.piece_done(k))
    }

    /// The blocks of piece `p`.
    pub open spec fn piece_blocks(self, p: int) -> Set<u32> {
        Set::new(|b: u32| self.in_piece(b as int, p))
    }

    /// The state after every block of piece `p` returns to fresh.
    pub open spec fn invalidated(self, p: int) -> PickerView {
        let blocks = Seq::new(
            self.blocks.len(),
            |b: int|
                if self.in_piece(b, p) {
                    false
                } else {
                    self.blocks[b]
                },
        );
        PickerView {
            blocks: blocks,
            waiting: self.waiting.difference(self.piece_blocks(p)),
            waiting_peers: self.waiting_peers.remove_keys(self.piece_blocks(p)),
            endgame_cnt: (self.total_blocks() - count_set(blocks)) as nat,
            piece_idx: if self.piece_idx > p {
                p as nat
            } else {
                self.piece_idx
            },
            ..self
        }
    }

    /// The invariant every picker keeps between operations.
    pub open spec fn inv(self) -> bool {
        &&& self.scale >= 1
        &&& self.num_pieces >= 1
        &&& (self.num_pieces - 1) * self.scale < self.total_blocks() <= self.num_pieces * self.scale
        &&& self.num_pieces * self.scale <= u32::MAX
        &&& self.scale * BLOCK <= u32::MAX
        &&& self.piece_idx <= self.num_pieces
        &&& self.holders.len() == self.num_pieces
        &&& forall|b: u32| #[trigger]
            self.waiting.contains(b) ==> b < self.total_blocks() && self.blocks[b as int]
        &&& self.waiting_peers.dom() == self.waiting
        &&& forall|b: int|
            0 <= b < self.piece_idx * self.scale && b < self.total_blocks() ==> #[trigger] self.settled(b)
        &&& self.endgame_cnt + count_set(self.blocks) == self.total_blocks()
    }
}

/// What `pick` does: a fresh block of the first candidate piece in scan
/// order, at its lowest fresh offset; failing that, once every block has
/// been scheduled, the lowest in-flight block that the peer advertises and
/// has not been asked for; failing that, nothing.
pub open spec fn pick_post(
    pre: PickerView,
    view: Seq<bool>,
    id: usize,
    post: PickerView,
    r: Option<(u32, u32)>,
) -> bool {
    if exists|p: int| pre.candidate(view, p) {
        &&& r is Some
        &&& r.unwrap().1 % BLOCK == 0
        &&& pre.normal_choice(view, r.unwrap().0 as int)
        &&& pre.first_fresh(r.unwrap().0 as int, (r.unwrap().1 / BLOCK) as int)
        &&& post == pre.scheduled(
            r.unwrap().0 * pre.scale + (r.unwrap().1 / BLOCK) as int,
            id,
        )
    } else if pre.endgame_cnt == 0 && exists|q: int| pre.eligible(view, id, q) {
        &&& r is Some
        &&& r.unwrap().1 % BLOCK == 0
        &&& r.unwrap().1 / BLOCK < pre.scale
        &&& pre.endgame_choice(view, id, r.unwrap().0 * pre.scale + (r.unwrap().1 / BLOCK) as int)
        &&& post == pre.with_waiter(r.unwrap().0 * pre.scale + (r.unwrap().1 / BLOCK) as int, id)
    } else {
        &&& r is None
        &&& post == pre
    }
}

/// What `completed(idx, offset)` does. A block that is not in flight (a
/// late or repeated delivery) changes nothing and reports `(false, {})`.
/// Otherwise the block leaves the in-flight set, its requesters are
/// returned, and when its piece is done the cursor advances over every done
/// piece.
pub open spec fn completed_post(
    pre: PickerView,
    idx: u32,
    offset: u32,
    post: PickerView,
    done: bool,
    peers: Set<usize>,
) -> bool {
    let b = idx * pre.scale + offset / BLOCK;
    let mid = pre.arrived(b);
    if !pre.waiting.contains(b as u32) {
        &&& !done
        &&& peers == Set::<usize>::empty()
        &&& post == pre
    } else {
        &&& peers == pre.waiting_peers[b as u32]
        &&& done == mid.piece_done(idx as int)
        &&& if done {
            &&& mid.cursor_stop(pre.piece_idx as int, post.piece_idx as int)
            &&& post == PickerView { piece_idx: post.piece_idx, ..mid }
        } else {
            post == mid
        }
    }
}

/// Bounds on `p * s` for an index `p` below `n`.
pub proof fn lemma_mul_step(p: int, n: int, s: int)
    requires
        0 <= p < n,
        0 <= s,
    ensures
        0 <= p * s,
        p * s + s <= n * s,
        s >= 1 ==> n <= n * s,
{
    assert(0 <= p * s) by (nonlinear_arith)
        requires
            0 <= p,
            0 <= s,
    ;
    assert(p * s + s <= n * s) by (nonlinear_arith)
        requires
            p < n,
            0 <= s,
    ;
    assert(s >= 1 ==> n <= n * s) by (nonlinear_arith)
        requires
            0 <= n,
    ;
}

/// `piece_done` reads only the blocks, the in-flight set and the scale.
pub proof fn lemma_piece_done_frame(a: PickerView, b: PickerView, p: int)
    requires
        a.blocks == b.blocks,
        a.waiting == b.waiting,
        a.scale == b.scale,
    ensures
        a.piece_done(p) == b.piece_done(p),
{
    if a.piece_done(p) {
        assert forall|j: int| 0 <= j < b.scale && p * b.scale + j < b.total_blocks() implies #[trigger] b.settled(p * b.scale + j) by {
            assert(a.settled(p * a.scale + j));
        }
    }
    if b.piece_done(p) {
        assert forall|j: int| 0 <= j < a.scale && p * a.scale + j < a.total_blocks() implies #[trigger] a.settled(p * a.scale + j) by {
            assert(b.settled(p * b.scale + j));
        }
    }
}

} // verus!
