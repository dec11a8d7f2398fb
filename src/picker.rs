use std::collections::HashMap;
use std::collections::HashSet;
use vstd::prelude::*;

use crate::bitfield::{
    count_set,
    lemma_count_set_bounded,
    lemma_count_set_none,
    lemma_count_set_update,
    PieceField,
};
use crate::model::{
    completed_post, lemma_mul_step, lemma_piece_done_frame, pick_post, scale_of, sizes_valid, total_blocks_of, PickerView, BLOCK,
};

verus! {

broadcast use vstd::std_specs::hash::group_hash_axioms;

/// Torrent sizes a picker is built from.
pub struct Info {
    pub piece_len: u64,
    pub total_len: u64,
    pub num_pieces: u32,
}

/// A remote peer as the picker sees it: an identifier and the pieces it
/// advertises.
pub struct Peer {
    pub id: usize,
    pub pieces: PieceField,
}

/// Plans block requests for one torrent.
pub struct Picker {
    endgame_cnt: u32,
    piece_idx: u32,
    pieces: PieceField,
    scale: u32,
    num_pieces: u32,
    waiting: HashSet<u32>,
    waiting_peers: HashMap<u32, HashSet<usize>>,
    holders: Vec<u32>,
    rarest: bool,
}

impl View for Picker {
    type V = PickerView;

    closed spec fn view(&self) -> PickerView {
        PickerView {
            blocks: self.pieces@,
            waiting: self.waiting@,
            waiting_peers: self.waiting_peers@.map_values(|s: HashSet<usize>| s@),
            piece_idx: self.piece_idx as nat,
            endgame_cnt: self.endgame_cnt as nat,
            scale: self.scale as nat,
            num_pieces: self.num_pieces as nat,
            holders: self.holders@,
            rarest: self.rarest,
        }
    }
}

proof fn lemma_block_split(b: int, p: int, j: int, s: int)
    requires
        0 < s,
        0 <= j < s,
        b == p * s + j,
    ensures
        b / s == p,
        b % s == j,
{
    assert(b == p * s + j);
    assert(p * s == s * p) by (nonlinear_arith);
    vstd::arithmetic::div_mod::lemma_fundamental_div_mod_converse(b, s, p, j);
}

impl Picker {
    /// Well-formedness: the abstract invariant, plus the sizes the
    /// executable fields need.
    pub open spec fn wf(&self) -> bool {
        &&& self@.inv()
        &&& self@.blocks.len() <= u32::MAX
    }

    /// A picker that scans pieces in index order.
    pub fn new(info: &Info) -> (r: Picker)
        requires
            sizes_valid(info.piece_len as int, info.total_len as int, info.num_pieces as int),
        ensures
            r.wf(),
            r@.scale == scale_of(info.piece_len as int),
            r@.num_pieces == info.num_pieces,
            r@.total_blocks() == total_blocks_of(
                info.piece_len as int,
                info.total_len as int,
                info.num_pieces as int,
            ),
            forall|b: int| 0 <= b < r@.total_blocks() ==> !r@.blocks[b],
            r@.waiting.is_empty(),
            r@.piece_idx == 0,
            r@.endgame_cnt == r@.total_blocks(),
            !r@.rarest,
            forall|p: int| 0 <= p < r@.num_pieces ==> r@.holders[p] == 0,
    {
        Picker::build(info, false)
    }

    /// A picker that scans pieces in index order.
    pub fn new_sequential(info: &Info) -> (r: Picker)
        requires
            sizes_valid(info.piece_len as int, info.total_len as int, info.num_pieces as int),
        ensures
            r.wf(),
            r@.scale == scale_of(info.piece_len as int),
            r@.num_pieces == info.num_pieces,
            r@.total_blocks() == total_blocks_of(
                info.piece_len as int,
                info.total_len as int,
                info.num_pieces as int,
            ),
            forall|b: int| 0 <= b < r@.total_blocks() ==> !r@.blocks[b],
            r@.waiting.is_empty(),
            r@.piece_idx == 0,
            r@.endgame_cnt == r@.total_blocks(),
            !r@.rarest,
            forall|p: int| 0 <= p < r@.num_pieces ==> r@.holders[p] == 0,
    {
        Picker::build(info, false)
    }

    /// A picker that scans pieces by ascending holder count, ties by index.
    pub fn new_rarest(info: &Info) -> (r: Picker)
        requires
            sizes_valid(info.piece_len as int, info.total_len as int, info.num_pieces as int),
        ensures
            r.wf(),
            r@.scale == scale_of(info.piece_len as int),
            r@.num_pieces == info.num_pieces,
            r@.total_blocks() == total_blocks_of(
                info.piece_len as int,
                info.total_len as int,
                info.num_pieces as int,
            ),
            forall|b: int| 0 <= b < r@.total_blocks() ==> !r@.blocks[b],
            r@.waiting.is_empty(),
            r@.piece_idx == 0,
            r@.endgame_cnt == r@.total_blocks(),
            r@.rarest,
            forall|p: int| 0 <= p < r@.num_pieces ==> r@.holders[p] == 0,
    {
        Picker::build(info, true)
    }

    fn build(info: &Info, rarest: bool) -> (r: Picker)
        requires
            sizes_valid(info.piece_len as int, info.total_len as int, info.num_pieces as int),
        ensures
            r.wf(),
            r@.scale == scale_of(info.piece_len as int),
            r@.num_pieces == info.num_pieces,
            r@.total_blocks() == total_blocks_of(
                info.piece_len as int,
                info.total_len as int,
                info.num_pieces as int,
            ),
            forall|b: int| 0 <= b < r@.total_blocks() ==> !r@.blocks[b],
            r@.waiting.is_empty(),
            r@.piece_idx == 0,
            r@.endgame_cnt == r@.total_blocks(),
            r@.rarest == rarest,
            forall|p: int| 0 <= p < r@.num_pieces ==> r@.holders[p] == 0,
    {
        let ghost pl = info.piece_len as int;
        let ghost tl = info.total_len as int;
        let ghost np = info.num_pieces as int;
        let scale: u64 = info.piece_len / 16384;
        proof {
            assert(pl == scale * 16384);
            assert(pl * (np - 1) == scale * (np - 1) * 16384) by (nonlinear_arith)
                requires
                    pl == scale * 16384,
            ;
            assert(pl * np == scale * np * 16384) by (nonlinear_arith)
                requires
                    pl == scale * 16384,
            ;
            assert(scale * (np - 1) <= scale * np) by (nonlinear_arith)
                requires
                    scale >= 0,
                    np >= 1,
            ;
            assert(scale * np == scale * (np - 1) + scale) by (nonlinear_arith);
            assert(scale * 16384 <= u32::MAX);
        }
        let full_blocks: u64 = scale * (info.num_pieces as u64 - 1);
        let full_bytes: u64 = info.piece_len * (info.num_pieces as u64 - 1);
        let last_bytes: u64 = info.total_len - full_bytes;
        let last_blocks: u64 = if last_bytes % 16384 == 0 {
            last_bytes / 16384
        } else {
            last_bytes / 16384 + 1
        };
        proof {
            assert(0 < last_bytes <= pl);
            assert(last_blocks == (last_bytes + 16383) / 16384);
            assert(1 <= last_blocks <= scale);
        }
        let len: u64 = full_blocks + last_blocks;
        let len32: u32 = len as u32;
        let pieces = PieceField::new(len32);
        let mut holders: Vec<u32> = Vec::new();
        let mut k: u32 = 0;
        while k < info.num_pieces
            invariant
                k <= info.num_pieces,
                holders@.len() == k,
                forall|p: int| 0 <= p < k ==> holders@[p] == 0,
            decreases info.num_pieces - k,
        {
            holders.push(0);
            k = k + 1;
        }
        let r = Picker {
            pieces,
            piece_idx: 0,
            scale: scale as u32,
            num_pieces: info.num_pieces,
            waiting: HashSet::new(),
            endgame_cnt: len32,
            waiting_peers: HashMap::new(),
            holders,
            rarest,
        };
        proof {
            lemma_count_set_none(r.pieces@);
            assert((np - 1) * scale == scale * (np - 1)) by (nonlinear_arith);
            assert(np * scale == scale * np) by (nonlinear_arith);
            assert(r@.total_blocks() == len);
            assert(r@.waiting_peers =~= Map::empty());
            assert(r@.waiting_peers.dom() =~= r@.waiting);
        }
        r
    }
}


impl Picker {
    /// The lowest offset of a fresh block in piece `p`, if any.
    fn first_fresh(&self, p: u32) -> (r: Option<u32>)
        requires
            self.wf(),
            p < self@.num_pieces,
        ensures
            match r {
                Some(j) => self@.first_fresh(p as int, j as int),
                None => !self@.has_fresh(p as int),
            },
    {
        proof {
            lemma_mul_step(p as int, self.num_pieces as int, self.scale as int);
        }
        let base: u32 = p * self.scale;
        let total = self.pieces.len();
        let mut j: u32 = 0;
        while j < self.scale
            invariant
                self.wf(),
                base == p * self.scale,
                base + self.scale <= u32::MAX,
                total == self@.total_blocks(),
                j <= self.scale,
                forall|k: int| 0 <= k < j ==> !#[trigger] self@.fresh(p * self@.scale + k),
            decreases self.scale - j,
        {
            if base + j < total && !self.pieces.has_piece(base + j) {
                return Some(j);
            }
            j = j + 1;
        }
        None
    }

    /// The first piece, in index order from the cursor, that `view`
    /// advertises and that has a fresh block, with that block's offset.
    fn sequential_choice(&self, view: &PieceField) -> (r: Option<(u32, u32)>)
        requires
            self.wf(),
            !self@.rarest,
            view@.len() == self@.num_pieces,
        ensures
            match r {
                Some((p, j)) => self@.normal_choice(view@, p as int) && self@.first_fresh(
                    p as int,
                    j as int,
                ),
                None => forall|q: int| !#[trigger] self@.candidate(view@, q),
            },
    {
        let mut p: u32 = self.piece_idx;
        while p < self.num_pieces
            invariant
                self.wf(),
                !self@.rarest,
                view@.len() == self@.num_pieces,
                self.piece_idx <= p <= self.num_pieces,
                forall|q: int| q < p ==> !#[trigger] self@.candidate(view@, q),
            decreases self.num_pieces - p,
        {
            if view.has_piece(p) {
                match self.first_fresh(p) {
                    Some(j) => {
                        assert(self@.candidate(view@, p as int));
                        return Some((p, j));
                    },
                    None => {},
                }
            }
            p = p + 1;
        }
        None
    }

    /// The candidate piece with the fewest holders, ties by index, with the
    /// offset of its first fresh block.
    fn rarest_choice(&self, view: &PieceField) -> (r: Option<(u32, u32)>)
        requires
            self.wf(),
            self@.rarest,
            view@.len() == self@.num_pieces,
        ensures
            match r {
                Some((p, j)) => self@.normal_choice(view@, p as int) && self@.first_fresh(
                    p as int,
                    j as int,
                ),
                None => forall|q: int| !#[trigger] self@.candidate(view@, q),
            },
    {
        let mut best: Option<(u32, u32)> = None;
        let mut p: u32 = self.piece_idx;
        while p < self.num_pieces
            invariant
                self.wf(),
                self@.rarest,
                view@.len() == self@.num_pieces,
                self.piece_idx <= p <= self.num_pieces,
                match best {
                    Some((b, j)) => {
                        &&& b < p
                        &&& self@.candidate(view@, b as int)
                        &&& self@.first_fresh(b as int, j as int)
                        &&& forall|q: int|
                            q < p && #[trigger] self@.candidate(view@, q) && q != b
                                ==> self@.precedes(b as int, q)
                    },
                    None => forall|q: int| q < p ==> !#[trigger] self@.candidate(view@, q),
                },
            decreases self.num_pieces - p,
        {
            if view.has_piece(p) {
                match self.first_fresh(p) {
                    Some(j) => {
                        assert(self@.candidate(view@, p as int));
                        let better = match best {
                            Some((b, _)) => self.holders[p as usize] < self.holders[b as usize],
                            None => true,
                        };
                        if better {
                            best = Some((p, j));
                        }
                    },
                    None => {},
                }
            }
            p = p + 1;
        }
        best
    }

    /// The lowest in-flight block whose piece `view` advertises and for
    /// which peer `id` has not been asked.
    fn endgame_choice(&self, view: &PieceField, id: usize) -> (r: Option<u32>)
        requires
            self.wf(),
            view@.len() == self@.num_pieces,
        ensures
            match r {
                Some(q) => self@.endgame_choice(view@, id, q as int),
                None => forall|q: int| !#[trigger] self@.eligible(view@, id, q),
            },
    {
        let total = self.pieces.len();
        let mut q: u32 = 0;
        while q < total
            invariant
                self.wf(),
                view@.len() == self@.num_pieces,
                total == self@.total_blocks(),
                q <= total,
                forall|k: int| k < q ==> !#[trigger] self@.eligible(view@, id, k),
            decreases total - q,
        {
            if self.waiting.contains(&q) {
                proof {
                    vstd::arithmetic::div_mod::lemma_div_is_ordered(
                        q as int,
                        (self@.num_pieces * self@.scale) as int,
                        self@.scale as int,
                    );
                    vstd::arithmetic::div_mod::lemma_div_multiples_vanish(
                        self@.num_pieces as int,
                        self@.scale as int,
                    );
                    assert(q / self.scale < self.num_pieces) by (nonlinear_arith)
                        requires
                            q < self@.num_pieces * self@.scale,
                            self.scale >= 1,
                    ;
                }
                if view.has_piece(q / self.scale) {
                    let asked = match self.waiting_peers.get(&q) {
                        Some(s) => s.contains(&id),
                        None => true,
                    };
                    if !asked {
                        assert(self@.eligible(view@, id, q as int));
                        return Some(q);
                    }
                }
            }
            q = q + 1;
        }
        None
    }
}


impl Picker {
    /// Chooses the next block to request from `peer`, as `(piece, byte
    /// offset)`, and records the request.
    pub fn pick(&mut self, peer: &Peer) -> (r: Option<(u32, u32)>)
        requires
            old(self).wf(),
            peer.pieces@.len() == old(self)@.num_pieces,
        ensures
            final(self).wf(),
            pick_post(old(self)@, peer.pieces@, peer.id, final(self)@, r),
            final(self)@.piece_idx == old(self)@.piece_idx,
            old(self)@.endgame_cnt > 0 ==> match r {
                Some((p, o)) => !old(self)@.blocks[p * old(self)@.scale + o / BLOCK],
                None => true,
            },
    {
        let ghost pre = self@;
        let choice = if self.rarest {
            self.rarest_choice(&peer.pieces)
        } else {
            self.sequential_choice(&peer.pieces)
        };
        if let Some((p, j)) = choice {
            proof {
                assert(pre.candidate(peer.pieces@, p as int));
                lemma_mul_step(p as int, self.num_pieces as int, self.scale as int);
                lemma_mul_step(j as int, self.scale as int, 16384);
                lemma_block_split((j * 16384) as int, j as int, 0, 16384);
            }
            let b: u32 = p * self.scale + j;
            proof {
                lemma_count_set_update(self.pieces@, b as int, true);
                lemma_count_set_bounded(self.pieces@.update(b as int, true));
            }
            self.pieces.set_piece(b);
            self.waiting.insert(b);
            let mut hs: HashSet<usize> = HashSet::with_capacity(1);
            hs.insert(peer.id);
            self.waiting_peers.insert(b, hs);
            self.endgame_cnt = self.endgame_cnt - 1;
            proof {
                assert(hs@ =~= set![peer.id]);
                assert(self@.waiting_peers =~= pre.waiting_peers.insert(b, set![peer.id]));
                assert(self@.waiting_peers.dom() =~= self@.waiting);
                assert(self@ == pre.scheduled(b as int, peer.id));
                if b < pre.piece_idx * pre.scale {
                    assert(pre.settled(b as int));
                }
                assert forall|c: int|
                    0 <= c < self@.piece_idx * self@.scale && c < self@.total_blocks() implies #[trigger] self@.settled(c) by {
                    assert(pre.settled(c));
                }
            }
            return Some((p, j * 16384));
        }
        if self.endgame_cnt == 0 {
            if let Some(q) = self.endgame_choice(&peer.pieces, peer.id) {
                let removed = self.waiting_peers.remove(&q);
                let mut s: HashSet<usize> = match removed {
                    Some(s) => s,
                    None => HashSet::new(),
                };
                s.insert(peer.id);
                self.waiting_peers.insert(q, s);
                proof {
                    assert(self@.waiting_peers =~= pre.waiting_peers.insert(
                        q,
                        pre.waiting_peers[q].insert(peer.id),
                    ));
                    assert(self@.waiting_peers.dom() =~= self@.waiting);
                    assert(self@ == pre.with_waiter(q as int, peer.id));
                    assert forall|c: int|
                        0 <= c < self@.piece_idx * self@.scale && c < self@.total_blocks() implies #[trigger] self@.settled(c) by {
                        assert(pre.settled(c));
                    }
                }
                let p: u32 = q / self.scale;
                let m: u32 = q % self.scale;
                proof {
                    vstd::arithmetic::div_mod::lemma_fundamental_div_mod(q as int, self.scale as int);
                    assert(self.scale * p == p * self.scale) by (nonlinear_arith);
                    lemma_mul_step(m as int, self.scale as int, 16384);
                    lemma_block_split((m * 16384) as int, m as int, 0, 16384);
                }
                return Some((p, m * 16384));
            }
        }
        None
    }
}


impl Picker {
    /// Whether every block of piece `p` is scheduled and not in flight.
    fn is_piece_done(&self, p: u32) -> (r: bool)
        requires
            self.wf(),
            p < self@.num_pieces,
        ensures
            r == self@.piece_done(p as int),
    {
        proof {
            lemma_mul_step(p as int, self.num_pieces as int, self.scale as int);
        }
        let base: u32 = p * self.scale;
        let total = self.pieces.len();
        let mut j: u32 = 0;
        while j < self.scale
            invariant
                self.wf(),
                base == p * self.scale,
                base + self.scale <= u32::MAX,
                total == self@.total_blocks(),
                j <= self.scale,
                forall|k: int|
                    0 <= k < j && p * self@.scale + k < self@.total_blocks() ==> #[trigger] self@.settled(
                        p * self@.scale + k,
                    ),
            decreases self.scale - j,
        {
            if base + j < total && (!self.pieces.has_piece(base + j) || self.waiting.contains(
                &(base + j),
            )) {
                assert(!self@.settled(p * self@.scale + j));
                return false;
            }
            j = j + 1;
        }
        true
    }

    /// Moves the cursor past every done piece.
    fn update_piece_idx(&mut self)
        requires
            old(self).wf(),
        ensures
            final(self).wf(),
            old(self)@.cursor_stop(old(self)@.piece_idx as int, final(self)@.piece_idx as int),
            final(self)@ == (PickerView { piece_idx: final(self)@.piece_idx, ..old(self)@ }),
    {
        let ghost pre = self@;
        let mut go = true;
        while go && self.piece_idx < self.num_pieces
            invariant
                self.wf(),
                self@ == (PickerView { piece_idx: self@.piece_idx, ..pre }),
                pre.piece_idx <= self@.piece_idx <= pre.num_pieces,
                forall|q: int| pre.piece_idx <= q < self@.piece_idx ==> #[trigger] pre.piece_done(q),
                !go ==> !pre.piece_done(self@.piece_idx as int),
            decreases self.num_pieces - self.piece_idx + if go {
                1int
            } else {
                0int
            },
        {
            let done = self.is_piece_done(self.piece_idx);
            let ghost cur = self@;
            proof {
                assert(cur.blocks == pre.blocks);
                assert(cur.waiting == pre.waiting);
                assert(cur.scale == pre.scale);
                lemma_piece_done_frame(pre, cur, cur.piece_idx as int);
            }
            if done {
                proof {
                    let pi = cur.piece_idx as int;
                    let sc = cur.scale as int;
                    assert((pi + 1) * sc == pi * sc + sc) by (nonlinear_arith);
                    assert forall|c: int|
                        0 <= c < (pi + 1) * sc && c < cur.total_blocks() implies #[trigger] cur.settled(c) by {
                        if c >= pi * sc {
                            let j = c - pi * sc;
                            assert(cur.settled(pi * sc + j));
                        }
                    }
                }
                self.piece_idx = self.piece_idx + 1;
                proof {
                    assert forall|c: int|
                        0 <= c < self@.piece_idx * self@.scale && c < self@.total_blocks() implies #[trigger] self@.settled(c) by {
                        assert(cur.settled(c));
                    }
                }
            } else {
                go = false;
            }
        }
    }

    /// Records the arrival of the block at `offset` in piece `idx`.
    /// Returns whether that piece is now done, and the peers that had been
    /// asked for the block. A block that is not in flight (a late or
    /// repeated delivery) changes nothing and gives `(false, {})`.
    pub fn completed(&mut self, idx: u32, offset: u32) -> (r: (bool, HashSet<usize>))
        requires
            old(self).wf(),
            idx < old(self)@.num_pieces,
            offset / BLOCK < old(self)@.scale,
        ensures
            final(self).wf(),
            completed_post(old(self)@, idx, offset, final(self)@, r.0, r.1@),
            final(self)@.piece_idx >= old(self)@.piece_idx,
    {
        let ghost pre = self@;
        proof {
            lemma_mul_step(idx as int, self.num_pieces as int, self.scale as int);
        }
        let b: u32 = idx * self.scale + offset / 16384;
        if !self.waiting.contains(&b) {
            return (false, HashSet::new());
        }
        self.waiting.remove(&b);
        let removed = self.waiting_peers.remove(&b);
        let peers: HashSet<usize> = match removed {
            Some(s) => s,
            None => HashSet::new(),
        };
        proof {
            assert(self@.waiting_peers =~= pre.waiting_peers.remove(b));
            assert(self@ == pre.arrived(b as int));
            assert(self@.waiting_peers.dom() =~= self@.waiting);
            assert forall|c: int|
                0 <= c < self@.piece_idx * self@.scale && c < self@.total_blocks() implies #[trigger] self@.settled(c) by {
                assert(pre.settled(c));
            }
        }
        if !self.is_piece_done(idx) {
            return (false, peers);
        }
        self.update_piece_idx();
        (true, peers)
    }
}


impl Picker {
    /// Returns every block of piece `p` to fresh after its data was
    /// rejected, and moves the cursor back to `p` if it was past it. An
    /// index past the last piece changes nothing.
    pub fn invalidate_piece(&mut self, p: u32)
        requires
            old(self).wf(),
        ensures
            final(self).wf(),
            p < old(self)@.num_pieces ==> final(self)@ == old(self)@.invalidated(p as int),
            p >= old(self)@.num_pieces ==> final(self)@ == old(self)@,
            final(self)@.endgame_cnt + count_set(final(self)@.blocks) == old(self)@.endgame_cnt
                + count_set(old(self)@.blocks),
    {
        if p >= self.num_pieces {
            return;
        }
        let ghost pre = self@;
        proof {
            lemma_mul_step(p as int, self.num_pieces as int, self.scale as int);
        }
        let base: u32 = p * self.scale;
        let total = self.pieces.len();
        let mut j: u32 = 0;
        while j < self.scale
            invariant
                pre.inv(),
                base == p * pre.scale,
                base + pre.scale <= u32::MAX,
                total == pre.total_blocks(),
                total <= u32::MAX,
                j <= pre.scale,
                self.scale == pre.scale,
                self.num_pieces == pre.num_pieces,
                self@.piece_idx == pre.piece_idx,
                self@.holders == pre.holders,
                self@.rarest == pre.rarest,
                self.pieces@ == Seq::new(
                    total as nat,
                    |b: int|
                        if base <= b < base + j {
                            false
                        } else {
                            pre.blocks[b]
                        },
                ),
                self@.waiting == pre.waiting.difference(Set::new(|b: u32| base <= b < base + j)),
                self@.waiting_peers == pre.waiting_peers.remove_keys(
                    Set::new(|b: u32| base <= b < base + j),
                ),
                self.endgame_cnt + count_set(self.pieces@) == total,
            decreases pre.scale - j,
        {
            let b: u32 = base + j;
            let ghost before = self@;
            if b < total {
                if self.pieces.has_piece(b) {
                    proof {
                        lemma_count_set_update(self.pieces@, b as int, false);
                    }
                    self.pieces.unset_piece(b);
                    self.endgame_cnt = self.endgame_cnt + 1;
                }
                self.waiting.remove(&b);
                self.waiting_peers.remove(&b);
                proof {
                    assert(self@.waiting_peers =~= before.waiting_peers.remove(b));
                }
            } else {
                proof {
                    assert(!pre.waiting.contains(b));
                    assert(before.waiting_peers.remove(b) =~= before.waiting_peers);
                }
            }
            proof {
                assert(self@.waiting_peers =~= before.waiting_peers.remove(b));
                assert(self.pieces@ =~= Seq::new(
                    total as nat,
                    |c: int|
                        if base <= c < base + j + 1 {
                            false
                        } else {
                            pre.blocks[c]
                        },
                ));
                assert(self@.waiting =~= pre.waiting.difference(
                    Set::new(|c: u32| base <= c < base + j + 1),
                ));
                assert(self@.waiting_peers =~= pre.waiting_peers.remove_keys(
                    Set::new(|c: u32| base <= c < base + j + 1),
                ));
            }
            j = j + 1;
        }
        if self.piece_idx > p {
            self.piece_idx = p;
        }
        proof {
            let post = pre.invalidated(p as int);
            assert(Set::new(|c: u32| base <= c < base + pre.scale) =~= pre.piece_blocks(p as int));
            assert(self.pieces@ =~= post.blocks);
            assert(self@ == post);
            assert(self@.waiting_peers.dom() =~= self@.waiting);
            let pi = self@.piece_idx as int;
            assert(pi * pre.scale <= base) by (nonlinear_arith)
                requires
                    pi <= p,
                    base == p * pre.scale,
            ;
            assert(pi * pre.scale <= pre.piece_idx * pre.scale) by (nonlinear_arith)
                requires
                    pi <= pre.piece_idx,
            ;
            assert forall|c: int|
                0 <= c < self@.piece_idx * self@.scale && c < self@.total_blocks() implies #[trigger] self@.settled(c) by {
                assert(pre.settled(c));
            }
        }
    }

    /// Notes that one more peer holds piece `p`. Only a picker that ranks
    /// pieces by holders keeps the count; the count saturates.
    pub fn piece_available(&mut self, p: u32)
        requires
            old(self).wf(),
        ensures
            final(self).wf(),
            final(self)@ == (PickerView {
                holders: if old(self)@.rarest && p < old(self)@.num_pieces {
                    old(self)@.holders.update(
                        p as int,
                        if old(self)@.holders[p as int] < u32::MAX {
                            (old(self)@.holders[p as int] + 1) as u32
                        } else {
                            u32::MAX
                        },
                    )
                } else {
                    old(self)@.holders
                },
                ..old(self)@
            }),
    {
        let ghost pre = self@;
        if self.rarest && p < self.num_pieces {
            let c = self.holders[p as usize];
            self.holders.set(p as usize, c.saturating_add(1));
        }
        proof {
            assert forall|c: int|
                0 <= c < self@.piece_idx * self@.scale && c < self@.total_blocks() implies #[trigger] self@.settled(c) by {
                assert(pre.settled(c));
            }
        }
    }

    /// Notes that one fewer peer holds piece `p`, the counterpart of
    /// `piece_available`; the count does not go below zero.
    pub fn piece_gone(&mut self, p: u32)
        requires
            old(self).wf(),
        ensures
            final(self).wf(),
            final(self)@ == (PickerView {
                holders: if old(self)@.rarest && p < old(self)@.num_pieces {
                    old(self)@.holders.update(
                        p as int,
                        if old(self)@.holders[p as int] > 0 {
                            (old(self)@.holders[p as int] - 1) as u32
                        } else {
                            0
                        },
                    )
                } else {
                    old(self)@.holders
                },
                ..old(self)@
            }),
    {
        let ghost pre = self@;
        if self.rarest && p < self.num_pieces {
            let c = self.holders[p as usize];
            self.holders.set(p as usize, c.saturating_sub(1));
        }
        proof {
            assert forall|c: int|
                0 <= c < self@.piece_idx * self@.scale && c < self@.total_blocks() implies #[trigger] self@.settled(c) by {
                assert(pre.settled(c));
            }
        }
    }
}


impl Picker {
    /// Blocks in a full piece.
    pub fn scale(&self) -> (r: u32)
        requires
            self.wf(),
        ensures
            r == self@.scale,
    {
        self.scale
    }

    /// Blocks in the torrent.
    pub fn num_blocks(&self) -> (r: u32)
        requires
            self.wf(),
        ensures
            r == self@.total_blocks(),
    {
        self.pieces.len()
    }

    /// The first piece not known to be done.
    pub fn piece_idx(&self) -> (r: u32)
        requires
            self.wf(),
        ensures
            r == self@.piece_idx,
    {
        self.piece_idx
    }

    /// Blocks never scheduled.
    pub fn endgame_cnt(&self) -> (r: u32)
        requires
            self.wf(),
        ensures
            r == self@.endgame_cnt,
    {
        self.endgame_cnt
    }

    /// Whether block `b` has been scheduled.
    pub fn is_scheduled(&self, b: u32) -> (r: bool)
        requires
            self.wf(),
            b < self@.total_blocks(),
        ensures
            r == self@.blocks[b as int],
    {
        self.pieces.has_piece(b)
    }

    /// Whether block `b` is in flight.
    pub fn is_waiting(&self, b: u32) -> (r: bool)
        requires
            self.wf(),
        ensures
            r == self@.waiting.contains(b),
    {
        self.waiting.contains(&b)
    }

    /// Whether peer `id` has been asked for block `b`, which is in flight.
    pub fn is_waiter(&self, b: u32, id: usize) -> (r: bool)
        requires
            self.wf(),
        ensures
            r == (self@.waiting_peers.contains_key(b) && self@.waiting_peers[b].contains(id)),
    {
        match self.waiting_peers.get(&b) {
            Some(s) => s.contains(&id),
            None => false,
        }
    }

    /// How many peers a picker that ranks by rarity counts as holding
    /// piece `p`.
    pub fn holders_of(&self, p: u32) -> (r: u32)
        requires
            self.wf(),
            p < self@.num_pieces,
        ensures
            r == self@.holders[p as int],
    {
        self.holders[p as usize]
    }
}

} // verus!
