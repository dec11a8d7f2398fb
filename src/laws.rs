use vstd::prelude::*;

use crate::bitfield::{count_set, lemma_count_set_bounded, lemma_count_set_update};
use crate::model::{
    completed_post, lemma_mul_step, lemma_piece_done_frame, last_piece_blocks_of, pick_post, scale_of, sizes_valid, total_blocks_of,
    PickerView, BLOCK,
};

verus! {

/// Blocks of piece `p` that exist: a full piece has `scale` of them, the
/// last one may have fewer.
pub open spec fn blocks_in_piece(v: PickerView, p: int) -> int {
    if (p + 1) * v.scale <= v.total_blocks() {
        v.scale as int
    } else {
        v.total_blocks() - p * v.scale
    }
}

/// The block a `(piece, byte offset)` pair names.
pub open spec fn block_at(v: PickerView, piece: u32, offset: u32) -> int {
    piece * v.scale + offset / BLOCK
}

/// In a well-formed picker every block below the cursor is scheduled and
/// not in flight.
pub proof fn lemma_below_cursor_done(v: PickerView, b: int)
    requires
        v.inv(),
        0 <= b < v.piece_idx * v.scale,
        b < v.total_blocks(),
    ensures
        v.blocks[b],
        !v.waiting.contains(b as u32),
{
    assert(v.settled(b));
}

/// In a well-formed picker the blocks with requesters are exactly the
/// blocks in flight.
pub proof fn lemma_waiters_match_waiting(v: PickerView)
    requires
        v.inv(),
    ensures
        v.waiting_peers.dom() == v.waiting,
{
}

/// In a well-formed picker the never-scheduled count plus the scheduled
/// count is the block count, and the former lies between zero and the
/// block count.
pub proof fn lemma_endgame_accounting(v: PickerView)
    requires
        v.inv(),
    ensures
        v.endgame_cnt + count_set(v.blocks) == v.total_blocks(),
        v.endgame_cnt <= v.total_blocks(),
{
}

/// `pick` never moves the cursor.
pub proof fn lemma_pick_keeps_cursor(
    pre: PickerView,
    view: Seq<bool>,
    id: usize,
    post: PickerView,
    r: Option<(u32, u32)>,
)
    requires
        pick_post(pre, view, id, post, r),
    ensures
        post.piece_idx == pre.piece_idx,
{
}

/// `completed` never moves the cursor back.
pub proof fn lemma_completed_keeps_cursor_order(
    pre: PickerView,
    idx: u32,
    offset: u32,
    post: PickerView,
    done: bool,
    peers: Set<usize>,
)
    requires
        completed_post(pre, idx, offset, post, done, peers),
    ensures
        post.piece_idx >= pre.piece_idx,
{
}

proof fn lemma_fresh_means_not_endgame(v: PickerView, b: int)
    requires
        v.inv(),
        v.fresh(b),
    ensures
        v.endgame_cnt > 0,
{
    lemma_count_set_update(v.blocks, b, true);
    lemma_count_set_bounded(v.blocks.update(b, true));
}

/// While some block has never been scheduled, a block that `pick` returns
/// had never been scheduled before, and it lies inside the torrent.
pub proof fn lemma_no_duplicate_before_endgame(
    pre: PickerView,
    view: Seq<bool>,
    id: usize,
    post: PickerView,
    piece: u32,
    offset: u32,
)
    requires
        pre.inv(),
        pre.endgame_cnt > 0,
        pick_post(pre, view, id, post, Some((piece, offset))),
    ensures
        0 <= block_at(pre, piece, offset) < pre.total_blocks(),
        !pre.blocks[block_at(pre, piece, offset)],
{
}

/// A block that `pick` returns lies inside the torrent and inside the
/// piece it names, also when the last piece is short.
pub proof fn lemma_pick_within_torrent(
    pre: PickerView,
    view: Seq<bool>,
    id: usize,
    post: PickerView,
    piece: u32,
    offset: u32,
)
    requires
        pre.inv(),
        pick_post(pre, view, id, post, Some((piece, offset))),
    ensures
        0 <= block_at(pre, piece, offset) < pre.total_blocks(),
        offset % BLOCK == 0,
        offset / BLOCK < pre.scale,
        piece < pre.num_pieces,
{
    let q = block_at(pre, piece, offset);
    if exists|p: int| pre.candidate(view, p) {
    } else {
        assert(pre.eligible(view, id, q));
        assert(piece * pre.scale <= q);
        assert(piece < pre.num_pieces) by (nonlinear_arith)
            requires
                piece * pre.scale <= q,
                q < pre.total_blocks(),
                pre.total_blocks() <= pre.num_pieces * pre.scale,
                pre.scale >= 1,
        ;
    }
}

/// A `pick` followed by `completed` of the same piece and offset leaves
/// that block scheduled and no longer in flight.
pub proof fn lemma_pick_then_completed(
    start: PickerView,
    view: Seq<bool>,
    id: usize,
    mid: PickerView,
    piece: u32,
    offset: u32,
    end: PickerView,
    done: bool,
    peers: Set<usize>,
)
    requires
        start.inv(),
        pick_post(start, view, id, mid, Some((piece, offset))),
        completed_post(mid, piece, offset, end, done, peers),
    ensures
        end.blocks[block_at(start, piece, offset)],
        !end.waiting.contains(block_at(start, piece, offset) as u32),
{
    let q = block_at(start, piece, offset);
    if exists|p: int| start.candidate(view, p) {
    } else {
        assert(start.eligible(view, id, q));
    }
}

/// When the piece length divides the total length, the last piece is full.
pub proof fn lemma_exact_division(piece_len: int, total_len: int, num_pieces: int)
    requires
        sizes_valid(piece_len, total_len, num_pieces),
        total_len % piece_len == 0,
    ensures
        last_piece_blocks_of(piece_len, total_len, num_pieces) == scale_of(piece_len),
        total_blocks_of(piece_len, total_len, num_pieces) == scale_of(piece_len) * num_pieces,
{
    let k = total_len / piece_len;
    vstd::arithmetic::div_mod::lemma_fundamental_div_mod(total_len, piece_len);
    assert(total_len == piece_len * k);
    assert(k == num_pieces) by (nonlinear_arith)
        requires
            piece_len > 0,
            total_len == piece_len * k,
            piece_len * (num_pieces - 1) < total_len <= piece_len * num_pieces,
    ;
    assert(total_len - piece_len * (num_pieces - 1) == piece_len) by (nonlinear_arith)
        requires
            total_len == piece_len * num_pieces,
    ;
    let s = piece_len / 16384;
    vstd::arithmetic::div_mod::lemma_fundamental_div_mod(piece_len, 16384);
    assert((piece_len + 16383) / 16384 == s);
    assert(s * (num_pieces - 1) + s == s * num_pieces) by (nonlinear_arith);
}

/// A single-piece torrent has as many blocks as its length needs, at most
/// `scale`.
pub proof fn lemma_single_piece(piece_len: int, total_len: int)
    requires
        sizes_valid(piece_len, total_len, 1),
    ensures
        total_blocks_of(piece_len, total_len, 1) == (total_len + BLOCK - 1) / (BLOCK as int),
        1 <= total_blocks_of(piece_len, total_len, 1) <= scale_of(piece_len),
{
    vstd::arithmetic::div_mod::lemma_fundamental_div_mod(piece_len, 16384);
}


/// The facts the refill of piece `p` keeps after `k` pick and completion
/// pairs: the first `k` blocks are settled, the rest still fresh.
pub open spec fn refilled(pre: PickerView, p: int, v: PickerView, k: int) -> bool {
    &&& v.scale == pre.scale
    &&& v.total_blocks() == pre.total_blocks()
    &&& v.num_pieces == pre.num_pieces
    &&& forall|j: int| 0 <= j < k ==> #[trigger] v.settled(p * pre.scale + j)
    &&& forall|j: int| k <= j < blocks_in_piece(pre, p) ==> !#[trigger] v.blocks[p * pre.scale + j]
    &&& forall|c: int|
        0 <= c < v.total_blocks() && !pre.in_piece(c, p) ==> #[trigger] v.blocks[c] == pre.blocks[c]
    &&& forall|c: u32|
        !pre.in_piece(c as int, p) ==> (#[trigger] v.waiting.contains(c) == pre.waiting.contains(c))
    &&& (k < blocks_in_piece(pre, p) ==> v.piece_idx == pre.invalidated(p).piece_idx)
}

proof fn lemma_refill_steps(
    pre: PickerView,
    p: int,
    st: Seq<PickerView>,
    views: Seq<Seq<bool>>,
    ids: Seq<usize>,
    offs: Seq<u32>,
    dones: Seq<bool>,
    peers: Seq<Set<usize>>,
    k: int,
)
    requires
        pre.inv(),
        0 <= p < pre.num_pieces,
        0 <= k <= blocks_in_piece(pre, p),
        st.len() == 2 * blocks_in_piece(pre, p) + 1,
        views.len() == blocks_in_piece(pre, p),
        ids.len() == blocks_in_piece(pre, p),
        offs.len() == blocks_in_piece(pre, p),
        dones.len() == blocks_in_piece(pre, p),
        peers.len() == blocks_in_piece(pre, p),
        st[0] == pre.invalidated(p),
        forall|i: int| 0 <= i < st.len() ==> #[trigger] st[i].inv(),
        forall|i: int|
            0 <= i < blocks_in_piece(pre, p) ==> pick_post(
                #[trigger] st[2 * i],
                views[i],
                ids[i],
                st[2 * i + 1],
                Some((p as u32, offs[i])),
            ),
        forall|i: int|
            0 <= i < blocks_in_piece(pre, p) ==> completed_post(
                #[trigger] st[2 * i + 1],
                p as u32,
                offs[i],
                st[2 * i + 2],
                dones[i],
                peers[i],
            ),
    ensures
        refilled(pre, p, st[2 * k], k),
    decreases k,
{
    let s = pre.scale as int;
    let n = blocks_in_piece(pre, p);
    lemma_mul_step(p, pre.num_pieces as int, s);
    assert((p + 1) * s == p * s + s) by (nonlinear_arith);
    if k == 0 {
        let v = st[0];
        assert forall|j: int| 0 <= j < n implies !#[trigger] v.blocks[p * s + j] by {
            assert(pre.in_piece(p * s + j, p));
        }
    } else {
        let i = k - 1;
        lemma_refill_steps(pre, p, st, views, ids, offs, dones, peers, i);
        let a = st[2 * i];
        let b1 = st[2 * i + 1];
        let c = st[2 * i + 2];
        assert(a.inv());
        let bk = p * s + i;
        assert(!a.blocks[bk]);
        assert(a.fresh(bk));
        assert(pick_post(a, views[i], ids[i], b1, Some((p as u32, offs[i]))));
        assert((p as u32) as int == p);
        if exists|q: int| a.candidate(views[i], q) {
            let jj = (offs[i] / BLOCK) as int;
            assert(a.first_fresh(p, jj));
            if jj < i {
                assert(a.settled(p * s + jj));
            }
            if jj > i {
                assert(!a.fresh(p * s + i));
            }
            assert(jj == i);
            assert(b1 == a.scheduled(bk, ids[i]));
        } else {
            lemma_fresh_means_not_endgame(a, bk);
        }
        assert(completed_post(b1, p as u32, offs[i], c, dones[i], peers[i]));
        assert(c.blocks == b1.blocks);
        assert(c.waiting == b1.waiting.remove(bk as u32));
        assert forall|j: int| 0 <= j < k implies #[trigger] c.settled(p * s + j) by {
            if j < i {
                assert(a.settled(p * s + j));
                assert((p * s + j) as u32 != bk as u32);
            }
        }
        assert forall|j: int| k <= j < n implies !#[trigger] c.blocks[p * s + j] by {
            assert(!a.blocks[p * s + j]);
        }
        assert forall|x: int|
            0 <= x < c.total_blocks() && !pre.in_piece(x, p) implies #[trigger] c.blocks[x] == pre.blocks[x] by {
            assert(a.blocks[x] == pre.blocks[x]);
        }
        assert forall|x: u32|
            !pre.in_piece(x as int, p) implies (#[trigger] c.waiting.contains(x) == pre.waiting.contains(x)) by {
            assert(a.waiting.contains(x) == pre.waiting.contains(x));
            assert(x != bk as u32);
        }
        if k < n {
            let mid = b1.arrived(bk);
            assert(b1.waiting.contains(bk as u32));
            assert(!a.blocks[p * s + k]);
            assert(!mid.settled(p * s + k));
            assert(!mid.piece_done(p));
            assert(c == mid);
        }
    }
}

/// After piece `p` is invalidated, picking its blocks fresh one after the
/// other, each followed by the completion of the same block, leaves piece
/// `p` done. `st` holds the states in order: even positions before each
/// pick, odd positions before each completion.
pub proof fn lemma_invalidate_then_refill(
    pre: PickerView,
    p: int,
    st: Seq<PickerView>,
    views: Seq<Seq<bool>>,
    ids: Seq<usize>,
    offs: Seq<u32>,
    dones: Seq<bool>,
    peers: Seq<Set<usize>>,
)
    requires
        pre.inv(),
        0 <= p < pre.num_pieces,
        st.len() == 2 * blocks_in_piece(pre, p) + 1,
        views.len() == blocks_in_piece(pre, p),
        ids.len() == blocks_in_piece(pre, p),
        offs.len() == blocks_in_piece(pre, p),
        dones.len() == blocks_in_piece(pre, p),
        peers.len() == blocks_in_piece(pre, p),
        st[0] == pre.invalidated(p),
        forall|i: int| 0 <= i < st.len() ==> #[trigger] st[i].inv(),
        forall|i: int|
            0 <= i < blocks_in_piece(pre, p) ==> pick_post(
                #[trigger] st[2 * i],
                views[i],
                ids[i],
                st[2 * i + 1],
                Some((p as u32, offs[i])),
            ),
        forall|i: int|
            0 <= i < blocks_in_piece(pre, p) ==> completed_post(
                #[trigger] st[2 * i + 1],
                p as u32,
                offs[i],
                st[2 * i + 2],
                dones[i],
                peers[i],
            ),
    ensures
        st[2 * blocks_in_piece(pre, p)].piece_done(p),
{
    let n = blocks_in_piece(pre, p);
    let s = pre.scale as int;
    lemma_refill_steps(pre, p, st, views, ids, offs, dones, peers, n);
    let v = st[2 * n];
    assert forall|j: int| 0 <= j < v.scale && p * v.scale + j < v.total_blocks() implies #[trigger] v.settled(p * v.scale + j) by {
        assert((p + 1) * s == p * s + s) by (nonlinear_arith);
        assert(j < n);
    }
}

/// `completed` keeps every invariant: all blocks below the cursor stay
/// scheduled and out of flight, the requester map keeps the in-flight
/// blocks as its keys, the never-scheduled count stays consistent, and the
/// delivered block is no longer in flight.
pub proof fn lemma_completed_keeps_invariants(
    pre: PickerView,
    idx: u32,
    offset: u32,
    post: PickerView,
    done: bool,
    peers: Set<usize>,
)
    requires
        pre.inv(),
        idx < pre.num_pieces,
        offset / BLOCK < pre.scale,
        completed_post(pre, idx, offset, post, done, peers),
    ensures
        post.inv(),
        post.piece_idx >= pre.piece_idx,
        post.waiting_peers.dom() == post.waiting,
        !post.waiting.contains(block_at(pre, idx, offset) as u32),
{
    let b = block_at(pre, idx, offset);
    let s = pre.scale as int;
    lemma_mul_step(idx as int, pre.num_pieces as int, s);
    if pre.waiting.contains(b as u32) {
        let mid = pre.arrived(b);
        assert(mid.waiting_peers.dom() =~= mid.waiting);
        assert forall|c: int| 0 <= c < pre.piece_idx * s && c < pre.total_blocks() implies #[trigger] mid.settled(c) by {
            assert(pre.settled(c));
        }
        if done {
            let k = post.piece_idx as int;
            let pi = pre.piece_idx as int;
            assert forall|c: int| 0 <= c < post.piece_idx * post.scale && c < post.total_blocks() implies #[trigger] post.settled(c) by {
                if c < pi * s {
                    assert(mid.settled(c));
                } else {
                    let q = c / s;
                    let j = c % s;
                    vstd::arithmetic::div_mod::lemma_fundamental_div_mod(c, s);
                    vstd::arithmetic::div_mod::lemma_mod_pos_bound(c, s);
                    assert(q * s == s * q) by (nonlinear_arith);
                    assert(q < k) by (nonlinear_arith)
                        requires
                            c == q * s + j,
                            0 <= j,
                            c < k * s,
                            s >= 1,
                    ;
                    assert(q >= pi) by (nonlinear_arith)
                        requires
                            c == q * s + j,
                            j < s,
                            c >= pi * s,
                            s >= 1,
                    ;
                    assert(mid.piece_done(q));
                    assert(mid.settled(q * s + j));
                }
            }
        }
    }
}

/// In a single-piece torrent, a `completed` that reports the piece done
/// leaves the cursor past the piece, nothing in flight, and every block
/// scheduled; any `completed` before it reported `false`, since the piece
/// was not done then.
pub proof fn lemma_single_piece_finish(
    pre: PickerView,
    offset: u32,
    post: PickerView,
    peers: Set<usize>,
)
    requires
        pre.inv(),
        pre.num_pieces == 1,
        completed_post(pre, 0, offset, post, true, peers),
    ensures
        post.piece_idx == 1,
        post.waiting == Set::<u32>::empty(),
        forall|b: int| 0 <= b < post.total_blocks() ==> post.blocks[b],
{
    let b = block_at(pre, 0, offset);
    let mid = pre.arrived(b);
    assert(pre.waiting.contains(b as u32));
    assert(mid.piece_done(0));
    assert forall|c: int| 0 <= c < post.total_blocks() implies post.blocks[c] && !post.waiting.contains(c as u32) by {
        assert(mid.settled(0 * pre.scale + c));
    }
    assert forall|c: u32| !post.waiting.contains(c) by {
        if post.waiting.contains(c) {
            assert(mid.waiting.contains(c));
            assert(pre.waiting.contains(c));
            assert(mid.settled(0 * pre.scale + c as int));
        }
    }
    assert(post.waiting =~= Set::<u32>::empty());
}

/// When piece `p` was done and the cursor stood on the first piece not
/// done, invalidating `p` and then picking and completing its blocks one
/// after the other, with no other call in between, returns the scheduled
/// blocks, the in-flight set, its requester keys, the never-scheduled count
/// and the cursor to what they were.
pub proof fn lemma_invalidate_then_refill_restores(
    pre: PickerView,
    p: int,
    st: Seq<PickerView>,
    views: Seq<Seq<bool>>,
    ids: Seq<usize>,
    offs: Seq<u32>,
    dones: Seq<bool>,
    peers: Seq<Set<usize>>,
)
    requires
        pre.inv(),
        0 <= p < pre.num_pieces,
        pre.piece_done(p),
        pre.piece_idx == pre.num_pieces || !pre.piece_done(pre.piece_idx as int),
        st.len() == 2 * blocks_in_piece(pre, p) + 1,
        views.len() == blocks_in_piece(pre, p),
        ids.len() == blocks_in_piece(pre, p),
        offs.len() == blocks_in_piece(pre, p),
        dones.len() == blocks_in_piece(pre, p),
        peers.len() == blocks_in_piece(pre, p),
        st[0] == pre.invalidated(p),
        forall|i: int| 0 <= i < st.len() ==> #[trigger] st[i].inv(),
        forall|i: int|
            0 <= i < blocks_in_piece(pre, p) ==> pick_post(
                #[trigger] st[2 * i],
                views[i],
                ids[i],
                st[2 * i + 1],
                Some((p as u32, offs[i])),
            ),
        forall|i: int|
            0 <= i < blocks_in_piece(pre, p) ==> completed_post(
                #[trigger] st[2 * i + 1],
                p as u32,
                offs[i],
                st[2 * i + 2],
                dones[i],
                peers[i],
            ),
    ensures
        st[2 * blocks_in_piece(pre, p)].blocks == pre.blocks,
        st[2 * blocks_in_piece(pre, p)].waiting == pre.waiting,
        st[2 * blocks_in_piece(pre, p)].waiting_peers.dom() == pre.waiting_peers.dom(),
        st[2 * blocks_in_piece(pre, p)].endgame_cnt == pre.endgame_cnt,
        st[2 * blocks_in_piece(pre, p)].piece_idx == pre.piece_idx,
        dones[blocks_in_piece(pre, p) - 1],
{
    let n = blocks_in_piece(pre, p);
    let s = pre.scale as int;
    lemma_mul_step(p, pre.num_pieces as int, s);
    assert((p + 1) * s == p * s + s) by (nonlinear_arith);
    assert(p * s <= (pre.num_pieces - 1) * s) by (nonlinear_arith)
        requires
            p <= pre.num_pieces - 1,
            s >= 0,
    ;
    assert(n >= 1);
    lemma_refill_steps(pre, p, st, views, ids, offs, dones, peers, n);
    lemma_refill_steps(pre, p, st, views, ids, offs, dones, peers, n - 1);
    let v = st[2 * n];
    assert(v.inv());
    assert forall|c: int| 0 <= c < v.total_blocks() implies v.blocks[c] == pre.blocks[c] by {
        if pre.in_piece(c, p) {
            let j = c - p * s;
            assert(v.settled(p * s + j));
            assert(pre.settled(p * s + j));
        }
    }
    assert(v.blocks =~= pre.blocks);
    assert forall|x: u32| v.waiting.contains(x) == pre.waiting.contains(x) by {
        if pre.in_piece(x as int, p) {
            if (x as int) < v.total_blocks() {
                let j = x as int - p * s;
                assert(v.settled(p * s + j));
                assert(pre.settled(p * s + j));
            } else {
                assert(!v.waiting.contains(x));
                assert(!pre.waiting.contains(x));
            }
        }
    }
    assert(v.waiting =~= pre.waiting);
    // The last pair finishes the piece and moves the cursor.
    let i = n - 1;
    let a = st[2 * i];
    let b1 = st[2 * i + 1];
    let bk = p * s + i;
    assert(refilled(pre, p, a, i));
    assert(!a.blocks[bk]);
    assert(a.fresh(bk));
    assert((p as u32) as int == p);
    if exists|q: int| a.candidate(views[i], q) {
        let jj = (offs[i] / BLOCK) as int;
        assert(a.first_fresh(p, jj));
        if jj < i {
            assert(a.settled(p * s + jj));
        }
        if jj > i {
            assert(!a.fresh(p * s + i));
        }
        assert(jj == i);
        assert(b1 == a.scheduled(bk, ids[i]));
    } else {
        lemma_fresh_means_not_endgame(a, bk);
    }
    assert(block_at(b1, p as u32, offs[i]) == bk);
    let mid = b1.arrived(bk);
    assert(b1.waiting.contains(bk as u32));
    assert(mid.blocks == v.blocks && mid.waiting == v.waiting);
    lemma_piece_done_frame(mid, pre, p);
    assert(dones[i]);
    let from = b1.piece_idx as int;
    let pi = pre.piece_idx as int;
    assert(from == pre.invalidated(p).piece_idx);
    let k = v.piece_idx as int;
    assert(2 * i + 2 == 2 * n);
    assert(completed_post(b1, p as u32, offs[i], v, dones[i], peers[i]));
    assert(b1.waiting.contains(block_at(b1, p as u32, offs[i]) as u32));
    assert(mid.cursor_stop(from, k));
    assert(from <= pi);
    assert forall|q: int| from <= q < pi implies #[trigger] mid.piece_done(q) by {
        assert forall|j: int| 0 <= j < s && q * s + j < pre.total_blocks() implies #[trigger] pre.settled(q * s + j) by {
            assert(q * s + s <= pi * s) by (nonlinear_arith)
                requires
                    q < pi,
                    s >= 0,
            ;
        }
        lemma_piece_done_frame(mid, pre, q);
    }
    if pi < pre.num_pieces {
        lemma_piece_done_frame(mid, pre, pi);
    }
    if k < pi {
        assert(mid.piece_done(k));
    }
    if k > pi {
        assert(mid.piece_done(pi));
    }
}

/// `pick` keeps every invariant: all blocks below the cursor stay scheduled
/// and out of flight, the requester map keeps the in-flight blocks as its
/// keys, and the never-scheduled count stays consistent.
pub proof fn lemma_pick_keeps_invariants(
    pre: PickerView,
    view: Seq<bool>,
    id: usize,
    post: PickerView,
    r: Option<(u32, u32)>,
)
    requires
        pre.inv(),
        pick_post(pre, view, id, post, r),
    ensures
        post.inv(),
        post.piece_idx == pre.piece_idx,
        post.waiting_peers.dom() == post.waiting,
{
    if exists|p: int| pre.candidate(view, p) {
        let (piece, offset) = r.unwrap();
        let b = block_at(pre, piece, offset);
        assert(pre.first_fresh(piece as int, (offset / BLOCK) as int));
        assert(pre.fresh(b));
        lemma_fresh_means_not_endgame(pre, b);
        lemma_count_set_update(pre.blocks, b, true);
        assert(post.waiting_peers.dom() =~= post.waiting);
        assert forall|c: int| 0 <= c < post.piece_idx * post.scale && c < post.total_blocks() implies #[trigger] post.settled(c) by {
            assert(pre.settled(c));
        }
    } else if pre.endgame_cnt == 0 && exists|q: int| pre.eligible(view, id, q) {
        assert(post.waiting_peers.dom() =~= post.waiting);
        assert forall|c: int| 0 <= c < post.piece_idx * post.scale && c < post.total_blocks() implies #[trigger] post.settled(c) by {
            assert(pre.settled(c));
        }
    }
}

} // verus!
