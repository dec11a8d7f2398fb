use std::collections::HashSet;

use synapse::{Info, Peer, PieceField, Picker};

fn info(piece_len: u64, total_len: u64, num_pieces: u32) -> Info {
    Info { piece_len, total_len, num_pieces }
}

fn peer_with(id: usize, num_pieces: u32, have: &[u32]) -> Peer {
    let mut pieces = PieceField::new(num_pieces);
    for p in have {
        pieces.set_piece(*p);
    }
    Peer { id, pieces }
}

fn all_pieces(n: u32) -> Vec<u32> {
    (0..n).collect()
}

#[test]
fn test_piece_size() {
    let info = info(262144, 2000000, 8);
    let picker = Picker::new(&info);
    assert_eq!(picker.scale() as u64, info.piece_len / 16384);
    assert_eq!(picker.num_blocks(), 123);
}

#[test]
fn sizing_of_short_last_piece() {
    let picker = Picker::new(&info(262144, 2_000_000, 8));
    assert_eq!(picker.scale(), 16);
    assert_eq!(picker.num_blocks(), 16 * 7 + 11);
    assert_eq!(picker.endgame_cnt(), 123);
    assert_eq!(picker.piece_idx(), 0);
}

#[test]
fn single_peer_full_transfer() {
    let mut picker = Picker::new(&info(262144, 2_000_000, 8));
    let peer = peer_with(1, 8, &all_pieces(8));
    let mut pairs = 0;
    while picker.piece_idx() < 8 {
        let before = picker.endgame_cnt();
        let (p, o) = picker.pick(&peer).expect("a fresh block");
        let b = p * 16 + o / 16384;
        assert_eq!(picker.endgame_cnt(), before - 1);
        assert!(picker.is_waiting(b));
        let (_, peers) = picker.completed(p, o);
        assert_eq!(peers, HashSet::from([1usize]));
        assert!(!picker.is_waiting(b));
        pairs += 1;
        assert!(pairs <= 123);
    }
    assert_eq!(pairs, 123);
    assert_eq!(picker.endgame_cnt(), 0);
    assert_eq!(picker.pick(&peer), None);
}

#[test]
fn sequential_order_within_and_across_pieces() {
    let mut picker = Picker::new(&info(32768, 65536 * 2, 4));
    let peer = peer_with(3, 4, &[1, 3]);
    assert_eq!(picker.pick(&peer), Some((1, 0)));
    assert_eq!(picker.pick(&peer), Some((1, 16384)));
    assert_eq!(picker.pick(&peer), Some((3, 0)));
    assert_eq!(picker.pick(&peer), Some((3, 16384)));
    assert_eq!(picker.pick(&peer), None);
}

fn endgame_overlap() -> Picker {
    let mut picker = Picker::new(&info(262144, 2_000_000, 8));
    let first = peer_with(1, 8, &all_pieces(8));
    let second = peer_with(2, 8, &all_pieces(8));
    for _ in 0..123 {
        assert!(picker.pick(&first).is_some());
    }
    assert_eq!(picker.endgame_cnt(), 0);
    assert_eq!(picker.pick(&first), None);
    for b in 0..123u32 {
        let (p, o) = picker.pick(&second).expect("an endgame block");
        assert_eq!(p * 16 + o / 16384, b);
    }
    assert_eq!(picker.pick(&second), None);
    for b in 0..123u32 {
        assert!(picker.is_waiter(b, 1));
        assert!(picker.is_waiter(b, 2));
    }
    picker
}

#[test]
fn endgame_overlap_scenario() {
    endgame_overlap();
}

#[test]
fn duplicate_completion() {
    let mut picker = endgame_overlap();
    let (done, peers) = picker.completed(2, 3 * 16384);
    assert!(!done);
    assert_eq!(peers, HashSet::from([1usize, 2usize]));
    assert!(!picker.is_waiting(2 * 16 + 3));
    let (done, peers) = picker.completed(2, 3 * 16384);
    assert!(!done);
    assert!(peers.is_empty());
}

#[test]
fn hash_failure_recovery() {
    let mut picker = Picker::new(&info(262144, 2_000_000, 8));
    let peer = peer_with(1, 8, &[3]);
    let mut done = false;
    for j in 0..16u32 {
        assert_eq!(picker.pick(&peer), Some((3, j * 16384)));
        done = picker.completed(3, j * 16384).0;
    }
    assert!(done);
    let before = picker.endgame_cnt();
    picker.invalidate_piece(3);
    assert!(picker.piece_idx() <= 3);
    assert_eq!(picker.endgame_cnt(), before + 16);
    for j in 0..16u32 {
        assert!(!picker.is_scheduled(3 * 16 + j));
    }
    for j in 0..16u32 {
        assert_eq!(picker.pick(&peer), Some((3, j * 16384)));
        let (d, _) = picker.completed(3, j * 16384);
        assert_eq!(d, j == 15);
    }
    assert_eq!(picker.endgame_cnt(), before);
}

#[test]
fn invalidate_moves_cursor_back() {
    let mut picker = Picker::new(&info(16384, 16384 * 4, 4));
    let peer = peer_with(1, 4, &all_pieces(4));
    for p in 0..3u32 {
        assert_eq!(picker.pick(&peer), Some((p, 0)));
        assert!(picker.completed(p, 0).0);
    }
    assert_eq!(picker.piece_idx(), 3);
    picker.invalidate_piece(1);
    assert_eq!(picker.piece_idx(), 1);
    assert_eq!(picker.endgame_cnt(), 2);
    assert_eq!(picker.pick(&peer), Some((1, 0)));
    assert!(picker.completed(1, 0).0);
    assert_eq!(picker.piece_idx(), 3);
}

#[test]
fn invalidate_unknown_piece_is_noop() {
    let mut picker = Picker::new(&info(16384, 16384 * 4, 4));
    picker.invalidate_piece(9);
    assert_eq!(picker.endgame_cnt(), 4);
    assert_eq!(picker.piece_idx(), 0);
}

#[test]
fn invalidate_drops_in_flight_blocks() {
    let mut picker = Picker::new(&info(32768, 65536, 2));
    let peer = peer_with(4, 2, &[0]);
    assert_eq!(picker.pick(&peer), Some((0, 0)));
    assert!(picker.is_waiting(0));
    picker.invalidate_piece(0);
    assert!(!picker.is_waiting(0));
    assert!(!picker.is_waiter(0, 4));
    assert_eq!(picker.endgame_cnt(), 4);
    assert_eq!(picker.completed(0, 0), (false, HashSet::new()));
}

#[test]
fn short_last_piece_offers_only_valid_blocks() {
    let mut picker = Picker::new(&info(262144, 2_000_000, 8));
    let peer = peer_with(1, 8, &[7]);
    for j in 0..11u32 {
        assert_eq!(picker.pick(&peer), Some((7, j * 16384)));
    }
    assert_eq!(picker.pick(&peer), None);
}

#[test]
fn exact_division_gives_full_last_piece() {
    let picker = Picker::new(&info(65536, 65536 * 3, 3));
    assert_eq!(picker.scale(), 4);
    assert_eq!(picker.num_blocks(), 12);
}

#[test]
fn single_piece_torrent() {
    let mut picker = Picker::new(&info(262144, 100_000, 1));
    assert_eq!(picker.num_blocks(), 7);
    let peer = peer_with(1, 1, &[0]);
    let mut n = 0;
    while let Some((p, o)) = picker.pick(&peer) {
        assert_eq!(p, 0);
        let (done, _) = picker.completed(p, o);
        n += 1;
        assert_eq!(done, n == 7);
    }
    assert_eq!(n, 7);
    assert_eq!(picker.piece_idx(), 1);
}

#[test]
fn cursor_never_moves_back_under_pick_and_completed() {
    let mut picker = Picker::new(&info(32768, 32768 * 5, 5));
    let a = peer_with(1, 5, &[0, 2, 4]);
    let b = peer_with(2, 5, &all_pieces(5));
    let mut last = picker.piece_idx();
    let mut outstanding = Vec::new();
    for round in 0..40 {
        let peer = if round % 2 == 0 { &a } else { &b };
        if let Some(r) = picker.pick(peer) {
            outstanding.push(r);
        }
        assert!(picker.piece_idx() >= last);
        last = picker.piece_idx();
        if round % 3 == 0 {
            if let Some((p, o)) = outstanding.pop() {
                picker.completed(p, o);
            }
        }
        assert!(picker.piece_idx() >= last);
        last = picker.piece_idx();
    }
}

#[test]
fn pick_then_completed_settles_block() {
    let mut picker = Picker::new(&info(32768, 65536, 2));
    let peer = peer_with(5, 2, &[1]);
    let (p, o) = picker.pick(&peer).unwrap();
    assert_eq!((p, o), (1, 0));
    let (done, peers) = picker.completed(p, o);
    assert!(!done);
    assert_eq!(peers, HashSet::from([5usize]));
    assert!(picker.is_scheduled(2));
    assert!(!picker.is_waiting(2));
}

#[test]
fn no_duplicate_before_endgame() {
    let mut picker = Picker::new(&info(32768, 32768 * 3, 3));
    let peers = [peer_with(1, 3, &all_pieces(3)), peer_with(2, 3, &[1, 2]), peer_with(3, 3, &[0])];
    let mut seen = HashSet::new();
    for round in 0..12 {
        if picker.endgame_cnt() == 0 {
            break;
        }
        if let Some((p, o)) = picker.pick(&peers[round % 3]) {
            assert!(seen.insert(p * 2 + o / 16384));
        }
    }
    assert_eq!(seen.len(), 6);
}

#[test]
fn completed_reports_piece_done_out_of_order() {
    let mut picker = Picker::new(&info(16384, 16384 * 3, 3));
    let peer = peer_with(1, 3, &all_pieces(3));
    assert_eq!(picker.pick(&peer), Some((0, 0)));
    assert_eq!(picker.pick(&peer), Some((1, 0)));
    assert!(picker.completed(1, 0).0);
    assert_eq!(picker.piece_idx(), 0);
    assert!(picker.completed(0, 0).0);
    assert_eq!(picker.piece_idx(), 2);
}

#[test]
fn rarest_first_prefers_fewest_holders() {
    let mut picker = Picker::new_rarest(&info(16384, 16384 * 4, 4));
    for _ in 0..3 {
        picker.piece_available(0);
        picker.piece_available(1);
    }
    picker.piece_available(2);
    picker.piece_available(3);
    picker.piece_available(3);
    assert_eq!(picker.holders_of(0), 3);
    let peer = peer_with(1, 4, &all_pieces(4));
    assert_eq!(picker.pick(&peer), Some((2, 0)));
    assert_eq!(picker.pick(&peer), Some((3, 0)));
    assert_eq!(picker.pick(&peer), Some((0, 0)));
    assert_eq!(picker.pick(&peer), Some((1, 0)));
    assert_eq!(picker.pick(&peer), None);
}

#[test]
fn piece_gone_lowers_count() {
    let mut picker = Picker::new_rarest(&info(16384, 16384 * 2, 2));
    picker.piece_available(0);
    picker.piece_available(0);
    picker.piece_gone(0);
    assert_eq!(picker.holders_of(0), 1);
    picker.piece_gone(1);
    assert_eq!(picker.holders_of(1), 0);
    let peer = peer_with(1, 2, &[0, 1]);
    assert_eq!(picker.pick(&peer), Some((1, 0)));
}

#[test]
fn sequential_ignores_availability() {
    let mut picker = Picker::new_sequential(&info(16384, 16384 * 2, 2));
    picker.piece_available(0);
    assert_eq!(picker.holders_of(0), 0);
    let peer = peer_with(1, 2, &[0, 1]);
    assert_eq!(picker.pick(&peer), Some((0, 0)));
}

#[test]
fn repeated_completion_of_done_piece_changes_nothing() {
    let mut picker = Picker::new(&info(32768, 65536, 2));
    let peer = peer_with(1, 2, &[0]);
    assert_eq!(picker.pick(&peer), Some((0, 0)));
    assert_eq!(picker.pick(&peer), Some((0, 16384)));
    assert_eq!(picker.completed(0, 0), (false, HashSet::from([1usize])));
    assert_eq!(picker.completed(0, 16384), (true, HashSet::from([1usize])));
    assert_eq!(picker.piece_idx(), 1);
    assert_eq!(picker.completed(0, 16384), (false, HashSet::new()));
    assert_eq!(picker.completed(0, 0), (false, HashSet::new()));
    assert_eq!(picker.piece_idx(), 1);
    assert_eq!(picker.endgame_cnt(), 2);
}

#[test]
fn single_piece_completion_of_unknown_block() {
    let mut picker = Picker::new(&info(16384, 16384, 1));
    let peer = peer_with(1, 1, &[0]);
    assert_eq!(picker.pick(&peer), Some((0, 0)));
    assert_eq!(picker.completed(0, 0), (true, HashSet::from([1usize])));
    assert_eq!(picker.completed(0, 0), (false, HashSet::new()));
    assert_eq!(picker.piece_idx(), 1);
}
