use rand::seq::SliceRandom;

use synapse::{Info, Peer, PieceField, Picker};

#[derive(Clone)]
struct TestCfg {
    pieces: u32,
    peers: u16,
    req_per_tick: u8,
    req_queue_len: u8,
    unchoke_limit: u8,
    connect_limit: u8,
}

struct SimPeer {
    data: Peer,
    picker: Picker,
    connected: Vec<usize>,
    unchoked: Vec<usize>,
    unchoked_by: Vec<usize>,
    // (requesting peer, piece)
    requests: Vec<(usize, u32)>,
    requested_pieces: Vec<u8>,
    compl: Option<usize>,
}

struct Simulation {
    cfg: TestCfg,
    ticks: usize,
    peers: Vec<SimPeer>,
}

fn pair(peers: &mut [SimPeer], a: usize, b: usize) -> (&mut SimPeer, &mut SimPeer) {
    assert_ne!(a, b);
    if a < b {
        let (l, r) = peers.split_at_mut(b);
        (&mut l[a], &mut r[0])
    } else {
        let (l, r) = peers.split_at_mut(a);
        (&mut r[0], &mut l[b])
    }
}

impl Simulation {
    fn new(cfg: TestCfg, info: &Info, rarest: bool) -> Simulation {
        let mut rng = rand::thread_rng();
        let all: Vec<usize> = (0..cfg.peers as usize).collect();
        let mut peers = Vec::new();
        for i in 0..cfg.peers as usize {
            let connected: Vec<usize> =
                all.choose_multiple(&mut rng, cfg.connect_limit as usize).cloned().collect();
            let unchoked: Vec<usize> =
                connected.choose_multiple(&mut rng, cfg.unchoke_limit as usize).cloned().collect();
            let picker = if rarest { Picker::new_rarest(info) } else { Picker::new_sequential(info) };
            peers.push(SimPeer {
                data: Peer { id: i, pieces: PieceField::new(cfg.pieces) },
                picker,
                connected,
                unchoked,
                unchoked_by: Vec::new(),
                requests: Vec::new(),
                requested_pieces: vec![0; cfg.peers as usize],
                compl: None,
            });
        }
        Simulation { cfg, ticks: 0, peers }
    }

    fn init(&mut self) {
        for i in 0..self.cfg.pieces {
            self.peers[0].data.pieces.set_piece(i);
        }
        assert!(self.peers[0].data.pieces.complete());
        for p in 0..self.peers.len() {
            let unchoked = self.peers[p].unchoked.clone();
            for pid in unchoked {
                self.peers[pid].unchoked_by.push(p);
            }
        }
    }

    fn run(&mut self) -> (usize, f64) {
        while let Err(()) = self.tick() {
            self.ticks += 1;
            if self.ticks as u32 >= 3 * (self.cfg.pieces + self.cfg.peers as u32) {
                panic!("swarm did not converge");
            }
        }
        let mut total = 0.;
        for peer in self.peers.iter().skip(1) {
            total += peer.compl.unwrap() as f64;
        }
        (self.ticks, total / (self.cfg.peers as f64 - 1.))
    }

    fn tick(&mut self) -> Result<(), ()> {
        let n = self.peers.len();
        for a in 0..n {
            for _ in 0..self.cfg.req_per_tick {
                if let Some((to, piece)) = self.peers[a].requests.pop() {
                    let received = &mut self.peers[to];
                    received.picker.completed(piece, 0);
                    received.data.pieces.set_piece(piece);
                    if received.data.pieces.complete() {
                        received.compl = Some(self.ticks);
                        for p in self.peers.iter_mut() {
                            if !p.data.pieces.complete() && !p.unchoked_by.contains(&a) {
                                p.unchoked_by.push(a);
                            }
                        }
                    }
                    self.peers[to].requested_pieces[a] -= 1;
                    let connected = self.peers[to].connected.clone();
                    for pid in connected {
                        self.peers[pid].picker.piece_available(piece);
                    }
                }
            }

            let unchoked_by = self.peers[a].unchoked_by.clone();
            for pid in unchoked_by {
                if pid == a {
                    continue;
                }
                let (peer, ucp) = pair(&mut self.peers, a, pid);
                if peer.data.pieces.usable(&ucp.data.pieces) {
                    while peer.requested_pieces[pid] < self.cfg.req_queue_len {
                        if let Some((piece, _)) = peer.picker.pick(&ucp.data) {
                            ucp.requests.push((a, piece));
                            peer.requested_pieces[pid] += 1;
                        } else {
                            break;
                        }
                    }
                }
            }
        }
        if self.peers.iter().all(|p| p.data.pieces.complete()) {
            Ok(())
        } else {
            Err(())
        }
    }
}

fn test_efficiency(cfg: TestCfg, rarest: bool) {
    let info = Info {
        piece_len: 16384,
        total_len: 16384 * cfg.pieces as u64,
        num_pieces: cfg.pieces,
    };
    let mut total = 0;
    let mut pat = 0.;
    let num_runs = 20;
    for _ in 0..num_runs {
        let mut s = Simulation::new(cfg.clone(), &info, rarest);
        s.init();
        let (t, a) = s.run();
        total += t;
        pat += a;
    }
    let ta = total / num_runs;
    println!("Avg: {:?}", ta);
    println!("Avg peer ticks: {:?}", pat / num_runs as f64);
    assert!((ta as u32) < (((cfg.pieces + cfg.peers as u32) as f32 * 1.5) as u32));
}

#[test]
fn test_seq_efficiency() {
    let cfg = TestCfg {
        pieces: 100,
        peers: 20,
        unchoke_limit: 5,
        connect_limit: 20,
        req_per_tick: 2,
        req_queue_len: 2,
    };
    test_efficiency(cfg, false);
}

#[test]
fn test_rarest_efficiency() {
    let cfg = TestCfg {
        pieces: 100,
        peers: 20,
        unchoke_limit: 5,
        connect_limit: 20,
        req_per_tick: 2,
        req_queue_len: 2,
    };
    test_efficiency(cfg, true);
}
