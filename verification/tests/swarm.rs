use bit_vec::BitVec;
use bittorrent::bittorrent::hash;
use bittorrent::bittorrent::manager::{
    accepts_connection, check_handshake, controller_wheel, handle_client, react, respond, update_priority_all,
    ClientMsg, ClientOutcome, Controller, ControllerAction, ControllerTask, Handshake, ManagerUpdate, PeerPriority,
    PeerUpdate, PriorityChange, Status,
};
use bittorrent::bittorrent::metainfo::{FileInfo, Info, MetaInfo};
use bittorrent::bittorrent::peer::{Action, Peer, PeerInfo};
use bittorrent::bittorrent::timers::Timers;
use bittorrent::bittorrent::torrent_runtime::TorrentRuntime;
use bittorrent::bittorrent::PieceData;
use sha1::{Digest, Sha1};
use std::collections::VecDeque;

const PIECE_LENGTH: usize = 32;
const NPIECES: usize = 4;

fn piece_bytes(index: usize) -> Vec<u8> {
    (0..PIECE_LENGTH).map(|k| (index * 31 + k * 7) as u8).collect()
}

fn metainfo() -> MetaInfo {
    let pieces = (0..NPIECES)
        .map(|i| {
            let d = Sha1::digest(&piece_bytes(i));
            let mut a = [0u8; 20];
            a.copy_from_slice(&d[..]);
            a
        })
        .collect();
    MetaInfo {
        info: Info {
            piece_length: PIECE_LENGTH as i64,
            pieces,
            private: None,
            file_info: FileInfo::SingleFileInfo {
                name: "swarm.bin".to_string(),
                length: (PIECE_LENGTH * NPIECES) as i64,
                md5sum: None,
            },
        },
        announce: Some("http://127.0.0.1:3000".to_string()),
        announce_list: None,
        creation_date: None,
        comment: None,
        created_by: None,
        encoding: None,
    }
}

struct Conn {
    peer: Peer,
    remote: usize,
    remote_conn: usize,
    inbox: VecDeque<Vec<u8>>,
    open: bool,
}

struct Client {
    peer_id: hash::Hash,
    controller: Controller,
    torrents: Vec<(hash::Hash, TorrentRuntime)>,
    data: Vec<Option<Vec<u8>>>,
    conns: Vec<Conn>,
    wheel: Timers<ControllerTask>,
    stopped: bool,
}

impl Client {
    fn new(id: u8, seeding: bool) -> Client {
        let m = metainfo();
        let info_hash = m.info_hash();
        let runtime = TorrentRuntime::new(m, "", seeding);
        Client {
            peer_id: hash::Hash([id; 20]),
            controller: Controller::new(),
            torrents: vec![(info_hash, runtime)],
            data: (0..NPIECES).map(|i| if seeding { Some(piece_bytes(i)) } else { None }).collect(),
            conns: Vec::new(),
            wheel: controller_wheel(),
            stopped: false,
        }
    }

    fn info_hash(&self) -> hash::Hash {
        self.torrents[0].0
    }

    fn complete(&self) -> bool {
        self.torrents[0].1.status() == Status::Complete
    }
}

/// Opens a connection from client `a` to client `b`: handshakes both ways,
/// registers each side with its manager and sends the bit fields.
fn connect(clients: &mut Vec<Client>, a: usize, b: usize) {
    let ih = clients[a].info_hash();
    let ours = Peer::handshake(&clients[a].peer_id, &ih);
    assert!(accepts_connection(clients[b].conns.len()));
    let (peer_b_side, reply) = handle_client(
        &Handshake::Receiver(clients[b].peer_id),
        &ours,
        &clients[b].torrents,
        "127.0.0.1".to_string(),
        a as i64,
    )
    .unwrap();
    let reply = reply.unwrap();
    let (peer_a_side, none) = handle_client(
        &Handshake::Initiator { peer_id: clients[a].peer_id, info_hash: ih },
        &reply,
        &clients[a].torrents,
        "127.0.0.1".to_string(),
        b as i64,
    )
    .unwrap();
    assert!(none.is_none());
    let ia = clients[a].conns.len();
    let ib = clients[b].conns.len();
    clients[a].conns.push(Conn { peer: peer_a_side, remote: b, remote_conn: ib, inbox: VecDeque::new(), open: true });
    clients[b].conns.push(Conn { peer: peer_b_side, remote: a, remote_conn: ia, inbox: VecDeque::new(), open: true });
    for &(x, y) in &[(a, b), (b, a)] {
        let pid = clients[y].peer_id;
        clients[x].controller.add_peer(pid, PeerPriority::new(ih), NPIECES);
        let bf = Peer::bitfield(clients[x].torrents[0].1.bitfield());
        let c = &clients[x].conns[if x == a { ia } else { ib }];
        let (r, rc) = (c.remote, c.remote_conn);
        clients[r].conns[rc].inbox.push_back(bf);
    }
}

/// Everything a client sends in one step: (client, connection, bytes).
type Outbox = Vec<(usize, usize, Vec<u8>)>;

fn send(out: &mut Outbox, conn: &Conn, bytes: Vec<u8>) {
    out.push((conn.remote, conn.remote_conn, bytes));
}

fn apply_priorities(change: PriorityChange, peer: &Peer, torrent: &mut TorrentRuntime) {
    match change {
        PriorityChange::Unchanged => {}
        PriorityChange::AllPieces(by) => {
            let allowed = by >= 0
                || (0..peer.bitfield.len()).all(|i| !peer.bitfield[i] || !torrent.piece_queue.zeros.contains(&i));
            if allowed {
                update_priority_all(&peer.bitfield, torrent, by);
            }
        }
        PriorityChange::OnePiece(i, by) => {
            if by >= 0 || !torrent.piece_queue.zeros.contains(&(i as usize)) {
                torrent.update_priority(i as usize, by);
            }
        }
    }
}

fn check_messages(c: &mut Client, out: &mut Outbox) {
    for k in 0..c.conns.len() {
        while c.conns[k].open {
            let msg = match c.conns[k].inbox.pop_front() {
                Some(m) => m,
                None => break,
            };
            let action = match c.conns[k].peer.parse_message(&msg) {
                Ok(a) => a,
                Err(_) => continue,
            };
            let reaction = react(&c.conns[k].peer, &action);
            apply_priorities(reaction.priorities, &c.conns[k].peer, &mut c.torrents[0].1);
            let pid = c.conns[k].peer.peer_info.peer_id;
            if let Some(update) = reaction.update {
                c.controller.process(&pid, &update);
            }
            if reaction.stop {
                c.conns[k].open = false;
            }
            match action {
                Action::Request(reqs) => {
                    for req in reqs {
                        if let Some(d) = &c.data[req.index as usize] {
                            let b = req.begin as usize;
                            let pd = PieceData { piece: req, data: d[b..b + req.length as usize].to_vec() };
                            send(out, &c.conns[k], Peer::piece(&pd));
                        }
                    }
                }
                Action::Write(pd) => {
                    let index = pd.piece.index as usize;
                    let t = &mut c.torrents[0].1;
                    if t.check_block(&pd).is_ok() && !t.bitfield()[index] {
                        c.data[index] = Some(pd.data.clone());
                        t.torrent.insert_piece(&pd.piece);
                        if let ControllerAction::BroadcastHave(i, _) =
                            c.controller.process(&pid, &PeerUpdate::Downloaded(pd.piece.index))
                        {
                            for j in 0..c.conns.len() {
                                if c.conns[j].open {
                                    let (bytes, _) = respond(&mut c.conns[j].peer, &ManagerUpdate::Have(i));
                                    send(out, &c.conns[j], bytes.unwrap());
                                }
                            }
                        }
                        let t = &mut c.torrents[0].1;
                        if t.remaining() == 0 {
                            t.set_complete().unwrap();
                        }
                    }
                }
                _ => {}
            }
        }
    }
}

fn choke(c: &mut Client, out: &mut Outbox) {
    for (id, unchoke) in c.controller.choke_plan() {
        let update = if unchoke { ManagerUpdate::Unchoke } else { ManagerUpdate::Choke };
        if let Some(k) = c.conns.iter().position(|x| x.open && x.peer.peer_info.peer_id == id) {
            if let (Some(bytes), _) = respond(&mut c.conns[k].peer, &update) {
                send(out, &c.conns[k], bytes);
            }
        }
    }
}

fn make_requests(c: &mut Client, out: &mut Outbox, now: u64) {
    let ih = c.info_hash();
    if c.torrents[0].1.status() != Status::Running {
        return;
    }
    let reqs = c.controller.make_requests(&ih, &mut c.torrents[0].1, now);
    for (id, piece) in reqs {
        if let Some(k) = c.conns.iter().position(|x| x.open && x.peer.peer_info.peer_id == id) {
            let (bytes, _) = respond(&mut c.conns[k].peer, &ManagerUpdate::Request(Peer::request(&piece)));
            send(out, &c.conns[k], bytes.unwrap());
        }
    }
}

/// Runs seeders and leechers (each leecher connected to every seeder, as
/// the tracker lists the seeders) until every leecher has the whole
/// torrent; a complete leecher disconnects.
fn send_receive(n_seeders: usize, n_leechers: usize) {
    let mut clients: Vec<Client> = Vec::new();
    for s in 0..n_seeders {
        clients.push(Client::new(s as u8 + 1, true));
    }
    for l in 0..n_leechers {
        clients.push(Client::new(100 + l as u8, false));
    }
    for l in n_seeders..n_seeders + n_leechers {
        for s in 0..n_seeders {
            connect(&mut clients, l, s);
        }
    }
    let mut now: u64 = 0;
    let mut rounds = 0;
    while clients[n_seeders..].iter().any(|c| !c.stopped) {
        rounds += 1;
        assert!(rounds < 5000, "the swarm does not finish");
        now += 1000;
        let mut out: Outbox = Vec::new();
        for i in 0..clients.len() {
            if clients[i].stopped {
                continue;
            }
            let due = clients[i].wheel.tick();
            for task in due {
                match task {
                    ControllerTask::CheckMessages => check_messages(&mut clients[i], &mut out),
                    ControllerTask::Choke => choke(&mut clients[i], &mut out),
                    ControllerTask::MakeRequests => make_requests(&mut clients[i], &mut out, now),
                    ControllerTask::RecvClient => {
                        // a complete leecher is told to disconnect, as the client would
                        if i >= n_seeders && clients[i].complete() {
                            let c = &mut clients[i];
                            let outcome = c.controller.recv_client(&mut c.torrents, &ClientMsg::Disconnect);
                            assert!(matches!(outcome, ClientOutcome::Shutdown));
                            for k in 0..c.conns.len() {
                                if c.conns[k].open {
                                    c.conns[k].open = false;
                                    send(&mut out, &c.conns[k], Vec::new());
                                }
                            }
                            c.stopped = true;
                            break;
                        }
                    }
                    _ => {}
                }
            }
        }
        for (r, rc, bytes) in out {
            clients[r].conns[rc].inbox.push_back(bytes);
        }
    }
    // the seeders take in the last disconnections
    let mut rest: Outbox = Vec::new();
    for i in 0..n_seeders {
        check_messages(&mut clients[i], &mut rest);
    }
    for c in &clients[n_seeders..] {
        assert!(c.complete());
        for i in 0..NPIECES {
            assert_eq!(c.data[i], Some(piece_bytes(i)));
        }
    }
    for c in &clients[..n_seeders] {
        assert_eq!(c.controller.peers.len(), 0);
    }
}

#[test]
fn test_many_leechers() {
    send_receive(1, bittorrent::MAX_PEERS);
}

#[test]
fn test_some_seeders_and_leechers() {
    send_receive(10, 10);
}

fn controller_setup() -> (Controller, Vec<(hash::Hash, TorrentRuntime)>, hash::Hash, usize) {
    let m = metainfo();
    let info_hash = m.info_hash();
    let torrent = TorrentRuntime::new(m, "", false);
    let npieces = torrent.npieces();
    (Controller::new(), vec![(info_hash, torrent)], info_hash, npieces)
}

#[test]
fn test_client_msgs() {
    let (mut controller, mut torrents, info_hash, _npieces) = controller_setup();
    // Send pause; make sure torrent is paused
    controller.recv_client(&mut torrents, &ClientMsg::Pause(info_hash));
    assert_eq!(torrents[0].1.status(), Status::Paused);
    // Send resume; make sure it's resumed
    controller.recv_client(&mut torrents, &ClientMsg::Resume(info_hash));
    assert_eq!(torrents[0].1.status(), Status::Running);
    // Send resume again; still resumed
    controller.recv_client(&mut torrents, &ClientMsg::Resume(info_hash));
    assert_eq!(torrents[0].1.status(), Status::Running);
    // Remove it
    controller.recv_client(&mut torrents, &ClientMsg::Remove(info_hash));
    assert!(torrents.iter().all(|(h, _)| *h != info_hash));
}

fn gen_peer(port: i64, info_hash: hash::Hash) -> Peer {
    Peer::new(PeerInfo { peer_id: Peer::gen_peer_id(), info_hash, ip: "127.0.0.1".to_string(), port }, 1)
}

#[test]
fn test_peer_updates() {
    let (mut controller, mut torrents, info_hash, npieces) = controller_setup();
    // Simulate new peer
    let peer = gen_peer(3001, info_hash);
    let id = peer.peer_info.peer_id;
    controller.add_peer(id, PeerPriority::new(info_hash), npieces);
    assert_eq!(controller.peers.len(), 1);

    // Send peer updates
    controller.process(&id, &PeerUpdate::DownloadSpeed(100));
    controller.process(&id, &PeerUpdate::InterestedChange);
    controller.process(&id, &PeerUpdate::ChokingChange);
    controller.process(&id, &PeerUpdate::Bitfield(BitVec::from_elem(npieces, true)));

    // Check that updates have been reflected
    {
        let top = &controller.peers[0];
        assert_eq!(top.priority.peer_interested, true);
        assert_eq!(top.priority.peer_choking, false);
        assert_eq!(top.priority.download_speed, 100);
        assert_eq!(top.bitfield[0], true);
        assert_eq!(controller.peers.len(), 1);
    }

    // Disconnect
    assert_eq!(controller.process(&id, &PeerUpdate::Disconnect), ControllerAction::Removed);
    assert_eq!(controller.peers.len(), 0);

    // Priority of all pieces should be zero
    let piece = torrents[0].1.select_piece();
    assert!(piece.is_none());
}

#[test]
fn test_make_requests() {
    let (mut controller, mut torrents, info_hash, npieces) = controller_setup();
    // Connect some peers (mock)
    let peer = gen_peer(3002, info_hash);
    let peer_2 = gen_peer(3003, info_hash);
    let (id1, id2) = (peer.peer_info.peer_id, peer_2.peer_info.peer_id);
    controller.add_peer(id1, PeerPriority::new(info_hash), npieces);
    controller.add_peer(id2, PeerPriority::new(info_hash), npieces);

    // Some of those peers stop choking
    assert_eq!(controller.peers[1].bitfield[0], false);
    controller.process(&id2, &PeerUpdate::ChokingChange);
    controller.process(&id2, &PeerUpdate::Have(0));
    assert_eq!(controller.peers[1].bitfield[0], true);

    // Run make_requests()
    torrents[0].1.update_priority(0, 1);
    let reqs = controller.make_requests(&info_hash, &mut torrents[0].1, 0);
    // Make sure those peers get requests
    assert_eq!(reqs.len(), 1);
    assert_eq!(reqs[0].0, id2);
    assert_eq!(reqs[0].1.index, 0);
    assert!(reqs.iter().all(|(id, _)| *id != id1));
}

#[test]
fn choke_plan_unchokes_five() {
    let (mut controller, _torrents, info_hash, npieces) = controller_setup();
    for i in 0..7u8 {
        controller.add_peer(hash::Hash([i; 20]), PeerPriority::new(info_hash), npieces);
    }
    controller.process(&hash::Hash([6; 20]), &PeerUpdate::InterestedChange);
    let plan = controller.choke_plan();
    assert_eq!(plan.len(), 7);
    assert_eq!(plan.iter().filter(|(_, u)| *u).count(), 5);
    // the interested peer ranks first
    assert_eq!(plan[0], (hash::Hash([6; 20]), true));
}

#[test]
fn handshake_checks() {
    let ours = hash::Hash([1; 20]);
    let theirs = hash::Hash([2; 20]);
    let init = Handshake::Initiator { peer_id: ours, info_hash: ours };
    assert!(check_handshake(&init, &ours, false).is_ok());
    assert_eq!(
        check_handshake(&init, &theirs, true).unwrap_err().description(),
        format!("Info hash in handshake ({}) does not match expected ({})", theirs.to_hex_string(), ours.to_hex_string())
    );
    let recv = Handshake::Receiver(ours);
    assert!(check_handshake(&recv, &theirs, true).is_ok());
    assert_eq!(
        check_handshake(&recv, &theirs, false).unwrap_err().description(),
        format!("Failed to find torrent with info hash: {}", theirs.to_hex_string())
    );
    assert!(accepts_connection(bittorrent::MAX_PEERS));
    assert!(!accepts_connection(bittorrent::MAX_PEERS + 1));
}

#[test]
fn reactions_and_responses() {
    let mut peer = Peer::new(PeerInfo::new(), 2);
    let r = react(&peer, &Action::EOF);
    assert!(r.stop);
    assert_eq!(r.priorities, PriorityChange::AllPieces(-1));
    assert!(matches!(r.update, Some(PeerUpdate::Disconnect)));
    let r = react(&peer, &Action::Have(1));
    assert_eq!(r.priorities, PriorityChange::OnePiece(1, 1));
    let (bytes, stop) = respond(&mut peer, &ManagerUpdate::Unchoke);
    assert_eq!(bytes, Some(vec![0, 0, 0, 1, 1]));
    assert!(!stop);
    assert!(!peer.am_choking);
    let (bytes, _) = respond(&mut peer, &ManagerUpdate::Unchoke);
    assert_eq!(bytes, None);
    let (bytes, stop) = respond(&mut peer, &ManagerUpdate::Disconnect);
    assert_eq!(bytes, None);
    assert!(stop);
}

#[test]
fn controller_schedule() {
    let mut wheel = controller_wheel();
    assert_eq!(wheel.timers.len(), 6);
    assert_eq!(
        wheel.tick(),
        vec![ControllerTask::RecvClient, ControllerTask::TryRecvNewPeer, ControllerTask::SendUpdate, ControllerTask::CheckMessages]
    );
    for _ in 0..3 {
        wheel.tick();
    }
    assert_eq!(wheel.tick().len(), 6);
    assert!(ControllerTask::RecvClient.may_stop());
    assert!(!ControllerTask::Choke.may_stop());
}

#[test]
fn blocks_are_checked() {
    let (_c, mut torrents, _h, _n) = controller_setup();
    let t = &mut torrents[0].1;
    let piece = t.torrent.default_piece(1);
    let bad = PieceData { piece, data: vec![0u8; PIECE_LENGTH] };
    assert_eq!(t.check_block(&bad).unwrap_err(), format!("Invalid block: {:?}", piece));
    let good = PieceData { piece, data: piece_bytes(1) };
    assert!(t.check_block(&good).is_ok());
    assert_eq!(t.download_rate(), PIECE_LENGTH);
}
