//! The decisions of the download manager: which peers to unchoke, which
//! pieces to request from whom, how updates from peers and orders from the
//! client change its state, and how a peer connection answers what its peer
//! sends and what the manager orders.
use vstd::prelude::*;
use bit_vec::BitVec;
use crate::bittorrent::{ParseError, Piece};
use crate::bittorrent::bitfield::{bit_at, bits, bv_from_elem, bv_get, bv_len, bv_or, bv_set};
use crate::bittorrent::hash::hex_text;
use crate::bittorrent::peer::{handshake_accepted, handshake_bytes, handshake_error_text, Action, Peer, PeerInfo, spec_msg};
use crate::bittorrent::text::concat;
use crate::bittorrent::torrent_runtime::{pause_step, priorities_after, select_step, sizes_fit, TorrentRuntime, MIN_PRIORITY};
use crate::bittorrent::wire::be32;
use crate::bittorrent::timers::{wheel_wf, Timer, Timers};

verus! {

/// Whether a torrent is paused, downloading or complete.
#[derive(PartialEq, Eq, Structural, Debug, Clone, Copy)]
pub enum Status {
    Paused,
    Running,
    Complete,
}

/// A failure of the network side, with its description.
#[derive(Debug)]
pub struct NetworkError {
    pub msg: String,
}

impl NetworkError {
    /// The error that a failure to read or parse becomes.
    pub fn from_parse_error(error: ParseError) -> (r: NetworkError)
        ensures
            r.msg@ == error.display_text(),
    {
        NetworkError { msg: error.to_text() }
    }

    /// The description of the error.
    pub fn description(&self) -> (r: &str)
        ensures
            r@ == self.msg@,
    {
        self.msg.as_str()
    }
}

/// An order from the user interface.
#[derive(Debug, Clone, Copy)]
pub enum ClientMsg {
    Pause(crate::bittorrent::hash::Hash),
    Resume(crate::bittorrent::hash::Hash),
    Remove(crate::bittorrent::hash::Hash),
    Disconnect,
}

/// What a peer connection tells the manager.
#[derive(Debug)]
pub enum PeerUpdate {
    DownloadSpeed(usize),
    InterestedChange,
    ChokingChange,
    Have(u32),
    Downloaded(u32),
    Bitfield(BitVec),
    Disconnect,
}

/// What the manager tells a peer connection.
#[derive(Debug, PartialEq, Clone)]
pub enum ManagerUpdate {
    Choke,
    Unchoke,
    Request(Vec<u8>),
    Have(u32),
    Disconnect,
    Nothing,
}

/// What the manager knows of a peer to decide whom to unchoke and whom to
/// ask for pieces.
#[derive(Debug, Clone, Copy)]
pub struct PeerPriority {
    pub info_hash: crate::bittorrent::hash::Hash,
    pub peer_interested: bool,
    pub download_speed: usize,
    pub peer_choking: bool,
}

impl PeerPriority {
    /// A peer of torrent `info_hash` that wants nothing, has sent nothing and chokes us.
    pub fn new(info_hash: crate::bittorrent::hash::Hash) -> (r: PeerPriority)
        ensures
            r.info_hash == info_hash,
            !r.peer_interested,
            r.download_speed == 0,
            r.peer_choking,
    {
        PeerPriority { info_hash: info_hash, peer_interested: false, download_speed: 0, peer_choking: true }
    }

    /// The same peer with its interest flipped.
    pub fn flip_interested(peer: PeerPriority) -> (r: PeerPriority)
        ensures
            r == (PeerPriority { peer_interested: !peer.peer_interested, ..peer }),
    {
        PeerPriority {
            info_hash: peer.info_hash,
            peer_interested: !peer.peer_interested,
            download_speed: peer.download_speed,
            peer_choking: peer.peer_choking,
        }
    }

    /// The same peer with its choking flipped.
    pub fn flip_choking(peer: PeerPriority) -> (r: PeerPriority)
        ensures
            r == (PeerPriority { peer_choking: !peer.peer_choking, ..peer }),
    {
        PeerPriority {
            info_hash: peer.info_hash,
            peer_interested: peer.peer_interested,
            download_speed: peer.download_speed,
            peer_choking: peer.peer_choking == false,
        }
    }

    /// The same peer with download speed `download_speed`.
    pub fn set_download(self, download_speed: usize) -> (r: PeerPriority)
        ensures
            r == (PeerPriority { download_speed: download_speed, ..self }),
    {
        PeerPriority {
            info_hash: self.info_hash,
            peer_interested: self.peer_interested,
            download_speed: download_speed,
            peer_choking: self.peer_choking,
        }
    }

    /// The same peer, interested and as fast as can be: first in line.
    pub fn set_max(self) -> (r: PeerPriority)
        ensures
            r == (PeerPriority { peer_interested: true, download_speed: usize::MAX, ..self }),
    {
        PeerPriority {
            info_hash: self.info_hash,
            peer_interested: true,
            download_speed: usize::MAX,
            peer_choking: self.peer_choking,
        }
    }

    /// Whether this peer comes at least as early as `other` when choosing
    /// whom to unchoke: interested peers first, then the faster.
    pub fn ranks_at_least(&self, other: &PeerPriority) -> (r: bool)
        ensures
            r == ranks_at_least(*self, *other),
    {
        if self.peer_interested == other.peer_interested {
            self.download_speed >= other.download_speed
        } else {
            self.peer_interested
        }
    }
}

/// `a` comes at least as early as `b`: interested peers first, then the faster.
pub open spec fn ranks_at_least(a: PeerPriority, b: PeerPriority) -> bool {
    if a.peer_interested == b.peer_interested {
        a.download_speed >= b.download_speed
    } else {
        a.peer_interested
    }
}

/// Unchoking preference: an interested peer outranks one that is not, and
/// of two peers equally interested the strictly faster outranks the slower
/// (the slower does not rank at least as high); equally interested peers
/// of the same speed rank alike.
pub proof fn lemma_rank_prefers(a: PeerPriority, b: PeerPriority)
    ensures
        a.peer_interested && !b.peer_interested ==> ranks_at_least(a, b) && !ranks_at_least(b, a),
        a.peer_interested == b.peer_interested && a.download_speed > b.download_speed ==> ranks_at_least(a, b)
            && !ranks_at_least(b, a),
        a.peer_interested == b.peer_interested && a.download_speed == b.download_speed ==> ranks_at_least(a, b)
            && ranks_at_least(b, a),
{
}

/// Flipping a peer's interest twice, or its choking twice, gives the peer back.
pub proof fn lemma_flips_undo(p: PeerPriority)
    ensures
        ({
            let q = PeerPriority { peer_interested: !p.peer_interested, ..p };
            PeerPriority { peer_interested: !q.peer_interested, ..q } == p
        }),
        ({
            let q = PeerPriority { peer_choking: !p.peer_choking, ..p };
            PeerPriority { peer_choking: !q.peer_choking, ..q } == p
        }),
{
}

/// Whether two identifiers are the same.
pub fn same_hash(a: &crate::bittorrent::hash::Hash, b: &crate::bittorrent::hash::Hash) -> (r: bool)
    ensures
        r == (a@ == b@),
{
    crate::bittorrent::bencode::bytes_equal(&a.0, &b.0)
}

/// What the manager keeps about one connected peer.
#[derive(Debug)]
pub struct PeerRecord {
    pub peer_id: crate::bittorrent::hash::Hash,
    pub priority: PeerPriority,
    /// The pieces the peer has, as far as the manager knows.
    pub bitfield: BitVec,
}

/// What the manager's state asks of the connection threads after an update.
#[derive(Debug, PartialEq, Clone, Copy)]
pub enum ControllerAction {
    /// Nothing to send.
    Nothing,
    /// Tell every peer that piece `index` of torrent `info_hash` is here.
    BroadcastHave(u32, crate::bittorrent::hash::Hash),
    /// The peer is gone.
    Removed,
}

/// The state of the manager that decides on choking and requests.
pub struct Controller {
    pub peers: Vec<PeerRecord>,
}

/// No two peers share an identifier.
pub open spec fn distinct_ids(s: Seq<PeerRecord>) -> bool {
    forall|i: int, j: int| 0 <= i < j < s.len() ==> s[i].peer_id@ != s[j].peer_id@
}

/// Peer `i` of `s` has identifier `id`.
pub open spec fn holds_id(s: Seq<PeerRecord>, id: Seq<u8>, i: int) -> bool {
    0 <= i < s.len() && s[i].peer_id@ == id
}

/// Some peer of `s` has identifier `id`.
pub open spec fn has_id(s: Seq<PeerRecord>, id: Seq<u8>) -> bool {
    exists|i: int| holds_id(s, id, i)
}

/// `n` is `o` with the record at `i` in place of the old one.
pub open spec fn replaced_at(o: Seq<PeerRecord>, n: Seq<PeerRecord>, i: int) -> bool {
    &&& n.len() == o.len()
    &&& forall|j: int| 0 <= j < o.len() && j != i ==> n[j] == o[j]
    &&& n[i].peer_id == o[i].peer_id
}

/// The order in which peers are offered unchoking: `order` lists each
/// position of `s` once, and no peer comes after one it outranks.
pub open spec fn unchoke_order(s: Seq<PeerRecord>, order: Seq<int>) -> bool {
    &&& order.len() == s.len()
    &&& forall|i: int| 0 <= i < order.len() ==> 0 <= #[trigger] order[i] < s.len()
    &&& forall|i: int, j: int| 0 <= i < j < order.len() ==> order[i] != order[j]
    &&& forall|i: int, j: int| 0 <= i < j < order.len() ==> ranks_at_least(
        s[order[i]].priority,
        s[order[j]].priority,
    )
}

/// In an unchoking order (as `choke_plan` lists peers), a peer comes
/// strictly before another that it beats: it is interested and the other
/// not, or both are equally interested and it is strictly faster.
pub proof fn lemma_unchoke_order_prefers(s: Seq<PeerRecord>, order: Seq<int>, i: int, j: int)
    requires
        unchoke_order(s, order),
        0 <= i < order.len(),
        0 <= j < order.len(),
        ({
            let a = s[order[i]].priority;
            let b = s[order[j]].priority;
            (a.peer_interested && !b.peer_interested) || (a.peer_interested == b.peer_interested
                && a.download_speed > b.download_speed)
        }),
    ensures
        i < j,
{
    lemma_rank_prefers(s[order[i]].priority, s[order[j]].priority);
    if j < i {
        assert(ranks_at_least(s[order[j]].priority, s[order[i]].priority));
    }
}

/// The fastest interested peer is always unchoked: in an unchoking order,
/// a peer that is interested and strictly faster than every other
/// interested peer comes first, among the `MAX_UPLOADERS` that
/// `choke_plan` marks to be unchoked.
pub proof fn lemma_fastest_unchoked(s: Seq<PeerRecord>, order: Seq<int>, k: int)
    requires
        unchoke_order(s, order),
        0 <= k < order.len(),
        s[order[k]].priority.peer_interested,
        forall|m: int|
            0 <= m < s.len() && m != order[k] && #[trigger] s[m].priority.peer_interested ==> s[m].priority.download_speed
                < s[order[k]].priority.download_speed,
    ensures
        k == 0,
        k < MAX_UPLOADERS,
{
    if k > 0 {
        assert(order[0] != order[k]);
        let b = s[order[0]].priority;
        if b.peer_interested {
            assert(s[order[0]].priority.peer_interested);
        }
        lemma_unchoke_order_prefers(s, order, k, 0);
    }
}

/// Peer `k` of `s` may be sent request `req` for torrent `info_hash`: it is
/// the request's peer, does not choke us, belongs to the torrent and has
/// the piece.
pub open spec fn serves(
    s: Seq<PeerRecord>,
    info_hash: Seq<u8>,
    k: int,
    req: (crate::bittorrent::hash::Hash, Piece),
) -> bool {
    &&& 0 <= k < s.len()
    &&& s[k].peer_id == req.0
    &&& !s[k].priority.peer_choking
    &&& s[k].priority.info_hash@ == info_hash
    &&& bit_at(bits(s[k].bitfield), req.1.index as int)
}

/// Some peer of `s` may be sent request `req` for torrent `info_hash`.
pub open spec fn served(s: Seq<PeerRecord>, info_hash: Seq<u8>, req: (crate::bittorrent::hash::Hash, Piece)) -> bool {
    exists|k: int| #[trigger] serves(s, info_hash, k, req)
}

/// Peer `k` of `s` may be asked for piece `p` of torrent `info_hash`: it
/// belongs to the torrent, does not choke us and has the piece.
pub open spec fn holder(s: Seq<PeerRecord>, info_hash: Seq<u8>, p: Piece, k: int) -> bool {
    &&& 0 <= k < s.len()
    &&& !s[k].priority.peer_choking
    &&& s[k].priority.info_hash@ == info_hash
    &&& bit_at(bits(s[k].bitfield), p.index as int)
}

/// Peer `k` is the first of `s` that may be asked for piece `p`.
pub open spec fn first_holder(s: Seq<PeerRecord>, info_hash: Seq<u8>, p: Piece, k: int) -> bool {
    &&& holder(s, info_hash, p, k)
    &&& forall|j: int| 0 <= j < k ==> !#[trigger] holder(s, info_hash, p, j)
}

/// The requests made for the selected blocks `sel`: each goes to the
/// first peer that may be asked for its piece; a block that no peer may be
/// asked for is dropped.
pub open spec fn assigned(s: Seq<PeerRecord>, info_hash: Seq<u8>, sel: Seq<Piece>) -> Seq<(crate::bittorrent::hash::Hash, Piece)>
    decreases sel.len(),
{
    if sel.len() == 0 {
        Seq::empty()
    } else {
        let rest = assigned(s, info_hash, sel.drop_last());
        let p = sel.last();
        if exists|k: int| holder(s, info_hash, p, k) {
            let k = choose|k: int| first_holder(s, info_hash, p, k);
            rest.push((s[k].peer_id, p))
        } else {
            rest
        }
    }
}

/// `states` leads from `o` through the blocks `sel` selected at time `now`,
/// each while fewer than `REQUESTS_LIMIT` requests were outstanding, and
/// the selecting stopped in `n`: at the limit, or on finding nothing to
/// select.
pub open spec fn selection_run(
    o: TorrentRuntime,
    n: TorrentRuntime,
    now: u64,
    sel: Seq<Piece>,
    states: Seq<TorrentRuntime>,
) -> bool {
    &&& states.len() == sel.len() + 1
    &&& states[0] == o
    &&& forall|k: int| 0 <= k < sel.len() ==> (#[trigger] states[k]).outstanding_requests@.len() < crate::REQUESTS_LIMIT
        && select_step(states[k], states[k + 1], Some(sel[k]), now)
    &&& {
        ||| states.last().outstanding_requests@.len() >= crate::REQUESTS_LIMIT && n == states.last()
        ||| states.last().outstanding_requests@.len() < crate::REQUESTS_LIMIT && select_step(states.last(), n, None, now)
    }
}

/// The first of the peers listed in `peers` (increasing positions, the
/// peers that belong to the torrent and do not choke us) to have the piece
/// is the first holder; if none of them has it, there is none.
proof fn lemma_first_holder(s: Seq<PeerRecord>, info_hash: Seq<u8>, p: Piece, peers: Seq<usize>, j: int)
    requires
        0 <= j <= peers.len(),
        forall|i: int| 0 <= i < peers.len() ==> (#[trigger] peers[i]) < s.len(),
        forall|i: int, l: int| 0 <= i < l < peers.len() ==> peers[i] < peers[l],
        forall|k: int| 0 <= k < s.len() ==> ((exists|i: int| 0 <= i < peers.len() && #[trigger] peers[i] == k)
            <==> (!s[k].priority.peer_choking && s[k].priority.info_hash@ == info_hash)),
        forall|i: int| 0 <= i < j ==> !bit_at(bits(s[#[trigger] peers[i] as int].bitfield), p.index as int),
        j < peers.len() ==> bit_at(bits(s[peers[j] as int].bitfield), p.index as int),
    ensures
        j < peers.len() ==> first_holder(s, info_hash, p, peers[j] as int),
        j == peers.len() ==> !exists|k: int| holder(s, info_hash, p, k),
{
    assert forall|k: int| #[trigger] holder(s, info_hash, p, k) implies exists|i: int| 0 <= i < peers.len() && peers[i] == k && i >= j by {
        let i = choose|i: int| 0 <= i < peers.len() && #[trigger] peers[i] == k;
        assert(peers[i] == k);
    }
    if j < peers.len() {
        let k0 = peers[j] as int;
        assert(exists|i: int| 0 <= i < peers.len() && #[trigger] peers[i] == k0);
        assert forall|l: int| 0 <= l < k0 implies !#[trigger] holder(s, info_hash, p, l) by {
            if holder(s, info_hash, p, l) {
                let i = choose|i: int| 0 <= i < peers.len() && peers[i] == l && i >= j;
                if i > j {
                    assert(peers[j] < peers[i]);
                }
            }
        }
    } else {
        assert forall|k: int| !holder(s, info_hash, p, k) by {
            if holder(s, info_hash, p, k) {
                let i = choose|i: int| 0 <= i < peers.len() && peers[i] == k && i >= j;
            }
        }
    }
}

/// There is at most one first holder.
proof fn lemma_first_holder_unique(s: Seq<PeerRecord>, info_hash: Seq<u8>, p: Piece, a: int, b: int)
    requires
        first_holder(s, info_hash, p, a),
        first_holder(s, info_hash, p, b),
    ensures
        a == b,
{
    if a < b {
        assert(!holder(s, info_hash, p, a));
    } else if b < a {
        assert(!holder(s, info_hash, p, b));
    }
}

/// Every assigned request goes to a peer that may be sent it.
proof fn lemma_assigned_served(s: Seq<PeerRecord>, info_hash: Seq<u8>, sel: Seq<Piece>)
    ensures
        forall|i: int| 0 <= i < assigned(s, info_hash, sel).len() ==> served(s, info_hash, #[trigger] assigned(s, info_hash, sel)[i]),
    decreases sel.len(),
{
    if sel.len() > 0 {
        lemma_assigned_served(s, info_hash, sel.drop_last());
        let p = sel.last();
        let rest = assigned(s, info_hash, sel.drop_last());
        if exists|k: int| holder(s, info_hash, p, k) {
            let k = choose|k: int| first_holder(s, info_hash, p, k);
            assert(first_holder(s, info_hash, p, k)) by {
                lemma_least_holder(s, info_hash, p);
            }
            let a = assigned(s, info_hash, sel);
            assert(a == rest.push((s[k].peer_id, p)));
            assert forall|i: int| 0 <= i < a.len() implies served(s, info_hash, #[trigger] a[i]) by {
                if i == a.len() - 1 {
                    assert(serves(s, info_hash, k, a[i]));
                } else {
                    assert(a[i] == rest[i]);
                }
            }
        } else {
            assert(assigned(s, info_hash, sel) == rest);
        }
    }
}

/// When some peer may be asked for a piece, there is a first such peer.
proof fn lemma_least_holder(s: Seq<PeerRecord>, info_hash: Seq<u8>, p: Piece)
    requires
        exists|k: int| holder(s, info_hash, p, k),
    ensures
        exists|k: int| first_holder(s, info_hash, p, k),
{
    let k = choose|k: int| holder(s, info_hash, p, k);
    lemma_least_below(s, info_hash, p, k);
}

proof fn lemma_least_below(s: Seq<PeerRecord>, info_hash: Seq<u8>, p: Piece, k: int)
    requires
        holder(s, info_hash, p, k),
    ensures
        exists|m: int| first_holder(s, info_hash, p, m),
    decreases k,
{
    if exists|j: int| 0 <= j < k && holder(s, info_hash, p, j) {
        let j = choose|j: int| 0 <= j < k && holder(s, info_hash, p, j);
        lemma_least_below(s, info_hash, p, j);
    } else {
        assert(first_holder(s, info_hash, p, k));
    }
}

/// How many peers are unchoked at a time.
pub const MAX_UPLOADERS: usize = 5;

impl Controller {
    /// No peers yet.
    pub fn new() -> (r: Controller)
        ensures
            r.peers@.len() == 0,
    {
        Controller { peers: Vec::new() }
    }

    /// The identifiers of the peers are distinct.
    pub open spec fn well_formed(&self) -> bool {
        distinct_ids(self.peers@)
    }

    /// The position of the peer with identifier `id`.
    pub fn find_peer(&self, id: &crate::bittorrent::hash::Hash) -> (r: Option<usize>)
        requires
            self.well_formed(),
        ensures
            r is None <==> !has_id(self.peers@, id@),
            r matches Some(i) ==> holds_id(self.peers@, id@, i as int),
    {
        let mut i: usize = 0;
        while i < self.peers.len()
            invariant
                i <= self.peers@.len(),
                forall|j: int| 0 <= j < i ==> self.peers@[j].peer_id@ != id@,
            decreases self.peers@.len() - i,
        {
            if same_hash(&self.peers[i].peer_id, id) {
                assert(holds_id(self.peers@, id@, i as int));
                return Some(i);
            }
            i = i + 1;
        }
        proof {
            if has_id(self.peers@, id@) {
                let k = choose|k: int| holds_id(self.peers@, id@, k);
                assert(self.peers@[k].peer_id@ != id@);
            }
        }
        None
    }

    /// Takes in a newly connected peer of a torrent with `npieces` pieces,
    /// knowing none of its pieces; a peer with the same identifier is replaced.
    pub fn add_peer(
        &mut self,
        peer_id: crate::bittorrent::hash::Hash,
        priority: PeerPriority,
        npieces: usize,
    )
        requires
            old(self).well_formed(),
        ensures
            final(self).well_formed(),
            has_id(old(self).peers@, peer_id@) ==> exists|i: int|
                holds_id(old(self).peers@, peer_id@, i) && replaced_at(old(self).peers@, final(self).peers@, i)
                    && final(self).peers@[i].priority == priority && bits(final(self).peers@[i].bitfield)
                    == Seq::new(npieces as nat, |k: int| false),
            !has_id(old(self).peers@, peer_id@) ==> final(self).peers@.len() == old(self).peers@.len() + 1
                && final(self).peers@ == old(self).peers@.push(final(self).peers@.last())
                && final(self).peers@.drop_last() == old(self).peers@
                && final(self).peers@.last().peer_id == peer_id && final(self).peers@.last().priority
                == priority && bits(final(self).peers@.last().bitfield) == Seq::new(
                npieces as nat,
                |k: int| false,
            ),
    {
        let record = PeerRecord { peer_id: peer_id, priority: priority, bitfield: bv_from_elem(npieces, false) };
        match self.find_peer(&peer_id) {
            Some(i) => {
                let ghost o = self.peers@;
                let old_id = self.peers[i].peer_id;
                let record = PeerRecord { peer_id: old_id, priority: record.priority, bitfield: record.bitfield };
                self.peers.set(i, record);
                proof {
                    assert(replaced_at(o, self.peers@, i as int));
                    assert forall|a: int, b: int| 0 <= a < b < self.peers@.len() implies self.peers@[a].peer_id@
                        != self.peers@[b].peer_id@ by {
                        assert(o[a].peer_id@ != o[b].peer_id@);
                    }
                }
            },
            None => {
                let ghost o = self.peers@;
                self.peers.push(record);
                proof {
                    assert(self.peers@.drop_last() =~= o);
                    assert forall|a: int, b: int| 0 <= a < b < self.peers@.len() implies self.peers@[a].peer_id@
                        != self.peers@[b].peer_id@ by {
                        if b == o.len() {
                            assert(!holds_id(o, peer_id@, a));
                        }
                    }
                }
            },
        }
    }

    /// Drops the peer with identifier `peer_id`, if there is one.
    pub fn remove_peer(&mut self, peer_id: &crate::bittorrent::hash::Hash)
        requires
            old(self).well_formed(),
        ensures
            final(self).well_formed(),
            !has_id(final(self).peers@, peer_id@),
            !has_id(old(self).peers@, peer_id@) ==> final(self).peers@ == old(self).peers@,
            forall|i: int| #[trigger] holds_id(old(self).peers@, peer_id@, i) ==> final(self).peers@
                == old(self).peers@.remove(i),
    {
        match self.find_peer(peer_id) {
            Some(i) => {
                let ghost o = self.peers@;
                self.peers.remove(i);
                proof {
                    assert forall|a: int, b: int| 0 <= a < b < self.peers@.len() implies self.peers@[a].peer_id@
                        != self.peers@[b].peer_id@ by {
                        let oa = if a < i { a } else { a + 1 };
                        let ob = if b < i { b } else { b + 1 };
                        assert(o[oa].peer_id@ != o[ob].peer_id@);
                    }
                    if has_id(self.peers@, peer_id@) {
                        let k = choose|k: int| holds_id(self.peers@, peer_id@, k);
                        let ok = if k < i { k } else { k + 1 };
                        assert(o[ok].peer_id@ != o[i as int].peer_id@);
                    }
                    assert forall|j: int| #[trigger] holds_id(o, peer_id@, j) implies self.peers@ == o.remove(j) by {
                        if j != i {
                            if j < i {
                                assert(o[j].peer_id@ != o[i as int].peer_id@);
                            } else {
                                assert(o[i as int].peer_id@ != o[j].peer_id@);
                            }
                        }
                    }
                }
            },
            None => {},
        }
    }

    /// Applies an update from the peer `peer_id`.
    ///
    /// Speed, interest and choking changes go to the peer's priority; have
    /// and bit field messages to the pieces it is known to have; a
    /// downloaded piece is to be announced to every peer; a disconnected
    /// peer is dropped.
    pub fn process(&mut self, peer_id: &crate::bittorrent::hash::Hash, msg: &PeerUpdate) -> (r: ControllerAction)
        requires
            old(self).well_formed(),
            msg is Have || msg is Downloaded || msg is Bitfield ==> has_id(old(self).peers@, peer_id@),
            forall|i: int| #[trigger] holds_id(old(self).peers@, peer_id@, i) ==> match msg {
                PeerUpdate::Have(index) => index < bits(old(self).peers@[i].bitfield).len(),
                PeerUpdate::Bitfield(b) => bits(*b).len() == bits(old(self).peers@[i].bitfield).len(),
                _ => true,
            },
        ensures
            final(self).well_formed(),
            match msg {
                PeerUpdate::Disconnect => {
                    &&& r == ControllerAction::Removed
                    &&& !has_id(final(self).peers@, peer_id@)
                    &&& !has_id(old(self).peers@, peer_id@) ==> final(self).peers@ == old(self).peers@
                    &&& forall|i: int| #[trigger] holds_id(old(self).peers@, peer_id@, i) ==> final(self).peers@
                        == old(self).peers@.remove(i)
                },
                PeerUpdate::Downloaded(index) => {
                    &&& final(self).peers@ == old(self).peers@
                    &&& forall|i: int| #[trigger] holds_id(old(self).peers@, peer_id@, i) ==> r
                        == ControllerAction::BroadcastHave(*index, old(self).peers@[i].priority.info_hash)
                },
                _ => {
                    &&& r == ControllerAction::Nothing
                    &&& !has_id(old(self).peers@, peer_id@) ==> final(self).peers@ == old(self).peers@
                    &&& forall|i: int| #[trigger] holds_id(old(self).peers@, peer_id@, i) ==> {
                        let o = old(self).peers@[i];
                        let n = final(self).peers@[i];
                        &&& replaced_at(old(self).peers@, final(self).peers@, i)
                        &&& match msg {
                            PeerUpdate::DownloadSpeed(speed) => n.priority == (PeerPriority {
                                download_speed: *speed,
                                ..o.priority
                            }) && n.bitfield == o.bitfield,
                            PeerUpdate::InterestedChange => n.priority == (PeerPriority {
                                peer_interested: !o.priority.peer_interested,
                                ..o.priority
                            }) && n.bitfield == o.bitfield,
                            PeerUpdate::ChokingChange => n.priority == (PeerPriority {
                                peer_choking: !o.priority.peer_choking,
                                ..o.priority
                            }) && n.bitfield == o.bitfield,
                            PeerUpdate::Have(index) => n.priority == o.priority && bits(n.bitfield)
                                == bits(o.bitfield).update(*index as int, true),
                            PeerUpdate::Bitfield(b) => n.priority == o.priority && bits(n.bitfield)
                                == Seq::new(
                                bits(o.bitfield).len(),
                                |k: int| bits(o.bitfield)[k] || bits(*b)[k],
                            ),
                            _ => true,
                        }
                    }
                },
            },
    {
        match msg {
            PeerUpdate::Disconnect => {
                self.remove_peer(peer_id);
                return ControllerAction::Removed;
            },
            _ => {},
        }
        let found = self.find_peer(peer_id);
        let i = match found {
            Some(i) => i,
            None => {
                return ControllerAction::Nothing;
            },
        };
        let ghost o = self.peers@;
        proof {
            assert(holds_id(o, peer_id@, i as int));
            assert forall|j: int| #[trigger] holds_id(o, peer_id@, j) implies j == i by {
                if j < i {
                    assert(o[j].peer_id@ != o[i as int].peer_id@);
                } else if j > i {
                    assert(o[i as int].peer_id@ != o[j].peer_id@);
                }
            }
        }
        match msg {
            PeerUpdate::Downloaded(index) => {
                return ControllerAction::BroadcastHave(*index, self.peers[i].priority.info_hash);
            },
            _ => {},
        }
        let mut record = self.peers.remove(i);
        match msg {
            PeerUpdate::DownloadSpeed(speed) => {
                record.priority = record.priority.set_download(*speed);
            },
            PeerUpdate::InterestedChange => {
                record.priority = PeerPriority::flip_interested(record.priority);
            },
            PeerUpdate::ChokingChange => {
                record.priority = PeerPriority::flip_choking(record.priority);
            },
            PeerUpdate::Have(index) => {
                bv_set(&mut record.bitfield, *index as usize, true);
            },
            PeerUpdate::Bitfield(b) => {
                bv_or(&mut record.bitfield, b);
            },
            _ => {},
        }
        self.peers.insert(i, record);
        proof {
            assert(replaced_at(o, self.peers@, i as int));
            assert forall|a: int, b: int| 0 <= a < b < self.peers@.len() implies self.peers@[a].peer_id@
                != self.peers@[b].peer_id@ by {
                assert(o[a].peer_id@ != o[b].peer_id@);
            }
        }
        ControllerAction::Nothing
    }

    /// Drops the peers of torrent `info_hash`, giving their identifiers.
    pub fn remove_torrent_peers(&mut self, info_hash: &crate::bittorrent::hash::Hash) -> (r: Vec<
        crate::bittorrent::hash::Hash,
    >)
        requires
            old(self).well_formed(),
        ensures
            final(self).well_formed(),
            final(self).peers@ == old(self).peers@.filter(
                |p: PeerRecord| p.priority.info_hash@ != info_hash@,
            ),
            r@ == old(self).peers@.filter(|p: PeerRecord| p.priority.info_hash@ == info_hash@).map_values(
                |p: PeerRecord| p.peer_id,
            ),
    {
        let total = self.peers.len();
        let ghost s = self.peers@;
        let mut kept: Vec<PeerRecord> = Vec::new();
        let mut removed: Vec<crate::bittorrent::hash::Hash> = Vec::new();
        let mut peers = Vec::new();
        std::mem::swap(&mut peers, &mut self.peers);
        let mut k: usize = 0;
        let ghost taken: Seq<PeerRecord> = Seq::empty();
        while peers.len() > 0
            invariant
                k <= s.len(),
                peers@ == s.subrange(k as int, s.len() as int),
                kept@ == s.subrange(0, k as int).filter(|p: PeerRecord| p.priority.info_hash@ != info_hash@),
                removed@ == s.subrange(0, k as int).filter(|p: PeerRecord| p.priority.info_hash@ == info_hash@).map_values(
                    |p: PeerRecord| p.peer_id,
                ),
                distinct_ids(s),
                s.len() == total,
            decreases peers@.len(),
        {
            let p = peers.remove(0);
            proof {
                assert(s.subrange(0, k + 1).drop_last() =~= s.subrange(0, k as int));
                assert(s.subrange(0, k + 1).last() == p);
                reveal(Seq::filter);
            }
            if same_hash(&p.priority.info_hash, info_hash) {
                removed.push(p.peer_id);
                proof {
                    let f = s.subrange(0, k as int).filter(|q: PeerRecord| q.priority.info_hash@ == info_hash@);
                    assert(s.subrange(0, k + 1).filter(|q: PeerRecord| q.priority.info_hash@ == info_hash@)
                        =~= f.push(p));
                    assert(f.push(p).map_values(|q: PeerRecord| q.peer_id) =~= f.map_values(
                        |q: PeerRecord| q.peer_id,
                    ).push(p.peer_id));
                }
            } else {
                kept.push(p);
            }
            k = k + 1;
            proof {
                assert(peers@ =~= s.subrange(k as int, s.len() as int));
            }
        }
        assert(s.subrange(0, s.len() as int) =~= s);
        proof {
            let f = s.filter(|p: PeerRecord| p.priority.info_hash@ != info_hash@);
            assert forall|a: int, b: int| 0 <= a < b < f.len() implies f[a].peer_id@ != f[b].peer_id@ by {
                lemma_filter_keeps_order(s, |p: PeerRecord| p.priority.info_hash@ != info_hash@, a, b);
            }
        }
        self.peers = kept;
        removed
    }

    /// Whom to unchoke: the peers in unchoking order, the first
    /// `MAX_UPLOADERS` marked to be unchoked (`true`) and the rest to be
    /// choked (`false`).
    pub fn choke_plan(&self) -> (r: Vec<(crate::bittorrent::hash::Hash, bool)>)
        ensures
            exists|order: Seq<int>| {
                &&& unchoke_order(self.peers@, order)
                &&& r@.len() == order.len()
                &&& forall|i: int| 0 <= i < r@.len() ==> (#[trigger] r@[i]).0 == self.peers@[order[i]].peer_id
                    && r@[i].1 == (i < MAX_UPLOADERS)
            },
    {
        let n = self.peers.len();
        let mut used: Vec<bool> = Vec::new();
        let mut u: usize = 0;
        while u < n
            invariant
                u <= n,
                n == self.peers@.len(),
                used@ == Seq::new(u as nat, |i: int| false),
            decreases n - u,
        {
            used.push(false);
            proof {
                assert(used@ =~= Seq::new((u + 1) as nat, |i: int| false));
            }
            u = u + 1;
        }
        let mut out: Vec<(crate::bittorrent::hash::Hash, bool)> = Vec::new();
        let ghost mut order: Seq<int> = Seq::empty();
        let mut step: usize = 0;
        while step < n
            invariant
                step <= n,
                n == self.peers@.len(),
                used@.len() == n,
                order.len() == step,
                out@.len() == step,
                forall|i: int| 0 <= i < step ==> 0 <= #[trigger] order[i] < n,
                forall|i: int, j: int| 0 <= i < j < step ==> order[i] != order[j],
                forall|k: int| 0 <= k < n ==> (used@[k] <==> exists|i: int| 0 <= i < step && #[trigger] order[i] == k),
                forall|i: int, j: int| 0 <= i < j < step ==> ranks_at_least(
                    self.peers@[order[i]].priority,
                    self.peers@[order[j]].priority,
                ),
                forall|i: int, k: int| 0 <= i < step && 0 <= k < n && !used@[k] ==> ranks_at_least(
                    self.peers@[#[trigger] order[i]].priority,
                    #[trigger] self.peers@[k].priority,
                ),
                forall|i: int| 0 <= i < step ==> (#[trigger] out@[i]).0 == self.peers@[order[i]].peer_id
                    && out@[i].1 == (i < MAX_UPLOADERS),
            decreases n - step,
        {
            // the best peer not yet placed
            let mut best: usize = n;
            let mut k: usize = 0;
            while k < n
                invariant
                    k <= n,
                    n == self.peers@.len(),
                    used@.len() == n,
                    best == n || (best < k && !used@[best as int]),
                    step < n,
                    best == n ==> forall|m: int| 0 <= m < k ==> used@[m],
                    best < n ==> forall|m: int| 0 <= m < k && !used@[m] ==> ranks_at_least(
                        self.peers@[best as int].priority,
                        self.peers@[m].priority,
                    ),
                decreases n - k,
            {
                if !used[k] {
                    if best == n || !self.peers[best].priority.ranks_at_least(&self.peers[k].priority) {
                        best = k;
                    }
                }
                k = k + 1;
            }
            proof {
                if best == n {
                    // some position is free since fewer than `n` are placed
                    lemma_free_position(used@, order, step as int, n as int);
                }
            }
            let ghost old_used = used@;
            let ghost old_order = order;
            used.set(best, true);
            out.push((self.peers[best].peer_id, step < MAX_UPLOADERS));
            proof {
                order = order.push(best as int);
                assert forall|k: int| 0 <= k < n implies (used@[k] <==> exists|i: int| 0 <= i < step + 1 && #[trigger] order[i] == k) by {
                    if k == best {
                        assert(order[step as int] == k);
                    } else {
                        if used@[k] {
                            assert(old_used[k]);
                            let i = choose|i: int| 0 <= i < step && #[trigger] old_order[i] == k;
                            assert(order[i] == k);
                        }
                        if exists|i: int| 0 <= i < step + 1 && #[trigger] order[i] == k {
                            let i = choose|i: int| 0 <= i < step + 1 && #[trigger] order[i] == k;
                            assert(i < step);
                            assert(old_order[i] == k);
                        }
                    }
                }
            }
            step = step + 1;
        }
        proof {
            assert(unchoke_order(self.peers@, order));
        }
        out
    }

    /// The peers that may be asked for pieces of torrent `info_hash`: those
    /// of that torrent that do not choke us, in the manager's order.
    pub fn eligible_peers(&self, info_hash: &crate::bittorrent::hash::Hash) -> (r: Vec<usize>)
        ensures
            r@.len() <= self.peers@.len(),
            forall|i: int| 0 <= i < r@.len() ==> (#[trigger] r@[i]) < self.peers@.len(),
            forall|i: int, j: int| 0 <= i < j < r@.len() ==> r@[i] < r@[j],
            forall|k: int| 0 <= k < self.peers@.len() ==> ((exists|i: int| 0 <= i < r@.len() && #[trigger] r@[i] == k)
                <==> (!self.peers@[k].priority.peer_choking && self.peers@[k].priority.info_hash@ == info_hash@)),
    {
        let mut out: Vec<usize> = Vec::new();
        let mut k: usize = 0;
        while k < self.peers.len()
            invariant
                k <= self.peers@.len(),
                out@.len() <= k,
                forall|i: int| 0 <= i < out@.len() ==> (#[trigger] out@[i]) < k,
                forall|i: int, j: int| 0 <= i < j < out@.len() ==> out@[i] < out@[j],
                forall|m: int| 0 <= m < k ==> ((exists|i: int| 0 <= i < out@.len() && #[trigger] out@[i] == m)
                    <==> (!self.peers@[m].priority.peer_choking && self.peers@[m].priority.info_hash@ == info_hash@)),
            decreases self.peers@.len() - k,
        {
            if !self.peers[k].priority.peer_choking && same_hash(&self.peers[k].priority.info_hash, info_hash) {
                let ghost before = out@;
                out.push(k);
                proof {
                    assert forall|m: int| 0 <= m < k + 1 implies ((exists|i: int| 0 <= i < out@.len() && #[trigger] out@[i] == m)
                        <==> (!self.peers@[m].priority.peer_choking && self.peers@[m].priority.info_hash@ == info_hash@)) by {
                        if m < k {
                            if exists|i: int| 0 <= i < out@.len() && #[trigger] out@[i] == m {
                                let i = choose|i: int| 0 <= i < out@.len() && #[trigger] out@[i] == m;
                                assert(i < before.len());
                                assert(before[i] == m);
                            }
                            if exists|i: int| 0 <= i < before.len() && #[trigger] before[i] == m {
                                let i = choose|i: int| 0 <= i < before.len() && #[trigger] before[i] == m;
                                assert(out@[i] == m);
                            }
                        } else {
                            assert(out@[before.len() as int] == m);
                        }
                    }
                }
            } else {
                proof {
                    assert forall|m: int| 0 <= m < k + 1 implies ((exists|i: int| 0 <= i < out@.len() && #[trigger] out@[i] == m)
                        <==> (!self.peers@[m].priority.peer_choking && self.peers@[m].priority.info_hash@ == info_hash@)) by {
                        if m == k {
                            if exists|i: int| 0 <= i < out@.len() && #[trigger] out@[i] == m {
                                let i = choose|i: int| 0 <= i < out@.len() && #[trigger] out@[i] == m;
                                assert(out@[i] < k);
                            }
                        }
                    }
                }
            }
            k = k + 1;
        }
        out
    }

    /// The requests to make for torrent `info_hash` at time `now`: none
    /// unless it is running; then, while it has fewer than `REQUESTS_LIMIT`
    /// outstanding requests, the next block it selects goes to the first
    /// eligible peer that has the piece (a block no eligible peer has is
    /// still counted as requested).
    pub fn make_requests(
        &self,
        info_hash: &crate::bittorrent::hash::Hash,
        torrent: &mut TorrentRuntime,
        now: u64,
    ) -> (r: Vec<(crate::bittorrent::hash::Hash, Piece)>)
        ensures
            old(torrent).status != Status::Running ==> r@.len() == 0 && *final(torrent) == *old(torrent),
            old(torrent).status == Status::Running ==> exists|sel: Seq<Piece>, states: Seq<TorrentRuntime>| {
                &&& selection_run(*old(torrent), *final(torrent), now, sel, states)
                &&& r@ == assigned(self.peers@, info_hash@, sel)
            },
            forall|i: int| 0 <= i < r@.len() ==> served(self.peers@, info_hash@, #[trigger] r@[i]),
            final(torrent).torrent == old(torrent).torrent,
            final(torrent).status == old(torrent).status,
    {
        match torrent.status {
            Status::Running => {},
            _ => {
                return Vec::new();
            },
        }
        let peers = self.eligible_peers(info_hash);
        let mut out: Vec<(crate::bittorrent::hash::Hash, Piece)> = Vec::new();
        let ghost mut sel: Seq<Piece> = Seq::empty();
        let ghost mut states: Seq<TorrentRuntime> = seq![*torrent];
        loop
            invariant_except_break
                states.last() == *torrent,
            invariant
                forall|i: int| 0 <= i < peers@.len() ==> (#[trigger] peers@[i]) < self.peers@.len(),
                forall|i: int, j: int| 0 <= i < j < peers@.len() ==> peers@[i] < peers@[j],
                forall|k: int| 0 <= k < self.peers@.len() ==> ((exists|i: int| 0 <= i < peers@.len() && #[trigger] peers@[i] == k)
                    <==> (!self.peers@[k].priority.peer_choking && self.peers@[k].priority.info_hash@ == info_hash@)),
                states.len() == sel.len() + 1,
                states[0] == *old(torrent),
                forall|k: int| 0 <= k < sel.len() ==> (#[trigger] states[k]).outstanding_requests@.len() < crate::REQUESTS_LIMIT
                    && select_step(states[k], states[k + 1], Some(sel[k]), now),
                out@ == assigned(self.peers@, info_hash@, sel),
                torrent.torrent == old(torrent).torrent,
                torrent.status == old(torrent).status,
            ensures
                exists|sel: Seq<Piece>, states: Seq<TorrentRuntime>| {
                    &&& selection_run(*old(torrent), *torrent, now, sel, states)
                    &&& out@ == assigned(self.peers@, info_hash@, sel)
                },
                torrent.torrent == old(torrent).torrent,
                torrent.status == old(torrent).status,
            decreases crate::REQUESTS_LIMIT - torrent.outstanding_requests@.len(),
        {
            if torrent.nrequests() >= crate::REQUESTS_LIMIT {
                assert(selection_run(*old(torrent), *torrent, now, sel, states));
                break;
            }
            let ghost before = *torrent;
            let ghost old_sel = sel;
            match torrent.select_piece_at(now) {
                Some(piece) => {
                    proof {
                        states = states.push(*torrent);
                        sel = sel.push(piece);
                        assert(states[sel.len() - 1] == before);
                        assert forall|k: int| 0 <= k < sel.len() implies (#[trigger] states[k]).outstanding_requests@.len()
                            < crate::REQUESTS_LIMIT && select_step(states[k], states[k + 1], Some(sel[k]), now) by {
                            if k < sel.len() - 1 {
                            }
                        }
                        assert(sel.drop_last() =~= old_sel);
                    }
                    let mut j: usize = 0;
                    let mut found = false;
                    while j < peers.len()
                        invariant
                            j <= peers@.len(),
                            forall|i: int| 0 <= i < peers@.len() ==> (#[trigger] peers@[i]) < self.peers@.len(),
                            forall|i: int| 0 <= i < j ==> !bit_at(
                                bits(self.peers@[#[trigger] peers@[i] as int].bitfield),
                                piece.index as int,
                            ),
                        ensures
                            j <= peers@.len(),
                            j < peers@.len() ==> bit_at(bits(self.peers@[peers@[j as int] as int].bitfield), piece.index as int),
                            forall|i: int| 0 <= i < j ==> !bit_at(
                                bits(self.peers@[#[trigger] peers@[i] as int].bitfield),
                                piece.index as int,
                            ),
                        decreases peers@.len() - j,
                    {
                        let k = peers[j];
                        match bv_get(&self.peers[k].bitfield, piece.index as usize) {
                            Some(true) => {
                                break;
                            },
                            _ => {},
                        }
                        j = j + 1;
                    }
                    proof {
                        lemma_first_holder(self.peers@, info_hash@, piece, peers@, j as int);
                    }
                    let ghost rest = assigned(self.peers@, info_hash@, old_sel);
                    assert(sel.drop_last() =~= old_sel);
                    assert(sel.last() == piece);
                    if j < peers.len() {
                        let k = peers[j];
                        out.push((self.peers[k].peer_id, piece));
                        proof {
                            assert(holder(self.peers@, info_hash@, piece, k as int));
                            let c = choose|c: int| first_holder(self.peers@, info_hash@, piece, c);
                            lemma_first_holder_unique(self.peers@, info_hash@, piece, c, k as int);
                            assert(assigned(self.peers@, info_hash@, sel) == rest.push((self.peers@[c].peer_id, piece)));
                        }
                    } else {
                        assert(assigned(self.peers@, info_hash@, sel) == rest);
                    }
                },
                None => {
                    assert(selection_run(*old(torrent), *torrent, now, sel, states));
                    break;
                },
            }
        }
        proof {
            let (sel, states) = choose|sel: Seq<Piece>, states: Seq<TorrentRuntime>| {
                &&& selection_run(*old(torrent), *torrent, now, sel, states)
                &&& out@ == assigned(self.peers@, info_hash@, sel)
            };
            lemma_assigned_served(self.peers@, info_hash@, sel);
        }
        out
    }
}

/// What the manager did on an order from the user interface.
#[derive(Debug)]
pub enum ClientOutcome {
    /// The manager is to shut down.
    Shutdown,
    /// No torrent has the order's info hash.
    NoSuchTorrent,
    /// The torrent was paused or resumed; whether its status changed.
    Changed(bool),
    /// The torrent is gone; these peers are to be disconnected.
    Removed(Vec<crate::bittorrent::hash::Hash>),
}

/// The torrent at `i` of `ts` is the first with info hash `h`.
pub open spec fn first_torrent(ts: Seq<(crate::bittorrent::hash::Hash, TorrentRuntime)>, h: Seq<u8>, i: int) -> bool {
    &&& 0 <= i < ts.len()
    &&& ts[i].0@ == h
    &&& forall|j: int| 0 <= j < i ==> (#[trigger] ts[j]).0@ != h
}

/// Some torrent of `ts` has info hash `h`.
pub open spec fn has_torrent(ts: Seq<(crate::bittorrent::hash::Hash, TorrentRuntime)>, h: Seq<u8>) -> bool {
    exists|i: int| 0 <= i < ts.len() && (#[trigger] ts[i]).0@ == h
}

/// `n` is `o` paused (`pause`) or resumed.
pub open spec fn paused_as(o: TorrentRuntime, n: TorrentRuntime, pause: bool) -> bool {
    &&& n.status == pause_step(o, pause).0
    &&& n.torrent == o.torrent
    &&& n.piece_queue == o.piece_queue
    &&& n.outstanding_requests == o.outstanding_requests
    &&& n.dl_rate == o.dl_rate
    &&& n.ul_rate == o.ul_rate
}

/// The position of the first torrent with info hash `h`.
fn find_torrent(
    ts: &Vec<(crate::bittorrent::hash::Hash, TorrentRuntime)>,
    h: &crate::bittorrent::hash::Hash,
) -> (r: Option<usize>)
    ensures
        r is None <==> !has_torrent(ts@, h@),
        r matches Some(i) ==> first_torrent(ts@, h@, i as int),
{
    let mut i: usize = 0;
    while i < ts.len()
        invariant
            i <= ts@.len(),
            forall|j: int| 0 <= j < i ==> (#[trigger] ts@[j]).0@ != h@,
        decreases ts@.len() - i,
    {
        if same_hash(&ts[i].0, h) {
            return Some(i);
        }
        i = i + 1;
    }
    None
}

/// Pauses (`pause`) or resumes the first torrent with info hash `h`.
fn pause_torrent(
    torrents: &mut Vec<(crate::bittorrent::hash::Hash, TorrentRuntime)>,
    h: &crate::bittorrent::hash::Hash,
    pause: bool,
) -> (r: ClientOutcome)
    requires
        forall|i: int| 0 <= i < old(torrents)@.len() ==> sizes_fit((#[trigger] old(torrents)@[i]).1),
    ensures
        !has_torrent(old(torrents)@, h@) ==> r is NoSuchTorrent && final(torrents)@ == old(torrents)@,
        forall|i: int| #[trigger] first_torrent(old(torrents)@, h@, i) ==> {
            &&& r == ClientOutcome::Changed(pause_step(old(torrents)@[i].1, pause).1)
            &&& final(torrents)@.len() == old(torrents)@.len()
            &&& forall|j: int| 0 <= j < old(torrents)@.len() && j != i ==> #[trigger] final(torrents)@[j] == old(torrents)@[j]
            &&& final(torrents)@[i].0 == old(torrents)@[i].0
            &&& paused_as(old(torrents)@[i].1, final(torrents)@[i].1, pause)
        },
{
    match find_torrent(torrents, h) {
        None => ClientOutcome::NoSuchTorrent,
        Some(i) => {
            let ghost o = torrents@;
            let mut entry = torrents.remove(i);
            assert(entry == o[i as int]);
            let changed = entry.1.pause(pause);
            torrents.insert(i, entry);
            proof {
                assert forall|k: int| #[trigger] first_torrent(o, h@, k) implies k == i by {
                    if k < i {
                        assert(o[k].0@ != h@);
                    } else if k > i {
                        assert(o[i as int].0@ != h@);
                    }
                }
                assert forall|j: int| 0 <= j < o.len() && j != i implies #[trigger] torrents@[j] == o[j] by {
                    if j < i {
                        assert(torrents@[j] == o.remove(i as int)[j]);
                    } else {
                        assert(torrents@[j] == o.remove(i as int)[j - 1]);
                    }
                }
            }
            ClientOutcome::Changed(changed)
        },
    }
}

impl Controller {
    /// Carries out an order from the user interface on the torrents and
    /// peers: pausing or resuming the torrent it names, removing it with
    /// its peers, or shutting down.
    pub fn recv_client(
        &mut self,
        torrents: &mut Vec<(crate::bittorrent::hash::Hash, TorrentRuntime)>,
        msg: &ClientMsg,
    ) -> (r: ClientOutcome)
        requires
            old(self).well_formed(),
            forall|i: int| 0 <= i < old(torrents)@.len() ==> sizes_fit((#[trigger] old(torrents)@[i]).1),
        ensures
            final(self).well_formed(),
            match *msg {
                ClientMsg::Disconnect => {
                    &&& r is Shutdown
                    &&& final(torrents)@ == old(torrents)@
                    &&& final(self).peers@ == old(self).peers@
                },
                ClientMsg::Pause(h) => {
                    &&& final(self).peers@ == old(self).peers@
                    &&& !has_torrent(old(torrents)@, h@) ==> r is NoSuchTorrent && final(torrents)@
                        == old(torrents)@
                    &&& forall|i: int| #[trigger] first_torrent(old(torrents)@, h@, i) ==> {
                        &&& r == ClientOutcome::Changed(pause_step(old(torrents)@[i].1, true).1)
                        &&& final(torrents)@.len() == old(torrents)@.len()
                        &&& forall|j: int| 0 <= j < old(torrents)@.len() && j != i ==> #[trigger] final(torrents)@[j]
                            == old(torrents)@[j]
                        &&& final(torrents)@[i].0 == old(torrents)@[i].0
                        &&& paused_as(old(torrents)@[i].1, final(torrents)@[i].1, true)
                    }
                },
                ClientMsg::Resume(h) => {
                    &&& final(self).peers@ == old(self).peers@
                    &&& !has_torrent(old(torrents)@, h@) ==> r is NoSuchTorrent && final(torrents)@
                        == old(torrents)@
                    &&& forall|i: int| #[trigger] first_torrent(old(torrents)@, h@, i) ==> {
                        &&& r == ClientOutcome::Changed(pause_step(old(torrents)@[i].1, false).1)
                        &&& final(torrents)@.len() == old(torrents)@.len()
                        &&& forall|j: int| 0 <= j < old(torrents)@.len() && j != i ==> #[trigger] final(torrents)@[j]
                            == old(torrents)@[j]
                        &&& final(torrents)@[i].0 == old(torrents)@[i].0
                        &&& paused_as(old(torrents)@[i].1, final(torrents)@[i].1, false)
                    }
                },
                ClientMsg::Remove(h) => {
                    &&& !has_torrent(old(torrents)@, h@) ==> {
                        &&& r is NoSuchTorrent
                        &&& final(torrents)@ == old(torrents)@
                        &&& final(self).peers@ == old(self).peers@
                    }
                    &&& forall|i: int| #[trigger] first_torrent(old(torrents)@, h@, i) ==> {
                        &&& final(torrents)@ == old(torrents)@.remove(i)
                        &&& final(self).peers@ == old(self).peers@.filter(
                            |p: PeerRecord| p.priority.info_hash@ != h@,
                        )
                        &&& r matches ClientOutcome::Removed(ids) && ids@ == old(self).peers@.filter(
                            |p: PeerRecord| p.priority.info_hash@ == h@,
                        ).map_values(|p: PeerRecord| p.peer_id)
                    }
                },
            },
    {
        match msg {
            ClientMsg::Disconnect => ClientOutcome::Shutdown,
            ClientMsg::Pause(h) => pause_torrent(torrents, h, true),
            ClientMsg::Resume(h) => pause_torrent(torrents, h, false),
            ClientMsg::Remove(h) => match find_torrent(torrents, h) {
                None => ClientOutcome::NoSuchTorrent,
                Some(i) => {
                    let ghost o = torrents@;
                    let _gone = torrents.remove(i);
                    proof {
                        assert forall|k: int| #[trigger] first_torrent(o, h@, k) implies k == i by {
                            if k < i {
                                assert(o[k].0@ != h@);
                            } else if k > i {
                                assert(o[i as int].0@ != h@);
                            }
                        }
                    }
                    let ids = self.remove_torrent_peers(h);
                    ClientOutcome::Removed(ids)
                },
            },
        }
    }
}

/// The periodic work of the manager.
#[derive(Debug, PartialEq, Eq, Structural, Clone, Copy)]
pub enum ControllerTask {
    /// Carry out the orders of the user interface (may shut down).
    RecvClient,
    /// Take in newly connected peers (may shut down).
    TryRecvNewPeer,
    /// Report the torrents' state to the user interface.
    SendUpdate,
    /// Process the updates of the peers.
    CheckMessages,
    /// Decide whom to unchoke.
    Choke,
    /// Request blocks of the running torrents.
    MakeRequests,
}

impl ControllerTask {
    /// Whether the task's outcome may end the manager's loop.
    pub fn may_stop(&self) -> (r: bool)
        ensures
            r == (*self == ControllerTask::RecvClient || *self == ControllerTask::TryRecvNewPeer),
    {
        match self {
            ControllerTask::RecvClient => true,
            ControllerTask::TryRecvNewPeer => true,
            _ => false,
        }
    }
}

/// The manager's schedule, on a one-second wheel: orders, new peers,
/// reports and peer updates every second; choking and requests every five
/// seconds.
pub fn controller_wheel() -> (r: Timers<ControllerTask>)
    ensures
        r.base == 1,
        wheel_wf(r.timers@, r.base),
        r.timers@ == seq![
            Timer { base: 1u64, remaining: 1u64, task: ControllerTask::RecvClient },
            Timer { base: 1u64, remaining: 1u64, task: ControllerTask::TryRecvNewPeer },
            Timer { base: 1u64, remaining: 1u64, task: ControllerTask::SendUpdate },
            Timer { base: 1u64, remaining: 1u64, task: ControllerTask::CheckMessages },
            Timer { base: 5u64, remaining: 5u64, task: ControllerTask::Choke },
            Timer { base: 5u64, remaining: 5u64, task: ControllerTask::MakeRequests },
        ],
{
    let mut wheel: Timers<ControllerTask> = Timers::new(1);
    proof {
        assert(wheel_wf(wheel.timers@, wheel.base));
    }
    let _ = wheel.add(1, ControllerTask::RecvClient);
    let _ = wheel.add(1, ControllerTask::TryRecvNewPeer);
    let _ = wheel.add(1, ControllerTask::SendUpdate);
    let _ = wheel.add(1, ControllerTask::CheckMessages);
    let _ = wheel.add(5, ControllerTask::Choke);
    let _ = wheel.add(5, ControllerTask::MakeRequests);
    proof {
        assert(wheel.timers@ =~= seq![
            Timer { base: 1u64, remaining: 1u64, task: ControllerTask::RecvClient },
            Timer { base: 1u64, remaining: 1u64, task: ControllerTask::TryRecvNewPeer },
            Timer { base: 1u64, remaining: 1u64, task: ControllerTask::SendUpdate },
            Timer { base: 1u64, remaining: 1u64, task: ControllerTask::CheckMessages },
            Timer { base: 5u64, remaining: 5u64, task: ControllerTask::Choke },
            Timer { base: 5u64, remaining: 5u64, task: ControllerTask::MakeRequests },
        ]);
    }
    wheel
}

/// Who opened a connection: we (knowing the peer and torrent we want), or
/// the peer (we answer with our id).
#[derive(Debug, Clone, Copy)]
pub enum Handshake {
    Initiator { peer_id: crate::bittorrent::hash::Hash, info_hash: crate::bittorrent::hash::Hash },
    Receiver(crate::bittorrent::hash::Hash),
}

/// Whether a received handshake for torrent `their_info_hash` is taken:
/// a connection we opened needs the torrent we asked for; one the peer
/// opened needs a torrent we have (`known`).
pub fn check_handshake(
    handshake: &Handshake,
    their_info_hash: &crate::bittorrent::hash::Hash,
    known: bool,
) -> (r: Result<(), ParseError>)
    ensures
        match *handshake {
            Handshake::Initiator { info_hash, .. } => {
                &&& r is Ok <==> info_hash@ == their_info_hash@
                &&& r matches Err(e) ==> e is Parse && e.message() == "Info hash in handshake ("@ + hex_text(
                    their_info_hash@,
                ) + ") does not match expected ("@ + hex_text(info_hash@) + ")"@
            },
            Handshake::Receiver(_) => {
                &&& r is Ok <==> known
                &&& r matches Err(e) ==> e is Parse && e.message()
                    == "Failed to find torrent with info hash: "@ + hex_text(their_info_hash@)
            },
        },
{
    match handshake {
        Handshake::Initiator { info_hash, .. } => {
            if !same_hash(info_hash, their_info_hash) {
                let s = concat("Info hash in handshake (".to_string(), their_info_hash.to_hex_string().as_str());
                let s = concat(s, ") does not match expected (");
                let s = concat(s, info_hash.to_hex_string().as_str());
                return Err(ParseError::Parse(concat(s, ")")));
            }
            Ok(())
        },
        Handshake::Receiver(_) => {
            if !known {
                let s = concat(
                    "Failed to find torrent with info hash: ".to_string(),
                    their_info_hash.to_hex_string().as_str(),
                );
                return Err(ParseError::Parse(s));
            }
            Ok(())
        },
    }
}

/// The first torrent of `ts` with info hash `h` (any torrent when there is none).
pub open spec fn torrent_of(ts: Seq<(crate::bittorrent::hash::Hash, TorrentRuntime)>, h: Seq<u8>) -> TorrentRuntime {
    ts[choose|i: int| first_torrent(ts, h, i)].1
}

/// Whether a handshake taken on a connection opened as `handshake` says
/// is accepted: it is well formed, and names the torrent we asked for, or
/// (when the peer opened the connection) a torrent of `ts`.
pub open spec fn handshake_taken(handshake: Handshake, ts: Seq<(crate::bittorrent::hash::Hash, TorrentRuntime)>, m: Seq<u8>) -> bool {
    &&& handshake_accepted(m)
    &&& match handshake {
        Handshake::Initiator { info_hash, .. } => info_hash@ == m.subrange(28, 48),
        Handshake::Receiver(_) => has_torrent(ts, m.subrange(28, 48)),
    }
}

/// Sets up a connection from the handshake `buf` read from the peer at
/// `ip` and `port`, on a connection opened as `handshake` says (when we
/// opened it, our handshake has been sent already). Gives the new peer, of
/// the torrent the handshake names, and our handshake to answer with when
/// the peer opened the connection.
pub fn handle_client(
    handshake: &Handshake,
    buf: &[u8],
    torrents: &Vec<(crate::bittorrent::hash::Hash, TorrentRuntime)>,
    ip: String,
    port: i64,
) -> (r: Result<(Peer, Option<[u8; 68]>), ParseError>)
    requires
        handshake matches Handshake::Initiator { info_hash, .. } ==> has_torrent(torrents@, info_hash@),
    ensures
        r is Ok <==> handshake_taken(*handshake, torrents@, buf@),
        !handshake_accepted(buf@) ==> (r matches Err(e) && e is Parse && e.message() == handshake_error_text(
            buf@,
        )),
        handshake_accepted(buf@) ==> match *handshake {
            Handshake::Initiator { info_hash, .. } => info_hash@ != buf@.subrange(28, 48) ==> (r matches Err(e)
                && e is Parse && e.message() == "Info hash in handshake ("@ + hex_text(buf@.subrange(28, 48))
                + ") does not match expected ("@ + hex_text(info_hash@) + ")"@),
            Handshake::Receiver(_) => !has_torrent(torrents@, buf@.subrange(28, 48)) ==> (r matches Err(e)
                && e is Parse && e.message() == "Failed to find torrent with info hash: "@ + hex_text(
                buf@.subrange(28, 48),
            )),
        },
        r matches Ok((peer, reply)) ==> {
            &&& peer.peer_info.peer_id@ == buf@.subrange(48, 68)
            &&& peer.peer_info.info_hash@ == buf@.subrange(28, 48)
            &&& peer.peer_info.ip == ip
            &&& peer.peer_info.port == port
            &&& peer.am_choking && !peer.am_interested && peer.peer_choking && !peer.peer_interested
            &&& peer.time == 0
            &&& peer.request_queue@.len() == 0
            &&& bits(peer.bitfield) == Seq::new(
                bits(torrent_of(torrents@, buf@.subrange(28, 48)).torrent.bitfield).len(),
                |i: int| false,
            )
            &&& match *handshake {
                Handshake::Initiator { .. } => reply is None,
                Handshake::Receiver(peer_id) => reply matches Some(h) && h@ == handshake_bytes(
                    peer_id@,
                    buf@.subrange(28, 48),
                ),
            }
        },
{
    let (their_peer_id, their_info_hash) = Peer::parse_handshake(buf)?;
    let pos = find_torrent(torrents, &their_info_hash);
    let reply = match handshake {
        Handshake::Initiator { info_hash, .. } => {
            check_handshake(handshake, &their_info_hash, true)?;
            None
        },
        Handshake::Receiver(peer_id) => {
            check_handshake(handshake, &their_info_hash, pos.is_some())?;
            Some(Peer::handshake(peer_id, &their_info_hash))
        },
    };
    match pos {
        Some(i) => {
            let npieces = torrents[i].1.npieces();
            proof {
                let c = choose|c: int| first_torrent(torrents@, their_info_hash@, c);
                assert(first_torrent(torrents@, their_info_hash@, c));
                if c < i {
                    assert(torrents@[c].0@ != their_info_hash@);
                } else if c > i {
                    assert(torrents@[i as int].0@ != their_info_hash@);
                }
            }
            let info = PeerInfo { peer_id: their_peer_id, info_hash: their_info_hash, ip, port };
            Ok((Peer::new(info, npieces), reply))
        },
        None => {
            proof {
                if let Handshake::Initiator { info_hash, .. } = *handshake {
                    let k = choose|k: int| 0 <= k < torrents@.len() && (#[trigger] torrents@[k]).0@ == info_hash@;
                    assert(torrents@[k].0@ == their_info_hash@);
                }
            }
            Err(ParseError::new_str("Failed to find torrent with the handshake's info hash"))
        },
    }
}

/// Whether a new connection is taken while `npeers` peers are connected.
pub fn accepts_connection(npeers: usize) -> (r: bool)
    ensures
        r == (npeers <= crate::MAX_PEERS),
{
    npeers <= crate::MAX_PEERS
}

/// A change to the piece priorities of a peer's torrent.
#[derive(Debug, PartialEq, Clone, Copy)]
pub enum PriorityChange {
    Unchanged,
    /// Change every piece the peer has by this many peers.
    AllPieces(isize),
    /// Change one piece by this many peers.
    OnePiece(u32, isize),
}

/// What a peer connection does after reading a message from its peer,
/// besides answering requests and storing blocks.
#[derive(Debug)]
pub struct Reaction {
    pub priorities: PriorityChange,
    /// What to tell the manager.
    pub update: Option<PeerUpdate>,
    /// Whether the connection ends.
    pub stop: bool,
}

/// How a peer connection reacts to what `Peer::parse_message` made of a
/// message, the peer's state being `peer` afterwards.
///
/// The end of the stream drops the peer (and, when it choked us, counts it
/// out of the pieces it has); changes of choking count the peer's pieces
/// in or out; haves and bit fields are passed on to the manager.
pub fn react(peer: &Peer, action: &Action) -> (r: Reaction)
    ensures
        match *action {
            Action::EOF => r.priorities == (if peer.peer_choking {
                PriorityChange::AllPieces(-1isize)
            } else {
                PriorityChange::Unchanged
            }) && (r.update matches Some(u) && u is Disconnect) && r.stop,
            Action::InterestedChange => r.priorities == PriorityChange::Unchanged && (r.update matches Some(u)
                && u is InterestedChange) && !r.stop,
            Action::ChokingChange => r.priorities == PriorityChange::AllPieces(if peer.peer_choking {
                -1isize
            } else {
                1isize
            }) && (r.update matches Some(u) && u is ChokingChange) && !r.stop,
            Action::Have(index) => r.priorities == (if peer.peer_choking {
                PriorityChange::OnePiece(index, 1isize)
            } else {
                PriorityChange::Unchanged
            }) && (r.update matches Some(PeerUpdate::Have(j)) && j == index) && !r.stop,
            Action::Bitfield(b) => r.priorities == (if !peer.peer_choking {
                PriorityChange::AllPieces(1isize)
            } else {
                PriorityChange::Unchanged
            }) && (r.update matches Some(PeerUpdate::Bitfield(c)) && bits(c) == bits(b)) && !r.stop,
            _ => r.priorities == PriorityChange::Unchanged && r.update is None && !r.stop,
        },
{
    match action {
        Action::EOF => Reaction {
            priorities: if peer.peer_choking {
                PriorityChange::AllPieces(-1)
            } else {
                PriorityChange::Unchanged
            },
            update: Some(PeerUpdate::Disconnect),
            stop: true,
        },
        Action::InterestedChange => Reaction {
            priorities: PriorityChange::Unchanged,
            update: Some(PeerUpdate::InterestedChange),
            stop: false,
        },
        Action::ChokingChange => Reaction {
            priorities: PriorityChange::AllPieces(if peer.peer_choking {
                -1
            } else {
                1
            }),
            update: Some(PeerUpdate::ChokingChange),
            stop: false,
        },
        Action::Have(index) => Reaction {
            priorities: if peer.peer_choking {
                PriorityChange::OnePiece(*index, 1)
            } else {
                PriorityChange::Unchanged
            },
            update: Some(PeerUpdate::Have(*index)),
            stop: false,
        },
        Action::Bitfield(b) => Reaction {
            priorities: if !peer.peer_choking {
                PriorityChange::AllPieces(1)
            } else {
                PriorityChange::Unchanged
            },
            update: Some(PeerUpdate::Bitfield(crate::bittorrent::bitfield::bv_clone(b))),
            stop: false,
        },
        _ => Reaction { priorities: PriorityChange::Unchanged, update: None, stop: false },
    }
}

/// What a peer connection does on an order from the manager: the bytes to
/// send to the peer, and whether the connection ends.
pub fn respond(peer: &mut Peer, update: &ManagerUpdate) -> (r: (Option<Vec<u8>>, bool))
    ensures
        match *update {
            ManagerUpdate::Request(req) => r.0 matches Some(v) && v@ == req@ && !r.1 && *final(peer)
                == *old(peer),
            ManagerUpdate::Choke => if !old(peer).am_choking {
                r.0 matches Some(v) && v@ == spec_msg(1, 0, Seq::empty()) && *final(peer) == (Peer {
                    am_choking: true,
                    ..*old(peer)
                }) && !r.1
            } else {
                r.0 is None && !r.1 && *final(peer) == *old(peer)
            },
            ManagerUpdate::Unchoke => if old(peer).am_choking {
                r.0 matches Some(v) && v@ == spec_msg(1, 1, Seq::empty()) && *final(peer) == (Peer {
                    am_choking: false,
                    ..*old(peer)
                }) && !r.1
            } else {
                r.0 is None && !r.1 && *final(peer) == *old(peer)
            },
            ManagerUpdate::Disconnect => r.0 is None && r.1 && *final(peer) == *old(peer),
            ManagerUpdate::Have(index) => r.0 matches Some(v) && v@ == spec_msg(5, 4, be32(index)) && !r.1
                && *final(peer) == *old(peer),
            ManagerUpdate::Nothing => r.0 is None && !r.1 && *final(peer) == *old(peer),
        },
{
    match update {
        ManagerUpdate::Request(req) => (Some(vstd::slice::slice_to_vec(req.as_slice())), false),
        ManagerUpdate::Choke => {
            if !peer.am_choking {
                (Some(peer.choke(true)), false)
            } else {
                (None, false)
            }
        },
        ManagerUpdate::Unchoke => {
            if peer.am_choking {
                (Some(peer.choke(false)), false)
            } else {
                (None, false)
            }
        },
        ManagerUpdate::Disconnect => (None, true),
        ManagerUpdate::Have(index) => (Some(Peer::have(*index)), false),
        ManagerUpdate::Nothing => (None, false),
    }
}

/// Changes by `by` peers the priority of each piece set in `bitfield`.
pub fn update_priority_all(bitfield: &BitVec, torrent: &mut TorrentRuntime, by: isize)
    requires
        by >= 0 || forall|i: int| #[trigger] bit_at(bits(*bitfield), i) ==> !old(torrent).piece_queue.zeros@.contains(i as usize),
    ensures
        final(torrent).torrent == old(torrent).torrent,
        final(torrent).outstanding_requests == old(torrent).outstanding_requests,
        final(torrent).status == old(torrent).status,
        final(torrent).dl_rate == old(torrent).dl_rate,
        final(torrent).ul_rate == old(torrent).ul_rate,
        forall|i: usize| !#[trigger] bit_at(bits(*bitfield), i as int) ==> (final(torrent).piece_queue.zeros@.contains(i)
            == old(torrent).piece_queue.zeros@.contains(i) && final(torrent).piece_queue.contents().contains_key(i)
            == old(torrent).piece_queue.contents().contains_key(i) && (old(torrent).piece_queue.contents().contains_key(i)
            ==> final(torrent).piece_queue.contents()[i] == old(torrent).piece_queue.contents()[i])),
        (final(torrent).piece_queue.zeros@, final(torrent).piece_queue.contents()) == priorities_after(
            old(torrent).piece_queue.zeros@,
            old(torrent).piece_queue.contents(),
            bits(*bitfield),
            bits(*bitfield).len(),
            by,
        ),
{
    let n = bv_len(bitfield);
    let mut i: usize = 0;
    while i < n
        invariant
            i <= n,
            n == bits(*bitfield).len(),
            by >= 0 || forall|j: int| #[trigger] bit_at(bits(*bitfield), j) ==> !old(torrent).piece_queue.zeros@.contains(j as usize),
            forall|j: usize| j >= i ==> (#[trigger] torrent.piece_queue.zeros@.contains(j)
                == old(torrent).piece_queue.zeros@.contains(j)),
            torrent.torrent == old(torrent).torrent,
            torrent.outstanding_requests == old(torrent).outstanding_requests,
            torrent.status == old(torrent).status,
            torrent.dl_rate == old(torrent).dl_rate,
            torrent.ul_rate == old(torrent).ul_rate,
            forall|j: usize| !#[trigger] bit_at(bits(*bitfield), j as int) ==> (torrent.piece_queue.zeros@.contains(j)
                == old(torrent).piece_queue.zeros@.contains(j) && torrent.piece_queue.contents().contains_key(j)
                == old(torrent).piece_queue.contents().contains_key(j) && (old(torrent).piece_queue.contents().contains_key(j)
                ==> torrent.piece_queue.contents()[j] == old(torrent).piece_queue.contents()[j])),
            (torrent.piece_queue.zeros@, torrent.piece_queue.contents()) == priorities_after(
                old(torrent).piece_queue.zeros@,
                old(torrent).piece_queue.contents(),
                bits(*bitfield),
                i as nat,
                by,
            ),
        decreases n - i,
    {
        match bv_get(bitfield, i) {
            Some(true) => {
                proof {
                    assert(bit_at(bits(*bitfield), i as int));
                }
                torrent.update_priority(i, by);
            },
            _ => {},
        }
        i = i + 1;
    }
}

/// `s` filtered keeps the order of what it keeps.
proof fn lemma_filter_keeps_order(s: Seq<PeerRecord>, pred: spec_fn(PeerRecord) -> bool, a: int, b: int)
    requires
        distinct_ids(s),
        0 <= a < b < s.filter(pred).len(),
    ensures
        s.filter(pred)[a].peer_id@ != s.filter(pred)[b].peer_id@,
    decreases s.len(),
{
    reveal(Seq::filter);
    let t = s.drop_last();
    assert(distinct_ids(t));
    t.lemma_filter_len(pred);
    if pred(s.last()) {
        if b == s.filter(pred).len() - 1 {
            let f = t.filter(pred);
            assert(f[a] == f[a]);
            assert(f.contains(f[a]));
            t.lemma_filter_contains_rev(pred, f[a]);
            let w = choose|w: int| 0 <= w < t.len() && t[w] == f[a];
            assert(s[w].peer_id@ != s[s.len() - 1].peer_id@);
        } else {
            lemma_filter_keeps_order(t, pred, a, b);
        }
    } else {
        lemma_filter_keeps_order(t, pred, a, b);
    }
}

/// While fewer than `n` positions are placed, one is free.
proof fn lemma_free_position(used: Seq<bool>, order: Seq<int>, step: int, n: int)
    requires
        0 <= step < n,
        used.len() == n,
        order.len() == step,
        forall|i: int| 0 <= i < step ==> 0 <= #[trigger] order[i] < n,
        forall|i: int, j: int| 0 <= i < j < step ==> order[i] != order[j],
        forall|k: int| 0 <= k < n ==> (used[k] <==> exists|i: int| 0 <= i < step && #[trigger] order[i] == k),
    ensures
        exists|k: int| 0 <= k < n && !used[k],
{
    lemma_pigeonhole(order, step, n);
    let k = choose|k: int| 0 <= k < n && #[trigger] missing(order, step, k);
    assert(!used[k]);
}

/// No position of `order` below `step` holds `k`.
spec fn missing(order: Seq<int>, step: int, k: int) -> bool {
    forall|i: int| 0 <= i < step ==> #[trigger] order[i] != k
}

/// `step` distinct positions below `n` miss one when `step < n`.
proof fn lemma_pigeonhole(order: Seq<int>, step: int, n: int)
    requires
        0 <= step < n,
        order.len() == step,
        forall|i: int| 0 <= i < step ==> 0 <= #[trigger] order[i] < n,
        forall|i: int, j: int| 0 <= i < j < step ==> order[i] != order[j],
    ensures
        exists|k: int| 0 <= k < n && #[trigger] missing(order, step, k),
    decreases step,
{
    let last = n - 1;
    if exists|i: int| 0 <= i < step && #[trigger] order[i] == last {
        let w = choose|i: int| 0 <= i < step && #[trigger] order[i] == last;
        let rest = order.remove(w);
        assert forall|i: int| 0 <= i < step - 1 implies #[trigger] rest[i] == order[if i < w { i } else { i + 1 }] by {}
        assert forall|i: int| 0 <= i < step - 1 implies 0 <= #[trigger] rest[i] < n - 1 by {
            let oi = if i < w { i } else { i + 1 };
            assert(rest[i] == order[oi]);
            if oi < w {
                assert(order[oi] != order[w]);
            } else {
                assert(order[w] != order[oi]);
            }
        }
        assert forall|i: int, j: int| 0 <= i < j < step - 1 implies rest[i] != rest[j] by {
            let oi = if i < w { i } else { i + 1 };
            let oj = if j < w { j } else { j + 1 };
            assert(rest[i] == order[oi]);
            assert(rest[j] == order[oj]);
        }
        lemma_pigeonhole(rest, step - 1, n - 1);
        let k = choose|k: int| 0 <= k < n - 1 && #[trigger] missing(rest, step - 1, k);
        assert forall|i: int| 0 <= i < step implies #[trigger] order[i] != k by {
            if i != w {
                let ri = if i < w { i } else { i - 1 };
                assert(rest[ri] == order[i]);
            }
        }
        assert(missing(order, step, k));
    } else {
        assert forall|i: int| 0 <= i < step implies #[trigger] order[i] != last by {}
        assert(missing(order, step, last));
    }
}

} // verus!
