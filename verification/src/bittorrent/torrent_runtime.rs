//! The state of a torrent that lives only while the client runs: the queue
//! of pieces to request by rarity, the requests made and not yet answered,
//! the transfer rates and whether the torrent runs.
use vstd::prelude::*;
use std::collections::HashSet;
use std::collections::VecDeque;
use bit_vec::BitVec;
use priority_queue::PriorityQueue;
use crate::bittorrent::{Piece, PieceData};
use crate::bittorrent::bitfield::{bits, count_set};
use crate::bittorrent::manager::Status;
use crate::bittorrent::metainfo::{FileInfo, MetaInfo};
use crate::bittorrent::torrent::{piece_debug, piece_debug_text, Torrent};
use crate::bittorrent::metainfo::sha1_digest;
use crate::bittorrent::text::concat;

verus! {

broadcast use vstd::std_specs::hash::group_hash_axioms;

/// Declares the `priority_queue` crate's `PriorityQueue` so that values of it
/// can be held; what they hold is seen only through `pq_contents` and the
/// wrappers below.
#[verifier::external_type_specification]
#[verifier::external_body]
#[verifier::reject_recursive_types(I)]
#[verifier::reject_recursive_types(P)]
#[verifier::reject_recursive_types(H)]
pub struct ExPriorityQueue<I, P, H>(priority_queue::PriorityQueue<I, P, H>);

/// The items of a priority queue and their priorities.
pub uninterp spec fn pq_contents(q: PriorityQueue<usize, isize>) -> Map<usize, isize>;

/// An empty queue (`PriorityQueue::new`).
#[verifier::external_body]
fn pq_new() -> (r: PriorityQueue<usize, isize>)
    ensures
        pq_contents(r).dom().len() == 0 && pq_contents(r).dom().finite(),
{
    PriorityQueue::new()
}

/// Puts `item` in with `priority`, replacing its priority if it is there
/// (`PriorityQueue::push`); gives the priority it had.
#[verifier::external_body]
fn pq_push(q: &mut PriorityQueue<usize, isize>, item: usize, priority: isize) -> (r: Option<isize>)
    ensures
        pq_contents(*final(q)) == pq_contents(*old(q)).insert(item, priority),
        r == (if pq_contents(*old(q)).contains_key(item) {
            Some(pq_contents(*old(q))[item])
        } else {
            None
        }),
{
    q.push(item, priority)
}

/// An item of greatest priority, with its priority (`PriorityQueue::peek`).
#[verifier::external_body]
fn pq_peek(q: &PriorityQueue<usize, isize>) -> (r: Option<(usize, isize)>)
    ensures
        r is None <==> pq_contents(*q).dom().len() == 0,
        r matches Some((i, p)) ==> highest(pq_contents(*q), i, p),
{
    match q.peek() {
        Some((i, p)) => Some((*i, *p)),
        None => None,
    }
}

/// Takes out an item of greatest priority (`PriorityQueue::pop`).
#[verifier::external_body]
fn pq_pop(q: &mut PriorityQueue<usize, isize>) -> (r: Option<(usize, isize)>)
    ensures
        r is None <==> pq_contents(*old(q)).dom().len() == 0,
        r is None ==> pq_contents(*final(q)) == pq_contents(*old(q)),
        r matches Some((i, p)) ==> highest(pq_contents(*old(q)), i, p) && pq_contents(*final(q))
            == pq_contents(*old(q)).remove(i),
{
    q.pop()
}

/// Sets the priority of an item that is there (`PriorityQueue::change_priority`);
/// gives the priority it had.
#[verifier::external_body]
fn pq_change_priority(q: &mut PriorityQueue<usize, isize>, item: &usize, priority: isize) -> (r: Option<isize>)
    ensures
        pq_contents(*old(q)).contains_key(*item) ==> pq_contents(*final(q)) == pq_contents(
            *old(q),
        ).insert(*item, priority) && r == Some(pq_contents(*old(q))[*item]),
        !pq_contents(*old(q)).contains_key(*item) ==> pq_contents(*final(q)) == pq_contents(*old(q))
            && r is None,
{
    q.change_priority(item, priority)
}

/// The priority of an item, if it is there (`PriorityQueue::get_priority`).
#[verifier::external_body]
fn pq_get_priority(q: &PriorityQueue<usize, isize>, item: &usize) -> (r: Option<isize>)
    ensures
        r == (if pq_contents(*q).contains_key(*item) {
            Some(pq_contents(*q)[*item])
        } else {
            None
        }),
{
    q.get_priority(item).copied()
}

/// The number of items (`PriorityQueue::len`).
#[verifier::external_body]
fn pq_len(q: &PriorityQueue<usize, isize>) -> (r: usize)
    ensures
        r == pq_contents(*q).dom().len(),
{
    q.len()
}

/// `i` has priority `p` in `q`, and nothing in `q` has a greater one.
pub open spec fn highest(q: Map<usize, isize>, i: usize, p: isize) -> bool {
    &&& q.contains_key(i)
    &&& q[i] == p
    &&& forall|j: usize| #[trigger] q.contains_key(j) ==> q[j] <= p
}

/// The priority of pieces that no connected peer has; never a real count.
pub const MIN_PRIORITY: isize = -31;

/// The pieces at no priority and the queue after `d` more unchoking peers
/// are counted as having piece `i`.
pub open spec fn priority_step(z: Set<usize>, q: Map<usize, isize>, i: usize, d: isize) -> (
    Set<usize>,
    Map<usize, isize>,
) {
    if z.contains(i) {
        let p = 0isize.wrapping_sub(d);
        if p < 0 {
            (z.remove(i), if q.contains_key(i) { q.insert(i, p) } else { q })
        } else {
            (z, q)
        }
    } else if q.contains_key(i) {
        let p = q[i].wrapping_sub(d);
        if p == 0 {
            (z.insert(i), q.insert(i, MIN_PRIORITY))
        } else {
            (z, q.insert(i, p))
        }
    } else {
        (z, q)
    }
}

/// `priority_step` taken in turn for each of the first `n` pieces that `b`
/// marks, lowest index first.
pub open spec fn priorities_after(
    z: Set<usize>,
    q: Map<usize, isize>,
    b: Seq<bool>,
    n: nat,
    d: isize,
) -> (Set<usize>, Map<usize, isize>)
    decreases n,
{
    if n == 0 {
        (z, q)
    } else {
        let prev = priorities_after(z, q, b, (n - 1) as nat, d);
        if b[n - 1] {
            priority_step(prev.0, prev.1, (n - 1) as usize, d)
        } else {
            prev
        }
    }
}

/// Pieces to request, by how few unchoking peers have them: a piece that
/// `n` peers have has priority `-n`. Pieces no peer has are in `zeros` and
/// sit in `queue` at `MIN_PRIORITY`, so that they are never handed out.
pub struct PieceQueue {
    pub zeros: HashSet<usize>,
    pub queue: PriorityQueue<usize, isize>,
}

impl PieceQueue {
    /// The pieces in the queue and their priorities.
    pub open spec fn contents(&self) -> Map<usize, isize> {
        pq_contents(self.queue)
    }

    /// A queue of `npieces` pieces that no peer has yet.
    pub fn new(npieces: usize) -> (r: PieceQueue)
        ensures
            r.zeros@ == Set::new(|i: usize| i < npieces),
            r.contents() == Map::new(|i: usize| i < npieces, |i: usize| MIN_PRIORITY),
    {
        let mut zeros: HashSet<usize> = HashSet::new();
        let mut queue = pq_new();
        let mut i: usize = 0;
        while i < npieces
            invariant
                i <= npieces,
                zeros@ == Set::new(|k: usize| k < i),
                pq_contents(queue) == Map::new(|k: usize| k < i, |k: usize| MIN_PRIORITY),
            decreases npieces - i,
        {
            zeros.insert(i);
            pq_push(&mut queue, i, MIN_PRIORITY);
            proof {
                assert(zeros@ =~= Set::new(|k: usize| k < i + 1));
                assert(pq_contents(queue) =~= Map::new(|k: usize| k < i + 1, |k: usize| MIN_PRIORITY));
            }
            i = i + 1;
        }
        PieceQueue { zeros: zeros, queue: queue }
    }

    /// A piece of greatest priority, with its priority.
    pub fn peek(&self) -> (r: Option<(usize, isize)>)
        ensures
            r is None <==> self.contents().dom().len() == 0,
            r matches Some((i, p)) ==> highest(self.contents(), i, p),
    {
        pq_peek(&self.queue)
    }

    /// Takes out a piece of greatest priority, unless no peer has any of
    /// the pieces left (the greatest priority is `MIN_PRIORITY`).
    pub fn pop(&mut self) -> (r: Option<(usize, isize)>)
        ensures
            final(self).zeros@ == old(self).zeros@,
            r is None ==> final(self).contents() == old(self).contents(),
            r is None <==> (old(self).contents().dom().len() == 0 || exists|i: usize|
                highest(old(self).contents(), i, MIN_PRIORITY)),
            r matches Some((i, p)) ==> highest(old(self).contents(), i, p) && p != MIN_PRIORITY
                && final(self).contents() == old(self).contents().remove(i),
    {
        match self.peek() {
            Some((i, priority)) => {
                if priority != MIN_PRIORITY {
                    let r = pq_pop(&mut self.queue);
                    proof {
                        if exists|k: usize| highest(old(self).contents(), k, MIN_PRIORITY) {
                            let k = choose|k: usize| highest(old(self).contents(), k, MIN_PRIORITY);
                            assert(old(self).contents()[i] <= MIN_PRIORITY);
                            assert(old(self).contents()[k] <= priority);
                        }
                        match r {
                            Some((j, p)) => {
                                assert(old(self).contents()[i] <= p);
                                assert(old(self).contents()[j] <= priority);
                            },
                            None => {},
                        }
                    }
                    r
                } else {
                    None
                }
            },
            None => None,
        }
    }

    /// The priority of a piece, if it is in the queue.
    pub fn get_priority(&self, index: &usize) -> (r: Option<isize>)
        ensures
            r == (if self.contents().contains_key(*index) {
                Some(self.contents()[*index])
            } else {
                None
            }),
    {
        pq_get_priority(&self.queue, index)
    }

    /// The number of pieces in the queue.
    pub fn queue_len(&self) -> (r: usize)
        ensures
            r == self.contents().dom().len(),
    {
        pq_len(&self.queue)
    }

    /// The number of pieces no peer has.
    pub fn zeros_len(&self) -> (r: usize)
        ensures
            r == self.zeros@.len(),
    {
        self.zeros.len()
    }

    /// Applies `f` to the priority of piece `index` (0 for a piece no peer
    /// has). A piece whose priority leaves 0 joins the queue proper; one
    /// whose priority becomes 0 sinks to `MIN_PRIORITY`. Gives the new
    /// priority, or `None` for a piece that is in neither.
    pub fn change_priority_by<F: Fn(isize) -> isize>(&mut self, index: &usize, f: F) -> (r: Option<isize>)
        requires
            forall|x: isize| call_requires(f, (x,)),
            old(self).zeros@.contains(*index) ==> forall|p: isize| call_ensures(f, (0isize,), p) ==> p <= 0,
        ensures
            ({
                let oz = old(self).zeros@;
                let oq = old(self).contents();
                let nz = final(self).zeros@;
                let nq = final(self).contents();
                if oz.contains(*index) {
                    r matches Some(p) && call_ensures(f, (0isize,), p) && (p < 0 ==> nz == oz.remove(*index)
                        && nq == (if oq.contains_key(*index) {
                        oq.insert(*index, p)
                    } else {
                        oq
                    })) && (p == 0 ==> nz == oz && nq == oq)
                } else if oq.contains_key(*index) {
                    r matches Some(p) && call_ensures(f, (oq[*index],), p) && (p == 0 ==> nz == oz.insert(*index)
                        && nq == oq.insert(*index, MIN_PRIORITY)) && (p != 0 ==> nz == oz && nq == oq.insert(*index, p))
                } else {
                    &&& r is None
                    &&& nz == oz
                    &&& nq == oq
                }
            }),
    {
        if self.zeros.contains(index) {
            let new_priority = f(0);
            if new_priority < 0 {
                self.zeros.remove(index);
                pq_change_priority(&mut self.queue, index, new_priority);
            }
            Some(new_priority)
        } else {
            match self.get_priority(index) {
                Some(priority) => {
                    let new_priority = f(priority);
                    if new_priority == 0 {
                        self.zeros.insert(*index);
                        pq_change_priority(&mut self.queue, index, MIN_PRIORITY);
                    } else {
                        pq_change_priority(&mut self.queue, index, new_priority);
                    }
                    Some(new_priority)
                },
                None => None,
            }
        }
    }
}

/// Bytes moved over the last five seconds.
#[derive(PartialEq, Debug, Clone)]
pub struct Rate {
    /// The bytes of the entries in `buffer`.
    pub total: usize,
    /// Each transfer: when it happened (milliseconds) and how many bytes.
    pub buffer: VecDeque<(u64, usize)>,
}

/// The bytes of the transfers in `s`.
pub open spec fn buffer_sum(s: Seq<(u64, usize)>) -> int
    decreases s.len(),
{
    if s.len() == 0 {
        0
    } else {
        buffer_sum(s.drop_last()) + s.last().1
    }
}

proof fn lemma_buffer_sum_front(s: Seq<(u64, usize)>)
    requires
        s.len() > 0,
    ensures
        buffer_sum(s) == s[0].1 + buffer_sum(s.drop_first()),
        buffer_sum(s.drop_first()) >= 0,
    decreases s.len(),
{
    if s.len() > 1 {
        lemma_buffer_sum_front(s.drop_last());
        let t = s.drop_first();
        assert(s.drop_last().drop_first() =~= t.drop_last());
        assert(t.last() == s.last());
        assert(buffer_sum(t) == buffer_sum(t.drop_last()) + t.last().1);
        assert(buffer_sum(s) == buffer_sum(s.drop_last()) + s.last().1);
        assert(s.drop_last()[0] == s[0]);
    } else {
        assert(s.drop_first().len() == 0);
        assert(s.drop_last().len() == 0);
        assert(buffer_sum(s.drop_first()) == 0);
        assert(buffer_sum(s.drop_last()) == 0);
        assert(buffer_sum(s) == buffer_sum(s.drop_last()) + s.last().1);
    }
    lemma_buffer_sum_nonneg(s.drop_first());
}

proof fn lemma_buffer_sum_nonneg(s: Seq<(u64, usize)>)
    ensures
        buffer_sum(s) >= 0,
    decreases s.len(),
{
    if s.len() > 0 {
        lemma_buffer_sum_nonneg(s.drop_last());
    }
}

/// Milliseconds since the epoch, by the system clock (std's
/// `SystemTime::now`); nothing is claimed of the value.
#[verifier::external_body]
pub(crate) fn now_millis() -> (r: u64) {
    match std::time::SystemTime::now().duration_since(std::time::UNIX_EPOCH) {
        Ok(d) => d.as_millis() as u64,
        Err(_) => 0,
    }
}

/// How long a transfer is counted, in milliseconds.
pub const RATE_WINDOW: u64 = 5000;

/// The transfers of `s` from the first one at most `RATE_WINDOW` before `now`.
pub open spec fn recent(s: Seq<(u64, usize)>, now: u64) -> Seq<(u64, usize)>
    decreases s.len(),
{
    if s.len() == 0 {
        s
    } else if now - s[0].0 > RATE_WINDOW {
        recent(s.drop_first(), now)
    } else {
        s
    }
}

impl Rate {
    /// The entries agree with the total.
    pub open spec fn well_formed(&self) -> bool {
        self.total == buffer_sum(self.buffer@)
    }

    /// No transfers yet.
    pub fn new() -> (r: Rate)
        ensures
            r.total == 0,
            r.buffer@ == Seq::<(u64, usize)>::empty(),
            r.well_formed(),
    {
        Rate { total: 0, buffer: VecDeque::new() }
    }

    /// Drops the transfers older than `RATE_WINDOW` at time `now`, oldest first.
    pub fn prune_at(&mut self, now: u64)
        requires
            old(self).well_formed(),
        ensures
            final(self).well_formed(),
            final(self).buffer@ == recent(old(self).buffer@, now),
    {
        while self.buffer.len() > 0 && now.saturating_sub(self.buffer[0].0) > RATE_WINDOW
            invariant
                self.well_formed(),
                recent(self.buffer@, now) == recent(old(self).buffer@, now),
            decreases self.buffer@.len(),
        {
            proof {
                lemma_buffer_sum_front(self.buffer@);
            }
            let (_, old_amount) = self.buffer.pop_front().unwrap();
            self.total = self.total - old_amount;
        }
    }

    /// Drops the transfers older than five seconds now.
    pub fn prune(&mut self)
        requires
            old(self).well_formed(),
        ensures
            final(self).well_formed(),
            exists|now: u64| final(self).buffer@ == recent(old(self).buffer@, now),
    {
        let now = now_millis();
        self.prune_at(now)
    }

    /// The bytes moved over the last `RATE_WINDOW` before `now`.
    pub fn rate_at(&mut self, now: u64) -> (r: usize)
        requires
            old(self).well_formed(),
        ensures
            final(self).well_formed(),
            final(self).buffer@ == recent(old(self).buffer@, now),
            r == buffer_sum(final(self).buffer@),
    {
        self.prune_at(now);
        self.total
    }

    /// Records a transfer of `n` bytes at time `now`.
    pub fn update_at(&mut self, n: usize, now: u64)
        requires
            old(self).well_formed(),
            buffer_sum(recent(old(self).buffer@, now)) + n <= usize::MAX,
        ensures
            final(self).well_formed(),
            final(self).buffer@ == recent(old(self).buffer@, now).push((now, n)),
    {
        self.prune_at(now);
        self.buffer.push_back((now, n));
        proof {
            assert(self.buffer@.drop_last() =~= recent(old(self).buffer@, now));
        }
        self.total = self.total + n;
    }

    /// The bytes moved over the last five seconds.
    pub fn rate(&mut self) -> (r: usize)
        requires
            old(self).well_formed(),
        ensures
            final(self).well_formed(),
            exists|now: u64| final(self).buffer@ == recent(old(self).buffer@, now),
            r == buffer_sum(final(self).buffer@),
    {
        let now = now_millis();
        self.rate_at(now)
    }

    /// Records a transfer of `n` bytes now.
    pub fn update(&mut self, n: usize)
        requires
            old(self).well_formed(),
            buffer_sum(old(self).buffer@) + n <= usize::MAX,
        ensures
            final(self).well_formed(),
            exists|now: u64| final(self).buffer@ == recent(old(self).buffer@, now).push((now, n)),
    {
        let now = now_millis();
        proof {
            lemma_recent_sum(old(self).buffer@, now);
        }
        self.update_at(n, now)
    }
}

proof fn lemma_recent_sum(s: Seq<(u64, usize)>, now: u64)
    ensures
        buffer_sum(recent(s, now)) <= buffer_sum(s),
    decreases s.len(),
{
    if s.len() > 0 && now - s[0].0 > RATE_WINDOW {
        lemma_buffer_sum_front(s);
        lemma_recent_sum(s.drop_first(), now);
    }
}

proof fn lemma_recent_fresh(s: Seq<(u64, usize)>, now: u64)
    ensures
        recent(s, now).len() > 0 ==> now - recent(s, now)[0].0 <= RATE_WINDOW,
    decreases s.len(),
{
    if s.len() > 0 && now - s[0].0 > RATE_WINDOW {
        lemma_recent_fresh(s.drop_first(), now);
    }
}

/// A rate taken at the moment of a transfer counts that transfer: after
/// `update_at(n, now)`, `rate_at(now)` gives what it gave before plus `n`,
/// and drops no transfer.
pub proof fn lemma_rate_after_update(s: Seq<(u64, usize)>, n: usize, now: u64)
    ensures
        recent(recent(s, now).push((now, n)), now) == recent(s, now).push((now, n)),
        buffer_sum(recent(recent(s, now).push((now, n)), now)) == buffer_sum(recent(s, now)) + n,
{
    lemma_recent_fresh(s, now);
    let r = recent(s, now);
    let t = r.push((now, n));
    assert(t[0] == if r.len() > 0 { r[0] } else { (now, n) });
    assert(recent(t, now) == t);
    assert(t.drop_last() =~= r);
}

/// A request made for a block, and when (milliseconds).
#[derive(PartialEq, Debug, Clone, Copy)]
pub struct Request {
    pub piece: Piece,
    pub time: u64,
}

/// Milliseconds after which an outstanding request may be made again.
pub const REQUEST_TIMEOUT_MS: u64 = 120000;

/// The state of a torrent that lives only while the client runs.
pub struct TorrentRuntime {
    pub torrent: Torrent,
    pub piece_queue: PieceQueue,
    /// Requests made and not yet answered, oldest first.
    pub outstanding_requests: VecDeque<Request>,
    pub dl_rate: Rate,
    pub ul_rate: Rate,
    pub status: Status,
}

/// Selecting the next block to request at time `now` takes `o` to `n` and
/// gives `r`: an outstanding request made at least `REQUEST_TIMEOUT_MS`
/// ago, taken off the outstanding requests; else the whole of the piece of
/// greatest priority, recorded as requested at `now`; else nothing.
pub open spec fn select_step(o: TorrentRuntime, n: TorrentRuntime, r: Option<Piece>, now: u64) -> bool {
    let oq = o.outstanding_requests@;
    let nq = n.outstanding_requests@;
    &&& n.torrent == o.torrent
    &&& n.status == o.status
    &&& n.dl_rate == o.dl_rate
    &&& n.ul_rate == o.ul_rate
    &&& if oq.len() > 0 && now - oq[0].time >= REQUEST_TIMEOUT_MS {
        &&& r == Some(oq[0].piece)
        &&& nq == oq.drop_first()
        &&& n.piece_queue == o.piece_queue
    } else {
        &&& n.piece_queue.zeros@ == o.piece_queue.zeros@
        &&& r is None <==> (o.piece_queue.contents().dom().len() == 0 || exists|i: usize|
            highest(o.piece_queue.contents(), i, MIN_PRIORITY))
        &&& r is None ==> nq == oq && n.piece_queue.contents() == o.piece_queue.contents()
        &&& r matches Some(p) ==> exists|i: usize, pr: isize| {
            &&& highest(o.piece_queue.contents(), i, pr)
            &&& pr != MIN_PRIORITY
            &&& n.piece_queue.contents() == o.piece_queue.contents().remove(i)
            &&& p == (Piece { index: i as u32, begin: 0, length: o.torrent.metainfo.info.piece_length as u32 })
            &&& nq == oq.push(Request { piece: p, time: now })
        }
    }
}

/// The torrent's size in bytes, as pieces times piece length, fits in a `usize`.
pub open spec fn sizes_fit(t: TorrentRuntime) -> bool {
    (t.torrent.metainfo.info.piece_length as usize) * bits(t.torrent.bitfield).len() <= usize::MAX
}

/// The bytes of the pieces the torrent still lacks.
pub open spec fn left_bytes(t: TorrentRuntime) -> int {
    (t.torrent.metainfo.info.piece_length as usize) * (bits(t.torrent.bitfield).len() - count_set(
        bits(t.torrent.bitfield),
    ))
}

/// The status after pausing (`pause`) or resuming `t`, and whether it changed.
pub open spec fn pause_step(t: TorrentRuntime, pause: bool) -> (Status, bool) {
    if pause {
        (Status::Paused, t.status != Status::Paused)
    } else if t.status == Status::Paused {
        (if left_bytes(t) == 0 { Status::Complete } else { Status::Running }, true)
    } else {
        (t.status, false)
    }
}

impl TorrentRuntime {
    /// The invariants the operations keep.
    pub open spec fn well_formed(&self) -> bool {
        &&& self.torrent.well_formed()
        &&& self.dl_rate.well_formed()
        &&& self.ul_rate.well_formed()
    }

    /// A torrent for `metainfo` with its files below `download_dir`: complete
    /// and holding all pieces when `downloaded`, else running with none.
    pub fn new(metainfo: MetaInfo, download_dir: &str, downloaded: bool) -> (r: TorrentRuntime)
        ensures
            r.well_formed(),
            r.torrent.metainfo == metainfo,
            bits(r.torrent.bitfield) == Seq::new(metainfo.info.pieces@.len(), |i: int| downloaded),
            r.torrent.map@.dom().len() == 0,
            r.piece_queue.zeros@ == Set::new(|i: usize| i < metainfo.info.pieces@.len()),
            r.piece_queue.contents() == Map::new(
                |i: usize| i < metainfo.info.pieces@.len(),
                |i: usize| MIN_PRIORITY,
            ),
            r.outstanding_requests@.len() == 0,
            r.status == (if downloaded { Status::Complete } else { Status::Running }),
    {
        let torrent = Torrent::new(metainfo, download_dir, downloaded);
        let npieces = torrent.npieces();
        TorrentRuntime {
            piece_queue: PieceQueue::new(npieces),
            torrent: torrent,
            outstanding_requests: VecDeque::new(),
            dl_rate: Rate::new(),
            ul_rate: Rate::new(),
            status: if downloaded {
                Status::Complete
            } else {
                Status::Running
            },
        }
    }

    pub fn metainfo(&self) -> (r: &MetaInfo)
        ensures
            *r == self.torrent.metainfo,
    {
        &self.torrent.metainfo
    }

    /// The bytes downloaded over the last five seconds.
    pub fn download_rate(&mut self) -> (r: usize)
        requires
            old(self).well_formed(),
        ensures
            final(self).well_formed(),
            exists|now: u64| final(self).dl_rate.buffer@ == recent(old(self).dl_rate.buffer@, now),
            r == buffer_sum(final(self).dl_rate.buffer@),
            final(self).ul_rate == old(self).ul_rate,
            final(self).torrent == old(self).torrent,
            final(self).piece_queue == old(self).piece_queue,
            final(self).outstanding_requests == old(self).outstanding_requests,
            final(self).status == old(self).status,
    {
        self.dl_rate.rate()
    }

    /// The bytes uploaded over the last five seconds.
    pub fn upload_rate(&mut self) -> (r: usize)
        requires
            old(self).well_formed(),
        ensures
            final(self).well_formed(),
            exists|now: u64| final(self).ul_rate.buffer@ == recent(old(self).ul_rate.buffer@, now),
            r == buffer_sum(final(self).ul_rate.buffer@),
            final(self).dl_rate == old(self).dl_rate,
            final(self).torrent == old(self).torrent,
            final(self).piece_queue == old(self).piece_queue,
            final(self).outstanding_requests == old(self).outstanding_requests,
            final(self).status == old(self).status,
    {
        self.ul_rate.rate()
    }

    /// The number of requests made and not yet answered.
    pub fn nrequests(&self) -> (r: usize)
        ensures
            r == self.outstanding_requests@.len(),
    {
        self.outstanding_requests.len()
    }

    pub fn status(&self) -> (r: Status)
        ensures
            r == self.status,
    {
        self.status
    }

    pub fn downloaded(&self) -> (r: usize)
        requires
            0 <= count_set(bits(self.torrent.bitfield)) * (self.torrent.metainfo.info.piece_length as usize)
                <= usize::MAX,
        ensures
            r == count_set(bits(self.torrent.bitfield)) * (self.torrent.metainfo.info.piece_length as usize),
    {
        self.torrent.downloaded()
    }

    pub fn remaining(&self) -> (r: usize)
        requires
            (self.torrent.metainfo.info.piece_length as usize) * bits(self.torrent.bitfield).len() <= usize::MAX,
        ensures
            r == (self.torrent.metainfo.info.piece_length as usize) * (bits(self.torrent.bitfield).len()
                - count_set(bits(self.torrent.bitfield))),
    {
        self.torrent.remaining()
    }

    pub fn piece_length(&self) -> (r: i64)
        ensures
            r == self.torrent.metainfo.info.piece_length,
    {
        self.torrent.piece_length()
    }

    pub fn bitfield(&self) -> (r: &BitVec)
        ensures
            *r == self.torrent.bitfield,
    {
        self.torrent.bitfield()
    }

    /// The total size in bytes of the torrent: the sum of the lengths of its files.
    pub fn size(&self) -> (r: usize)
        requires
            0 <= crate::bittorrent::metainfo::total_length(self.torrent.metainfo.info.file_info) <= usize::MAX,
        ensures
            r == crate::bittorrent::metainfo::total_length(self.torrent.metainfo.info.file_info),
    {
        self.torrent.size()
    }

    pub fn trackers(&self) -> (r: Vec<String>)
        ensures
            r@ == (match self.torrent.metainfo.announce {
                Some(a) => seq![a],
                None => Seq::empty(),
            }) + (match self.torrent.metainfo.announce_list {
                Some(l) => l@,
                None => Seq::empty(),
            }),
    {
        self.torrent.trackers()
    }

    pub fn name(&self) -> (r: &String)
        ensures
            *r == (match self.torrent.metainfo.info.file_info {
                FileInfo::SingleFileInfo { name, .. } => name,
                FileInfo::MultiFileInfo { name, .. } => name,
            }),
    {
        self.torrent.name()
    }

    pub fn npieces(&self) -> (r: usize)
        ensures
            r == bits(self.torrent.bitfield).len(),
    {
        self.torrent.npieces()
    }

    /// Takes in a received block before it is written: its request is
    /// forgotten, and a block whose piece hash matches counts towards the
    /// download rate; any other block is refused.
    pub fn check_block(&mut self, pd: &PieceData) -> (r: Result<(), String>)
        requires
            old(self).well_formed(),
            buffer_sum(old(self).dl_rate.buffer@) + pd.piece.length <= usize::MAX,
        ensures
            final(self).well_formed(),
            final(self).outstanding_requests@ == old(self).outstanding_requests@.filter(
                |req: Request| req.piece != pd.piece,
            ),
            final(self).torrent == old(self).torrent,
            final(self).piece_queue == old(self).piece_queue,
            final(self).ul_rate == old(self).ul_rate,
            final(self).status == old(self).status,
            ({
                let valid = pd.piece.index < old(self).torrent.metainfo.info.pieces@.len() && sha1_digest(pd.data@)
                    == old(self).torrent.metainfo.info.pieces@[pd.piece.index as int]@;
                &&& r is Ok <==> valid
                &&& valid ==> exists|now: u64| final(self).dl_rate.buffer@ == recent(old(self).dl_rate.buffer@, now).push(
                    (now, pd.piece.length as usize),
                )
                &&& !valid ==> final(self).dl_rate == old(self).dl_rate
                &&& r matches Err(e) ==> e@ == "Invalid block: "@ + piece_debug_text(pd.piece)
            }),
    {
        self.remove_request(pd);
        if self.torrent.metainfo.valid_piece(pd) {
            self.dl_rate.update(pd.piece.length as usize);
            Ok(())
        } else {
            Err(concat("Invalid block: ".to_string(), piece_debug(&pd.piece).as_str()))
        }
    }

    /// Forgets the requests for the block that `piece_data` answers.
    pub fn remove_request(&mut self, piece_data: &PieceData)
        ensures
            final(self).outstanding_requests@ == old(self).outstanding_requests@.filter(
                |req: Request| req.piece != piece_data.piece,
            ),
            final(self).torrent == old(self).torrent,
            final(self).piece_queue == old(self).piece_queue,
            final(self).dl_rate == old(self).dl_rate,
            final(self).ul_rate == old(self).ul_rate,
            final(self).status == old(self).status,
    {
        let ghost s = self.outstanding_requests@;
        let mut kept: VecDeque<Request> = VecDeque::new();
        let mut k: usize = 0;
        while k < self.outstanding_requests.len()
            invariant
                k <= s.len(),
                self.outstanding_requests@ == s,
                kept@ == s.subrange(0, k as int).filter(|req: Request| req.piece != piece_data.piece),
            decreases s.len() - k,
        {
            let req = self.outstanding_requests[k];
            proof {
                assert(s.subrange(0, k + 1).drop_last() =~= s.subrange(0, k as int));
                reveal(Seq::filter);
            }
            if req.piece != piece_data.piece {
                kept.push_back(req);
            }
            k = k + 1;
        }
        assert(s.subrange(0, s.len() as int) =~= s);
        self.outstanding_requests = kept;
    }

    /// The next block to request at time `now`: an outstanding request made
    /// at least `REQUEST_TIMEOUT_MS` ago, taken off the outstanding
    /// requests; else the whole of the piece of greatest priority, which is
    /// recorded as requested at `now`; else nothing.
    pub fn select_piece_at(&mut self, now: u64) -> (r: Option<Piece>)
        ensures
            select_step(*old(self), *final(self), r, now),
    {
        let front = self.outstanding_requests.pop_front();
        match front {
            Some(front) => {
                if now.saturating_sub(front.time) >= REQUEST_TIMEOUT_MS {
                    return Some(front.piece);
                } else {
                    self.outstanding_requests.push_front(front);
                    assert(self.outstanding_requests@ =~= old(self).outstanding_requests@);
                }
            },
            None => {},
        }
        match self.piece_queue.pop() {
            Some((index, _)) => {
                let piece = self.torrent.default_piece(index);
                self.outstanding_requests.push_back(Request { piece: piece, time: now });
                Some(piece)
            },
            None => None,
        }
    }

    /// The next block to request now (see `select_piece_at`).
    pub fn select_piece(&mut self) -> (r: Option<Piece>)
        ensures
            exists|now: u64| select_step(*old(self), *final(self), r, now),
    {
        let now = now_millis();
        self.select_piece_at(now)
    }

    /// Records that `d_npeers` more unchoking peers have piece `piece_index`:
    /// its priority drops by that much.
    pub fn update_priority(&mut self, piece_index: usize, d_npeers: isize)
        requires
            d_npeers >= 0 || !old(self).piece_queue.zeros@.contains(piece_index),
        ensures
            final(self).torrent == old(self).torrent,
            final(self).outstanding_requests == old(self).outstanding_requests,
            final(self).status == old(self).status,
            final(self).dl_rate == old(self).dl_rate,
            final(self).ul_rate == old(self).ul_rate,
            ({
                let oz = old(self).piece_queue.zeros@;
                let oq = old(self).piece_queue.contents();
                let nz = final(self).piece_queue.zeros@;
                let nq = final(self).piece_queue.contents();
                let p = if oz.contains(piece_index) {
                    0isize.wrapping_sub(d_npeers)
                } else {
                    oq[piece_index].wrapping_sub(d_npeers)
                };
                if oz.contains(piece_index) {
                    &&& p < 0 ==> nz == oz.remove(piece_index) && nq == (if oq.contains_key(piece_index) {
                        oq.insert(piece_index, p)
                    } else {
                        oq
                    })
                    &&& p == 0 ==> nz == oz && nq == oq
                } else if oq.contains_key(piece_index) {
                    &&& p == 0 ==> nz == oz.insert(piece_index) && nq == oq.insert(piece_index, MIN_PRIORITY)
                    &&& p != 0 ==> nz == oz && nq == oq.insert(piece_index, p)
                } else {
                    nz == oz && nq == oq
                }
            }),
            (final(self).piece_queue.zeros@, final(self).piece_queue.contents()) == priority_step(
                old(self).piece_queue.zeros@,
                old(self).piece_queue.contents(),
                piece_index,
                d_npeers,
            ),
    {
        let f = |n: isize| -> (r: isize)
            ensures
                r == n.wrapping_sub(d_npeers),
            { n.wrapping_sub(d_npeers) };
        self.piece_queue.change_priority_by(&piece_index, f);
    }

    /// Pauses (`pause`) or resumes the torrent; a resumed torrent with
    /// nothing left to download is complete. Gives whether the status changed.
    pub fn pause(&mut self, pause: bool) -> (r: bool)
        requires
            sizes_fit(*old(self)),
        ensures
            (final(self).status, r) == pause_step(*old(self), pause),
            final(self).torrent == old(self).torrent,
            final(self).piece_queue == old(self).piece_queue,
            final(self).outstanding_requests == old(self).outstanding_requests,
            final(self).dl_rate == old(self).dl_rate,
            final(self).ul_rate == old(self).ul_rate,
    {
        if pause {
            if self.status != Status::Paused {
                self.status = Status::Paused;
                true
            } else {
                false
            }
        } else {
            if self.status == Status::Paused {
                if self.torrent.remaining() == 0 {
                    self.status = Status::Complete;
                    true
                } else {
                    self.status = Status::Running;
                    true
                }
            } else {
                false
            }
        }
    }

    /// Marks a running torrent with nothing left to download as complete.
    pub fn set_complete(&mut self) -> (r: Result<(), String>)
        requires
            (old(self).torrent.metainfo.info.piece_length as usize) * bits(old(self).torrent.bitfield).len()
                <= usize::MAX,
        ensures
            final(self).torrent == old(self).torrent,
            ({
                let left = (old(self).torrent.metainfo.info.piece_length as usize) * (bits(
                    old(self).torrent.bitfield,
                ).len() - count_set(bits(old(self).torrent.bitfield)));
                if left == 0 && old(self).status == Status::Running {
                    r is Ok && final(self).status == Status::Complete
                } else if left == 0 {
                    r matches Err(e) && e@ == "Tried to set torrent as complete, but its status is "@
                        + status_text(old(self).status) && final(self).status == old(self).status
                } else {
                    r matches Err(e) && e@ == "Tried to set torrent as complete, but it's not complete"@
                        && final(self).status == old(self).status
                }
            }),
    {
        if self.torrent.remaining() == 0 {
            if self.status == Status::Running {
                self.status = Status::Complete;
                Ok(())
            } else {
                let s = crate::bittorrent::text::concat(
                    "Tried to set torrent as complete, but its status is ".to_string(),
                    status_name(self.status),
                );
                Err(s)
            }
        } else {
            Err("Tried to set torrent as complete, but it's not complete".to_string())
        }
    }

    /// After a piece is downloaded: when nothing is left to download, marks
    /// the torrent complete as `set_complete` does and gives its outcome;
    /// otherwise changes nothing and gives `None`.
    pub fn complete_if_done(&mut self) -> (r: Option<Result<(), String>>)
        requires
            sizes_fit(*old(self)),
        ensures
            final(self).torrent == old(self).torrent,
            left_bytes(*old(self)) != 0 ==> r is None && final(self).status == old(self).status,
            left_bytes(*old(self)) == 0 && old(self).status == Status::Running ==> (r matches Some(x) && x is Ok)
                && final(self).status == Status::Complete,
            left_bytes(*old(self)) == 0 && old(self).status != Status::Running ==> (r matches Some(x) && x matches Err(
                e,
            ) && e@ == "Tried to set torrent as complete, but its status is "@ + status_text(old(self).status))
                && final(self).status == old(self).status,
    {
        if self.remaining() == 0 {
            Some(self.set_complete())
        } else {
            None
        }
    }
}

/// The name of a status, as `{:?}` shows it.
pub open spec fn status_text(s: Status) -> Seq<char> {
    match s {
        Status::Paused => "Paused"@,
        Status::Running => "Running"@,
        Status::Complete => "Complete"@,
    }
}

/// The name of a status, as `{:?}` shows it.
pub fn status_name(s: Status) -> (r: &'static str)
    ensures
        r@ == status_text(s),
{
    match s {
        Status::Paused => "Paused",
        Status::Running => "Running",
        Status::Complete => "Complete",
    }
}

/// Pausing a torrent and then resuming it gives back its status, when that
/// status agrees with what is left to download (complete exactly when
/// nothing is left): both calls report a change.
pub proof fn lemma_pause_resume(t: TorrentRuntime)
    requires
        t.status != Status::Paused,
        (t.status == Status::Complete) == (left_bytes(t) == 0),
    ensures
        pause_step(t, true) == (Status::Paused, true),
        pause_step(TorrentRuntime { status: Status::Paused, ..t }, false) == (t.status, true),
{
}

proof fn lemma_count_set_const(n: nat, bit: bool)
    ensures
        count_set(Seq::new(n, |i: int| bit)) == if bit { n } else { 0 },
    decreases n,
{
    if n > 0 {
        let s = Seq::new(n, |i: int| bit);
        assert(s.drop_last() =~= Seq::new((n - 1) as nat, |i: int| bit));
        lemma_count_set_const((n - 1) as nat, bit);
    }
}

/// A torrent just made by `TorrentRuntime::new`, running or complete, is
/// paused by a pause and back to that status by a resume, both calls
/// reporting a change, when it has pieces of some length.
pub proof fn lemma_pause_resume_new(t: TorrentRuntime, metainfo: MetaInfo, downloaded: bool)
    requires
        t.torrent.metainfo == metainfo,
        bits(t.torrent.bitfield) == Seq::new(metainfo.info.pieces@.len(), |i: int| downloaded),
        t.status == (if downloaded { Status::Complete } else { Status::Running }),
        metainfo.info.pieces@.len() > 0,
        0 < metainfo.info.piece_length <= usize::MAX,
    ensures
        pause_step(t, true) == (Status::Paused, true),
        pause_step(TorrentRuntime { status: Status::Paused, ..t }, false) == (t.status, true),
{
    let n = metainfo.info.pieces@.len();
    lemma_count_set_const(n, downloaded);
    let pl = metainfo.info.piece_length as usize;
    assert(pl > 0);
    let b = bits(t.torrent.bitfield);
    assert(b.len() == n);
    if !downloaded {
        assert(count_set(b) == 0);
        assert(pl * n > 0) by (nonlinear_arith)
            requires
                pl > 0,
                n > 0,
        ;
        assert(left_bytes(t) == pl * n);
    } else {
        assert(count_set(b) == n);
        assert(left_bytes(t) == pl * 0);
    }
    lemma_pause_resume(t);
}

} // verus!
