//! The peer wire protocol: the state kept per connected peer, the messages
//! it sends, and the messages sent to it.
use vstd::prelude::*;
use bit_vec::BitVec;
use crate::bittorrent::{ParseError, Piece, PieceData};
use crate::bittorrent::bitfield::{
    bit_at, bits, bits_to_bytes, bv_clone, bv_from_bytes, bv_from_elem, bv_len, bv_get, bv_or,
    bv_push, bv_set, bv_to_bytes, byte_bit, bytes_to_bits, pow2,
};
use crate::bittorrent::text::{
    bytes_debug, bytes_debug_text, concat, decimal_chars, push_decimal,
};
use crate::bittorrent::wire::{be32, from_be32, push_u32, read_u32};

verus! {

/// The state kept about a connected peer.
#[derive(Debug)]
pub struct Peer {
    /// Whether we refuse the peer's requests.
    pub am_choking: bool,
    /// Whether we want pieces the peer has.
    pub am_interested: bool,
    /// Whether the peer refuses our requests.
    pub peer_choking: bool,
    /// Whether the peer wants pieces we have.
    pub peer_interested: bool,
    pub peer_info: PeerInfo,
    /// Milliseconds since the peer last sent something.
    pub time: u32,
    /// The pieces the peer has.
    pub bitfield: BitVec,
    /// Requests received and not yet handed on.
    pub request_queue: Vec<Piece>,
}

/// What a received message calls for.
#[derive(Debug, PartialEq)]
pub enum Action {
    EOF,
    Request(Vec<Piece>),
    Write(PieceData),
    InterestedChange,
    ChokingChange,
    Have(u32),
    Bitfield(BitVec),
    Nothing,
}

/// Who a peer is.
#[derive(Debug, Clone)]
pub struct PeerInfo {
    pub peer_id: crate::bittorrent::hash::Hash,
    pub info_hash: crate::bittorrent::hash::Hash,
    pub ip: String,
    pub port: i64,
}

/// The number of requests collected before they are handed on.
pub const QUEUE_LENGTH: usize = 1;

/// Length of a handshake message.
pub const HSLEN: usize = 68;

/// Length of the protocol string.
pub const PSTRLEN: u8 = 19;

/// The bytes of the protocol string, `BitTorrent protocol`.
pub open spec fn pstr_bytes() -> Seq<u8> {
    seq![66u8, 105, 116, 84, 111, 114, 114, 101, 110, 116, 32, 112, 114, 111, 116, 111, 99, 111, 108]
}

/// Whether a handshake is accepted: long enough, with the expected protocol string.
pub open spec fn handshake_accepted(m: Seq<u8>) -> bool {
    &&& m.len() >= HSLEN
    &&& m[0] == PSTRLEN
    &&& m.subrange(1, 20) == pstr_bytes()
}

/// Why a handshake `m` that is not accepted is refused.
pub open spec fn handshake_error_text(m: Seq<u8>) -> Seq<char> {
    if m.len() < HSLEN {
        "Unexpected handshake length: "@ + decimal_chars(m.len())
    } else if m[0] != PSTRLEN {
        "Unexpected pstrlen: "@ + decimal_chars(m[0] as nat)
    } else {
        "Unexpected protocol string: "@ + bytes_debug_text(m.subrange(1, 20))
    }
}

/// The handshake we send: the protocol string, eight zero bytes, the info
/// hash, then the peer id.
pub open spec fn handshake_bytes(peer_id: Seq<u8>, info_hash: Seq<u8>) -> Seq<u8> {
    seq![PSTRLEN] + pstr_bytes() + Seq::new(8, |i: int| 0u8) + info_hash + peer_id
}

/// A message: its length, its id, then its payload.
pub open spec fn spec_msg(len: u32, id: u8, payload: Seq<u8>) -> Seq<u8> {
    be32(len) + seq![id] + payload
}

/// The block described by bytes 5 to 17 of a message.
pub open spec fn spec_generic_piece(m: Seq<u8>) -> Piece {
    Piece {
        index: from_be32(m.subrange(5, 9)),
        begin: from_be32(m.subrange(9, 13)),
        length: from_be32(m.subrange(13, 17)),
    }
}

/// The kinds of incoming message.
pub enum MsgKind {
    Eof,
    TooShort,
    KeepAlive,
    LengthMismatch(u32),
    Choke(bool),
    Interested(bool),
    Have(u32),
    Bitfield(Seq<u8>),
    Request(Piece),
    PieceBlock(Piece, Seq<u8>),
    Cancel(Piece),
    Port,
    Invalid(u8),
    Truncated(u8),
}

/// What kind of message `m` is.
pub open spec fn msg_kind(m: Seq<u8>) -> MsgKind {
    if m.len() == 0 {
        MsgKind::Eof
    } else if m.len() < 4 {
        MsgKind::TooShort
    } else {
        let len = from_be32(m);
        if len == 0 {
            MsgKind::KeepAlive
        } else if m.len() < 4 + len {
            MsgKind::LengthMismatch(len)
        } else {
            let id = m[4];
            if id == 0 {
                MsgKind::Choke(true)
            } else if id == 1 {
                MsgKind::Choke(false)
            } else if id == 2 {
                MsgKind::Interested(true)
            } else if id == 3 {
                MsgKind::Interested(false)
            } else if id == 4 {
                if m.len() >= 9 {
                    MsgKind::Have(from_be32(m.subrange(5, 9)))
                } else {
                    MsgKind::Truncated(id)
                }
            } else if id == 5 {
                MsgKind::Bitfield(m.subrange(5, 4 + len))
            } else if id == 6 {
                if m.len() >= 17 {
                    MsgKind::Request(spec_generic_piece(m))
                } else {
                    MsgKind::Truncated(id)
                }
            } else if id == 7 {
                if len >= 9 {
                    MsgKind::PieceBlock(
                        Piece {
                            index: from_be32(m.subrange(5, 9)),
                            begin: from_be32(m.subrange(9, 13)),
                            length: (len - 9) as u32,
                        },
                        m.subrange(13, 4 + len),
                    )
                } else {
                    MsgKind::Truncated(id)
                }
            } else if id == 8 {
                if m.len() >= 17 {
                    MsgKind::Cancel(spec_generic_piece(m))
                } else {
                    MsgKind::Truncated(id)
                }
            } else if id == 9 {
                MsgKind::Port
            } else {
                MsgKind::Invalid(id)
            }
        }
    }
}

/// `p` with its time since last contact reset.
pub open spec fn with_time_reset(p: Peer) -> Peer {
    Peer { time: 0, ..p }
}

/// The effect of a choke (`choke`) or unchoke message from the peer.
pub open spec fn choke_step(o: Peer, n: Peer, choke: bool, r: Result<Action, ParseError>) -> bool {
    if o.peer_choking == choke {
        r matches Ok(a) && a == Action::Nothing && n == o
    } else {
        r matches Ok(a) && a == Action::ChokingChange && n == (Peer { peer_choking: choke, ..o })
    }
}

/// The effect of an interested (`interested`) or not-interested message from the peer.
pub open spec fn interested_step(
    o: Peer,
    n: Peer,
    interested: bool,
    r: Result<Action, ParseError>,
) -> bool {
    if o.peer_interested == interested {
        r matches Ok(a) && a == Action::Nothing && n == o
    } else {
        r matches Ok(a) && a == Action::InterestedChange && n == (Peer {
            peer_interested: interested,
            ..o
        })
    }
}

/// `n` is `o` with only its bit field changed.
pub open spec fn only_bitfield_changed(o: Peer, n: Peer) -> bool {
    n == (Peer { bitfield: n.bitfield, ..o })
}

/// The effect of a have message for piece `i`.
pub open spec fn have_step(o: Peer, n: Peer, i: u32, r: Result<Action, ParseError>) -> bool {
    let b = bits(o.bitfield);
    if i >= b.len() {
        &&& r matches Err(e) && e is Parse && e.message()
            == "Received have message with piece index "@ + decimal_chars(i as nat)
            + " that exceeds number of pieces "@ + decimal_chars(b.len())
        &&& n == o
    } else if b[i as int] {
        r matches Ok(a) && a == Action::Nothing && n == o
    } else {
        &&& r matches Ok(a) && a == Action::Have(i)
        &&& only_bitfield_changed(o, n)
        &&& bits(n.bitfield) == b.update(i as int, true)
    }
}

/// The bits of the last byte of a bit field, most significant first, down to bit `spare`.
pub open spec fn last_bits(byte: u8, spare: int) -> Seq<bool> {
    Seq::new(if spare <= 8 { (8 - spare) as nat } else { 0 }, |j: int| byte_bit(byte, j))
}

/// The bits a received bit field denotes when its last byte has `spare` unused bits.
pub open spec fn received_bits(b: Seq<u8>, spare: int) -> Seq<bool> {
    bytes_to_bits(b.drop_last()) + last_bits(b.last(), spare)
}

/// The number of unused bits in the last byte of a bit field of `n` bits.
pub open spec fn spare_bits(n: nat) -> int {
    (8 - (n % 8)) % 8
}

/// The effect of a bit field message.
pub open spec fn bitfield_step(o: Peer, n: Peer, b: Seq<u8>, r: Result<Action, ParseError>) -> bool {
    let ob = bits(o.bitfield);
    if b.len() == 0 {
        r matches Err(e) && e is Parse && e.message() == "Received 0-length bitfield"@ && n == o
    } else {
        let rb = received_bits(b, spare_bits(ob.len()));
        if rb.len() == ob.len() {
            &&& r matches Ok(Action::Bitfield(bv)) && bits(bv) == bits(n.bitfield)
            &&& only_bitfield_changed(o, n)
            &&& bits(n.bitfield) == Seq::new(ob.len(), |i: int| ob[i] || rb[i])
        } else {
            &&& r matches Err(e) && e is Parse && e.message()
                == "Received bitfield with length ("@ + decimal_chars(rb.len())
                + ") different from existing bitfield ("@ + decimal_chars(ob.len()) + ")"@
            &&& n == o
        }
    }
}

/// The effect of a request for block `p`.
pub open spec fn request_step(o: Peer, n: Peer, p: Piece, r: Result<Action, ParseError>) -> bool {
    &&& r matches Ok(Action::Request(v)) && v@ == o.request_queue@.push(p)
    &&& n.request_queue@ == Seq::<Piece>::empty()
    &&& n == (Peer { request_queue: n.request_queue, ..o })
}

/// `k` is the first position of `p` in `q`.
pub open spec fn is_first(q: Seq<Piece>, p: Piece, k: int) -> bool {
    &&& 0 <= k < q.len()
    &&& q[k] == p
    &&& forall|j: int| 0 <= j < k ==> q[j] != p
}

/// The effect of a cancel of block `p`.
pub open spec fn cancel_step(o: Peer, n: Peer, p: Piece, r: Result<Action, ParseError>) -> bool {
    let q = o.request_queue@;
    if q.contains(p) {
        let k = choose|k: int| is_first(q, p, k);
        &&& r matches Ok(a) && a == Action::Nothing
        &&& n.request_queue@ == q.remove(k)
        &&& n == (Peer { request_queue: n.request_queue, ..o })
    } else {
        &&& r matches Err(e) && e is Parse && e.message()
            == "Received cancel for piece not in queue"@
        &&& n == o
    }
}

fn peer_error(msg: String) -> (r: ParseError)
    ensures
        r == ParseError::Parse(msg),
{
    ParseError::Parse(msg)
}

impl Peer {
    /// A peer that has nothing, chokes us and is choked, and wants nothing.
    pub fn new(info: PeerInfo, npieces: usize) -> (r: Peer)
        ensures
            r.am_choking,
            !r.am_interested,
            r.peer_choking,
            !r.peer_interested,
            r.peer_info == info,
            r.time == 0,
            bits(r.bitfield) == Seq::new(npieces as nat, |i: int| false),
            r.request_queue@ == Seq::<Piece>::empty(),
    {
        Peer {
            am_choking: true,
            am_interested: false,
            peer_choking: true,
            peer_interested: false,
            peer_info: info,
            time: 0,
            bitfield: bv_from_elem(npieces, false),
            request_queue: Vec::new(),
        }
    }

    /// Acts on a message received from the peer.
    ///
    /// An empty message means the connection ended. A message whose length
    /// prefix is zero keeps the connection alive. Messages too short for
    /// their kind, and port messages, are refused with an error.
    pub fn parse_message(&mut self, msg: &[u8]) -> (r: Result<Action, ParseError>)
        requires
            msg@.len() * 8 <= usize::MAX,
        ensures
            match msg_kind(msg@) {
                MsgKind::Eof => r matches Ok(a) && a == Action::EOF && *final(self) == *old(self),
                MsgKind::TooShort => (r matches Err(e) && e is Parse && e.message()
                    == "Received message of length less than 4: "@ + bytes_debug_text(msg@))
                    && *final(self) == *old(self),
                MsgKind::KeepAlive => r matches Ok(a) && a == Action::Nothing && *final(self)
                    == with_time_reset(*old(self)),
                MsgKind::LengthMismatch(len) => (r matches Err(e) && e is Parse && e.message()
                    == "Reported message length "@ + decimal_chars((len + 4) as nat)
                    + " does not match actual length "@ + decimal_chars(msg@.len()))
                    && *final(self) == with_time_reset(*old(self)),
                MsgKind::Choke(c) => choke_step(with_time_reset(*old(self)), *final(self), c, r),
                MsgKind::Interested(c) => interested_step(
                    with_time_reset(*old(self)),
                    *final(self),
                    c,
                    r,
                ),
                MsgKind::Have(i) => have_step(with_time_reset(*old(self)), *final(self), i, r),
                MsgKind::Bitfield(b) => bitfield_step(
                    with_time_reset(*old(self)),
                    *final(self),
                    b,
                    r,
                ),
                MsgKind::Request(p) => request_step(with_time_reset(*old(self)), *final(self), p, r),
                MsgKind::PieceBlock(p, d) => (r matches Ok(Action::Write(pd)) && pd.piece == p
                    && pd.data@ == d) && *final(self) == with_time_reset(*old(self)),
                MsgKind::Cancel(p) => cancel_step(with_time_reset(*old(self)), *final(self), p, r),
                MsgKind::Port => (r matches Err(e) && e is Parse && e.message()
                    == "Port messages are not supported"@) && *final(self) == with_time_reset(
                    *old(self),
                ),
                MsgKind::Invalid(id) => (r matches Err(e) && e is Parse && e.message()
                    == "Invalid message id: "@ + decimal_chars(id as nat)) && *final(self)
                    == with_time_reset(*old(self)),
                MsgKind::Truncated(id) => (r matches Err(e) && e is Parse && e.message()
                    == "Message too short for its id: "@ + decimal_chars(id as nat)) && *final(self)
                    == with_time_reset(*old(self)),
            },
    {
        if msg.len() == 0 {
            return Ok(Action::EOF);
        }
        if msg.len() < 4 {
            let s = concat("Received message of length less than 4: ".to_string(), bytes_debug(msg).as_str());
            return Err(peer_error(s));
        }
        self.time = 0;
        let len: u32 = read_u32(msg);
        if len == 0 {
            return Ok(Action::Nothing);
        }
        if msg.len() - 4 < len as usize {
            let s = push_decimal("Reported message length ".to_string(), len as u64 + 4);
            let s = concat(s, " does not match actual length ");
            let s = push_decimal(s, msg.len() as u64);
            return Err(peer_error(s));
        }
        let id = msg[4];
        if id == 0 {
            self.parse_choke(true)
        } else if id == 1 {
            self.parse_choke(false)
        } else if id == 2 {
            self.parse_interested(true)
        } else if id == 3 {
            self.parse_interested(false)
        } else if id == 4 {
            if msg.len() < 9 {
                return Err(truncated(id));
            }
            let index = read_u32(vstd::slice::slice_subrange(msg, 5, 9));
            self.parse_have(index)
        } else if id == 5 {
            self.parse_bitfield(vstd::slice::slice_subrange(msg, 5, 4 + len as usize))
        } else if id == 6 {
            if msg.len() < 17 {
                return Err(truncated(id));
            }
            self.parse_request(msg)
        } else if id == 7 {
            if len < 9 {
                return Err(truncated(id));
            }
            self.parse_piece(msg, 4 + len as usize)
        } else if id == 8 {
            if msg.len() < 17 {
                return Err(truncated(id));
            }
            self.parse_cancel(msg)
        } else if id == 9 {
            self.parse_port()
        } else {
            let s = push_decimal("Invalid message id: ".to_string(), id as u64);
            Err(peer_error(s))
        }
    }

    pub fn info_hash(&self) -> (r: &crate::bittorrent::hash::Hash)
        ensures
            *r == self.peer_info.info_hash,
    {
        &self.peer_info.info_hash
    }

    pub fn peer_id(&self) -> (r: &crate::bittorrent::hash::Hash)
        ensures
            *r == self.peer_info.peer_id,
    {
        &self.peer_info.peer_id
    }

    /// The peer id read as UTF-8 text.
    pub fn peer_id_string(&self) -> (r: String)
        requires
            vstd::utf8::valid_utf8(self.peer_info.peer_id@),
        ensures
            r@ == vstd::utf8::decode_utf8(self.peer_info.peer_id@),
    {
        let bytes: &[u8] = &self.peer_info.peer_id.0;
        match crate::bittorrent::bedecoder::string_from_utf8(bytes) {
            Some(s) => s,
            None => String::new(),
        }
    }

    /// Records that the peer chokes (`choke`) or unchokes us.
    pub fn parse_choke(&mut self, choke: bool) -> (r: Result<Action, ParseError>)
        ensures
            choke_step(*old(self), *final(self), choke, r),
    {
        if self.peer_choking == choke {
            Ok(Action::Nothing)
        } else {
            self.peer_choking = choke;
            Ok(Action::ChokingChange)
        }
    }

    /// Records whether the peer is interested in our pieces.
    pub fn parse_interested(&mut self, interested: bool) -> (r: Result<Action, ParseError>)
        ensures
            interested_step(*old(self), *final(self), interested, r),
    {
        if self.peer_interested == interested {
            Ok(Action::Nothing)
        } else {
            self.peer_interested = interested;
            Ok(Action::InterestedChange)
        }
    }

    /// Records that the peer has piece `piece_index`.
    pub fn parse_have(&mut self, piece_index: u32) -> (r: Result<Action, ParseError>)
        ensures
            have_step(*old(self), *final(self), piece_index, r),
    {
        let n = bv_len(&self.bitfield);
        if piece_index as usize >= n {
            let s = push_decimal(
                "Received have message with piece index ".to_string(),
                piece_index as u64,
            );
            let s = concat(s, " that exceeds number of pieces ");
            let s = push_decimal(s, n as u64);
            return Err(peer_error(s));
        }
        match bv_get(&self.bitfield, piece_index as usize) {
            Some(true) => Ok(Action::Nothing),
            _ => {
                bv_set(&mut self.bitfield, piece_index as usize, true);
                Ok(Action::Have(piece_index))
            },
        }
    }

    /// The position, counted from the end, of the lowest set bit of the last byte.
    pub fn end_bits(bitfield: &[u8]) -> (r: usize)
        requires
            bitfield@.len() > 0,
        ensures
            r == 0 <==> bitfield@.last() == 0,
            r > 0 ==> r <= 8 && byte_bit(bitfield@.last(), r - 1) && forall|j: int|
                r <= j < 8 ==> !byte_bit(bitfield@.last(), j),
    {
        let len = bitfield.len();
        let last = bitfield[len - 1];
        let mut bit: usize = 0;
        while bit < 8
            invariant
                bit <= 8,
                last == bitfield@.last(),
                forall|j: int| 8 - bit <= j < 8 ==> !byte_bit(last, j),
            decreases 8 - bit,
        {
            let mask: u8 = 1u8 << (bit as u8);
            if mask & last != 0 {
                proof {
                    lemma_mask_bit(last, bit as nat);
                    if last == 0 {
                        assert(mask & 0u8 == 0) by (bit_vector);
                    }
                }
                return 8 - bit;
            }
            proof {
                lemma_mask_bit(last, bit as nat);
            }
            bit = bit + 1;
        }
        proof {
            lemma_no_bits_zero(last);
        }
        0
    }

    /// The bits of a received bit field: all bits of the bytes but the
    /// last, then the bits of the last byte down to bit `spare_bits`.
    pub fn create_bitfield(bitfield: &[u8], spare_bits: usize) -> (r: BitVec)
        requires
            bitfield@.len() > 0,
            bitfield@.len() * 8 <= usize::MAX,
        ensures
            bits(r) == received_bits(bitfield@, spare_bits as int),
    {
        let len = bitfield.len();
        let mut bf = bv_from_bytes(vstd::slice::slice_subrange(bitfield, 0, len - 1));
        assert(bitfield@.subrange(0, len - 1) =~= bitfield@.drop_last());
        let last = bitfield[len - 1];
        let mut bit: usize = 8;
        let ghost head = bits(bf);
        while bit > spare_bits
            invariant
                bit <= 8,
                bit >= spare_bits || bit == 8,
                last == bitfield@.last(),
                head == bytes_to_bits(bitfield@.drop_last()),
                head.len() == (len - 1) * 8,
                len * 8 <= usize::MAX,
                bits(bf) == head + Seq::new((8 - bit) as nat, |j: int| byte_bit(last, j)),
            decreases bit,
        {
            bit = bit - 1;
            let mask: u8 = 1u8 << (bit as u8);
            let set = mask & last != 0;
            proof {
                lemma_mask_bit(last, bit as nat);
            }
            bv_push(&mut bf, set);
            assert(bits(bf) =~= head + Seq::new((8 - bit) as nat, |j: int| byte_bit(last, j)));
        }
        assert(Seq::new((8 - bit) as nat, |j: int| byte_bit(last, j)) =~= last_bits(
            last,
            spare_bits as int,
        ));
        bf
    }

    /// Merges a bit field received from the peer into the pieces it has.
    pub fn parse_bitfield(&mut self, bitfield: &[u8]) -> (r: Result<Action, ParseError>)
        requires
            bitfield@.len() * 8 <= usize::MAX,
        ensures
            bitfield_step(*old(self), *final(self), bitfield@, r),
    {
        if bitfield.len() == 0 {
            return Err(ParseError::new_str("Received 0-length bitfield"));
        }
        let n = bv_len(&self.bitfield);
        let spare_bits = (8 - (n % 8)) % 8;
        let bf = Peer::create_bitfield(bitfield, spare_bits);
        if bv_len(&bf) == n {
            bv_or(&mut self.bitfield, &bf);
        } else {
            let s = push_decimal("Received bitfield with length (".to_string(), bv_len(&bf) as u64);
            let s = concat(s, ") different from existing bitfield (");
            let s = push_decimal(s, n as u64);
            return Err(peer_error(concat(s, ")")));
        }
        Ok(Action::Bitfield(bv_clone(&self.bitfield)))
    }

    /// The block that bytes 5 to 17 of a message describe.
    pub fn parse_piece_generic(&mut self, msg: &[u8]) -> (r: Piece)
        requires
            msg@.len() >= 17,
        ensures
            r == spec_generic_piece(msg@),
            *final(self) == *old(self),
    {
        let index = read_u32(vstd::slice::slice_subrange(msg, 5, 9));
        let begin = read_u32(vstd::slice::slice_subrange(msg, 9, 13));
        let length = read_u32(vstd::slice::slice_subrange(msg, 13, 17));
        Piece { index: index, begin: begin, length: length }
    }

    /// Queues a request; once `QUEUE_LENGTH` are queued they are handed on.
    pub fn parse_request(&mut self, msg: &[u8]) -> (r: Result<Action, ParseError>)
        requires
            msg@.len() >= 17,
        ensures
            request_step(*old(self), *final(self), spec_generic_piece(msg@), r),
    {
        let piece = self.parse_piece_generic(msg);
        self.request_queue.push(piece);
        if self.request_queue.len() >= QUEUE_LENGTH {
            let mut queue: Vec<Piece> = Vec::new();
            std::mem::swap(&mut queue, &mut self.request_queue);
            Ok(Action::Request(queue))
        } else {
            Ok(Action::Nothing)
        }
    }

    /// The block a piece message of `len` bytes carries.
    pub fn parse_piece(&mut self, msg: &[u8], len: usize) -> (r: Result<Action, ParseError>)
        requires
            13 <= len <= msg@.len(),
            len - 13 <= u32::MAX,
        ensures
            r matches Ok(Action::Write(pd)) && pd.piece == (Piece {
                index: from_be32(msg@.subrange(5, 9)),
                begin: from_be32(msg@.subrange(9, 13)),
                length: (len - 13) as u32,
            }) && pd.data@ == msg@.subrange(13, len as int),
            *final(self) == *old(self),
    {
        let index = read_u32(vstd::slice::slice_subrange(msg, 5, 9));
        let begin = read_u32(vstd::slice::slice_subrange(msg, 9, 13));
        let block = vstd::slice::slice_subrange(msg, 13, len);
        let piece = Piece { index: index, begin: begin, length: (len - 13) as u32 };
        let piece_data = PieceData { piece: piece, data: vstd::slice::slice_to_vec(block) };
        Ok(Action::Write(piece_data))
    }

    /// Drops a queued request for the block a cancel message describes.
    pub fn parse_cancel(&mut self, msg: &[u8]) -> (r: Result<Action, ParseError>)
        requires
            msg@.len() >= 17,
        ensures
            cancel_step(*old(self), *final(self), spec_generic_piece(msg@), r),
    {
        let piece = self.parse_piece_generic(msg);
        let ghost q = self.request_queue@;
        let mut k: usize = 0;
        while k < self.request_queue.len()
            invariant
                k <= self.request_queue@.len(),
                *self == *old(self),
                self.request_queue@ == q,
                piece == spec_generic_piece(msg@),
                forall|j: int| 0 <= j < k ==> q[j] != piece,
            decreases self.request_queue@.len() - k,
        {
            if self.request_queue[k] == piece {
                self.request_queue.remove(k);
                proof {
                    assert(q.contains(piece)) by {
                        assert(q[k as int] == piece);
                    }
                    assert(is_first(q, piece, k as int));
                    let c = choose|c: int| is_first(q, piece, c);
                    if c < k {
                        assert(q[c] != piece);
                    }
                    if c > k {
                        assert(q[k as int] != piece);
                    }
                    assert(c == k);
                }
                return Ok(Action::Nothing);
            }
            k = k + 1;
        }
        assert(!q.contains(piece));
        Err(ParseError::new_str("Received cancel for piece not in queue"))
    }

    /// Port messages are not supported.
    pub fn parse_port(&mut self) -> (r: Result<Action, ParseError>)
        ensures
            r matches Err(e) && e is Parse && e.message() == "Port messages are not supported"@,
            *final(self) == *old(self),
    {
        Err(ParseError::new_str("Port messages are not supported"))
    }

    /// Chokes (`choke`) or unchokes the peer, giving the message to send.
    pub fn choke(&mut self, choke: bool) -> (r: Vec<u8>)
        ensures
            *final(self) == (Peer { am_choking: choke, ..*old(self) }),
            r@ == spec_msg(1, if choke { 0 } else { 1 }, Seq::empty()),
    {
        self.am_choking = choke;
        if choke {
            message(1, 0u8)
        } else {
            message(1, 1u8)
        }
    }

    /// Declares interest (`interested`) or its loss, giving the message to send.
    pub fn interested(&mut self, interested: bool) -> (r: Vec<u8>)
        ensures
            *final(self) == (Peer { am_interested: interested, ..*old(self) }),
            r@ == spec_msg(1, if interested { 2 } else { 3 }, Seq::empty()),
    {
        self.am_interested = interested;
        if interested {
            message(1, 2u8)
        } else {
            message(1, 3u8)
        }
    }

    /// The message announcing that we have piece `piece_index`.
    pub fn have(piece_index: u32) -> (r: Vec<u8>)
        ensures
            r@ == spec_msg(5, 4, be32(piece_index)),
    {
        let mut v = message(5, 4u8);
        push_u32(&mut v, piece_index);
        v
    }

    /// The message announcing the pieces we have.
    pub fn bitfield(bitvec: &BitVec) -> (r: Vec<u8>)
        requires
            bits_to_bytes(bits(*bitvec)).len() + 1 <= u32::MAX,
        ensures
            r@ == spec_msg(
                (1 + bits_to_bytes(bits(*bitvec)).len()) as u32,
                5,
                bits_to_bytes(bits(*bitvec)),
            ),
    {
        let mut bytes = bv_to_bytes(bitvec);
        let length = 1 + bytes.len() as u32;
        let mut v = message(length, 5u8);
        v.append(&mut bytes);
        v
    }

    /// The message carrying a block.
    pub fn piece(pd: &PieceData) -> (r: Vec<u8>)
        requires
            pd.data@.len() + 9 <= u32::MAX,
        ensures
            r@ == spec_msg(
                (9 + pd.data@.len()) as u32,
                7,
                be32(pd.piece.index) + be32(pd.piece.begin) + pd.data@,
            ),
    {
        let length = 9 + pd.data.len() as u32;
        let mut v = message(length, 7u8);
        push_u32(&mut v, pd.piece.index);
        push_u32(&mut v, pd.piece.begin);
        let mut data = pd.data.clone();
        v.append(&mut data);
        assert(v@ =~= spec_msg(
            (9 + pd.data@.len()) as u32,
            7,
            be32(pd.piece.index) + be32(pd.piece.begin) + pd.data@,
        ));
        v
    }

    /// The message requesting a block.
    pub fn request(piece: &Piece) -> (r: Vec<u8>)
        ensures
            r@ == spec_msg(13, 6, be32(piece.index) + be32(piece.begin) + be32(piece.length)),
    {
        block_message(6u8, piece)
    }

    /// The message cancelling a request for a block.
    pub fn cancel(piece: &Piece) -> (r: Vec<u8>)
        ensures
            r@ == spec_msg(13, 8, be32(piece.index) + be32(piece.begin) + be32(piece.length)),
    {
        block_message(8u8, piece)
    }

    /// A random peer id.
    pub fn gen_peer_id() -> (r: crate::bittorrent::hash::Hash)
        ensures
            r@.len() == 20,
    {
        crate::bittorrent::hash::Hash::random()
    }

    /// Reads a handshake, giving the peer id and the info hash it carries.
    pub fn parse_handshake(msg: &[u8]) -> (r: Result<
        (crate::bittorrent::hash::Hash, crate::bittorrent::hash::Hash),
        ParseError,
    >)
        ensures
            r is Ok <==> handshake_accepted(msg@),
            r matches Ok((p, h)) ==> p@ == msg@.subrange(48, 68) && h@ == msg@.subrange(28, 48),
            r matches Err(e) ==> e is Parse && e.message() == handshake_error_text(msg@),
    {
        if msg.len() < HSLEN {
            let s = push_decimal("Unexpected handshake length: ".to_string(), msg.len() as u64);
            return Err(peer_error(s));
        }
        let pstrlen = msg[0];
        if pstrlen != PSTRLEN {
            let s = push_decimal("Unexpected pstrlen: ".to_string(), pstrlen as u64);
            return Err(peer_error(s));
        }
        let pstr = vstd::slice::slice_subrange(msg, 1, 20);
        let expected: [u8; 19] = [66u8, 105, 116, 84, 111, 114, 114, 101, 110, 116, 32, 112, 114, 111, 116, 111, 99, 111, 108];
        assert(expected@ =~= pstr_bytes());
        if !crate::bittorrent::bencode::bytes_equal(pstr, &expected) {
            let s = concat("Unexpected protocol string: ".to_string(), bytes_debug(pstr).as_str());
            return Err(peer_error(s));
        }
        let info_hash = hash_at(msg, 28);
        let peer_id = hash_at(msg, 48);
        Ok((peer_id, info_hash))
    }

    /// The handshake message: the protocol string, eight zero bytes, the
    /// info hash and our peer id.
    pub fn handshake(
        peer_id: &crate::bittorrent::hash::Hash,
        info_hash: &crate::bittorrent::hash::Hash,
    ) -> (r: [u8; 68])
        ensures
            r@ == handshake_bytes(peer_id@, info_hash@),
    {
        let mut msg: [u8; 68] = [0u8; 68];
        let expected: [u8; 19] = [66u8, 105, 116, 84, 111, 114, 114, 101, 110, 116, 32, 112, 114, 111, 116, 111, 99, 111, 108];
        msg[0] = PSTRLEN;
        let mut k: usize = 0;
        while k < 19
            invariant
                k <= 19,
                msg@.len() == 68,
                msg@[0] == PSTRLEN,
                expected@ == pstr_bytes(),
                forall|q: int| 1 <= q < 1 + k ==> msg@[q] == expected@[q - 1],
                forall|q: int| 20 <= q < 68 ==> msg@[q] == 0,
            decreases 19 - k,
        {
            msg[1 + k] = expected[k];
            k = k + 1;
        }
        let mut k: usize = 0;
        while k < 20
            invariant
                k <= 20,
                msg@.len() == 68,
                msg@[0] == PSTRLEN,
                expected@ == pstr_bytes(),
                info_hash.0@.len() == 20,
                peer_id.0@.len() == 20,
                forall|q: int| 1 <= q < 20 ==> msg@[q] == expected@[q - 1],
                forall|q: int| 20 <= q < 28 ==> msg@[q] == 0,
                forall|q: int| 28 <= q < 28 + k ==> msg@[q] == info_hash.0@[q - 28],
                forall|q: int| 48 <= q < 48 + k ==> msg@[q] == peer_id.0@[q - 48],
                forall|q: int| 28 + k <= q < 48 ==> msg@[q] == 0,
                forall|q: int| 48 + k <= q < 68 ==> msg@[q] == 0,
            decreases 20 - k,
        {
            msg[28 + k] = info_hash.0[k];
            msg[48 + k] = peer_id.0[k];
            k = k + 1;
        }
        assert(msg@ =~= seq![PSTRLEN] + pstr_bytes() + Seq::new(8, |i: int| 0u8) + info_hash@
            + peer_id@);
        msg
    }
}

fn truncated(id: u8) -> (r: ParseError)
    ensures
        r is Parse,
        r.message() == "Message too short for its id: "@ + decimal_chars(id as nat),
{
    ParseError::Parse(push_decimal("Message too short for its id: ".to_string(), id as u64))
}

/// The 20 bytes of `msg` starting at `at`.
fn hash_at(msg: &[u8], at: usize) -> (r: crate::bittorrent::hash::Hash)
    requires
        at + 20 <= msg@.len(),
    ensures
        r@ == msg@.subrange(at as int, at + 20),
{
    let mut arr: [u8; 20] = [0u8; 20];
    let n = msg.len();
    let mut k: usize = 0;
    while k < 20
        invariant
            k <= 20,
            n == msg@.len(),
            at + 20 <= msg@.len(),
            forall|q: int| 0 <= q < k ==> arr@[q] == msg@[at + q],
        decreases 20 - k,
    {
        arr[k] = msg[at + k];
        k = k + 1;
    }
    assert(arr@ =~= msg@.subrange(at as int, at + 20));
    crate::bittorrent::hash::Hash(arr)
}

/// The start of a message: its length and id.
fn message(len: u32, id: u8) -> (r: Vec<u8>)
    ensures
        r@ == spec_msg(len, id, Seq::empty()),
{
    let mut v: Vec<u8> = Vec::new();
    push_u32(&mut v, len);
    v.push(id);
    assert(v@ =~= spec_msg(len, id, Seq::empty()));
    v
}

/// A message naming a block: its index, offset and length.
fn block_message(id: u8, piece: &Piece) -> (r: Vec<u8>)
    ensures
        r@ == spec_msg(13, id, be32(piece.index) + be32(piece.begin) + be32(piece.length)),
{
    let mut v = message(13, id);
    push_u32(&mut v, piece.index);
    push_u32(&mut v, piece.begin);
    push_u32(&mut v, piece.length);
    assert(v@ =~= spec_msg(13, id, be32(piece.index) + be32(piece.begin) + be32(piece.length)));
    v
}

proof fn lemma_mask_bit(byte: u8, bit: nat)
    requires
        bit < 8,
    ensures
        ((1u8 << (bit as u8)) & byte != 0) == byte_bit(byte, 7 - bit),
{
    reveal_with_fuel(pow2, 9);
    if bit == 0 {
        assert(((1u8 << 0u8) & byte != 0) == (byte % 2 == 1)) by (bit_vector);
    } else if bit == 1 {
        assert(((1u8 << 1u8) & byte != 0) == ((byte / 2) % 2 == 1)) by (bit_vector);
    } else if bit == 2 {
        assert(((1u8 << 2u8) & byte != 0) == ((byte / 4) % 2 == 1)) by (bit_vector);
    } else if bit == 3 {
        assert(((1u8 << 3u8) & byte != 0) == ((byte / 8) % 2 == 1)) by (bit_vector);
    } else if bit == 4 {
        assert(((1u8 << 4u8) & byte != 0) == ((byte / 16) % 2 == 1)) by (bit_vector);
    } else if bit == 5 {
        assert(((1u8 << 5u8) & byte != 0) == ((byte / 32) % 2 == 1)) by (bit_vector);
    } else if bit == 6 {
        assert(((1u8 << 6u8) & byte != 0) == ((byte / 64) % 2 == 1)) by (bit_vector);
    } else {
        assert(((1u8 << 7u8) & byte != 0) == ((byte / 128) % 2 == 1)) by (bit_vector);
    }
}

proof fn lemma_no_bits_zero(byte: u8)
    requires
        forall|j: int| 0 <= j < 8 ==> !byte_bit(byte, j),
    ensures
        byte == 0,
{
    reveal_with_fuel(pow2, 9);
    assert(!byte_bit(byte, 0));
    assert(!byte_bit(byte, 1));
    assert(!byte_bit(byte, 2));
    assert(!byte_bit(byte, 3));
    assert(!byte_bit(byte, 4));
    assert(!byte_bit(byte, 5));
    assert(!byte_bit(byte, 6));
    assert(!byte_bit(byte, 7));
    assert(byte as int / 1 == byte as int);
    assert(byte == 0) by (bit_vector)
        requires
            (byte / 128) % 2 != 1,
            (byte / 64) % 2 != 1,
            (byte / 32) % 2 != 1,
            (byte / 16) % 2 != 1,
            (byte / 8) % 2 != 1,
            (byte / 4) % 2 != 1,
            (byte / 2) % 2 != 1,
            byte % 2 != 1,
    ;
}

impl PeerInfo {
    /// Placeholder identity for a peer at 127.0.0.1:8000.
    pub fn new() -> (r: PeerInfo)
        ensures
            r.peer_id@ == Seq::new(20, |i: int| 0u8),
            r.info_hash@ == Seq::new(20, |i: int| 0u8),
            r.ip@ == "127.0.0.1"@,
            r.port == 8000,
    {
        let zero = crate::bittorrent::hash::Hash([0u8; 20]);
        assert(zero@ =~= Seq::new(20, |i: int| 0u8));
        PeerInfo { peer_id: zero, info_hash: zero, ip: "127.0.0.1".to_string(), port: 8000 }
    }
}

} // verus!
