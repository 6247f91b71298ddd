//! What the message builders of `peer` give back when the messages they make
//! are read again.
use vstd::prelude::*;
use crate::bittorrent::{ParseError, Piece};
use crate::bittorrent::bitfield::{bit_at, bits, bits_to_bytes, byte_bit, bytes_to_bits, packed_byte, pow2};
use crate::bittorrent::peer::{
    choke_step, handshake_accepted, handshake_bytes, have_step, interested_step, last_bits, msg_kind,
    pstr_bytes, received_bits, spare_bits, spec_generic_piece, spec_msg, with_time_reset, Action,
    MsgKind, Peer, PSTRLEN,
};
use crate::bittorrent::wire::{be32, from_be32, lemma_be32_roundtrip};

verus! {

/// A handshake we send is accepted, and reading it gives back the peer id
/// and the info hash it was made from.
pub proof fn lemma_handshake_roundtrip(peer_id: Seq<u8>, info_hash: Seq<u8>)
    requires
        peer_id.len() == 20,
        info_hash.len() == 20,
    ensures
        handshake_accepted(handshake_bytes(peer_id, info_hash)),
        handshake_bytes(peer_id, info_hash).subrange(48, 68) == peer_id,
        handshake_bytes(peer_id, info_hash).subrange(28, 48) == info_hash,
{
    let m = handshake_bytes(peer_id, info_hash);
    assert(m.len() == 68);
    assert(m.subrange(1, 20) =~= pstr_bytes());
    assert(m.subrange(48, 68) =~= peer_id);
    assert(m.subrange(28, 48) =~= info_hash);
}

proof fn lemma_msg_header(len: u32, id: u8, payload: Seq<u8>)
    ensures
        spec_msg(len, id, payload).len() == 5 + payload.len(),
        from_be32(spec_msg(len, id, payload)) == len,
        spec_msg(len, id, payload)[4] == id,
        spec_msg(len, id, payload).subrange(5, 5 + payload.len() as int) == payload,
{
    lemma_be32_roundtrip(len);
    let m = spec_msg(len, id, payload);
    assert(m.subrange(5, 5 + payload.len() as int) =~= payload);
}

/// A choke (unchoke) message we send reads as a choke (unchoke).
pub proof fn lemma_choke_message(choke: bool)
    ensures
        msg_kind(spec_msg(1, if choke { 0 } else { 1 }, Seq::empty())) == MsgKind::Choke(choke),
{
    lemma_msg_header(1, if choke { 0 } else { 1 }, Seq::empty());
}

/// An interested (not interested) message we send reads as such.
pub proof fn lemma_interested_message(interested: bool)
    ensures
        msg_kind(spec_msg(1, if interested { 2 } else { 3 }, Seq::empty()))
            == MsgKind::Interested(interested),
{
    lemma_msg_header(1, if interested { 2 } else { 3 }, Seq::empty());
}

/// A have message for piece `i` reads as a have for `i`.
pub proof fn lemma_have_message(i: u32)
    ensures
        msg_kind(spec_msg(5, 4, be32(i))) == MsgKind::Have(i),
{
    lemma_be32_roundtrip(i);
    lemma_msg_header(5, 4, be32(i));
    let m = spec_msg(5, 4, be32(i));
    assert(m.subrange(5, 9) =~= be32(i));
}

proof fn lemma_block_fields(id: u8, p: Piece)
    ensures
        spec_generic_piece(spec_msg(13, id, be32(p.index) + be32(p.begin) + be32(p.length))) == p,
        spec_msg(13, id, be32(p.index) + be32(p.begin) + be32(p.length)).len() == 17,
        from_be32(spec_msg(13, id, be32(p.index) + be32(p.begin) + be32(p.length))) == 13,
        spec_msg(13, id, be32(p.index) + be32(p.begin) + be32(p.length))[4] == id,
{
    let payload = be32(p.index) + be32(p.begin) + be32(p.length);
    lemma_be32_roundtrip(p.index);
    lemma_be32_roundtrip(p.begin);
    lemma_be32_roundtrip(p.length);
    lemma_msg_header(13, id, payload);
    let m = spec_msg(13, id, payload);
    assert(m.subrange(5, 9) =~= be32(p.index));
    assert(m.subrange(9, 13) =~= be32(p.begin));
    assert(m.subrange(13, 17) =~= be32(p.length));
}

/// A request for block `p` reads as a request for `p`.
pub proof fn lemma_request_message(p: Piece)
    ensures
        msg_kind(spec_msg(13, 6, be32(p.index) + be32(p.begin) + be32(p.length)))
            == MsgKind::Request(p),
{
    lemma_block_fields(6, p);
}

/// A cancel of block `p` reads as a cancel of `p`.
pub proof fn lemma_cancel_message(p: Piece)
    ensures
        msg_kind(spec_msg(13, 8, be32(p.index) + be32(p.begin) + be32(p.length)))
            == MsgKind::Cancel(p),
{
    lemma_block_fields(8, p);
}

/// A piece message carrying `data` for block `index`, `begin` reads as that
/// block, with the data's length as the block's length.
#[verifier::spinoff_prover]
pub proof fn lemma_piece_message(index: u32, begin: u32, data: Seq<u8>)
    requires
        data.len() + 9 <= u32::MAX,
    ensures
        msg_kind(spec_msg((9 + data.len()) as u32, 7, be32(index) + be32(begin) + data))
            == MsgKind::PieceBlock(
            Piece { index, begin, length: data.len() as u32 },
            data,
        ),
{
    let len = (9 + data.len()) as u32;
    let payload = be32(index) + be32(begin) + data;
    lemma_be32_roundtrip(index);
    lemma_be32_roundtrip(begin);
    lemma_msg_header(len, 7, payload);
    let m = spec_msg(len, 7, payload);
    assert(m.subrange(5, 9) =~= be32(index));
    assert(m.subrange(9, 13) =~= be32(begin));
    assert(m.subrange(13, 4 + len) =~= data);
}

proof fn lemma_pack_bit(b0: bool, b1: bool, b2: bool, b3: bool, b4: bool, b5: bool, b6: bool, b7: bool)
    by (bit_vector)
    ensures
        ({
            let v: u8 = ((if b0 { 128u8 } else { 0u8 }) | (if b1 { 64u8 } else { 0u8 }) | (if b2 {
                32u8
            } else {
                0u8
            }) | (if b3 { 16u8 } else { 0u8 }) | (if b4 { 8u8 } else { 0u8 }) | (if b5 {
                4u8
            } else {
                0u8
            }) | (if b6 { 2u8 } else { 0u8 }) | (if b7 { 1u8 } else { 0u8 }));
            &&& ((v / 128) % 2 == 1) == b0
            &&& ((v / 64) % 2 == 1) == b1
            &&& ((v / 32) % 2 == 1) == b2
            &&& ((v / 16) % 2 == 1) == b3
            &&& ((v / 8) % 2 == 1) == b4
            &&& ((v / 4) % 2 == 1) == b5
            &&& ((v / 2) % 2 == 1) == b6
            &&& (v % 2 == 1) == b7
            &&& v as int == (if b0 { 128int } else { 0 }) + (if b1 { 64int } else { 0 }) + (if b2 {
                32int
            } else {
                0
            }) + (if b3 { 16int } else { 0 }) + (if b4 { 8int } else { 0 }) + (if b5 {
                4int
            } else {
                0
            }) + (if b6 { 2int } else { 0 }) + (if b7 { 1int } else { 0 })
        }),
{
}

/// Bit `j` of byte `k` of packed bits is bit `8 * k + j` of the bits.
proof fn lemma_packed_bit(s: Seq<bool>, k: int, j: int)
    requires
        0 <= j < 8,
    ensures
        byte_bit(packed_byte(s, k), j) == bit_at(s, 8 * k + j),
{
    reveal_with_fuel(pow2, 9);
    lemma_pack_bit(
        bit_at(s, 8 * k),
        bit_at(s, 8 * k + 1),
        bit_at(s, 8 * k + 2),
        bit_at(s, 8 * k + 3),
        bit_at(s, 8 * k + 4),
        bit_at(s, 8 * k + 5),
        bit_at(s, 8 * k + 6),
        bit_at(s, 8 * k + 7),
    );
    let b = packed_byte(s, k);
    assert(b as int / 1 == b as int);
}

/// A bit field we send, read by a peer that keeps as many pieces, gives
/// back exactly the bits sent.
pub proof fn lemma_bitfield_roundtrip(s: Seq<bool>)
    requires
        s.len() > 0,
    ensures
        bits_to_bytes(s).len() > 0,
        received_bits(bits_to_bytes(s), spare_bits(s.len())) == s,
{
    let n = s.len() as int;
    let b = bits_to_bytes(s);
    let l = (n + 7) / 8;
    let spare = spare_bits(s.len());
    assert(b.len() == l);
    assert(1 <= l);
    assert(8 * (l - 1) <= n - 1) by (nonlinear_arith)
        requires
            l == (n + 7) / 8,
            n >= 1,
    ;
    assert(8 * (l - 1) + 8 - spare == n) by (nonlinear_arith)
        requires
            l == (n + 7) / 8,
            n >= 1,
            spare == (8 - (n % 8)) % 8,
    ;
    assert(0 <= spare < 8);
    let head = bytes_to_bits(b.drop_last());
    let tail = last_bits(b.last(), spare);
    assert(head.len() == 8 * (l - 1));
    assert(tail.len() == 8 - spare);
    assert forall|i: int| 0 <= i < head.len() implies head[i] == s[i] by {
        let k = i / 8;
        let j = i % 8;
        assert(8 * k + j == i);
        assert(b.drop_last()[k] == packed_byte(s, k));
        lemma_packed_bit(s, k, j);
    }
    assert forall|j: int| 0 <= j < tail.len() implies tail[j] == s[8 * (l - 1) + j] by {
        lemma_packed_bit(s, l - 1, j);
    }
    assert(received_bits(b, spare) =~= s);
}

/// A choke, unchoke, interested, not-interested or have message received
/// twice in a row brings nothing new: when `parse_message` accepted it once
/// (taking `p0` to `p1`), the same message again gives `Action::Nothing`
/// and leaves the peer as it was but for the time since the last message.
pub proof fn lemma_repeated_message(
    msg: Seq<u8>,
    p0: Peer,
    p1: Peer,
    r1: Result<Action, ParseError>,
    p2: Peer,
    r2: Result<Action, ParseError>,
)
    requires
        msg_kind(msg) is Choke || msg_kind(msg) is Interested || msg_kind(msg) is Have,
        r1 is Ok,
        match msg_kind(msg) {
            MsgKind::Choke(c) => choke_step(with_time_reset(p0), p1, c, r1) && choke_step(
                with_time_reset(p1),
                p2,
                c,
                r2,
            ),
            MsgKind::Interested(c) => interested_step(with_time_reset(p0), p1, c, r1)
                && interested_step(with_time_reset(p1), p2, c, r2),
            MsgKind::Have(i) => have_step(with_time_reset(p0), p1, i, r1) && have_step(
                with_time_reset(p1),
                p2,
                i,
                r2,
            ),
            _ => true,
        },
    ensures
        r2 matches Ok(a) && a == Action::Nothing,
        p2 == with_time_reset(p1),
{
    match msg_kind(msg) {
        MsgKind::Have(i) => {
            let b0 = bits(with_time_reset(p0).bitfield);
            if !b0[i as int] {
                assert(bits(p1.bitfield)[i as int]);
            }
        },
        _ => {},
    }
}

} // verus!
