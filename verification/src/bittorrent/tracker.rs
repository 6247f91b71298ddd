//! Talking to trackers: the query sent to them, and the peers their
//! responses list.
use vstd::prelude::*;
use crate::bittorrent::ParseError;
use crate::bittorrent::bencode::{
    bval, bval_list, dict_get, dict_insert, insert_entry, lookup, spec_decimal, str_bytes,
    str_bytes_of, BVal, BencodeT,
};
use crate::bittorrent::bencodable::Bencodable;
use crate::bittorrent::bedecoder::utf8_to_string;
use crate::bittorrent::metainfo::{opt_str_into, opt_str_is, opt_str_ok, text_or_bytes};
use crate::bittorrent::metainfo_laws::{lemma_key_ne, lemma_lookup_insert};
use crate::bittorrent::text::{
    ascii_chars, bencode_debug, bencode_debug_text, concat, decimal_chars, push_char, push_decimal,
};
use crate::bittorrent::utils::{all_digits, digits_val, is_digit_byte};
use crate::bittorrent::wire::{
    be16, be32, from_be16, from_be32, lemma_be16_roundtrip, lemma_be32_roundtrip, read_u16, read_u32, write_u16, write_u32,
};

verus! {

/// The parts of `b` between the dots (`str::split('.')`).
pub open spec fn split_dots(b: Seq<u8>) -> Seq<Seq<u8>>
    decreases b.len(),
{
    if b.len() == 0 {
        seq![Seq::empty()]
    } else {
        let r = split_dots(b.drop_last());
        if b.last() == 46 {
            r.push(Seq::empty())
        } else {
            r.update(r.len() - 1, r.last().push(b.last()))
        }
    }
}

/// `256` to the power `n`.
pub open spec fn pow256(n: nat) -> nat
    decreases n,
{
    if n == 0 {
        1
    } else {
        256 * pow256((n - 1) as nat)
    }
}

/// Dotted text of an IPv4 address: at most four parts, each decimal
/// digits worth at most 255.
pub open spec fn ip_ok(b: Seq<u8>) -> bool {
    let p = split_dots(b);
    &&& p.len() <= 4
    &&& forall|k: int| 0 <= k < p.len() ==> (#[trigger] p[k]).len() > 0 && all_digits(p[k]) && digits_val(p[k]) <= 255
}

/// The sum of the parts before `k`, each shifted to its byte of the address.
pub open spec fn parts_value(p: Seq<Seq<u8>>, k: int) -> nat
    decreases k,
{
    if k <= 0 {
        0
    } else {
        parts_value(p, k - 1) + digits_val(p[k - 1]) * pow256((3 - (k - 1)) as nat)
    }
}

/// The address that dotted text denotes: part `k` is byte `k` from the top.
pub open spec fn ip_value(b: Seq<u8>) -> nat {
    parts_value(split_dots(b), split_dots(b).len() as int)
}

/// The dotted text of an address: its four bytes in decimal.
pub open spec fn ip_text(x: u32) -> Seq<char> {
    let b = be32(x);
    decimal_chars(b[0] as nat) + seq!['.'] + decimal_chars(b[1] as nat) + seq!['.'] + decimal_chars(
        b[2] as nat,
    ) + seq!['.'] + decimal_chars(b[3] as nat)
}

/// `q` is what splitting a prefix of the text that `p` splits gives.
spec fn split_prefix(q: Seq<Seq<u8>>, p: Seq<Seq<u8>>) -> bool {
    &&& 1 <= q.len() <= p.len()
    &&& forall|k: int| 0 <= k < q.len() - 1 ==> #[trigger] q[k] == p[k]
    &&& q.last().len() <= p[q.len() - 1].len()
    &&& q.last() == p[q.len() - 1].subrange(0, q.last().len() as int)
}

proof fn lemma_split_len(b: Seq<u8>)
    ensures
        split_dots(b).len() >= 1,
    decreases b.len(),
{
    if b.len() > 0 {
        lemma_split_len(b.drop_last());
    }
}

proof fn lemma_split_prefix(b: Seq<u8>, j: int)
    requires
        0 <= j <= b.len(),
    ensures
        split_prefix(split_dots(b.subrange(0, j)), split_dots(b)),
    decreases b.len(),
{
    lemma_split_len(b);
    if j == b.len() {
        assert(b.subrange(0, j) =~= b);
        let p = split_dots(b);
        assert(p.last().subrange(0, p.last().len() as int) =~= p.last());
    } else {
        let t = b.drop_last();
        assert(b.subrange(0, j) =~= t.subrange(0, j));
        lemma_split_prefix(t, j);
        lemma_split_len(t);
        let q = split_dots(t.subrange(0, j));
        let r = split_dots(t);
        let p = split_dots(b);
        if b.last() == 46 {
            assert(p == r.push(Seq::empty()));
            assert forall|k: int| 0 <= k < q.len() - 1 implies #[trigger] q[k] == p[k] by {
                assert(q[k] == r[k]);
            }
        } else {
            assert(p == r.update(r.len() - 1, r.last().push(b.last())));
            assert forall|k: int| 0 <= k < q.len() - 1 implies #[trigger] q[k] == p[k] by {
                assert(q[k] == r[k]);
            }
            if q.len() == r.len() {
                assert(p[q.len() - 1].subrange(0, q.last().len() as int) =~= r[q.len() - 1].subrange(
                    0,
                    q.last().len() as int,
                ));
            }
        }
    }
}

/// A prefix of digits is worth no more than the digits.
proof fn lemma_digits_prefix(s: Seq<u8>, k: int)
    requires
        0 <= k <= s.len(),
        all_digits(s),
    ensures
        digits_val(s.subrange(0, k)) <= digits_val(s),
    decreases s.len() - k,
{
    if k < s.len() {
        lemma_digits_prefix(s, k + 1);
        let t = s.subrange(0, k + 1);
        assert(t.drop_last() =~= s.subrange(0, k));
        assert(is_digit_byte(s[k]));
    } else {
        assert(s.subrange(0, k) =~= s);
    }
}

proof fn lemma_shift(part: u32, i: u32)
    requires
        part <= 255,
        i <= 3,
    ensures
        part << ((3 - i) * 8) == part * pow256((3 - i) as nat),
        part * pow256((3 - i) as nat) <= 255 * pow256((3 - i) as nat),
{
    reveal_with_fuel(pow256, 4);
    if i == 0 {
        assert(part << 24u32 == part * 16777216) by (bit_vector)
            requires
                part <= 255,
        ;
    } else if i == 1 {
        assert(part << 16u32 == part * 65536) by (bit_vector)
            requires
                part <= 255,
        ;
    } else if i == 2 {
        assert(part << 8u32 == part * 256) by (bit_vector)
            requires
                part <= 255,
        ;
    } else {
        assert(part << 0u32 == part) by (bit_vector);
    }
}

proof fn lemma_parts_bound(p: Seq<Seq<u8>>, k: int)
    requires
        0 <= k <= 4,
        k <= p.len(),
        forall|m: int| 0 <= m < k ==> digits_val(#[trigger] p[m]) <= 255,
    ensures
        parts_value(p, k) + pow256((4 - k) as nat) <= pow256(4),
    decreases k,
{
    reveal_with_fuel(pow256, 5);
    if k > 0 {
        lemma_parts_bound(p, k - 1);
        let d = digits_val(p[k - 1]);
        let w = pow256((3 - (k - 1)) as nat);
        assert(d * w <= 255 * w) by (nonlinear_arith)
            requires
                d <= 255,
                w >= 0,
        ;
        assert(pow256((4 - (k - 1)) as nat) == 256 * w);
    }
}

impl TrackerPeer {
    /// The address that dotted text denotes (each part shifted to its byte).
    pub fn u32_from_ip(ip: &str) -> (r: u32)
        requires
            ip_ok(str_bytes_of(ip)),
        ensures
            r == ip_value(str_bytes_of(ip)),
    {
        let b = ip.as_bytes();
        let ghost bs = b@;
        let ghost p = split_dots(bs);
        proof {
            lemma_split_len(bs);
            reveal_with_fuel(pow256, 5);
            lemma_split_prefix(bs, 0);
            lemma_parts_bound(p, 0);
        }
        let mut total: u32 = 0;
        let mut part: u32 = 0;
        let mut i: u32 = 0;
        let mut j: usize = 0;
        while j < b.len()
            invariant
                bs == b@,
                p == split_dots(bs),
                ip_ok(bs),
                j <= bs.len(),
                split_prefix(split_dots(bs.subrange(0, j as int)), p),
                i as int == split_dots(bs.subrange(0, j as int)).len() - 1,
                part as int == digits_val(split_dots(bs.subrange(0, j as int)).last()),
                total as int == parts_value(split_dots(bs.subrange(0, j as int)), i as int),
                i <= 3,
                parts_value(p, i as int) + pow256((4 - i) as nat) <= pow256(4),
            decreases bs.len() - j,
        {
            let ghost q = split_dots(bs.subrange(0, j as int));
            let c = b[j];
            proof {
                assert(bs.subrange(0, j + 1).drop_last() =~= bs.subrange(0, j as int));
                lemma_split_prefix(bs, j + 1);
                lemma_split_prefix(bs, j as int);
                assert(p[i as int].len() > 0 && all_digits(p[i as int]) && digits_val(p[i as int]) <= 255);
                lemma_digits_prefix(p[i as int], q.last().len() as int);
                assert(forall|k: int| 0 <= k < i ==> q[k] == p[k]);
                assert(parts_value(q, i as int) == parts_value(p, i as int)) by {
                    lemma_parts_same(q, p, i as int);
                }
            }
            if c == 46 {
                proof {
                    reveal_with_fuel(pow256, 5);
                    let q2 = split_dots(bs.subrange(0, j + 1));
                    assert(q2 == q.push(Seq::empty()));
                    assert(q2[i as int] == p[i as int]);
                    assert(q.last() == p[i as int]);
                    lemma_shift(part, i);
                    assert(i + 1 < p.len());
                    lemma_parts_bound(p, i + 1);
                    assert(parts_value(p, i + 1) == parts_value(p, i as int) + digits_val(p[i as int]) * pow256(
                        (3 - i) as nat,
                    ));
                }
                total = total + (part << ((3 - i) * 8));
                i = i + 1;
                part = 0;
                proof {
                    let q2 = split_dots(bs.subrange(0, j + 1));
                    assert(q2 == q.push(Seq::empty()));
                    assert(q2.last() =~= Seq::<u8>::empty());
                    lemma_parts_same(q2, q, i - 1);
                    assert(parts_value(q2, i as int) == parts_value(q2, i - 1) + digits_val(q2[i - 1]) * pow256(
                        (3 - (i - 1)) as nat,
                    ));
                    assert(q2[i - 1] == q.last());
                }
            } else {
                proof {
                    let q2 = split_dots(bs.subrange(0, j + 1));
                    assert(q2 == q.update(q.len() - 1, q.last().push(c)));
                    assert(q2.last().drop_last() =~= q.last());
                    lemma_digits_prefix(p[i as int], q2.last().len() as int);
                    assert(is_digit_byte(c));
                    lemma_parts_same(q2, q, i as int);
                }
                part = part * 10 + (c - 48) as u32;
            }
            j = j + 1;
        }
        proof {
            reveal_with_fuel(pow256, 5);
            assert(bs.subrange(0, bs.len() as int) =~= bs);
            lemma_shift(part, i);
            assert(p[i as int].len() > 0 && digits_val(p[i as int]) <= 255);
            lemma_parts_bound(p, i + 1);
        }
        total + (part << ((3 - i) * 8))
    }
}

/// Sums over parts that agree agree.
proof fn lemma_parts_same(q: Seq<Seq<u8>>, p: Seq<Seq<u8>>, k: int)
    requires
        k <= q.len(),
        k <= p.len(),
        forall|m: int| 0 <= m < k ==> #[trigger] q[m] == p[m],
    ensures
        parts_value(q, k) == parts_value(p, k),
    decreases k,
{
    if k > 0 {
        lemma_parts_same(q, p, k - 1);
        assert(q[k - 1] == p[k - 1]);
    }
}

impl TrackerPeer {
    /// The dotted text of an address.
    pub fn ip_from_u32(ip: u32) -> (r: String)
        ensures
            r@ == ip_text(ip),
    {
        let bytes = write_u32(ip);
        let mut out = String::new();
        out = push_decimal(out, bytes[0] as u64);
        out = push_char(out, '.');
        out = push_decimal(out, bytes[1] as u64);
        out = push_char(out, '.');
        out = push_decimal(out, bytes[2] as u64);
        out = push_char(out, '.');
        out = push_decimal(out, bytes[3] as u64);
        assert(out@ =~= ip_text(ip));
        out
    }
}



/// A peer that a tracker lists: with its id, or in the compact binary form.
#[derive(Debug, Clone, PartialEq)]
pub enum TrackerPeer {
    Dictionary { peer_id: crate::bittorrent::hash::Hash, ip: String, port: usize },
    Binary { ip: String, port: usize },
}

/// What a tracker answers to an announce.
#[derive(Debug, Clone, PartialEq)]
pub struct TrackerResponse {
    pub warning_message: Option<String>,
    pub interval: i64,
    pub min_interval: Option<i64>,
    pub tracker_id: String,
    pub complete: i64,
    pub incomplete: i64,
    pub peers: Vec<TrackerPeer>,
}

/// A peer in binary form: four bytes of address and two of port.
pub open spec fn binary_peer_is(b: Seq<u8>, p: TrackerPeer) -> bool {
    p matches TrackerPeer::Binary { ip, port } && ip@ == ip_text(from_be32(b)) && port == from_be16(
        b.subrange(4, 6),
    ) as usize
}

/// A decoded value is a peer.
pub open spec fn tracker_peer_ok(v: BVal) -> bool {
    match v {
        BVal::Str(b) => b.len() >= 6,
        BVal::Bytes(b) => b.len() >= 6,
        BVal::Dict(d) => {
            &&& lookup(d, str_bytes_of("peer id")) matches Some(BVal::Bytes(h)) && h.len() == 20
            &&& lookup(d, str_bytes_of("ip")) matches Some(BVal::Str(_))
            &&& lookup(d, str_bytes_of("port")) matches Some(BVal::Int(i)) && i >= 0
        },
        _ => false,
    }
}

/// A decoded value describes peer `p`.
pub open spec fn tracker_peer_is(v: BVal, p: TrackerPeer) -> bool {
    match v {
        BVal::Str(b) => binary_peer_is(b, p),
        BVal::Bytes(b) => binary_peer_is(b, p),
        BVal::Dict(d) => match p {
            TrackerPeer::Dictionary { peer_id, ip, port } => {
                &&& lookup(d, str_bytes_of("peer id")) == Some(BVal::Bytes(peer_id@))
                &&& lookup(d, str_bytes_of("ip")) == Some(BVal::Str(str_bytes(ip)))
                &&& lookup(d, str_bytes_of("port")) matches Some(BVal::Int(i)) && port == i as usize
            },
            _ => false,
        },
        _ => false,
    }
}

/// The peer can be written: an address in binary form is dotted text.
pub open spec fn tracker_peer_writable(p: TrackerPeer) -> bool {
    match p {
        TrackerPeer::Binary { ip, .. } => ip_ok(str_bytes(ip)),
        _ => true,
    }
}

/// The value peer `p` is written as.
pub open spec fn tracker_peer_to(p: TrackerPeer) -> BVal {
    match p {
        TrackerPeer::Binary { ip, port } => text_or_bytes(
            be32(ip_value(str_bytes(ip)) as u32) + be16(port as u16),
        ),
        TrackerPeer::Dictionary { peer_id, ip, port } => BVal::Dict(
            dict_insert(
                dict_insert(
                    dict_insert(Seq::empty(), str_bytes_of("peer id"), BVal::Bytes(peer_id@)),
                    str_bytes_of("ip"),
                    BVal::Str(str_bytes(ip)),
                ),
                str_bytes_of("port"),
                BVal::Int((port as i64) as int),
            ),
        ),
    }
}

impl TrackerPeer {
    /// The peer that six bytes describe: a big-endian address and port.
    pub fn from_binary(bytes: &[u8]) -> (r: Result<TrackerPeer, ParseError>)
        ensures
            r is Ok <==> bytes@.len() >= 6,
            r matches Ok(p) ==> binary_peer_is(bytes@, p),
            r matches Err(e) ==> e is Parse && e.message()
                == "Expected binary-encoded TrackerPeer, but data field not long enough: "@ + decimal_chars(
                bytes@.len(),
            ),
    {
        if bytes.len() < 6 {
            let s = push_decimal(
                "Expected binary-encoded TrackerPeer, but data field not long enough: ".to_string(),
                bytes.len() as u64,
            );
            return Err(ParseError::Parse(s));
        }
        let ip = read_u32(bytes);
        let port = read_u16(vstd::slice::slice_subrange(bytes, 4, 6));
        Ok(TrackerPeer::Binary { ip: TrackerPeer::ip_from_u32(ip), port: port as usize })
    }

    /// The six bytes describing a peer: its address (dotted text) and port,
    /// big-endian; the port is cut to 16 bits.
    pub fn to_binary(ip: &str, port: usize) -> (r: [u8; 6])
        requires
            ip_ok(str_bytes_of(ip)),
        ensures
            r@ == be32(ip_value(str_bytes_of(ip)) as u32) + be16(port as u16),
    {
        let a = write_u32(TrackerPeer::u32_from_ip(ip));
        let p = write_u16(port as u16);
        let buf: [u8; 6] = [a[0], a[1], a[2], a[3], p[0], p[1]];
        assert(buf@ =~= be32(ip_value(str_bytes_of(ip)) as u32) + be16(port as u16));
        buf
    }

    /// The peer a decoded value describes: a string of at least six bytes
    /// in binary form, or a dictionary with its id, address and port.
    #[allow(non_snake_case)]
    pub fn from_BencodeT(bencode_t: &BencodeT) -> (r: Result<TrackerPeer, ParseError>)
        ensures
            r is Ok <==> tracker_peer_ok(bencode_t@),
            r matches Ok(p) ==> tracker_peer_is(bencode_t@, p),
    {
        match bencode_t {
            BencodeT::String(string) => TrackerPeer::from_binary(string.as_str().as_bytes()),
            BencodeT::ByteString(bytes) => TrackerPeer::from_binary(bytes.as_slice()),
            BencodeT::Dictionary(hm) => {
                let peer_id = match dict_get(hm, "peer id") {
                    Some(b) => crate::bittorrent::hash::Hash::from_bencode_t(b)?,
                    None => {
                        return Err(ParseError::new_str("Did not find peer id in TrackerPeer"));
                    },
                };
                let ip = match dict_get(hm, "ip") {
                    Some(b) => String::from_bencode_t(b)?,
                    None => {
                        return Err(ParseError::new_str("Did not find ip in TrackerPeer"));
                    },
                };
                let port = match dict_get(hm, "port") {
                    Some(b) => usize::from_bencode_t(b)?,
                    None => {
                        return Err(ParseError::new_str("Did not find port in TrackerPeer"));
                    },
                };
                Ok(TrackerPeer::Dictionary { peer_id: peer_id, ip: ip, port: port })
            },
            _ => {
                let s = concat(
                    "Attempted to create TrackerPeer with non-string or dict: ".to_string(),
                    bencode_debug(bencode_t).as_str(),
                );
                Err(ParseError::Parse(s))
            },
        }
    }

    /// The value the peer is written as: the binary form as a string (a byte
    /// string when it is not UTF-8), or a dictionary.
    #[allow(non_snake_case)]
    pub fn to_BencodeT(&self) -> (r: BencodeT)
        requires
            tracker_peer_writable(*self),
        ensures
            r@ == tracker_peer_to(*self),
    {
        match self {
            TrackerPeer::Binary { ip, port } => {
                let bytes = TrackerPeer::to_binary(ip.as_str(), *port);
                utf8_to_string(&bytes)
            },
            TrackerPeer::Dictionary { peer_id, ip, port } => {
                let mut hm: Vec<(String, BencodeT)> = Vec::new();
                insert_entry(&mut hm, "peer id".to_string(), peer_id.to_bencode_t());
                insert_entry(&mut hm, "ip".to_string(), BencodeT::String(ip.clone()));
                insert_entry(&mut hm, "port".to_string(), port.to_bencode_t());
                BencodeT::Dictionary(hm)
            },
        }
    }
}

/// A list of decoded values are peers.
pub open spec fn tracker_peers_ok(l: Seq<BVal>) -> bool {
    forall|i: int| 0 <= i < l.len() ==> tracker_peer_ok(#[trigger] l[i])
}

/// A list of decoded values describes the peers `v`.
pub open spec fn tracker_peers_is(l: Seq<BVal>, v: Seq<TrackerPeer>) -> bool {
    &&& l.len() == v.len()
    &&& forall|i: int| 0 <= i < l.len() ==> tracker_peer_is(#[trigger] l[i], v[i])
}

/// An optional field is absent or an integer.
pub open spec fn opt_int_ok(e: Option<BVal>) -> bool {
    match e {
        None => true,
        Some(b) => b is Int,
    }
}

/// An optional field holds `v`.
pub open spec fn opt_int_is(e: Option<BVal>, v: Option<i64>) -> bool {
    match e {
        None => v is None,
        Some(b) => v matches Some(x) && b == BVal::Int(x as int),
    }
}

/// A decoded value is a tracker response without a failure.
pub open spec fn response_ok(b: BVal) -> bool {
    &&& b is Dict
    &&& lookup(b->Dict_0, str_bytes_of("failure reason")) is None
    &&& opt_str_ok(lookup(b->Dict_0, str_bytes_of("warning message")))
    &&& lookup(b->Dict_0, str_bytes_of("interval")) matches Some(BVal::Int(_))
    &&& opt_int_ok(lookup(b->Dict_0, str_bytes_of("min interval")))
    &&& lookup(b->Dict_0, str_bytes_of("tracker id")) matches Some(BVal::Str(_))
    &&& lookup(b->Dict_0, str_bytes_of("complete")) matches Some(BVal::Int(_))
    &&& lookup(b->Dict_0, str_bytes_of("incomplete")) matches Some(BVal::Int(_))
    &&& lookup(b->Dict_0, str_bytes_of("peers")) matches Some(BVal::List(l)) && tracker_peers_ok(l)
}

/// A decoded value describes response `r`.
pub open spec fn response_is(b: BVal, r: TrackerResponse) -> bool {
    &&& b is Dict
    &&& opt_str_is(lookup(b->Dict_0, str_bytes_of("warning message")), r.warning_message)
    &&& lookup(b->Dict_0, str_bytes_of("interval")) == Some(BVal::Int(r.interval as int))
    &&& opt_int_is(lookup(b->Dict_0, str_bytes_of("min interval")), r.min_interval)
    &&& lookup(b->Dict_0, str_bytes_of("tracker id")) == Some(BVal::Str(str_bytes(r.tracker_id)))
    &&& lookup(b->Dict_0, str_bytes_of("complete")) == Some(BVal::Int(r.complete as int))
    &&& lookup(b->Dict_0, str_bytes_of("incomplete")) == Some(BVal::Int(r.incomplete as int))
    &&& lookup(b->Dict_0, str_bytes_of("peers")) matches Some(BVal::List(l)) && tracker_peers_is(l, r.peers@)
}

/// The value response `r` is written as.
pub open spec fn response_to(r: TrackerResponse) -> BVal {
    let d0 = opt_str_into(Seq::empty(), str_bytes_of("warning message"), r.warning_message);
    let d1 = dict_insert(d0, str_bytes_of("interval"), BVal::Int(r.interval as int));
    let d2 = match r.min_interval {
        Some(m) => dict_insert(d1, str_bytes_of("min interval"), BVal::Int(m as int)),
        None => d1,
    };
    let d3 = dict_insert(d2, str_bytes_of("tracker id"), BVal::Str(str_bytes(r.tracker_id)));
    let d4 = dict_insert(d3, str_bytes_of("complete"), BVal::Int(r.complete as int));
    let d5 = dict_insert(d4, str_bytes_of("incomplete"), BVal::Int(r.incomplete as int));
    BVal::Dict(
        dict_insert(
            d5,
            str_bytes_of("peers"),
            BVal::List(Seq::new(r.peers@.len(), |i: int| tracker_peer_to(r.peers@[i]))),
        ),
    )
}

/// The peers a decoded list describes, or an error.
fn tracker_peer_list(b: &BencodeT) -> (r: Result<Vec<TrackerPeer>, ParseError>)
    ensures
        r is Ok <==> (b@ matches BVal::List(l) && tracker_peers_ok(l)),
        r matches Ok(v) ==> (b@ matches BVal::List(l) && tracker_peers_is(l, v@)),
{
    match b {
        BencodeT::List(items) => {
            proof {
                crate::bittorrent::bencode::lemma_bval_list_len(items@);
            }
            let mut out: Vec<TrackerPeer> = Vec::new();
            let mut i: usize = 0;
            while i < items.len()
                invariant
                    i <= items@.len(),
                    b@ == BVal::List(bval_list(items@)),
                    bval_list(items@).len() == items@.len(),
                    forall|j: int| 0 <= j < items@.len() ==> #[trigger] bval_list(items@)[j] == bval(items@[j]),
                    forall|j: int| 0 <= j < i ==> tracker_peer_ok(#[trigger] bval_list(items@)[j]),
                    out@.len() == i,
                    forall|j: int| 0 <= j < i ==> tracker_peer_is(#[trigger] bval_list(items@)[j], out@[j]),
                decreases items@.len() - i,
            {
                proof {
                    assert(bval_list(items@)[i as int] == bval(items@[i as int]));
                }
                match TrackerPeer::from_BencodeT(&items[i]) {
                    Ok(p) => {
                        out.push(p);
                    },
                    Err(e) => {
                        proof {
                            assert(!tracker_peers_ok(bval_list(items@)));
                        }
                        return Err(e);
                    },
                }
                i = i + 1;
            }
            Ok(out)
        },
        _ => Err(ParseError::new_str("Attempted to convert non-list BencodeT to vector")),
    }
}

/// The optional integer a field holds, or an error when it is not an integer.
fn get_opt_i64(d: &Vec<(String, BencodeT)>, key: &str) -> (r: Result<Option<i64>, ParseError>)
    ensures
        r is Ok <==> opt_int_ok(lookup(crate::bittorrent::bencode::bval_dict(d@), str_bytes_of(key))),
        r matches Ok(v) ==> opt_int_is(lookup(crate::bittorrent::bencode::bval_dict(d@), str_bytes_of(key)), v),
{
    match dict_get(d, key) {
        Some(b) => match i64::from_bencode_t(b) {
            Ok(x) => Ok(Some(x)),
            Err(e) => Err(e),
        },
        None => Ok(None),
    }
}

impl TrackerResponse {
    /// The response a decoded value describes; a failure reason from the
    /// tracker is an error.
    #[allow(non_snake_case)]
    pub fn from_BencodeT(bencode_t: &BencodeT) -> (r: Result<TrackerResponse, ParseError>)
        ensures
            r is Ok <==> response_ok(bencode_t@),
            r matches Ok(resp) ==> response_is(bencode_t@, resp),
            bencode_t@ matches BVal::Dict(d) ==> (lookup(d, str_bytes_of("failure reason")) is Some ==> (r matches Err(e)
                && e is Parse && e.message() == "Tracker returned failure: "@ + bencode_debug_text(
                lookup(d, str_bytes_of("failure reason"))->Some_0,
            ))),
    {
        match bencode_t {
            BencodeT::Dictionary(hm) => {
                match dict_get(hm, "failure reason") {
                    Some(val) => {
                        let s = concat("Tracker returned failure: ".to_string(), bencode_debug(val).as_str());
                        return Err(ParseError::Parse(s));
                    },
                    None => {},
                }
                let warning_message = crate::bittorrent::tracker::get_opt_string_field(hm, "warning message")?;
                let interval = match dict_get(hm, "interval") {
                    Some(b) => i64::from_bencode_t(b)?,
                    None => {
                        return Err(ParseError::new_str("Did not find interval in tracker response"));
                    },
                };
                let min_interval = get_opt_i64(hm, "min interval")?;
                let tracker_id = match dict_get(hm, "tracker id") {
                    Some(b) => String::from_bencode_t(b)?,
                    None => {
                        return Err(ParseError::new_str("Did not find tracker id in tracker response"));
                    },
                };
                let complete = match dict_get(hm, "complete") {
                    Some(b) => i64::from_bencode_t(b)?,
                    None => {
                        return Err(ParseError::new_str("Did not find complete in tracker response"));
                    },
                };
                let incomplete = match dict_get(hm, "incomplete") {
                    Some(b) => i64::from_bencode_t(b)?,
                    None => {
                        return Err(ParseError::new_str("Did not find incomplete in tracker response"));
                    },
                };
                let peers = match dict_get(hm, "peers") {
                    Some(b) => tracker_peer_list(b)?,
                    None => {
                        return Err(ParseError::new_str("Did not find peers in tracker response"));
                    },
                };
                Ok(TrackerResponse {
                    warning_message: warning_message,
                    interval: interval,
                    min_interval: min_interval,
                    tracker_id: tracker_id,
                    complete: complete,
                    incomplete: incomplete,
                    peers: peers,
                })
            },
            _ => {
                let s = concat(
                    "Tracker response is not a dictionary: ".to_string(),
                    bencode_debug(bencode_t).as_str(),
                );
                Err(ParseError::Parse(s))
            },
        }
    }

    /// The dictionary the response is written as.
    #[allow(non_snake_case)]
    pub fn to_BencodeT(&self) -> (r: BencodeT)
        requires
            forall|i: int| 0 <= i < self.peers@.len() ==> tracker_peer_writable(#[trigger] self.peers@[i]),
        ensures
            r@ == response_to(*self),
    {
        let mut hm: Vec<(String, BencodeT)> = Vec::new();
        match &self.warning_message {
            Some(w) => {
                insert_entry(&mut hm, "warning message".to_string(), BencodeT::String(w.clone()));
            },
            None => {},
        }
        insert_entry(&mut hm, "interval".to_string(), BencodeT::Integer(self.interval));
        match self.min_interval {
            Some(m) => {
                insert_entry(&mut hm, "min interval".to_string(), BencodeT::Integer(m));
            },
            None => {},
        }
        insert_entry(&mut hm, "tracker id".to_string(), BencodeT::String(self.tracker_id.clone()));
        insert_entry(&mut hm, "complete".to_string(), BencodeT::Integer(self.complete));
        insert_entry(&mut hm, "incomplete".to_string(), BencodeT::Integer(self.incomplete));
        let mut items: Vec<BencodeT> = Vec::new();
        let mut i: usize = 0;
        while i < self.peers.len()
            invariant
                i <= self.peers@.len(),
                forall|k: int| 0 <= k < self.peers@.len() ==> tracker_peer_writable(#[trigger] self.peers@[k]),
                bval_list(items@) == Seq::new(i as nat, |k: int| tracker_peer_to(self.peers@[k])),
            decreases self.peers@.len() - i,
        {
            let e = self.peers[i].to_BencodeT();
            proof {
                crate::bittorrent::bencode::lemma_bval_list_push(items@, e);
            }
            items.push(e);
            proof {
                assert(bval_list(items@) =~= Seq::new((i + 1) as nat, |k: int| tracker_peer_to(self.peers@[k])));
            }
            i = i + 1;
        }
        insert_entry(&mut hm, "peers".to_string(), BencodeT::List(items));
        BencodeT::Dictionary(hm)
    }
}

/// The string an optional field holds, or an error when it is not a string.
fn get_opt_string_field(d: &Vec<(String, BencodeT)>, key: &str) -> (r: Result<Option<String>, ParseError>)
    ensures
        r is Ok <==> opt_str_ok(lookup(crate::bittorrent::bencode::bval_dict(d@), str_bytes_of(key))),
        r matches Ok(v) ==> opt_str_is(lookup(crate::bittorrent::bencode::bval_dict(d@), str_bytes_of(key)), v),
{
    match dict_get(d, key) {
        Some(b) => match String::from_bencode_t(b) {
            Ok(s) => Ok(Some(s)),
            Err(e) => Err(e),
        },
        None => Ok(None),
    }
}

/// The peers a tracker's bencoded answer lists.
pub fn parse_response(body: &[u8]) -> (r: Result<Vec<TrackerPeer>, ParseError>)
    ensures
        r is Ok <==> (crate::bittorrent::bedecoder::spec_parse(body@) matches Ok(v) && response_ok(v)),
        r matches Ok(peers) ==> (crate::bittorrent::bedecoder::spec_parse(body@) matches Ok(v) && v
            matches BVal::Dict(d) && lookup(d, str_bytes_of("peers")) matches Some(BVal::List(l))
            && tracker_peers_is(l, peers@)),
{
    let bencodet = crate::bittorrent::bedecoder::parse(body)?;
    let response = TrackerResponse::from_BencodeT(&bencodet)?;
    Ok(response.peers)
}


/// The address and port of a peer a tracker listed.
pub open spec fn peer_addr(p: TrackerPeer) -> (String, usize) {
    match p {
        TrackerPeer::Dictionary { ip, port, .. } => (ip, port),
        TrackerPeer::Binary { ip, port } => (ip, port),
    }
}

/// The addresses to connect to among the peers a tracker listed, in its
/// order: all but those on our own port `own_port`.
pub open spec fn dial_list(peers: Seq<TrackerPeer>, own_port: usize) -> Seq<(String, usize)>
    decreases peers.len(),
{
    if peers.len() == 0 {
        Seq::empty()
    } else {
        let rest = dial_list(peers.drop_last(), own_port);
        let a = peer_addr(peers.last());
        if a.1 == own_port {
            rest
        } else {
            rest.push(a)
        }
    }
}

/// The dial list keeps, in the tracker's order, exactly the addresses of
/// the listed peers whose port is not our own: one entry per such peer.
pub proof fn lemma_dial_list_filter(peers: Seq<TrackerPeer>, own_port: usize)
    ensures
        dial_list(peers, own_port) == peers.map_values(|p: TrackerPeer| peer_addr(p)).filter(
            |a: (String, usize)| a.1 != own_port,
        ),
    decreases peers.len(),
{
    reveal(Seq::filter);
    let f = |p: TrackerPeer| peer_addr(p);
    if peers.len() > 0 {
        lemma_dial_list_filter(peers.drop_last(), own_port);
        let m = peers.map_values(f);
        assert(m.drop_last() =~= peers.drop_last().map_values(f));
        assert(m.last() == peer_addr(peers.last()));
    } else {
        assert(peers.map_values(f) =~= Seq::<(String, usize)>::empty());
    }
}

/// Every listed peer whose port is not our own is dialled, and every
/// address dialled is that of a listed peer, never on our own port.
pub proof fn lemma_dial_list_members(peers: Seq<TrackerPeer>, own_port: usize)
    ensures
        forall|i: int|
            0 <= i < peers.len() && (#[trigger] peer_addr(peers[i])).1 != own_port ==> dial_list(
                peers,
                own_port,
            ).contains(peer_addr(peers[i])),
        forall|a: (String, usize)|
            #[trigger] dial_list(peers, own_port).contains(a) ==> a.1 != own_port && exists|i: int|
                0 <= i < peers.len() && peer_addr(peers[i]) == a,
{
    lemma_dial_list_filter(peers, own_port);
    let f = |p: TrackerPeer| peer_addr(p);
    let pred = |a: (String, usize)| a.1 != own_port;
    let m = peers.map_values(f);
    assert forall|i: int| 0 <= i < peers.len() && (#[trigger] peer_addr(peers[i])).1 != own_port implies dial_list(
        peers,
        own_port,
    ).contains(peer_addr(peers[i])) by {
        assert(m[i] == peer_addr(peers[i]));
        m.lemma_filter_contains(pred, i);
    }
    assert forall|a: (String, usize)| #[trigger] dial_list(peers, own_port).contains(a) implies a.1 != own_port
        && exists|i: int| 0 <= i < peers.len() && peer_addr(peers[i]) == a by {
        let r = m.filter(pred);
        let k = choose|k: int| 0 <= k < r.len() && r[k] == a;
        m.lemma_filter_pred(pred, k);
        m.lemma_filter_contains_rev(pred, a);
        let i = choose|i: int| 0 <= i < m.len() && m[i] == a;
        assert(peer_addr(peers[i]) == a);
    }
}

/// The addresses to connect to among the peers a tracker listed: all but
/// those on our own port.
pub fn peers_to_dial(peers: &Vec<TrackerPeer>, own_port: usize) -> (r: Vec<(String, usize)>)
    ensures
        r@ == dial_list(peers@, own_port),
{
    let mut out: Vec<(String, usize)> = Vec::new();
    let mut i: usize = 0;
    while i < peers.len()
        invariant
            i <= peers@.len(),
            out@ == dial_list(peers@.subrange(0, i as int), own_port),
        decreases peers@.len() - i,
    {
        let (ip, port) = match &peers[i] {
            TrackerPeer::Dictionary { ip, port, .. } => (ip, *port),
            TrackerPeer::Binary { ip, port } => (ip, *port),
        };
        proof {
            assert(peers@.subrange(0, i + 1).drop_last() =~= peers@.subrange(0, i as int));
        }
        if port != own_port {
            out.push((ip.clone(), port));
        }
        i = i + 1;
    }
    assert(peers@.subrange(0, peers@.len() as int) =~= peers@);
    out
}

/// Bytes that form-urlencoding leaves as they are.
pub open spec fn urlenc_unchanged(b: u8) -> bool {
    b == 42 || b == 45 || b == 46 || (48 <= b <= 57) || (65 <= b <= 90) || b == 95 || (97 <= b <= 122)
}

/// An uppercase hexadecimal digit.
pub open spec fn hex_upper(n: u8) -> char {
    if n < 10 {
        (48 + n) as char
    } else {
        (55 + n) as char
    }
}

/// The form-urlencoding of one byte: itself, `+` for a space, else `%`
/// and two uppercase hexadecimal digits.
pub open spec fn urlenc_byte(b: u8) -> Seq<char> {
    if urlenc_unchanged(b) {
        seq![b as char]
    } else if b == 32 {
        seq!['+']
    } else {
        seq!['%', hex_upper(b / 16), hex_upper(b % 16)]
    }
}

/// The form-urlencoding of bytes.
pub open spec fn urlenc(s: Seq<u8>) -> Seq<char>
    decreases s.len(),
{
    if s.len() == 0 {
        Seq::empty()
    } else {
        urlenc(s.drop_last()) + urlenc_byte(s.last())
    }
}

/// The form-urlencoding of bytes (the `url` crate's `form_urlencoded::byte_serialize`).
#[verifier::external_body]
fn url_encode(bytes: &[u8]) -> (r: String)
    ensures
        r@ == urlenc(bytes@),
{
    url::form_urlencoded::byte_serialize(bytes).collect()
}

/// A name and value pair of a query, each form-urlencoded.
pub open spec fn pair_text(name: Seq<char>, value: Seq<char>) -> Seq<char> {
    urlenc(vstd::utf8::encode_utf8(name)) + seq!['='] + urlenc(vstd::utf8::encode_utf8(value))
}

/// Query text with one more pair: `&` first unless the text is empty.
pub open spec fn with_pair(q: Seq<char>, name: Seq<char>, value: Seq<char>) -> Seq<char> {
    (if q.len() > 0 {
        q.push('&')
    } else {
        q
    }) + pair_text(name, value)
}

/// Appends a form-urlencoded pair to query text.
fn append_pair(out: String, name: &str, value: &str) -> (r: String)
    ensures
        r@ == with_pair(out@, name@, value@),
{
    let mut out = out;
    if out.as_str().as_bytes().len() > 0 {
        proof {
            if out@.len() == 0 {
                assert(vstd::utf8::encode_utf8(out@).len() == 0);
            }
        }
        out = push_char(out, '&');
    } else {
        proof {
            vstd::utf8::encode_utf8_decode_utf8(out@);
            assert(vstd::utf8::encode_utf8(out@) =~= Seq::<u8>::empty());
            assert(vstd::utf8::decode_utf8(Seq::<u8>::empty()) =~= Seq::<char>::empty());
        }
    }
    let out = concat(out, url_encode(name.as_bytes()).as_str());
    let out = push_char(out, '=');
    concat(out, url_encode(value.as_bytes()).as_str())
}

/// The query of an announce for torrent `info_hash` by peer `peer_id`:
/// the two identifiers (form-urlencoded, then encoded again as values),
/// the port, zero bytes moved, compact peers, the `started` event, and the
/// number of peers wanted.
pub open spec fn announce_query(info_hash: Seq<u8>, peer_id: Seq<u8>) -> Seq<char> {
    let q = with_pair(Seq::empty(), "info_hash"@, urlenc(info_hash));
    let q = with_pair(q, "peer_id"@, urlenc(peer_id));
    let q = with_pair(q, "port"@, decimal_chars(crate::PORT_NUM as nat));
    let q = with_pair(q, "uploaded"@, "0"@);
    let q = with_pair(q, "downloaded"@, "0"@);
    let q = with_pair(q, "left"@, "0"@);
    let q = with_pair(q, "compact"@, "1"@);
    let q = with_pair(q, "event"@, "started"@);
    with_pair(q, "numwant"@, decimal_chars(crate::MAX_PEERS as nat))
}

/// The query of an announce (see `announce_query`).
pub fn query_string(info_hash: &crate::bittorrent::hash::Hash, peer_id: &crate::bittorrent::hash::Hash) -> (r: String)
    ensures
        r@ == announce_query(info_hash@, peer_id@),
{
    let ih = url_encode(&info_hash.0);
    let pid = url_encode(&peer_id.0);
    let port = push_decimal(String::new(), crate::PORT_NUM as u64);
    let numwant = push_decimal(String::new(), crate::MAX_PEERS as u64);
    let start = String::new();
    proof {
        assert(start@ =~= Seq::<char>::empty());
    }
    let q = append_pair(start, "info_hash", ih.as_str());
    let q = append_pair(q, "peer_id", pid.as_str());
    let q = append_pair(q, "port", port.as_str());
    let q = append_pair(q, "uploaded", "0");
    let q = append_pair(q, "downloaded", "0");
    let q = append_pair(q, "left", "0");
    let q = append_pair(q, "compact", "1");
    let q = append_pair(q, "event", "started");
    append_pair(q, "numwant", numwant.as_str())
}

/// The announce address for each tracker: the tracker's address, `?`,
/// and the query.
pub fn announce_urls(
    urls: &Vec<String>,
    info_hash: &crate::bittorrent::hash::Hash,
    peer_id: &crate::bittorrent::hash::Hash,
) -> (r: Vec<String>)
    ensures
        r@.len() == urls@.len(),
        forall|i: int| 0 <= i < r@.len() ==> (#[trigger] r@[i])@ == urls@[i]@ + seq!['?'] + announce_query(
            info_hash@,
            peer_id@,
        ),
{
    let query = query_string(info_hash, peer_id);
    let mut out: Vec<String> = Vec::new();
    let mut i: usize = 0;
    while i < urls.len()
        invariant
            i <= urls@.len(),
            query@ == announce_query(info_hash@, peer_id@),
            out@.len() == i,
            forall|k: int| 0 <= k < i ==> (#[trigger] out@[k])@ == urls@[k]@ + seq!['?'] + query@,
        decreases urls@.len() - i,
    {
        let u = push_char(urls[i].clone(), '?');
        out.push(concat(u, query.as_str()));
        i = i + 1;
    }
    out
}

/// Text without dots is one part.
proof fn lemma_split_no_dots(c: Seq<u8>)
    requires
        forall|k: int| 0 <= k < c.len() ==> #[trigger] c[k] != 46,
    ensures
        split_dots(c) == seq![c],
    decreases c.len(),
{
    if c.len() > 0 {
        lemma_split_no_dots(c.drop_last());
        assert(c.drop_last().push(c.last()) =~= c);
    } else {
        assert(c =~= Seq::<u8>::empty());
    }
}

/// A dot and text without dots after `a` add one part.
proof fn lemma_split_append(a: Seq<u8>, c: Seq<u8>)
    requires
        forall|k: int| 0 <= k < c.len() ==> #[trigger] c[k] != 46,
    ensures
        split_dots(a + seq![46u8] + c) == split_dots(a).push(c),
    decreases c.len(),
{
    let b = a + seq![46u8] + c;
    if c.len() == 0 {
        assert(b.drop_last() =~= a);
        assert(c =~= Seq::<u8>::empty());
    } else {
        let c0 = c.drop_last();
        lemma_split_append(a, c0);
        assert(b.drop_last() =~= a + seq![46u8] + c0);
        lemma_split_len(a + seq![46u8] + c0);
        assert(c0.push(c.last()) =~= c);
    }
}

/// The bytes of the dotted text of an address.
spec fn ip_bytes(x: u32) -> Seq<u8> {
    let b = be32(x);
    spec_decimal(b[0] as nat) + seq![46u8] + spec_decimal(b[1] as nat) + seq![46u8] + spec_decimal(
        b[2] as nat,
    ) + seq![46u8] + spec_decimal(b[3] as nat)
}

proof fn lemma_decimal_no_dots(n: nat)
    ensures
        forall|k: int| 0 <= k < spec_decimal(n).len() ==> #[trigger] spec_decimal(n)[k] != 46,
        forall|k: int| 0 <= k < spec_decimal(n).len() ==> #[trigger] spec_decimal(n)[k] < 128,
{
    crate::bittorrent::roundtrip::lemma_decimal(n);
    assert forall|k: int| 0 <= k < spec_decimal(n).len() implies #[trigger] spec_decimal(n)[k] != 46 by {
        assert(is_digit_byte(spec_decimal(n)[k]));
    }
    assert forall|k: int| 0 <= k < spec_decimal(n).len() implies #[trigger] spec_decimal(n)[k] < 128 by {
        assert(is_digit_byte(spec_decimal(n)[k]));
    }
}

/// Reading the dotted text of an address gives the address back.
pub proof fn lemma_ip_roundtrip(x: u32)
    ensures
        ip_ok(vstd::utf8::encode_utf8(ip_text(x))),
        ip_value(vstd::utf8::encode_utf8(ip_text(x))) == x,
{
    let b = be32(x);
    let d0 = spec_decimal(b[0] as nat);
    let d1 = spec_decimal(b[1] as nat);
    let d2 = spec_decimal(b[2] as nat);
    let d3 = spec_decimal(b[3] as nat);
    lemma_decimal_no_dots(b[0] as nat);
    lemma_decimal_no_dots(b[1] as nat);
    lemma_decimal_no_dots(b[2] as nat);
    lemma_decimal_no_dots(b[3] as nat);
    crate::bittorrent::roundtrip::lemma_decimal(b[0] as nat);
    crate::bittorrent::roundtrip::lemma_decimal(b[1] as nat);
    crate::bittorrent::roundtrip::lemma_decimal(b[2] as nat);
    crate::bittorrent::roundtrip::lemma_decimal(b[3] as nat);
    let bytes = ip_bytes(x);
    // the text is ASCII, so its UTF-8 bytes are its characters
    let t = ip_text(x);
    assert(t =~= ascii_chars(bytes));
    assert forall|k: int| 0 <= k < bytes.len() implies #[trigger] bytes[k] < 128 by {}
    assert(vstd::utf8::is_ascii_chars(t));
    vstd::utf8::is_ascii_chars_encode_utf8(t);
    assert(vstd::utf8::encode_utf8(t) =~= bytes);
    // four parts
    lemma_split_no_dots(d0);
    lemma_split_append(d0, d1);
    lemma_split_append(d0 + seq![46u8] + d1, d2);
    lemma_split_append(d0 + seq![46u8] + d1 + seq![46u8] + d2, d3);
    let p = split_dots(bytes);
    assert(p =~= seq![d0, d1, d2, d3]);
    // and their value
    reveal_with_fuel(pow256, 4);
    reveal_with_fuel(parts_value, 5);
    lemma_be32_roundtrip(x);
    assert(pow256(0) == 1);
    assert(pow256(1) == 256);
    assert(pow256(2) == 65536);
    assert(pow256(3) == 16777216);
    assert(p.len() == 4);
    assert(p[0] == d0 && p[1] == d1 && p[2] == d2 && p[3] == d3);
    assert(parts_value(p, 0) == 0);
    assert(parts_value(p, 1) == b[0] * 16777216);
    assert(parts_value(p, 2) == b[0] * 16777216 + b[1] * 65536);
    assert(parts_value(p, 3) == b[0] * 16777216 + b[1] * 65536 + b[2] * 256);
    assert(digits_val(p[3]) == b[3]);
    assert(digits_val(p[3]) * pow256(0) == b[3]);
    assert(parts_value(p, 4) == parts_value(p, 3) + digits_val(p[3]) * pow256(0));
    assert(parts_value(p, 4) == b[0] * 16777216 + b[1] * 65536 + b[2] * 256 + b[3]);
    assert(ip_value(bytes) == b[0] * 16777216 + b[1] * 65536 + b[2] * 256 + b[3]);
}

/// A peer that reading gives back as it was written: a binary peer's
/// address is dotted text in the form `ip_from_u32` writes and its port
/// fits in 16 bits; a dictionary peer's port fits in an `i64`.
pub open spec fn peer_reads_back(p: TrackerPeer) -> bool {
    match p {
        TrackerPeer::Binary { ip, port } => {
            &&& ip_ok(str_bytes(ip))
            &&& ip@ == ip_text(ip_value(str_bytes(ip)) as u32)
            &&& port < 65536
        },
        TrackerPeer::Dictionary { port, .. } => port <= i64::MAX,
    }
}

/// A peer is written as a value that describes it.
proof fn lemma_peer_roundtrip(p: TrackerPeer)
    requires
        peer_reads_back(p),
    ensures
        tracker_peer_ok(tracker_peer_to(p)),
        tracker_peer_is(tracker_peer_to(p), p),
{
    match p {
        TrackerPeer::Binary { ip, port } => {
            let x = ip_value(str_bytes(ip)) as u32;
            let b = be32(x) + be16(port as u16);
            lemma_be32_roundtrip(x);
            lemma_be16_roundtrip(port as u16);
            assert(b.subrange(4, 6) =~= be16(port as u16));
            assert(b[0] == be32(x)[0] && b[1] == be32(x)[1] && b[2] == be32(x)[2] && b[3] == be32(x)[3]);
            assert(from_be32(b) == x);
        },
        TrackerPeer::Dictionary { peer_id, ip, port } => {
            reveal_strlit("peer id");
            reveal_strlit("ip");
            reveal_strlit("port");
            lemma_key_ne("peer id", "ip");
            lemma_key_ne("peer id", "port");
            lemma_key_ne("ip", "port");
            let e: Seq<(Seq<u8>, BVal)> = Seq::empty();
            let d0 = dict_insert(e, str_bytes_of("peer id"), BVal::Bytes(peer_id@));
            lemma_lookup_insert(e, str_bytes_of("peer id"), BVal::Bytes(peer_id@));
            let d1 = dict_insert(d0, str_bytes_of("ip"), BVal::Str(str_bytes(ip)));
            lemma_lookup_insert(d0, str_bytes_of("ip"), BVal::Str(str_bytes(ip)));
            lemma_lookup_insert(d1, str_bytes_of("port"), BVal::Int((port as i64) as int));
        },
    }
}

/// A tracker response read back from the value it is written as is the
/// same response, when each of its peers is one that reading gives back
/// (see `peer_reads_back`): the written value is a response, and it
/// describes `r`.
#[verifier::spinoff_prover]
pub proof fn lemma_response_roundtrip(r: TrackerResponse)
    requires
        forall|i: int| 0 <= i < r.peers@.len() ==> peer_reads_back(#[trigger] r.peers@[i]),
    ensures
        response_ok(response_to(r)),
        response_is(response_to(r), r),
{
    reveal_strlit("failure reason");
    reveal_strlit("warning message");
    reveal_strlit("interval");
    reveal_strlit("min interval");
    reveal_strlit("tracker id");
    reveal_strlit("complete");
    reveal_strlit("incomplete");
    reveal_strlit("peers");
    assert("interval"@[0] != "complete"@[0]);
    assert("tracker id"@[0] != "incomplete"@[0]);
    lemma_key_ne("failure reason", "warning message");
    lemma_key_ne("failure reason", "interval");
    lemma_key_ne("failure reason", "min interval");
    lemma_key_ne("failure reason", "tracker id");
    lemma_key_ne("failure reason", "complete");
    lemma_key_ne("failure reason", "incomplete");
    lemma_key_ne("failure reason", "peers");
    lemma_key_ne("warning message", "interval");
    lemma_key_ne("warning message", "min interval");
    lemma_key_ne("warning message", "tracker id");
    lemma_key_ne("warning message", "complete");
    lemma_key_ne("warning message", "incomplete");
    lemma_key_ne("warning message", "peers");
    lemma_key_ne("interval", "min interval");
    lemma_key_ne("interval", "tracker id");
    lemma_key_ne("interval", "complete");
    lemma_key_ne("interval", "incomplete");
    lemma_key_ne("interval", "peers");
    lemma_key_ne("min interval", "tracker id");
    lemma_key_ne("min interval", "complete");
    lemma_key_ne("min interval", "incomplete");
    lemma_key_ne("min interval", "peers");
    lemma_key_ne("tracker id", "complete");
    lemma_key_ne("tracker id", "incomplete");
    lemma_key_ne("tracker id", "peers");
    lemma_key_ne("complete", "incomplete");
    lemma_key_ne("complete", "peers");
    lemma_key_ne("incomplete", "peers");
    let e: Seq<(Seq<u8>, BVal)> = Seq::empty();
    let d0 = opt_str_into(e, str_bytes_of("warning message"), r.warning_message);
    match r.warning_message {
        Some(w) => lemma_lookup_insert(e, str_bytes_of("warning message"), BVal::Str(str_bytes(w))),
        None => {},
    }
    let d1 = dict_insert(d0, str_bytes_of("interval"), BVal::Int(r.interval as int));
    lemma_lookup_insert(d0, str_bytes_of("interval"), BVal::Int(r.interval as int));
    let d2 = match r.min_interval {
        Some(m) => dict_insert(d1, str_bytes_of("min interval"), BVal::Int(m as int)),
        None => d1,
    };
    match r.min_interval {
        Some(m) => lemma_lookup_insert(d1, str_bytes_of("min interval"), BVal::Int(m as int)),
        None => {},
    }
    let d3 = dict_insert(d2, str_bytes_of("tracker id"), BVal::Str(str_bytes(r.tracker_id)));
    lemma_lookup_insert(d2, str_bytes_of("tracker id"), BVal::Str(str_bytes(r.tracker_id)));
    let d4 = dict_insert(d3, str_bytes_of("complete"), BVal::Int(r.complete as int));
    lemma_lookup_insert(d3, str_bytes_of("complete"), BVal::Int(r.complete as int));
    let d5 = dict_insert(d4, str_bytes_of("incomplete"), BVal::Int(r.incomplete as int));
    lemma_lookup_insert(d4, str_bytes_of("incomplete"), BVal::Int(r.incomplete as int));
    let l = Seq::new(r.peers@.len(), |i: int| tracker_peer_to(r.peers@[i]));
    lemma_lookup_insert(d5, str_bytes_of("peers"), BVal::List(l));
    assert forall|i: int| 0 <= i < l.len() implies tracker_peer_ok(#[trigger] l[i]) && tracker_peer_is(l[i], r.peers@[i]) by {
        lemma_peer_roundtrip(r.peers@[i]);
    }
}

} // verus!
