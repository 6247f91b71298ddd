//! Twenty-byte SHA-1 digests that name torrents and peers.
use vstd::prelude::*;
use crate::bittorrent::ParseError;
use crate::bittorrent::text::{concat, push_char};

verus! {

/// A 20-byte identifier: a torrent's info hash or a peer id.
#[derive(Hash, Ord, PartialOrd, Eq, PartialEq, Clone, Copy, Debug, Default)]
pub struct Hash(pub [u8; 20]);

/// The lowercase hexadecimal digit for `n`, which is below 16.
pub open spec fn nibble_char(n: u8) -> char {
    if n < 10 {
        (48 + n) as char
    } else {
        (87 + n) as char
    }
}

/// Two lowercase hexadecimal digits per byte.
pub open spec fn hex_text(b: Seq<u8>) -> Seq<char>
    decreases b.len(),
{
    if b.len() == 0 {
        Seq::empty()
    } else {
        hex_text(b.drop_last()).push(nibble_char(b.last() / 16)).push(nibble_char(b.last() % 16))
    }
}

/// The value of a hexadecimal digit, either case; -1 for any other byte.
pub open spec fn hex_val(c: u8) -> int {
    if 48 <= c <= 57 {
        c - 48
    } else if 97 <= c <= 102 {
        c - 87
    } else if 65 <= c <= 70 {
        c - 55
    } else {
        -1
    }
}

/// Text of hexadecimal digit pairs.
pub open spec fn is_hex_text(s: Seq<u8>) -> bool {
    s.len() % 2 == 0 && forall|k: int| 0 <= k < s.len() ==> hex_val(#[trigger] s[k]) >= 0
}

/// The bytes that pairs of hexadecimal digits denote.
pub open spec fn hex_bytes(s: Seq<u8>) -> Seq<u8> {
    Seq::new(s.len() / 2, |k: int| (hex_val(s[2 * k]) * 16 + hex_val(s[2 * k + 1])) as u8)
}

proof fn lemma_hex_text_shape(b: Seq<u8>)
    ensures
        hex_text(b).len() == 2 * b.len(),
        forall|k: int|
            0 <= k < b.len() ==> #[trigger] hex_text(b)[2 * k] == nibble_char(b[k] / 16) && hex_text(b)[2
                * k + 1] == nibble_char(b[k] % 16),
    decreases b.len(),
{
    if b.len() > 0 {
        let t = b.drop_last();
        lemma_hex_text_shape(t);
        assert forall|k: int| 0 <= k < b.len() implies #[trigger] hex_text(b)[2 * k] == nibble_char(b[k] / 16)
            && hex_text(b)[2 * k + 1] == nibble_char(b[k] % 16) by {
            if k < b.len() - 1 {
                assert(hex_text(t)[2 * k] == nibble_char(t[k] / 16));
                assert(hex_text(t)[2 * k + 1] == nibble_char(t[k] % 16));
            }
        }
    }
}

proof fn lemma_nibble_val(n: u8)
    requires
        n < 16,
    ensures
        '\0' <= nibble_char(n) <= '\u{7f}',
        hex_val(nibble_char(n) as u8) == n,
{
    if n < 10 {
        assert(((48 + n) as char) as u8 == 48 + n);
    } else {
        assert(((87 + n) as char) as u8 == 87 + n);
    }
}

/// The hexadecimal text of bytes is hexadecimal text, two digits a byte,
/// that denotes those bytes.
pub proof fn lemma_hex_roundtrip(b: Seq<u8>)
    ensures
        is_hex_text(vstd::utf8::encode_utf8(hex_text(b))),
        vstd::utf8::encode_utf8(hex_text(b)).len() == 2 * b.len(),
        hex_bytes(vstd::utf8::encode_utf8(hex_text(b))) == b,
{
    let h = hex_text(b);
    lemma_hex_text_shape(b);
    assert forall|i: int| 0 <= i < h.len() implies '\0' <= #[trigger] h[i] <= '\u{7f}'
        && hex_val(h[i] as u8) >= 0 by {
        let k = i / 2;
        assert(i == 2 * k || i == 2 * k + 1);
        assert(h[2 * k] == nibble_char(b[k] / 16));
        lemma_nibble_val(b[k] / 16);
        lemma_nibble_val(b[k] % 16);
    }
    assert(vstd::utf8::is_ascii_chars(h));
    vstd::utf8::is_ascii_chars_encode_utf8(h);
    let t = vstd::utf8::encode_utf8(h);
    assert forall|k: int| 0 <= k < t.len() implies hex_val(#[trigger] t[k]) >= 0 by {
        assert(h[k] as u8 == t[k]);
    }
    assert forall|k: int| 0 <= k < b.len() implies #[trigger] hex_bytes(t)[k] == b[k] by {
        assert(h[2 * k] as u8 == t[2 * k]);
        assert(h[2 * k + 1] as u8 == t[2 * k + 1]);
        lemma_nibble_val(b[k] / 16);
        lemma_nibble_val(b[k] % 16);
    }
    assert(hex_bytes(t) =~= b);
}

/// Random bytes (the `rand` crate's `random`); nothing is claimed of their values.
#[verifier::external_body]
fn random_bytes() -> (r: [u8; 20]) {
    rand::random::<[u8; 20]>()
}

/// The bytes that hexadecimal text denotes (the `hex` crate's `FromHex` for
/// `Vec<u8>`): it succeeds exactly on pairs of hexadecimal digits of either
/// case, giving the byte of each pair; the text of its error is not described.
#[verifier::external_body]
fn from_hex(s: &str) -> (r: Result<Vec<u8>, String>)
    ensures
        r is Ok <==> is_hex_text(vstd::utf8::encode_utf8(s@)),
        r matches Ok(v) ==> v@ == hex_bytes(vstd::utf8::encode_utf8(s@)),
{
    match <Vec<u8> as hex::FromHex>::from_hex(s) {
        Ok(v) => Ok(v),
        Err(e) => Err(e.to_string()),
    }
}

/// The high and low four bits of a byte.
pub fn byte_to_nibbles(byte: u8) -> (r: (u8, u8))
    ensures
        r == (byte / 16, byte % 16),
{
    let a = byte & 0b00001111u8;
    let b = byte >> 4u8;
    assert(a == byte % 16) by (bit_vector)
        requires
            a == byte & 0b00001111u8,
    ;
    assert(b == byte / 16) by (bit_vector)
        requires
            b == byte >> 4u8,
    ;
    (b, a)
}

fn nibble(n: u8) -> (r: char)
    requires
        n < 16,
    ensures
        r == nibble_char(n),
{
    if n < 10 {
        (48 + n) as char
    } else {
        (87 + n) as char
    }
}

impl View for Hash {
    type V = Seq<u8>;

    open spec fn view(&self) -> Seq<u8> {
        self.0@
    }
}

impl Hash {
    /// A random identifier.
    pub fn random() -> (r: Hash)
        ensures
            r@.len() == 20,
    {
        Hash(random_bytes())
    }

    /// The identifier that 40 hexadecimal digits denote; more digits are
    /// accepted and the bytes after the first 20 ignored.
    pub fn from_str(string: String) -> (r: Result<Hash, ParseError>)
        ensures
            ({
                let t = crate::bittorrent::bencode::str_bytes(string);
                &&& r is Ok <==> is_hex_text(t) && t.len() >= 40
                &&& r matches Ok(h) ==> h@ == hex_bytes(t).subrange(0, 20)
                &&& (is_hex_text(t) && t.len() < 40) ==> (r matches Err(e) && e is Parse
                    && e.message() == "String must be 40 hex digits: "@ + string@)
                &&& !is_hex_text(t) ==> (r matches Err(e) && e is Parse)
            }),
    {
        match from_hex(string.as_str()) {
            Ok(vec) => {
                if vec.len() >= 20 {
                    let mut arr: [u8; 20] = [0u8; 20];
                    let mut k: usize = 0;
                    while k < 20
                        invariant
                            k <= 20,
                            vec@.len() >= 20,
                            forall|q: int| 0 <= q < k ==> arr@[q] == vec@[q],
                        decreases 20 - k,
                    {
                        arr[k] = vec[k];
                        k = k + 1;
                    }
                    assert(arr@ =~= vec@.subrange(0, 20));
                    Ok(Hash(arr))
                } else {
                    let msg = concat("String must be 40 hex digits: ".to_string(), string.as_str());
                    Err(ParseError::Parse(msg))
                }
            },
            Err(text) => {
                let msg = concat("String is not a hex string: ".to_string(), text.as_str());
                Err(ParseError::Parse(msg))
            },
        }
    }

    /// The identifier as 40 lowercase hexadecimal digits.
    pub fn to_hex_string(&self) -> (r: String)
        ensures
            r@ == hex_text(self@),
    {
        let mut out = String::new();
        let mut k: usize = 0;
        while k < 20
            invariant
                k <= 20,
                self.0@.len() == 20,
                out@ == hex_text(self.0@.subrange(0, k as int)),
            decreases 20 - k,
        {
            let (b, a) = byte_to_nibbles(self.0[k]);
            out = push_char(out, nibble(b));
            out = push_char(out, nibble(a));
            proof {
                let s = self.0@.subrange(0, k + 1);
                assert(s.drop_last() =~= self.0@.subrange(0, k as int));
            }
            k = k + 1;
        }
        assert(self.0@.subrange(0, 20) =~= self.0@);
        out
    }
}

/// The hexadecimal text of a hash reads back as that hash: `to_hex_string`
/// gives 40 hexadecimal digits, on which `from_str` succeeds with the same
/// bytes.
pub proof fn lemma_hash_text_roundtrip(h: Hash)
    ensures
        is_hex_text(vstd::utf8::encode_utf8(hex_text(h@))),
        vstd::utf8::encode_utf8(hex_text(h@)).len() == 40,
        hex_bytes(vstd::utf8::encode_utf8(hex_text(h@))).subrange(0, 20) == h@,
{
    lemma_hex_roundtrip(h@);
    assert(hex_bytes(vstd::utf8::encode_utf8(hex_text(h@))).subrange(0, 20) =~= h@);
}

} // verus!
