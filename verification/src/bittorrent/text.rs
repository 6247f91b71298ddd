//! Building the text of messages.
use vstd::prelude::*;
use crate::bittorrent::bencode::{
    bval, bval_dict, bval_list, lemma_bval_dict_len, lemma_bval_dict_push, lemma_bval_list_len,
    lemma_bval_list_push, spec_decimal, spec_int_text, BVal, BencodeT,
};
use crate::bittorrent::bencoder::decimal_bytes;

verus! {

/// What `format!("{:?}", c)` gives for a character.
pub uninterp spec fn char_debug_text(c: char) -> Seq<char>;

/// The decimal texts of the bytes of `b`, separated by `, `.
pub open spec fn decimals_joined(b: Seq<u8>) -> Seq<char>
    decreases b.len(),
{
    if b.len() == 0 {
        Seq::empty()
    } else if b.len() == 1 {
        decimal_chars(b[0] as nat)
    } else {
        decimals_joined(b.drop_last()) + ", "@ + decimal_chars(b.last() as nat)
    }
}

/// The `Debug` text of a byte slice, as `format!("{:?}", b)` writes it:
/// the decimal bytes between `[` and `]`, separated by `, `.
pub open spec fn bytes_debug_text(b: Seq<u8>) -> Seq<char> {
    "["@ + decimals_joined(b) + "]"@
}

/// Characters of ASCII bytes.
pub open spec fn ascii_chars(b: Seq<u8>) -> Seq<char> {
    Seq::new(b.len(), |i: int| b[i] as char)
}

/// Decimal text of a natural number, as characters.
pub open spec fn decimal_chars(n: nat) -> Seq<char> {
    ascii_chars(spec_decimal(n))
}

/// `a` followed by `b`.
pub fn concat(a: String, b: &str) -> (r: String)
    ensures
        r@ == a@ + b@,
{
    a.concat(b)
}

/// Appends one character to `a` (std's `String::push`).
#[verifier::external_body]
pub(crate) fn push_char(a: String, c: char) -> (r: String)
    ensures
        r@ == a@.push(c),
{
    let mut a = a;
    a.push(c);
    a
}

/// The `Debug` text of a character (std's `format!("{:?}", c)`): claimed to
/// be `char_debug_text` of it, a name that is not spelled out.
#[verifier::external_body]
pub(crate) fn char_debug(c: char) -> (r: String)
    ensures
        r@ == char_debug_text(c),
{
    format!("{:?}", c)
}

/// The `Debug` text of a byte slice: the decimal bytes between `[` and
/// `]`, separated by `, `.
pub fn bytes_debug(b: &[u8]) -> (r: String)
    ensures
        r@ == bytes_debug_text(b@),
{
    let mut out = "[".to_string();
    let mut k: usize = 0;
    while k < b.len()
        invariant
            k <= b.len(),
            out@ == "["@ + decimals_joined(b@.subrange(0, k as int)),
        decreases b.len() - k,
    {
        let ghost before = b@.subrange(0, k as int);
        if k > 0 {
            out = concat(out, ", ");
        }
        out = push_decimal(out, b[k] as u64);
        proof {
            let now = b@.subrange(0, k + 1);
            assert(now.drop_last() =~= before);
            if k == 0 {
                assert(before =~= Seq::<u8>::empty());
            }
        }
        k = k + 1;
        assert(out@ =~= "["@ + decimals_joined(b@.subrange(0, k as int)));
    }
    assert(b@.subrange(0, b.len() as int) =~= b@);
    concat(out, "]")
}

/// `a` followed by the characters of the ASCII bytes `b`.
pub fn push_ascii(a: String, b: &[u8]) -> (r: String)
    ensures
        r@ == a@ + ascii_chars(b@),
{
    let mut out = a;
    let mut k: usize = 0;
    while k < b.len()
        invariant
            k <= b.len(),
            out@ == a@ + ascii_chars(b@.subrange(0, k as int)),
        decreases b.len() - k,
    {
        out = push_char(out, b[k] as char);
        k = k + 1;
        assert(out@ =~= a@ + ascii_chars(b@.subrange(0, k as int)));
    }
    assert(b@.subrange(0, b.len() as int) =~= b@);
    out
}

/// `a` followed by the decimal text of `n`.
pub fn push_decimal(a: String, n: u64) -> (r: String)
    ensures
        r@ == a@ + decimal_chars(n as nat),
{
    let digits = decimal_bytes(n);
    push_ascii(a, digits.as_slice())
}

/// What `format!("{:?}", s)` gives for a string slice.
pub uninterp spec fn str_debug_text(s: Seq<char>) -> Seq<char>;

/// The `Debug` text of a string slice (std's `format!("{:?}", s)`, which
/// quotes and escapes it): claimed to be `str_debug_text` of its characters,
/// a name that is not spelled out.
#[verifier::external_body]
pub(crate) fn str_debug(s: &str) -> (r: String)
    ensures
        r@ == str_debug_text(s@),
{
    format!("{:?}", s)
}

/// Decimal text of an integer, with a leading `-` when negative.
pub open spec fn int_debug_text(i: int) -> Seq<char> {
    ascii_chars(spec_int_text(i))
}

/// The `Debug` text of a decoded value, as `format!("{:?}", v)` writes it
/// for `BencodeT`: the variant's name and its field in brackets.
pub open spec fn bencode_debug_text(v: BVal) -> Seq<char>
    decreases v,
{
    match v {
        BVal::Str(b) => "String("@ + str_debug_text(vstd::utf8::decode_utf8(b)) + ")"@,
        BVal::Int(i) => "Integer("@ + int_debug_text(i) + ")"@,
        BVal::Bytes(b) => "ByteString("@ + bytes_debug_text(b) + ")"@,
        BVal::List(l) => "List(["@ + list_debug_text(l) + "])"@,
        BVal::Dict(d) => "Dictionary(["@ + entries_debug_text(d) + "])"@,
    }
}

/// The `Debug` texts of list items, separated by `, `.
pub open spec fn list_debug_text(s: Seq<BVal>) -> Seq<char>
    decreases s,
{
    if s.len() == 0 {
        Seq::empty()
    } else if s.len() == 1 {
        bencode_debug_text(s[0])
    } else {
        list_debug_text(s.subrange(0, s.len() - 1)) + ", "@ + bencode_debug_text(s[s.len() - 1])
    }
}

/// The `Debug` texts of dictionary entries, each `(key, value)`, separated by `, `.
pub open spec fn entries_debug_text(s: Seq<(Seq<u8>, BVal)>) -> Seq<char>
    decreases s,
{
    if s.len() == 0 {
        Seq::empty()
    } else if s.len() == 1 {
        "("@ + str_debug_text(vstd::utf8::decode_utf8(s[0].0)) + ", "@ + bencode_debug_text(s[0].1) + ")"@
    } else {
        entries_debug_text(s.subrange(0, s.len() - 1)) + ", "@ + ("("@ + str_debug_text(
            vstd::utf8::decode_utf8(s[s.len() - 1].0),
        ) + ", "@ + bencode_debug_text(s[s.len() - 1].1) + ")"@)
    }
}

/// The decimal text of an integer.
pub fn int_text(i: i64) -> (r: String)
    ensures
        r@ == int_debug_text(i as int),
{
    if i < 0 {
        let out = push_char(String::new(), '-');
        let magnitude: u64 = (-(i as i128)) as u64;
        let r = push_decimal(out, magnitude);
        proof {
            assert(('-' as u8) == 45u8);
            assert(ascii_chars(seq![45u8] + spec_decimal(magnitude as nat)) =~= seq!['-'] + decimal_chars(
                magnitude as nat,
            ));
            assert(r@ =~= seq!['-'] + decimal_chars(magnitude as nat));
        }
        r
    } else {
        let r = push_decimal(String::new(), i as u64);
        assert(r@ =~= decimal_chars(i as nat));
        r
    }
}

/// The `Debug` text of a decoded value, as `format!("{:?}", b)` writes it.
pub fn bencode_debug(b: &BencodeT) -> (r: String)
    ensures
        r@ == bencode_debug_text(b@),
    decreases b,
{
    match b {
        BencodeT::String(s) => {
            proof {
                vstd::utf8::encode_utf8_decode_utf8(s@);
            }
            let out = concat("String(".to_string(), str_debug(s.as_str()).as_str());
            concat(out, ")")
        },
        BencodeT::Integer(i) => {
            let out = concat("Integer(".to_string(), int_text(*i).as_str());
            concat(out, ")")
        },
        BencodeT::ByteString(v) => {
            let out = concat("ByteString(".to_string(), bytes_debug(v.as_slice()).as_str());
            concat(out, ")")
        },
        BencodeT::List(l) => {
            let mut out = "List([".to_string();
            let mut k: usize = 0;
            while k < l.len()
                invariant
                    k <= l.len(),
                    *b == BencodeT::List(*l),
                    out@ == "List(["@ + list_debug_text(bval_list(l@.subrange(0, k as int))),
                decreases l.len() - k,
            {
                proof {
                    assert(decreases_to!(*b => b->List_0));
                    assert(decreases_to!(*l => l@));
                    assert(decreases_to!(l@ => l@[k as int]));
                }
                let ghost t = bval_list(l@.subrange(0, k as int));
                if k > 0 {
                    out = concat(out, ", ");
                }
                let item = bencode_debug(&l[k]);
                out = concat(out, item.as_str());
                proof {
                    let s = l@.subrange(0, k as int);
                    assert(l@.subrange(0, k + 1) =~= s.push(l@[k as int]));
                    lemma_bval_list_push(s, l@[k as int]);
                    lemma_bval_list_len(s);
                    let x = bval(l@[k as int]);
                    let u = t.push(x);
                    assert(u.subrange(0, t.len() as int) =~= t);
                    assert(u[u.len() - 1] == x);
                    if k == 0 {
                        assert(u[0] == x);
                    }
                }
                k = k + 1;
                assert(out@ =~= "List(["@ + list_debug_text(bval_list(l@.subrange(0, k as int))));
            }
            assert(l@.subrange(0, l.len() as int) =~= l@);
            concat(out, "])")
        },
        BencodeT::Dictionary(d) => {
            let mut out = "Dictionary([".to_string();
            let mut k: usize = 0;
            while k < d.len()
                invariant
                    k <= d.len(),
                    *b == BencodeT::Dictionary(*d),
                    out@ == "Dictionary(["@ + entries_debug_text(bval_dict(d@.subrange(0, k as int))),
                decreases d.len() - k,
            {
                proof {
                    assert(decreases_to!(*b => b->Dictionary_0));
                    assert(decreases_to!(*d => d@));
                    assert(decreases_to!(d@ => d@[k as int]));
                    assert(decreases_to!(d@[k as int] => d@[k as int].1));
                }
                let ghost t = bval_dict(d@.subrange(0, k as int));
                if k > 0 {
                    out = concat(out, ", ");
                }
                proof {
                    vstd::utf8::encode_utf8_decode_utf8(d@[k as int].0@);
                }
                out = concat(out, "(");
                out = concat(out, str_debug(d[k].0.as_str()).as_str());
                out = concat(out, ", ");
                let value = bencode_debug(&d[k].1);
                out = concat(out, value.as_str());
                out = concat(out, ")");
                proof {
                    let s = d@.subrange(0, k as int);
                    assert(d@.subrange(0, k + 1) =~= s.push(d@[k as int]));
                    lemma_bval_dict_push(s, d@[k as int]);
                    lemma_bval_dict_len(s);
                    let x = (crate::bittorrent::bencode::str_bytes(d@[k as int].0), bval(d@[k as int].1));
                    let u = t.push(x);
                    assert(u.subrange(0, t.len() as int) =~= t);
                    assert(u[u.len() - 1] == x);
                    if k == 0 {
                        assert(u[0] == x);
                    }
                }
                k = k + 1;
                assert(out@ =~= "Dictionary(["@ + entries_debug_text(bval_dict(d@.subrange(0, k as int))));
            }
            assert(d@.subrange(0, d.len() as int) =~= d@);
            concat(out, "])")
        },
    }
}

} // verus!
