//! Serialization of values to bencoded bytes.
use vstd::prelude::*;
use crate::bittorrent::bencode::{
    bval, bval_dict, bval_list, bytes_equal, bytes_less, bytes_lt, canon, canon_entries, canon_list,
    dict_sorted, enc, enc_bytes, enc_dict, enc_list, lemma_bval_dict_push, lemma_dict_insert_at,
    spec_decimal, spec_int_text, str_bytes, BVal, BencodeT,
};

verus! {

/// Bencodes `bencobj`.
///
/// Dictionary entries are written in ascending key order, each key once
/// (the last value held for a key), whatever order they are held in.
pub fn encode(bencobj: &BencodeT) -> (r: Vec<u8>)
    ensures
        r@ == enc(canon(bencobj@)),
    decreases bencobj,
{
    match bencobj {
        BencodeT::String(string) => encode_string(string.as_str()),
        BencodeT::Integer(value) => encode_int(*value),
        BencodeT::Dictionary(hm) => {
            proof {
                assert(decreases_to!(*bencobj => bencobj->Dictionary_0));
            }
            encode_dic(hm)
        },
        BencodeT::List(vec) => {
            proof {
                assert(decreases_to!(*bencobj => bencobj->List_0));
            }
            encode_list(vec)
        },
        BencodeT::ByteString(vec) => encode_bstring(vec.as_slice()),
    }
}

/// Bencodes a string: the length of its UTF-8 bytes, `:`, then the bytes.
pub fn encode_string(instring: &str) -> (r: Vec<u8>)
    ensures
        r@ == enc_bytes(vstd::utf8::encode_utf8(instring@)),
{
    encode_bstring(instring.as_bytes())
}

/// Decimal digits of `n`.
pub fn decimal_bytes(n: u64) -> (r: Vec<u8>)
    ensures
        r@ == spec_decimal(n as nat),
    decreases n,
{
    if n < 10 {
        let mut v: Vec<u8> = Vec::new();
        v.push((48 + n) as u8);
        v
    } else {
        let mut v = decimal_bytes(n / 10);
        v.push((48 + n % 10) as u8);
        v
    }
}

/// Bencodes an integer: `i`, its decimal text, `e`.
pub fn encode_int(value: i64) -> (r: Vec<u8>)
    ensures
        r@ == seq![105u8] + spec_int_text(value as int) + seq![101u8],
{
    let mut vec: Vec<u8> = Vec::new();
    vec.push(105u8);
    if value < 0 {
        vec.push(45u8);
        let magnitude: u64 = (-(value as i128)) as u64;
        let mut digits = decimal_bytes(magnitude);
        vec.append(&mut digits);
    } else {
        let mut digits = decimal_bytes(value as u64);
        vec.append(&mut digits);
    }
    vec.push(101u8);
    assert(vec@ =~= seq![105u8] + spec_int_text(value as int) + seq![101u8]);
    vec
}

/// The entries of `hm` at the positions `idx`: keys as bytes, values as
/// bencoding writes them.
pub open spec fn entries_at(hm: Seq<(String, BencodeT)>, idx: Seq<usize>) -> Seq<(Seq<u8>, BVal)> {
    Seq::new(idx.len(), |q: int| (str_bytes(hm[idx[q] as int].0), canon(bval(hm[idx[q] as int].1))))
}

/// The positions of the entries of `hm` in the order bencoding writes them:
/// ascending key order, one position (the last) for each key.
pub fn sorted_positions(hm: &Vec<(String, BencodeT)>) -> (r: Vec<usize>)
    ensures
        forall|q: int| 0 <= q < r@.len() ==> #[trigger] r@[q] < hm@.len(),
        entries_at(hm@, r@) == dict_sorted(canon_entries(bval_dict(hm@))),
{
    let mut r: Vec<usize> = Vec::new();
    let mut k: usize = 0;
    assert(entries_at(hm@, r@) =~= dict_sorted(canon_entries(bval_dict(hm@.subrange(0, 0)))));
    while k < hm.len()
        invariant
            k <= hm.len(),
            forall|q: int| 0 <= q < r@.len() ==> #[trigger] r@[q] < k,
            entries_at(hm@, r@) == dict_sorted(canon_entries(bval_dict(hm@.subrange(0, k as int)))),
        decreases hm.len() - k,
    {
        let ghost d = entries_at(hm@, r@);
        let ghost key = str_bytes(hm@[k as int].0);
        let ghost val = canon(bval(hm@[k as int].1));
        let mut p: usize = 0;
        while p < r.len() && bytes_less(hm[r[p]].0.as_str().as_bytes(), hm[k].0.as_str().as_bytes())
            invariant
                p <= r@.len(),
                d == entries_at(hm@, r@),
                k < hm@.len(),
                key == str_bytes(hm@[k as int].0),
                forall|q: int| 0 <= q < r@.len() ==> #[trigger] r@[q] < k,
                forall|q: int| 0 <= q < p ==> bytes_lt(#[trigger] d[q].0, key),
            decreases r@.len() - p,
        {
            p = p + 1;
        }
        let same = p < r.len() && bytes_equal(hm[r[p]].0.as_str().as_bytes(), hm[k].0.as_str().as_bytes());
        proof {
            lemma_dict_insert_at(d, key, val, p as int);
            let s = hm@.subrange(0, k as int);
            let e = hm@[k as int];
            assert(hm@.subrange(0, k + 1) =~= s.push(e));
            lemma_bval_dict_push(s, e);
            let b = bval_dict(s);
            let be = (str_bytes(e.0), bval(e.1));
            assert(b.push(be).subrange(0, b.len() as int) =~= b);
            let c = canon_entries(b);
            assert(canon_entries(b.push(be)) == c.push((key, val)));
            assert(c.push((key, val)).drop_last() =~= c);
        }
        if same {
            r.set(p, k);
            proof {
                assert(entries_at(hm@, r@) =~= d.update(p as int, (key, val)));
            }
        } else {
            r.insert(p, k);
            proof {
                assert(entries_at(hm@, r@) =~= d.insert(p as int, (key, val)));
            }
        }
        k = k + 1;
    }
    assert(hm@.subrange(0, hm.len() as int) =~= hm@);
    r
}

/// Bencodes a dictionary: `d`, each key and value in ascending key order
/// (each key once, with the last value held for it), `e`.
pub fn encode_dic(hm: &Vec<(String, BencodeT)>) -> (r: Vec<u8>)
    ensures
        r@ == seq![100u8] + enc_dict(dict_sorted(canon_entries(bval_dict(hm@)))) + seq![101u8],
    decreases hm,
{
    let order = sorted_positions(hm);
    let ghost d = entries_at(hm@, order@);
    let mut vec: Vec<u8> = Vec::new();
    vec.push(100u8);
    let mut j: usize = 0;
    while j < order.len()
        invariant
            j <= order@.len(),
            d == entries_at(hm@, order@),
            forall|q: int| 0 <= q < order@.len() ==> #[trigger] order@[q] < hm@.len(),
            vec@ == seq![100u8] + enc_dict(d.subrange(0, j as int)),
        decreases order@.len() - j,
    {
        let at = order[j];
        let mut key = encode_string(hm[at].0.as_str());
        proof {
            assert(decreases_to!(*hm => hm@));
            assert(decreases_to!(hm@ => hm@[at as int]));
            assert(decreases_to!(hm@[at as int] => hm@[at as int].1));
        }
        let mut value = encode(&hm[at].1);
        proof {
            let t = d.subrange(0, j + 1);
            assert(t.subrange(0, j as int) =~= d.subrange(0, j as int));
            assert(t[j as int] == d[j as int]);
        }
        vec.append(&mut key);
        vec.append(&mut value);
        j = j + 1;
        assert(vec@ =~= seq![100u8] + enc_dict(d.subrange(0, j as int)));
    }
    vec.push(101u8);
    assert(d.subrange(0, order@.len() as int) =~= d);
    assert(vec@ =~= seq![100u8] + enc_dict(d) + seq![101u8]);
    vec
}

/// Bencodes a list: `l`, each item, `e`.
pub fn encode_list(list: &Vec<BencodeT>) -> (r: Vec<u8>)
    ensures
        r@ == seq![108u8] + enc_list(canon_list(bval_list(list@))) + seq![101u8],
    decreases list,
{
    let mut vec: Vec<u8> = Vec::new();
    vec.push(108u8);
    let mut k: usize = 0;
    while k < list.len()
        invariant
            k <= list.len(),
            vec@ == seq![108u8] + enc_list(canon_list(bval_list(list@.subrange(0, k as int)))),
        decreases list.len() - k,
    {
        proof {
            assert(decreases_to!(*list => list@));
            assert(decreases_to!(list@ => list@[k as int]));
        }
        let mut item = encode(&list[k]);
        proof {
            let s = list@.subrange(0, k as int);
            assert(list@.subrange(0, k as int + 1) =~= s.push(list@[k as int]));
            crate::bittorrent::bencode::lemma_bval_list_push(s, list@[k as int]);
            let b = bval_list(s);
            let bl = b.push(bval(list@[k as int]));
            assert(bl.subrange(0, b.len() as int) =~= b);
            let c = canon_list(b);
            assert(canon_list(bl) == c.push(canon(bval(list@[k as int]))));
            assert(c.push(canon(bval(list@[k as int]))).subrange(0, c.len() as int) =~= c);
        }
        vec.append(&mut item);
        k = k + 1;
        assert(vec@ =~= seq![108u8] + enc_list(canon_list(bval_list(list@.subrange(0, k as int)))));
    }
    vec.push(101u8);
    assert(list@.subrange(0, list.len() as int) =~= list@);
    assert(vec@ =~= seq![108u8] + enc_list(canon_list(bval_list(list@))) + seq![101u8]);
    vec
}

/// Bencodes a byte string: its length, `:`, then the bytes.
pub fn encode_bstring(slice: &[u8]) -> (r: Vec<u8>)
    ensures
        r@ == enc_bytes(slice@),
{
    let mut vec = decimal_bytes(slice.len() as u64);
    vec.push(58u8);
    let mut rest = vstd::slice::slice_to_vec(slice);
    vec.append(&mut rest);
    assert(vec@ =~= enc_bytes(slice@));
    vec
}

} // verus!
