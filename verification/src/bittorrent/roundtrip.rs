//! Decoding what was encoded gives the value back.
use vstd::prelude::*;
use vstd::utf8::valid_utf8;
use crate::bittorrent::bencode::{
    bytes_lt, canon, canon_entries, canon_list, dict_insert, dict_sorted, enc, enc_bytes, enc_dict,
    enc_list, lemma_dict_insert_at, spec_decimal, spec_int_text, BVal,
};
use crate::bittorrent::metainfo_laws::{entries_wf, lemma_insert_keeps_sorted, lemma_insert_sorted, sorted_keys};
use crate::bittorrent::bencode::{lemma_bytes_lt_asym, lemma_bytes_lt_irrefl};
use crate::bittorrent::bedecoder::{dec_dict, dec_list, dec_value, scan_digits, scan_int, spec_parse};
use crate::bittorrent::utils::{
    all_digits, digits_val, int_digits, int_text_overflows, int_text_range, int_text_value, is_digit_byte,
    is_negative_text, pow10,
};

verus! {

/// A value that bencoding represents faithfully: strings hold UTF-8, byte
/// strings do not, integers are read back from their text (see
/// `int_text_range`), and dictionary
/// keys are UTF-8 in strictly ascending byte order.
pub open spec fn wf(v: BVal) -> bool
    decreases v,
{
    match v {
        BVal::Str(b) => valid_utf8(b),
        BVal::Bytes(b) => !valid_utf8(b),
        BVal::Int(i) => int_text_range(i),
        BVal::List(l) => forall|k: int| 0 <= k < l.len() ==> wf(#[trigger] l[k]),
        BVal::Dict(d) => {
            &&& forall|k: int| 0 <= k < d.len() ==> valid_utf8(#[trigger] d[k].0)
            &&& forall|k: int| 0 <= k < d.len() ==> wf(#[trigger] d[k].1)
            &&& forall|a: int, c: int| 0 <= a < c < d.len() ==> bytes_lt(#[trigger] d[a].0, #[trigger] d[c].0)
        },
    }
}

pub proof fn lemma_decimal(n: nat)
    ensures
        spec_decimal(n).len() >= 1,
        all_digits(spec_decimal(n)),
        digits_val(spec_decimal(n)) == n,
    decreases n,
{
    assert(digits_val(Seq::<u8>::empty()) == 0);
    if n < 10 {
        assert(spec_decimal(n).drop_last() =~= Seq::<u8>::empty());
    } else {
        lemma_decimal(n / 10);
        let s = spec_decimal(n);
        assert(s.drop_last() =~= spec_decimal(n / 10));
        assert(n == (n / 10) * 10 + n % 10) by (nonlinear_arith);
        assert(s.last() == (48 + n % 10) as u8);
        assert((s.last() - 48) as nat == n % 10);
        assert(digits_val(s) == digits_val(s.drop_last()) * 10 + (s.last() - 48) as nat);
        assert forall|k: int| 0 <= k < s.len() implies is_digit_byte(#[trigger] s[k]) by {
            if k < s.len() - 1 {
                assert(s[k] == spec_decimal(n / 10)[k]);
            }
        }
    }
}

proof fn lemma_decimal_len(n: nat, k: nat)
    requires
        k >= 1,
        n < pow10(k),
    ensures
        spec_decimal(n).len() <= k,
    decreases k,
{
    if n >= 10 {
        assert(k >= 2) by {
            if k == 1 {
                assert(pow10(1) == 10) by {
                    reveal_with_fuel(pow10, 2);
                }
            }
        }
        assert(n / 10 < pow10((k - 1) as nat));
        lemma_decimal_len(n / 10, (k - 1) as nat);
    }
}

proof fn lemma_scan_digits_run(b: Seq<u8>, j: int, e: int)
    requires
        0 <= j <= e < b.len(),
        forall|k: int| j <= k < e ==> is_digit_byte(#[trigger] b[k]),
        !is_digit_byte(b[e]),
    ensures
        scan_digits(b, j) == e,
    decreases e - j,
{
    if j < e {
        lemma_scan_digits_run(b, j + 1, e);
    }
}

proof fn lemma_scan_int_run(b: Seq<u8>, start: int, j: int, e: int)
    requires
        0 <= start <= j <= e < b.len(),
        start < e,
        forall|k: int| j <= k < e ==> (#[trigger] b[k] == 45 && k == start) || is_digit_byte(b[k]),
        b[e] == 101,
    ensures
        scan_int(b, start, j) == Ok::<int, crate::bittorrent::bedecoder::DecodeFault>(e),
    decreases e - j,
{
    if j < e {
        lemma_scan_int_run(b, start, j + 1, e);
    }
}

proof fn lemma_sub(b: Seq<u8>, j: int, whole: Seq<u8>, off: int, part: Seq<u8>)
    requires
        0 <= j,
        j + whole.len() <= b.len(),
        b.subrange(j, j + whole.len()) == whole,
        0 <= off,
        off + part.len() <= whole.len(),
        whole.subrange(off, off + part.len()) == part,
    ensures
        b.subrange(j + off, j + off + part.len()) == part,
{
    assert forall|k: int| 0 <= k < part.len() implies b.subrange(j + off, j + off + part.len())[k]
        == part[k] by {
        assert(b[j + off + k] == b.subrange(j, j + whole.len())[off + k]);
        assert(whole[off + k] == whole.subrange(off, off + part.len())[k]);
    }
    assert(b.subrange(j + off, j + off + part.len()) =~= part);
}

proof fn lemma_enc_list_front(s: Seq<BVal>)
    requires
        s.len() > 0,
    ensures
        enc_list(s) == enc(s[0]) + enc_list(s.subrange(1, s.len() as int)),
    decreases s.len(),
{
    if s.len() == 1 {
        assert(s.subrange(0, 0) =~= Seq::<BVal>::empty());
        assert(s.subrange(1, 1) =~= Seq::<BVal>::empty());
        assert(enc_list(s) =~= enc(s[0]) + enc_list(s.subrange(1, s.len() as int)));
    } else {
        let init = s.subrange(0, s.len() - 1);
        lemma_enc_list_front(init);
        assert(init.subrange(1, init.len() as int) =~= s.subrange(1, s.len() as int).subrange(
            0,
            s.len() - 2,
        ));
        let t = s.subrange(1, s.len() as int);
        assert(t[t.len() - 1] == s[s.len() - 1]);
        assert(enc_list(s) =~= enc(s[0]) + enc_list(t));
    }
}

proof fn lemma_enc_dict_front(s: Seq<(Seq<u8>, BVal)>)
    requires
        s.len() > 0,
    ensures
        enc_dict(s) == enc_bytes(s[0].0) + enc(s[0].1) + enc_dict(s.subrange(1, s.len() as int)),
    decreases s.len(),
{
    if s.len() == 1 {
        assert(s.subrange(0, 0) =~= Seq::<(Seq<u8>, BVal)>::empty());
        assert(s.subrange(1, 1) =~= Seq::<(Seq<u8>, BVal)>::empty());
        assert(enc_dict(s) =~= enc_bytes(s[0].0) + enc(s[0].1) + enc_dict(
            s.subrange(1, s.len() as int),
        ));
    } else {
        let init = s.subrange(0, s.len() - 1);
        lemma_enc_dict_front(init);
        assert(init.subrange(1, init.len() as int) =~= s.subrange(1, s.len() as int).subrange(
            0,
            s.len() - 2,
        ));
        let t = s.subrange(1, s.len() as int);
        assert(t[t.len() - 1] == s[s.len() - 1]);
        assert(enc_dict(s) =~= enc_bytes(s[0].0) + enc(s[0].1) + enc_dict(t));
    }
}

proof fn lemma_enc_first(v: BVal)
    ensures
        enc(v).len() > 0,
        enc(v)[0] != 101,
        (v is Str || v is Bytes) ==> is_digit_byte(enc(v)[0]),
        crate::bittorrent::bedecoder::starts_value(enc(v)[0]),
{
    match v {
        BVal::Str(b) => {
            lemma_decimal(b.len());
            assert(enc(v)[0] == spec_decimal(b.len())[0]);
        },
        BVal::Bytes(b) => {
            lemma_decimal(b.len());
            assert(enc(v)[0] == spec_decimal(b.len())[0]);
        },
        _ => {},
    }
}

proof fn lemma_dec_bytes(b: Seq<u8>, i: int, c: Seq<u8>)
    requires
        0 <= i,
        i + enc_bytes(c).len() <= b.len(),
        b.subrange(i, i + enc_bytes(c).len()) == enc_bytes(c),
    ensures
        scan_digits(b, i) == i + spec_decimal(c.len()).len(),
        b[i + spec_decimal(c.len()).len()] == 58,
        digits_val(b.subrange(i, i + spec_decimal(c.len()).len())) == c.len(),
        b.subrange(
            i + spec_decimal(c.len()).len() + 1,
            i + spec_decimal(c.len()).len() + 1 + c.len(),
        ) == c,
{
    let d = spec_decimal(c.len());
    lemma_decimal(c.len());
    let e = i + d.len();
    assert forall|k: int| i <= k < e implies is_digit_byte(#[trigger] b[k]) by {
        assert(b[k] == enc_bytes(c)[k - i]);
        assert(enc_bytes(c)[k - i] == d[k - i]);
    }
    assert(b[e] == enc_bytes(c)[d.len() as int]);
    lemma_scan_digits_run(b, i, e);
    assert(b.subrange(i, e) =~= d);
    assert(b.subrange(e + 1, e + 1 + c.len()) =~= c) by {
        assert forall|k: int| 0 <= k < c.len() implies b.subrange(e + 1, e + 1 + c.len())[k] == c[k] by {
            assert(b[e + 1 + k] == enc_bytes(c)[d.len() + 1 + k]);
        }
    }
}

proof fn lemma_dec_int(b: Seq<u8>, i: int, n: int)
    requires
        0 <= i,
        int_text_range(n),
        i + enc(BVal::Int(n)).len() <= b.len(),
        b.subrange(i, i + enc(BVal::Int(n)).len()) == enc(BVal::Int(n)),
    ensures
        dec_value(b, i) == Ok::<(BVal, int), crate::bittorrent::bedecoder::DecodeFault>(
            (BVal::Int(n), i + enc(BVal::Int(n)).len()),
        ),
{
    let t = spec_int_text(n);
    let m: nat = if n < 0 {
        (-n) as nat
    } else {
        n as nat
    };
    let d = spec_decimal(m);
    lemma_decimal(m);
    assert(pow10(19) == 10000000000000000000) by {
        reveal_with_fuel(pow10, 20);
    }
    lemma_decimal_len(m, 19);
    if m < 1_000_000_000_000_000_000 {
        assert(pow10(18) == 1_000_000_000_000_000_000) by {
            reveal_with_fuel(pow10, 19);
        }
        lemma_decimal_len(m, 18);
    }
    let big = enc(BVal::Int(n));
    assert(big =~= seq![105u8] + t + seq![101u8]);
    let e = i + 1 + t.len();
    assert(b[i] == enc(BVal::Int(n))[0]);
    assert(b[e] == enc(BVal::Int(n))[t.len() as int + 1]);
    assert forall|k: int| i + 1 <= k < e implies (#[trigger] b[k] == 45 && k == i + 1)
        || is_digit_byte(b[k]) by {
        assert(b[k] == b.subrange(i, i + big.len())[k - i]);
        assert(big[k - i] == t[k - i - 1]);
        if n < 0 {
            if k > i + 1 {
                assert(t[k - i - 1] == d[k - i - 2]);
            }
        } else {
            assert(t[k - i - 1] == d[k - i - 1]);
        }
    }
    lemma_scan_int_run(b, i + 1, i + 1, e);
    assert(b.subrange(i + 1, e) =~= t) by {
        assert forall|k: int| 0 <= k < t.len() implies b.subrange(i + 1, e)[k] == t[k] by {
            assert(b[i + 1 + k] == b.subrange(i, i + big.len())[1 + k]);
            assert(big[1 + k] == t[k]);
        }
    }
    if n < 0 {
        assert(is_negative_text(t));
        assert(int_digits(t) =~= d);
    } else {
        assert(t =~= d);
        assert(!is_negative_text(t)) by {
            assert(is_digit_byte(d[0]));
        }
    }
    assert(!int_text_overflows(t));
    assert(int_text_value(t) == n);
}

proof fn lemma_dec_text(b: Seq<u8>, i: int, c: Seq<u8>, v: BVal)
    requires
        v == BVal::Str(c) || v == BVal::Bytes(c),
        v is Str <==> valid_utf8(c),
        0 <= i,
        i + enc(v).len() <= b.len(),
        b.subrange(i, i + enc(v).len()) == enc(v),
    ensures
        dec_value(b, i) == Ok::<(BVal, int), crate::bittorrent::bedecoder::DecodeFault>(
            (v, i + enc(v).len()),
        ),
{
    assert(enc(v) == enc_bytes(c));
    assert(b[i] == enc(v)[0]);
    lemma_dec_bytes(b, i, c);
    lemma_decimal(c.len());
    assert(is_digit_byte(b[i])) by {
        assert(enc_bytes(c)[0] == spec_decimal(c.len())[0]);
    }
}

/// Decoding at `i` gives `v` back when the bytes at `i` are the encoding of `v`.
pub proof fn lemma_dec_value_enc(v: BVal, b: Seq<u8>, i: int)
    requires
        wf(v),
        0 <= i,
        i + enc(v).len() <= b.len(),
        b.subrange(i, i + enc(v).len()) == enc(v),
    ensures
        dec_value(b, i) == Ok::<(BVal, int), crate::bittorrent::bedecoder::DecodeFault>(
            (v, i + enc(v).len()),
        ),
    decreases v,
{
    assert(b[i] == enc(v)[0]);
    match v {
        BVal::Str(c) => {
            lemma_dec_text(b, i, c, v);
        },
        BVal::Bytes(c) => {
            lemma_dec_text(b, i, c, v);
        },
        BVal::Int(n) => {
            lemma_dec_int(b, i, n);
        },
        BVal::List(l) => {
            let inner = enc_list(l);
            assert(b.subrange(i + 1, i + 1 + inner.len()) =~= inner) by {
                assert forall|k: int| 0 <= k < inner.len() implies b.subrange(
                    i + 1,
                    i + 1 + inner.len(),
                )[k] == inner[k] by {
                    assert(b[i + 1 + k] == enc(v)[1 + k]);
                }
            }
            assert(b[i + 1 + inner.len()] == enc(v)[1 + inner.len() as int]);
            lemma_dec_list_enc(v, l, b, i + 1, Seq::empty());
            assert(Seq::<BVal>::empty() + l =~= l);
        },
        BVal::Dict(dd) => {
            let inner = enc_dict(dd);
            assert(b.subrange(i + 1, i + 1 + inner.len()) =~= inner) by {
                assert forall|k: int| 0 <= k < inner.len() implies b.subrange(
                    i + 1,
                    i + 1 + inner.len(),
                )[k] == inner[k] by {
                    assert(b[i + 1 + k] == enc(v)[1 + k]);
                }
            }
            assert(b[i + 1 + inner.len()] == enc(v)[1 + inner.len() as int]);
            lemma_dec_dict_enc(v, dd, b, i + 1, Seq::empty());
            assert(Seq::<(Seq<u8>, BVal)>::empty() + dd =~= dd);
        },
    }
}

proof fn lemma_dec_list_enc(top: BVal, items: Seq<BVal>, b: Seq<u8>, j: int, acc: Seq<BVal>)
    requires
        decreases_to!(top => items),
        forall|k: int| 0 <= k < items.len() ==> wf(#[trigger] items[k]),
        0 <= j,
        j + enc_list(items).len() < b.len(),
        b.subrange(j, j + enc_list(items).len()) == enc_list(items),
        b[j + enc_list(items).len()] == 101,
    ensures
        dec_list(b, j, acc) == Ok::<(BVal, int), crate::bittorrent::bedecoder::DecodeFault>(
            (BVal::List(acc + items), j + enc_list(items).len() + 1),
        ),
    decreases top, items.len(),
{
    if items.len() == 0 {
        assert(acc + items =~= acc);
    } else {
        let first = items[0];
        let rest = items.subrange(1, items.len() as int);
        lemma_enc_list_front(items);
        let fl = enc(first).len();
        assert(b.subrange(j, j + fl) =~= enc(first)) by {
            assert forall|k: int| 0 <= k < fl implies b.subrange(j, j + fl)[k] == enc(first)[k] by {
                assert(b[j + k] == enc_list(items)[k]);
            }
        }
        lemma_enc_first(first);
        assert(b[j] == enc(first)[0]);
        assert(decreases_to!(items => first));
        lemma_dec_value_enc(first, b, j);
        assert(b.subrange(j + fl, j + fl + enc_list(rest).len()) =~= enc_list(rest)) by {
            assert forall|k: int| 0 <= k < enc_list(rest).len() implies b.subrange(
                j + fl,
                j + fl + enc_list(rest).len(),
            )[k] == enc_list(rest)[k] by {
                assert(b[j + fl + k] == enc_list(items)[fl + k]);
            }
        }
        assert forall|k: int| 0 <= k < rest.len() implies wf(#[trigger] rest[k]) by {
            assert(rest[k] == items[k + 1]);
        }
        lemma_dec_list_enc(top, rest, b, j + fl, acc.push(first));
        assert(acc.push(first) + rest =~= acc + items);
    }
}

#[verifier::rlimit(50)]
proof fn lemma_dec_dict_enc(
    top: BVal,
    entries: Seq<(Seq<u8>, BVal)>,
    b: Seq<u8>,
    j: int,
    acc: Seq<(Seq<u8>, BVal)>,
)
    requires
        decreases_to!(top => entries),
        forall|k: int| 0 <= k < entries.len() ==> valid_utf8(#[trigger] entries[k].0),
        forall|k: int| 0 <= k < entries.len() ==> wf(#[trigger] entries[k].1),
        forall|a: int, c: int|
            0 <= a < c < entries.len() ==> bytes_lt(#[trigger] entries[a].0, #[trigger] entries[c].0),
        forall|a: int, c: int|
            0 <= a < acc.len() && 0 <= c < entries.len() ==> bytes_lt(
                #[trigger] acc[a].0,
                #[trigger] entries[c].0,
            ),
        0 <= j,
        j + enc_dict(entries).len() < b.len(),
        b.subrange(j, j + enc_dict(entries).len()) == enc_dict(entries),
        b[j + enc_dict(entries).len()] == 101,
    ensures
        dec_dict(b, j, acc) == Ok::<(BVal, int), crate::bittorrent::bedecoder::DecodeFault>(
            (BVal::Dict(acc + entries), j + enc_dict(entries).len() + 1),
        ),
    decreases top, entries.len(),
{
    if entries.len() == 0 {
        assert(acc + entries =~= acc);
    } else {
        let key = entries[0].0;
        let val = entries[0].1;
        let rest = entries.subrange(1, entries.len() as int);
        lemma_enc_dict_front(entries);
        let kb = enc_bytes(key);
        let vb = enc(val);
        let rb = enc_dict(rest);
        let kl = kb.len() as int;
        let vl = vb.len() as int;
        let rl = rb.len() as int;
        let whole = enc_dict(entries);
        assert(whole =~= kb + vb + rb);
        assert(whole.subrange(0, kl) =~= kb);
        assert(whole.subrange(kl, kl + vl) =~= vb);
        assert(whole.subrange(kl + vl, kl + vl + rl) =~= rb);
        lemma_sub(b, j, whole, 0, kb);
        lemma_sub(b, j, whole, kl, vb);
        lemma_sub(b, j, whole, kl + vl, rb);
        assert(enc(BVal::Str(key)) == kb);
        lemma_dec_text(b, j, key, BVal::Str(key));
        assert(decreases_to!(entries => entries[0]));
        assert(decreases_to!(entries[0] => entries[0].1));
        lemma_dec_value_enc(val, b, j + kl);
        let m = j + kl + vl;
        lemma_enc_first(val);
        lemma_dict_step(acc, entries, key, val);
        let acc2 = acc.push((key, val));
        lemma_dict_rest(acc, entries);
        lemma_dec_dict_enc(top, rest, b, m, acc2);
        assert(acc2 + rest =~= acc + entries);
    }
}

proof fn lemma_dict_step(
    acc: Seq<(Seq<u8>, BVal)>,
    entries: Seq<(Seq<u8>, BVal)>,
    key: Seq<u8>,
    val: BVal,
)
    requires
        entries.len() > 0,
        entries[0] == (key, val),
        forall|a: int, c: int|
            0 <= a < acc.len() && 0 <= c < entries.len() ==> bytes_lt(
                #[trigger] acc[a].0,
                #[trigger] entries[c].0,
            ),
    ensures
        dict_insert(acc, key, val) == acc.push((key, val)),
{
    assert forall|q: int| 0 <= q < acc.len() implies bytes_lt(#[trigger] acc[q].0, key) by {
        assert(bytes_lt(acc[q].0, entries[0].0));
    }
    lemma_dict_insert_at(acc, key, val, acc.len() as int);
    assert(acc.insert(acc.len() as int, (key, val)) =~= acc.push((key, val)));
}

proof fn lemma_dict_rest(acc: Seq<(Seq<u8>, BVal)>, entries: Seq<(Seq<u8>, BVal)>)
    requires
        entries.len() > 0,
        forall|k: int| 0 <= k < entries.len() ==> valid_utf8(#[trigger] entries[k].0),
        forall|k: int| 0 <= k < entries.len() ==> wf(#[trigger] entries[k].1),
        forall|a: int, c: int|
            0 <= a < c < entries.len() ==> bytes_lt(#[trigger] entries[a].0, #[trigger] entries[c].0),
        forall|a: int, c: int|
            0 <= a < acc.len() && 0 <= c < entries.len() ==> bytes_lt(
                #[trigger] acc[a].0,
                #[trigger] entries[c].0,
            ),
    ensures
        ({
            let rest = entries.subrange(1, entries.len() as int);
            let acc2 = acc.push(entries[0]);
            &&& forall|k: int| 0 <= k < rest.len() ==> valid_utf8(#[trigger] rest[k].0)
            &&& forall|k: int| 0 <= k < rest.len() ==> wf(#[trigger] rest[k].1)
            &&& forall|a: int, c: int|
                0 <= a < c < rest.len() ==> bytes_lt(#[trigger] rest[a].0, #[trigger] rest[c].0)
            &&& forall|a: int, c: int|
                0 <= a < acc2.len() && 0 <= c < rest.len() ==> bytes_lt(
                    #[trigger] acc2[a].0,
                    #[trigger] rest[c].0,
                )
        }),
{
    let rest = entries.subrange(1, entries.len() as int);
    let acc2 = acc.push(entries[0]);
    assert forall|k: int| 0 <= k < rest.len() implies valid_utf8(#[trigger] rest[k].0) by {
        assert(rest[k] == entries[k + 1]);
    }
    assert forall|k: int| 0 <= k < rest.len() implies wf(#[trigger] rest[k].1) by {
        assert(rest[k] == entries[k + 1]);
    }
    assert forall|a: int, c: int| 0 <= a < c < rest.len() implies bytes_lt(
        #[trigger] rest[a].0,
        #[trigger] rest[c].0,
    ) by {
        assert(rest[a] == entries[a + 1]);
        assert(rest[c] == entries[c + 1]);
    }
    assert forall|a: int, c: int| 0 <= a < acc2.len() && 0 <= c < rest.len() implies bytes_lt(
        #[trigger] acc2[a].0,
        #[trigger] rest[c].0,
    ) by {
        assert(rest[c] == entries[c + 1]);
        if a < acc.len() {
            assert(acc2[a] == acc[a]);
            assert(bytes_lt(acc[a].0, entries[c + 1].0));
        } else {
            assert(acc2[a] == entries[0]);
            assert(bytes_lt(entries[0].0, entries[c + 1].0));
        }
    }
}

/// Decoding the bencoding of a well-formed value gives the value back.
proof fn lemma_parse_enc_wf(v: BVal)
    requires
        wf(v),
    ensures
        spec_parse(enc(v)) == Ok::<BVal, crate::bittorrent::bedecoder::DecodeFault>(v),
{
    assert(enc(v).subrange(0, enc(v).len() as int) =~= enc(v));
    lemma_enc_first(v);
    lemma_dec_value_enc(v, enc(v), 0);
}

/// Entries already in ascending key order are left as they are.
pub proof fn lemma_dict_sorted_id(d: Seq<(Seq<u8>, BVal)>)
    requires
        sorted_keys(d),
    ensures
        dict_sorted(d) == d,
    decreases d.len(),
{
    if d.len() > 0 {
        let t = d.drop_last();
        assert(sorted_keys(t)) by {
            assert forall|a: int, c: int| 0 <= a < c < t.len() implies bytes_lt(#[trigger] t[a].0, #[trigger] t[c].0) by {
                assert(t[a] == d[a] && t[c] == d[c]);
            }
        }
        lemma_dict_sorted_id(t);
        assert forall|q: int| 0 <= q < t.len() implies bytes_lt(#[trigger] t[q].0, d.last().0) by {
            assert(t[q] == d[q]);
        }
        lemma_dict_insert_at(t, d.last().0, d.last().1, t.len() as int);
        assert(t.insert(t.len() as int, (d.last().0, d.last().1)) =~= d);
    }
}

/// Putting entries into a dictionary one after another gives keys in
/// ascending order, and keeps keys UTF-8 and values well formed.
pub proof fn lemma_dict_sorted_wf(d: Seq<(Seq<u8>, BVal)>)
    requires
        entries_wf(d),
    ensures
        sorted_keys(dict_sorted(d)),
        entries_wf(dict_sorted(d)),
    decreases d.len(),
{
    if d.len() > 0 {
        let t = d.drop_last();
        assert(entries_wf(t)) by {
            assert forall|k: int| 0 <= k < t.len() implies valid_utf8(#[trigger] t[k].0) && wf(t[k].1) by {
                assert(t[k] == d[k]);
            }
        }
        lemma_dict_sorted_wf(t);
        assert(valid_utf8(d[d.len() - 1].0) && wf(d[d.len() - 1].1));
        lemma_insert_sorted(dict_sorted(t), d.last().0, d.last().1);
    }
}

/// A well-formed value is its own [`canon`].
pub proof fn lemma_canon_wf(v: BVal)
    requires
        wf(v),
    ensures
        canon(v) == v,
    decreases v,
{
    match v {
        BVal::List(l) => {
            lemma_canon_list_wf(l);
        },
        BVal::Dict(d) => {
            lemma_canon_entries_wf(d);
            lemma_dict_sorted_id(d);
        },
        _ => {},
    }
}

proof fn lemma_canon_list_wf(s: Seq<BVal>)
    requires
        forall|k: int| 0 <= k < s.len() ==> wf(#[trigger] s[k]),
    ensures
        canon_list(s) == s,
    decreases s,
{
    if s.len() > 0 {
        let t = s.subrange(0, s.len() - 1);
        assert forall|k: int| 0 <= k < t.len() implies wf(#[trigger] t[k]) by {
            assert(t[k] == s[k]);
        }
        lemma_canon_list_wf(t);
        lemma_canon_wf(s[s.len() - 1]);
        assert(t.push(s[s.len() - 1]) =~= s);
    }
}

proof fn lemma_canon_entries_wf(s: Seq<(Seq<u8>, BVal)>)
    requires
        forall|k: int| 0 <= k < s.len() ==> wf(#[trigger] s[k].1),
    ensures
        canon_entries(s) == s,
    decreases s,
{
    if s.len() > 0 {
        let t = s.subrange(0, s.len() - 1);
        assert forall|k: int| 0 <= k < t.len() implies wf(#[trigger] t[k].1) by {
            assert(t[k] == s[k]);
        }
        lemma_canon_entries_wf(t);
        lemma_canon_wf(s[s.len() - 1].1);
        assert(t.push((s[s.len() - 1].0, s[s.len() - 1].1)) =~= s);
    }
}

/// A value that bencoding can write and read back: strings hold UTF-8, byte
/// strings do not, integers are read back from their text (see
/// `int_text_range`), and dictionary keys are UTF-8; the entries of a dictionary may be held in any order and
/// a key may repeat.
pub open spec fn encodable(v: BVal) -> bool
    decreases v,
{
    match v {
        BVal::Str(b) => valid_utf8(b),
        BVal::Bytes(b) => !valid_utf8(b),
        BVal::Int(i) => int_text_range(i),
        BVal::List(l) => forall|k: int| 0 <= k < l.len() ==> encodable(#[trigger] l[k]),
        BVal::Dict(d) => {
            &&& forall|k: int| 0 <= k < d.len() ==> valid_utf8(#[trigger] d[k].0)
            &&& forall|k: int| 0 <= k < d.len() ==> encodable(#[trigger] d[k].1)
        },
    }
}

/// The [`canon`] of an encodable value is well formed.
pub proof fn lemma_canon_encodable(v: BVal)
    requires
        encodable(v),
    ensures
        wf(canon(v)),
    decreases v,
{
    match v {
        BVal::List(l) => {
            lemma_canon_list_encodable(l);
        },
        BVal::Dict(d) => {
            lemma_canon_entries_encodable(d);
            lemma_dict_sorted_wf(canon_entries(d));
        },
        _ => {},
    }
}

proof fn lemma_canon_list_encodable(s: Seq<BVal>)
    requires
        forall|k: int| 0 <= k < s.len() ==> encodable(#[trigger] s[k]),
    ensures
        canon_list(s).len() == s.len(),
        forall|k: int| 0 <= k < s.len() ==> wf(#[trigger] canon_list(s)[k]),
    decreases s,
{
    if s.len() > 0 {
        let t = s.subrange(0, s.len() - 1);
        assert forall|k: int| 0 <= k < t.len() implies encodable(#[trigger] t[k]) by {
            assert(t[k] == s[k]);
        }
        lemma_canon_list_encodable(t);
        lemma_canon_encodable(s[s.len() - 1]);
        let c = canon_list(s);
        assert forall|k: int| 0 <= k < s.len() implies wf(#[trigger] canon_list(s)[k]) by {
            if k < s.len() - 1 {
                assert(c[k] == canon_list(t)[k]);
            }
        }
    }
}

proof fn lemma_canon_entries_encodable(s: Seq<(Seq<u8>, BVal)>)
    requires
        forall|k: int| 0 <= k < s.len() ==> valid_utf8(#[trigger] s[k].0),
        forall|k: int| 0 <= k < s.len() ==> encodable(#[trigger] s[k].1),
    ensures
        canon_entries(s).len() == s.len(),
        entries_wf(canon_entries(s)),
    decreases s,
{
    if s.len() > 0 {
        let t = s.subrange(0, s.len() - 1);
        assert forall|k: int| 0 <= k < t.len() implies valid_utf8(#[trigger] t[k].0) && encodable(t[k].1) by {
            assert(t[k] == s[k]);
        }
        lemma_canon_entries_encodable(t);
        lemma_canon_encodable(s[s.len() - 1].1);
        let c = canon_entries(s);
        assert forall|k: int| 0 <= k < s.len() implies valid_utf8(#[trigger] c[k].0) && wf(c[k].1) by {
            if k < s.len() - 1 {
                assert(c[k] == canon_entries(t)[k]);
            }
        }
    }
}

/// Decoding what `encode` writes of a well-formed value gives the value back.
pub proof fn lemma_parse_encode(v: BVal)
    requires
        wf(v),
    ensures
        canon(v) == v,
        spec_parse(enc(canon(v))) == Ok::<BVal, crate::bittorrent::bedecoder::DecodeFault>(v),
{
    lemma_canon_wf(v);
    lemma_parse_enc_wf(v);
}

/// Decoding what `encode` writes of any encodable value gives back the
/// value with its dictionaries in key order, each key once: the same value
/// as a dictionary is a map from keys to values.
pub proof fn lemma_parse_encode_any(v: BVal)
    requires
        encodable(v),
    ensures
        spec_parse(enc(canon(v))) == Ok::<BVal, crate::bittorrent::bedecoder::DecodeFault>(canon(v)),
{
    lemma_canon_encodable(v);
    lemma_parse_enc_wf(canon(v));
}

/// No key occurs twice among the entries.
pub open spec fn distinct_keys(d: Seq<(Seq<u8>, BVal)>) -> bool {
    forall|a: int, c: int| 0 <= a < c < d.len() ==> #[trigger] d[a].0 != #[trigger] d[c].0
}

/// Putting in an entry whose key the entries do not have adds just that entry.
proof fn lemma_insert_fresh(d: Seq<(Seq<u8>, BVal)>, k: Seq<u8>, v: BVal)
    requires
        forall|j: int| 0 <= j < d.len() ==> #[trigger] d[j].0 != k,
    ensures
        forall|e: (Seq<u8>, BVal)| #[trigger] dict_insert(d, k, v).contains(e) <==> (e == (k, v) || d.contains(e)),
    decreases d.len(),
{
    let r = dict_insert(d, k, v);
    if d.len() == 0 {
        assert forall|e: (Seq<u8>, BVal)| #[trigger] r.contains(e) <==> (e == (k, v) || d.contains(e)) by {
            if r.contains(e) {
                assert(r[0] == (k, v));
            }
            if e == (k, v) {
                assert(r[0] == e);
            }
        }
    } else if bytes_lt(k, d[0].0) {
        assert(r == seq![(k, v)] + d);
        assert forall|e: (Seq<u8>, BVal)| #[trigger] r.contains(e) <==> (e == (k, v) || d.contains(e)) by {
            if r.contains(e) {
                let i = choose|i: int| 0 <= i < r.len() && r[i] == e;
                if i > 0 {
                    assert(d[i - 1] == e);
                }
            }
            if e == (k, v) {
                assert(r[0] == e);
            }
            if d.contains(e) {
                let i = choose|i: int| 0 <= i < d.len() && d[i] == e;
                assert(r[i + 1] == e);
            }
        }
    } else {
        assert(d[0].0 != k);
        let t = d.drop_first();
        assert forall|j: int| 0 <= j < t.len() implies #[trigger] t[j].0 != k by {
            assert(t[j] == d[j + 1]);
        }
        lemma_insert_fresh(t, k, v);
        let rt = dict_insert(t, k, v);
        assert(r == seq![d[0]] + rt);
        assert forall|e: (Seq<u8>, BVal)| #[trigger] r.contains(e) <==> (e == (k, v) || d.contains(e)) by {
            if r.contains(e) {
                let i = choose|i: int| 0 <= i < r.len() && r[i] == e;
                if i > 0 {
                    assert(rt[i - 1] == e);
                    assert(rt.contains(e));
                    if t.contains(e) {
                        let j = choose|j: int| 0 <= j < t.len() && t[j] == e;
                        assert(d[j + 1] == e);
                    }
                } else {
                    assert(d[0] == e);
                }
            }
            if e == (k, v) {
                assert(rt.contains(e));
                let i = choose|i: int| 0 <= i < rt.len() && rt[i] == e;
                assert(r[i + 1] == e);
            }
            if d.contains(e) {
                let i = choose|i: int| 0 <= i < d.len() && d[i] == e;
                if i == 0 {
                    assert(r[0] == e);
                } else {
                    assert(t[i - 1] == e);
                    assert(rt.contains(e));
                    let m = choose|m: int| 0 <= m < rt.len() && rt[m] == e;
                    assert(r[m + 1] == e);
                }
            }
        }
    }
}

/// Entries with distinct keys, put into a dictionary one after another,
/// come out in ascending key order and are exactly the entries given.
proof fn lemma_dict_sorted_contents(d: Seq<(Seq<u8>, BVal)>)
    requires
        distinct_keys(d),
    ensures
        sorted_keys(dict_sorted(d)),
        forall|e: (Seq<u8>, BVal)| #[trigger] dict_sorted(d).contains(e) <==> d.contains(e),
    decreases d.len(),
{
    if d.len() > 0 {
        let t = d.drop_last();
        let l = d.last();
        assert(distinct_keys(t)) by {
            assert forall|a: int, c: int| 0 <= a < c < t.len() implies #[trigger] t[a].0 != #[trigger] t[c].0 by {
                assert(t[a] == d[a] && t[c] == d[c]);
            }
        }
        lemma_dict_sorted_contents(t);
        let ds = dict_sorted(t);
        assert forall|j: int| 0 <= j < ds.len() implies #[trigger] ds[j].0 != l.0 by {
            assert(ds.contains(ds[j]));
            assert(t.contains(ds[j]));
            let i = choose|i: int| 0 <= i < t.len() && t[i] == ds[j];
            assert(d[i] == t[i]);
            assert(d[d.len() - 1] == l);
        }
        lemma_insert_fresh(ds, l.0, l.1);
        lemma_insert_keeps_sorted(ds, l.0, l.1);
        assert forall|e: (Seq<u8>, BVal)| #[trigger] dict_sorted(d).contains(e) <==> d.contains(e) by {
            if d.contains(e) {
                let i = choose|i: int| 0 <= i < d.len() && d[i] == e;
                if i < d.len() - 1 {
                    assert(t[i] == e);
                    assert(t.contains(e));
                }
            }
            if t.contains(e) {
                let i = choose|i: int| 0 <= i < t.len() && t[i] == e;
                assert(d[i] == e);
            }
            if e == l {
                assert(d[d.len() - 1] == e);
            }
        }
    }
}

/// Two lists of entries in strictly ascending key order that hold the same
/// entries are equal.
proof fn lemma_sorted_same(s: Seq<(Seq<u8>, BVal)>, t: Seq<(Seq<u8>, BVal)>)
    requires
        sorted_keys(s),
        sorted_keys(t),
        forall|e: (Seq<u8>, BVal)| #![trigger s.contains(e)] #![trigger t.contains(e)] s.contains(e) <==> t.contains(e),
    ensures
        s == t,
    decreases s.len(),
{
    if s.len() == 0 {
        if t.len() > 0 {
            assert(t.contains(t[0]));
            assert(s.contains(t[0]));
        }
        assert(s =~= t);
    } else {
        assert(s.contains(s[0]));
        assert(t.contains(s[0]));
        let j = choose|j: int| 0 <= j < t.len() && t[j] == s[0];
        assert(t.contains(t[0]));
        assert(s.contains(t[0]));
        let i = choose|i: int| 0 <= i < s.len() && s[i] == t[0];
        if j > 0 {
            assert(bytes_lt(t[0].0, t[j].0));
            if i > 0 {
                assert(bytes_lt(s[0].0, s[i].0));
                lemma_bytes_lt_asym(t[0].0, t[j].0);
            } else {
                lemma_bytes_lt_irrefl(t[0].0);
            }
        }
        assert(s[0] == t[0]);
        let s1 = s.drop_first();
        let t1 = t.drop_first();
        assert(sorted_keys(s1)) by {
            assert forall|a: int, c: int| 0 <= a < c < s1.len() implies bytes_lt(#[trigger] s1[a].0, #[trigger] s1[c].0) by {
                assert(s1[a] == s[a + 1] && s1[c] == s[c + 1]);
            }
        }
        assert(sorted_keys(t1)) by {
            assert forall|a: int, c: int| 0 <= a < c < t1.len() implies bytes_lt(#[trigger] t1[a].0, #[trigger] t1[c].0) by {
                assert(t1[a] == t[a + 1] && t1[c] == t[c + 1]);
            }
        }
        assert forall|e: (Seq<u8>, BVal)| #[trigger] s1.contains(e) <==> t1.contains(e) by {
            if s1.contains(e) {
                let a = choose|a: int| 0 <= a < s1.len() && s1[a] == e;
                assert(s[a + 1] == e);
                assert(s.contains(e));
                assert(bytes_lt(s[0].0, s[a + 1].0));
                lemma_bytes_lt_irrefl(s[0].0);
                let b = choose|b: int| 0 <= b < t.len() && t[b] == e;
                assert(b != 0);
                assert(t1[b - 1] == e);
            }
            if t1.contains(e) {
                let a = choose|a: int| 0 <= a < t1.len() && t1[a] == e;
                assert(t[a + 1] == e);
                assert(t.contains(e));
                assert(bytes_lt(t[0].0, t[a + 1].0));
                lemma_bytes_lt_irrefl(t[0].0);
                let b = choose|b: int| 0 <= b < s.len() && s[b] == e;
                assert(b != 0);
                assert(s1[b - 1] == e);
            }
        }
        lemma_sorted_same(s1, t1);
        assert(s =~= seq![s[0]] + s1);
        assert(t =~= seq![t[0]] + t1);
    }
}

proof fn lemma_canon_entries_shape(s: Seq<(Seq<u8>, BVal)>)
    ensures
        canon_entries(s).len() == s.len(),
        forall|i: int| 0 <= i < s.len() ==> #[trigger] canon_entries(s)[i] == (s[i].0, canon(s[i].1)),
    decreases s.len(),
{
    if s.len() > 0 {
        lemma_canon_entries_shape(s.subrange(0, s.len() - 1));
    }
}

proof fn lemma_canon_entries_contents(d1: Seq<(Seq<u8>, BVal)>, d2: Seq<(Seq<u8>, BVal)>)
    requires
        forall|e: (Seq<u8>, BVal)| #[trigger] d1.contains(e) <==> d2.contains(e),
    ensures
        forall|e: (Seq<u8>, BVal)| #[trigger] canon_entries(d1).contains(e) ==> canon_entries(d2).contains(e),
{
    lemma_canon_entries_shape(d1);
    lemma_canon_entries_shape(d2);
    let c1 = canon_entries(d1);
    let c2 = canon_entries(d2);
    assert forall|e: (Seq<u8>, BVal)| #[trigger] c1.contains(e) implies c2.contains(e) by {
        let i = choose|i: int| 0 <= i < c1.len() && c1[i] == e;
        assert(d1.contains(d1[i]));
        assert(d2.contains(d1[i]));
        let j = choose|j: int| 0 <= j < d2.len() && d2[j] == d1[i];
        assert(c2[j] == e);
    }
}

/// The order in which a dictionary holds its entries does not matter to
/// `encode`: two dictionaries holding the same entries, each key once,
/// are written as the same bytes.
pub proof fn lemma_encode_order_free(d1: Seq<(Seq<u8>, BVal)>, d2: Seq<(Seq<u8>, BVal)>)
    requires
        distinct_keys(d1),
        distinct_keys(d2),
        forall|e: (Seq<u8>, BVal)| #[trigger] d1.contains(e) <==> d2.contains(e),
    ensures
        canon(BVal::Dict(d1)) == canon(BVal::Dict(d2)),
        enc(canon(BVal::Dict(d1))) == enc(canon(BVal::Dict(d2))),
{
    lemma_canon_entries_shape(d1);
    lemma_canon_entries_shape(d2);
    lemma_canon_entries_contents(d1, d2);
    lemma_canon_entries_contents(d2, d1);
    let c1 = canon_entries(d1);
    let c2 = canon_entries(d2);
    assert(distinct_keys(c1)) by {
        assert forall|a: int, c: int| 0 <= a < c < c1.len() implies #[trigger] c1[a].0 != #[trigger] c1[c].0 by {
            assert(d1[a].0 != d1[c].0);
        }
    }
    assert(distinct_keys(c2)) by {
        assert forall|a: int, c: int| 0 <= a < c < c2.len() implies #[trigger] c2[a].0 != #[trigger] c2[c].0 by {
            assert(d2[a].0 != d2[c].0);
        }
    }
    lemma_dict_sorted_contents(c1);
    lemma_dict_sorted_contents(c2);
    let s1 = dict_sorted(c1);
    let s2 = dict_sorted(c2);
    assert forall|e: (Seq<u8>, BVal)| #[trigger] s1.contains(e) <==> s2.contains(e) by {
        if s1.contains(e) {
            assert(c1.contains(e));
            assert(c2.contains(e));
        }
        if s2.contains(e) {
            assert(c2.contains(e));
            assert(c1.contains(e));
        }
    }
    lemma_sorted_same(s1, s2);
}

} // verus!
