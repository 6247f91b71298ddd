//! Decoded bencoded values and their mathematical model.
use vstd::prelude::*;

verus! {

/// A decoded bencoded value.
///
/// A dictionary is a list of entries. Decoding gives them sorted by the
/// UTF-8 bytes of their keys, each key once (`insert_entry` keeps them so);
/// encoding writes them in that order whatever order they are held in
/// (see [`canon`]).
#[derive(PartialEq, Debug)]
pub enum BencodeT {
    String(String),
    Integer(i64),
    Dictionary(Vec<(String, BencodeT)>),
    List(Vec<BencodeT>),
    ByteString(Vec<u8>),
}

/// The model of a bencoded value: strings and keys are their UTF-8 bytes.
pub enum BVal {
    Str(Seq<u8>),
    Int(int),
    Dict(Seq<(Seq<u8>, BVal)>),
    List(Seq<BVal>),
    Bytes(Seq<u8>),
}

/// The UTF-8 bytes of a string.
pub open spec fn str_bytes(s: String) -> Seq<u8> {
    vstd::utf8::encode_utf8(s@)
}

/// The UTF-8 bytes of a string slice.
pub open spec fn str_bytes_of(s: &str) -> Seq<u8> {
    vstd::utf8::encode_utf8(s@)
}

pub open spec fn bval(v: BencodeT) -> BVal
    decreases v,
{
    match v {
        BencodeT::String(s) => BVal::Str(str_bytes(s)),
        BencodeT::Integer(i) => BVal::Int(i as int),
        BencodeT::Dictionary(d) => BVal::Dict(bval_dict(d@)),
        BencodeT::List(l) => BVal::List(bval_list(l@)),
        BencodeT::ByteString(b) => BVal::Bytes(b@),
    }
}

pub open spec fn bval_list(s: Seq<BencodeT>) -> Seq<BVal>
    decreases s,
{
    if s.len() == 0 {
        Seq::empty()
    } else {
        bval_list(s.subrange(0, s.len() - 1)).push(bval(s[s.len() - 1]))
    }
}

pub open spec fn bval_dict(s: Seq<(String, BencodeT)>) -> Seq<(Seq<u8>, BVal)>
    decreases s,
{
    if s.len() == 0 {
        Seq::empty()
    } else {
        bval_dict(s.subrange(0, s.len() - 1)).push(
            (str_bytes(s[s.len() - 1].0), bval(s[s.len() - 1].1)),
        )
    }
}

impl BencodeT {
    /// A copy of this value.
    pub fn deep_clone(&self) -> (r: BencodeT)
        ensures
            r@ == self@,
        decreases self,
    {
        match self {
            BencodeT::String(s) => BencodeT::String(s.clone()),
            BencodeT::Integer(i) => BencodeT::Integer(*i),
            BencodeT::ByteString(b) => BencodeT::ByteString(b.clone()),
            BencodeT::List(l) => {
                let mut out: Vec<BencodeT> = Vec::new();
                let mut k: usize = 0;
                while k < l.len()
                    invariant
                        k <= l.len(),
                        bval_list(out@) == bval_list(l@.subrange(0, k as int)),
                        *self == BencodeT::List(*l),
                    decreases l.len() - k,
                {
                    proof {
                        assert(decreases_to!(*self => self->List_0));
                        assert(decreases_to!(*l => l@));
                        assert(decreases_to!(l@ => l@[k as int]));
                    }
                    let e = l[k].deep_clone();
                    proof {
                        lemma_bval_list_push(out@, e);
                        lemma_bval_list_push(l@.subrange(0, k as int), l@[k as int]);
                        assert(l@.subrange(0, k as int).push(l@[k as int]) =~= l@.subrange(0, k + 1));
                    }
                    out.push(e);
                    k = k + 1;
                }
                assert(l@.subrange(0, l.len() as int) =~= l@);
                BencodeT::List(out)
            },
            BencodeT::Dictionary(d) => {
                let mut out: Vec<(String, BencodeT)> = Vec::new();
                let mut k: usize = 0;
                while k < d.len()
                    invariant
                        k <= d.len(),
                        bval_dict(out@) == bval_dict(d@.subrange(0, k as int)),
                        *self == BencodeT::Dictionary(*d),
                    decreases d.len() - k,
                {
                    proof {
                        assert(decreases_to!(*self => self->Dictionary_0));
                        assert(decreases_to!(*d => d@));
                        assert(decreases_to!(d@ => d@[k as int]));
                        assert(decreases_to!(d@[k as int] => d@[k as int].1));
                    }
                    let e = (d[k].0.clone(), d[k].1.deep_clone());
                    proof {
                        lemma_bval_dict_push(out@, e);
                        lemma_bval_dict_push(d@.subrange(0, k as int), d@[k as int]);
                        assert(d@.subrange(0, k as int).push(d@[k as int]) =~= d@.subrange(0, k + 1));
                    }
                    out.push(e);
                    k = k + 1;
                }
                assert(d@.subrange(0, d.len() as int) =~= d@);
                BencodeT::Dictionary(out)
            },
        }
    }
}

pub proof fn lemma_bval_list_push(s: Seq<BencodeT>, e: BencodeT)
    ensures
        bval_list(s.push(e)) == bval_list(s).push(bval(e)),
{
    assert(s.push(e).subrange(0, s.len() as int) =~= s);
}

pub proof fn lemma_bval_dict_push(s: Seq<(String, BencodeT)>, e: (String, BencodeT))
    ensures
        bval_dict(s.push(e)) == bval_dict(s).push((str_bytes(e.0), bval(e.1))),
{
    assert(s.push(e).subrange(0, s.len() as int) =~= s);
}

pub proof fn lemma_bval_list_len(s: Seq<BencodeT>)
    ensures
        bval_list(s).len() == s.len(),
        forall|i: int| 0 <= i < s.len() ==> #[trigger] bval_list(s)[i] == bval(s[i]),
    decreases s.len(),
{
    if s.len() > 0 {
        lemma_bval_list_len(s.subrange(0, s.len() - 1));
    }
}

pub proof fn lemma_bval_dict_len(s: Seq<(String, BencodeT)>)
    ensures
        bval_dict(s).len() == s.len(),
        forall|i: int|
            0 <= i < s.len() ==> #[trigger] bval_dict(s)[i] == (str_bytes(s[i].0), bval(s[i].1)),
    decreases s.len(),
{
    if s.len() > 0 {
        lemma_bval_dict_len(s.subrange(0, s.len() - 1));
    }
}

impl Clone for BencodeT {
    fn clone(&self) -> (r: BencodeT)
        ensures
            r@ == self@,
    {
        self.deep_clone()
    }
}

impl View for BencodeT {
    type V = BVal;

    open spec fn view(&self) -> BVal {
        bval(*self)
    }
}

/// Decimal digits (ASCII) of a natural number, without leading zeros.
pub open spec fn spec_decimal(n: nat) -> Seq<u8>
    decreases n,
{
    if n < 10 {
        seq![(48 + n) as u8]
    } else {
        spec_decimal(n / 10).push((48 + n % 10) as u8)
    }
}

/// Decimal text of an integer, with a leading `-` when negative.
pub open spec fn spec_int_text(i: int) -> Seq<u8> {
    if i < 0 {
        seq![45u8] + spec_decimal((-i) as nat)
    } else {
        spec_decimal(i as nat)
    }
}

/// Bencoding of a byte string: its length, `:`, then the bytes.
pub open spec fn enc_bytes(b: Seq<u8>) -> Seq<u8> {
    spec_decimal(b.len()) + seq![58u8] + b
}

/// Bencoding of a value.
pub open spec fn enc(v: BVal) -> Seq<u8>
    decreases v,
{
    match v {
        BVal::Str(b) => enc_bytes(b),
        BVal::Bytes(b) => enc_bytes(b),
        BVal::Int(i) => seq![105u8] + spec_int_text(i) + seq![101u8],
        BVal::List(l) => seq![108u8] + enc_list(l) + seq![101u8],
        BVal::Dict(d) => seq![100u8] + enc_dict(d) + seq![101u8],
    }
}

/// Concatenated bencodings of the items of a list.
pub open spec fn enc_list(s: Seq<BVal>) -> Seq<u8>
    decreases s,
{
    if s.len() == 0 {
        Seq::empty()
    } else {
        enc_list(s.subrange(0, s.len() - 1)) + enc(s[s.len() - 1])
    }
}

/// Concatenated key and value bencodings of the entries of a dictionary.
pub open spec fn enc_dict(s: Seq<(Seq<u8>, BVal)>) -> Seq<u8>
    decreases s,
{
    if s.len() == 0 {
        Seq::empty()
    } else {
        enc_dict(s.subrange(0, s.len() - 1)) + enc_bytes(s[s.len() - 1].0) + enc(
            s[s.len() - 1].1,
        )
    }
}

/// The entries of `d` put one after another into a dictionary (see
/// [`dict_insert`]): sorted by key, each key once, the last value given for
/// a key kept.
pub open spec fn dict_sorted(d: Seq<(Seq<u8>, BVal)>) -> Seq<(Seq<u8>, BVal)>
    decreases d.len(),
{
    if d.len() == 0 {
        Seq::empty()
    } else {
        dict_insert(dict_sorted(d.drop_last()), d.last().0, d.last().1)
    }
}

/// A value with the entries of each of its dictionaries, at every depth,
/// put into key order as [`dict_sorted`] does: the value that bencoding
/// writes out.
pub open spec fn canon(v: BVal) -> BVal
    decreases v,
{
    match v {
        BVal::List(l) => BVal::List(canon_list(l)),
        BVal::Dict(d) => BVal::Dict(dict_sorted(canon_entries(d))),
        _ => v,
    }
}

/// [`canon`] of each item of a list.
pub open spec fn canon_list(s: Seq<BVal>) -> Seq<BVal>
    decreases s,
{
    if s.len() == 0 {
        Seq::empty()
    } else {
        canon_list(s.subrange(0, s.len() - 1)).push(canon(s[s.len() - 1]))
    }
}

/// [`canon`] of the value of each entry of a dictionary.
pub open spec fn canon_entries(s: Seq<(Seq<u8>, BVal)>) -> Seq<(Seq<u8>, BVal)>
    decreases s,
{
    if s.len() == 0 {
        Seq::empty()
    } else {
        canon_entries(s.subrange(0, s.len() - 1)).push((s[s.len() - 1].0, canon(s[s.len() - 1].1)))
    }
}

/// Lexicographic order on bytes, from position `k` on.
pub open spec fn bytes_lt_from(a: Seq<u8>, b: Seq<u8>, k: int) -> bool
    decreases a.len() - k,
{
    if k < 0 || k >= a.len() {
        k < b.len()
    } else if k >= b.len() {
        false
    } else if a[k] < b[k] {
        true
    } else if a[k] > b[k] {
        false
    } else {
        bytes_lt_from(a, b, k + 1)
    }
}

/// Lexicographic order on bytes (the order of `String` and of byte slices).
pub open spec fn bytes_lt(a: Seq<u8>, b: Seq<u8>) -> bool {
    bytes_lt_from(a, b, 0)
}

/// `k` and `v` put into a dictionary: in place of an entry with key `k`,
/// else before the first entry whose key is greater.
pub open spec fn dict_insert(d: Seq<(Seq<u8>, BVal)>, k: Seq<u8>, v: BVal) -> Seq<(Seq<u8>, BVal)>
    decreases d.len(),
{
    if d.len() == 0 {
        seq![(k, v)]
    } else if bytes_lt(k, d[0].0) {
        seq![(k, v)] + d
    } else if k == d[0].0 {
        seq![(k, v)] + d.drop_first()
    } else {
        seq![d[0]] + dict_insert(d.drop_first(), k, v)
    }
}

proof fn lemma_bytes_lt_from_irrefl(a: Seq<u8>, k: int)
    requires
        0 <= k,
    ensures
        !bytes_lt_from(a, a, k),
    decreases a.len() - k,
{
    if k < a.len() {
        lemma_bytes_lt_from_irrefl(a, k + 1);
    }
}

proof fn lemma_bytes_lt_from_asym(a: Seq<u8>, b: Seq<u8>, k: int)
    requires
        0 <= k,
        bytes_lt_from(a, b, k),
    ensures
        !bytes_lt_from(b, a, k),
    decreases a.len() - k,
{
    if k < a.len() && k < b.len() && a[k] == b[k] {
        lemma_bytes_lt_from_asym(a, b, k + 1);
    }
}

proof fn lemma_bytes_lt_from_total(a: Seq<u8>, b: Seq<u8>, k: int)
    requires
        0 <= k <= a.len(),
        k <= b.len(),
        a.subrange(0, k) == b.subrange(0, k),
        a != b,
    ensures
        bytes_lt_from(a, b, k) || bytes_lt_from(b, a, k),
    decreases a.len() - k,
{
    if k < a.len() && k < b.len() && a[k] == b[k] {
        assert(a.subrange(0, k + 1) =~= a.subrange(0, k).push(a[k]));
        assert(b.subrange(0, k + 1) =~= b.subrange(0, k).push(b[k]));
        lemma_bytes_lt_from_total(a, b, k + 1);
    } else if k == a.len() && k == b.len() {
        assert(a =~= a.subrange(0, k));
        assert(b =~= b.subrange(0, k));
    }
}

proof fn lemma_bytes_lt_from_trans(a: Seq<u8>, b: Seq<u8>, c: Seq<u8>, k: int)
    requires
        0 <= k,
        bytes_lt_from(a, b, k),
        bytes_lt_from(b, c, k),
    ensures
        bytes_lt_from(a, c, k),
    decreases a.len() - k,
{
    if k < a.len() && k < b.len() && k < c.len() && a[k] == b[k] && b[k] == c[k] {
        lemma_bytes_lt_from_trans(a, b, c, k + 1);
    }
}

/// The byte order is irreflexive.
pub proof fn lemma_bytes_lt_irrefl(a: Seq<u8>)
    ensures
        !bytes_lt(a, a),
{
    lemma_bytes_lt_from_irrefl(a, 0);
}

/// The byte order is asymmetric.
pub proof fn lemma_bytes_lt_asym(a: Seq<u8>, b: Seq<u8>)
    requires
        bytes_lt(a, b),
    ensures
        !bytes_lt(b, a),
{
    lemma_bytes_lt_from_asym(a, b, 0);
}

/// The byte order is total.
pub proof fn lemma_bytes_lt_total(a: Seq<u8>, b: Seq<u8>)
    requires
        a != b,
    ensures
        bytes_lt(a, b) || bytes_lt(b, a),
{
    assert(a.subrange(0, 0) =~= b.subrange(0, 0));
    lemma_bytes_lt_from_total(a, b, 0);
}

/// The byte order is transitive.
pub proof fn lemma_bytes_lt_trans(a: Seq<u8>, b: Seq<u8>, c: Seq<u8>)
    requires
        bytes_lt(a, b),
        bytes_lt(b, c),
    ensures
        bytes_lt(a, c),
{
    lemma_bytes_lt_from_trans(a, b, c, 0);
}

proof fn lemma_lt_from_prefix(a: Seq<u8>, b: Seq<u8>, k: int)
    requires
        0 <= k <= a.len() < b.len(),
        forall|m: int| k <= m < a.len() ==> a[m] == b[m],
    ensures
        bytes_lt_from(a, b, k),
    decreases a.len() - k,
{
    if k < a.len() {
        lemma_lt_from_prefix(a, b, k + 1);
    }
}

proof fn lemma_lt_from_diff(a: Seq<u8>, b: Seq<u8>, k: int, i: int)
    requires
        0 <= k <= i,
        i < a.len(),
        i < b.len(),
        forall|m: int| k <= m < i ==> a[m] == b[m],
        a[i] < b[i],
    ensures
        bytes_lt_from(a, b, k),
    decreases i - k,
{
    if k < i {
        lemma_lt_from_diff(a, b, k + 1, i);
    }
}

/// The key order is lexicographic on bytes, whatever the lengths: a proper
/// prefix comes first, and otherwise the first differing byte decides
/// (so `length` comes before `name`, and `piece length` before `pieces`);
/// the later one never comes first.
pub proof fn lemma_bytes_lt_lexicographic(a: Seq<u8>, b: Seq<u8>)
    ensures
        a.len() < b.len() && a == b.subrange(0, a.len() as int) ==> bytes_lt(a, b) && !bytes_lt(b, a),
        forall|i: int|
            0 <= i < a.len() && i < b.len() && a.subrange(0, i) == b.subrange(0, i) && #[trigger] a[i] < b[i]
                ==> bytes_lt(a, b) && !bytes_lt(b, a),
{
    if a.len() < b.len() && a == b.subrange(0, a.len() as int) {
        assert forall|m: int| 0 <= m < a.len() implies a[m] == b[m] by {
            assert(a[m] == b.subrange(0, a.len() as int)[m]);
        }
        lemma_lt_from_prefix(a, b, 0);
        lemma_bytes_lt_asym(a, b);
    }
    assert forall|i: int|
        0 <= i < a.len() && i < b.len() && a.subrange(0, i) == b.subrange(0, i) && #[trigger] a[i] < b[i]
            implies bytes_lt(a, b) && !bytes_lt(b, a) by {
        assert forall|m: int| 0 <= m < i implies a[m] == b[m] by {
            assert(a[m] == a.subrange(0, i)[m]);
            assert(b[m] == b.subrange(0, i)[m]);
        }
        lemma_lt_from_diff(a, b, 0, i);
        lemma_bytes_lt_asym(a, b);
    }
}

/// Where `dict_insert` puts an entry: at the first position whose key is not less than `k`.
pub proof fn lemma_dict_insert_at(d: Seq<(Seq<u8>, BVal)>, k: Seq<u8>, v: BVal, p: int)
    requires
        0 <= p <= d.len(),
        forall|q: int| 0 <= q < p ==> bytes_lt(#[trigger] d[q].0, k),
        p < d.len() ==> !bytes_lt(d[p].0, k),
    ensures
        dict_insert(d, k, v) == if p < d.len() && d[p].0 == k {
            d.update(p, (k, v))
        } else {
            d.insert(p, (k, v))
        },
    decreases p,
{
    if d.len() == 0 {
        assert(d.insert(0, (k, v)) =~= seq![(k, v)]);
    } else if p == 0 {
        if k == d[0].0 {
            lemma_bytes_lt_irrefl(k);
            assert(d.update(0, (k, v)) =~= seq![(k, v)] + d.drop_first());
        } else {
            lemma_bytes_lt_total(k, d[0].0);
            assert(d.insert(0, (k, v)) =~= seq![(k, v)] + d);
        }
    } else {
        lemma_bytes_lt_asym(d[0].0, k);
        lemma_bytes_lt_irrefl(k);
        let t = d.drop_first();
        assert forall|q: int| 0 <= q < p - 1 implies bytes_lt(#[trigger] t[q].0, k) by {
            assert(t[q] == d[q + 1]);
        }
        lemma_dict_insert_at(t, k, v, p - 1);
        if p < d.len() && d[p].0 == k {
            assert(d.update(p, (k, v)) =~= seq![d[0]] + t.update(p - 1, (k, v)));
        } else {
            assert(d.insert(p, (k, v)) =~= seq![d[0]] + t.insert(p - 1, (k, v)));
        }
    }
}


/// `i` is the position of the first entry with key `k`.
pub open spec fn first_key(d: Seq<(Seq<u8>, BVal)>, k: Seq<u8>, i: int) -> bool {
    &&& 0 <= i < d.len()
    &&& d[i].0 == k
    &&& forall|j: int| 0 <= j < i ==> d[j].0 != k
}

/// The value of the first entry with key `k`.
pub open spec fn lookup(d: Seq<(Seq<u8>, BVal)>, k: Seq<u8>) -> Option<BVal> {
    if exists|i: int| 0 <= i < d.len() && d[i].0 == k {
        Some(d[choose|i: int| first_key(d, k, i)].1)
    } else {
        None
    }
}

/// The value of the entry with key `key` in decoded dictionary entries.
pub fn dict_get<'a>(d: &'a Vec<(String, BencodeT)>, key: &str) -> (r: Option<&'a BencodeT>)
    ensures
        match lookup(bval_dict(d@), str_bytes_of(key)) {
            None => r is None,
            Some(v) => r matches Some(x) && bval(*x) == v,
        },
{
    proof {
        lemma_bval_dict_len(d@);
    }
    let ghost dv = bval_dict(d@);
    let ghost k = str_bytes_of(key);
    let mut i: usize = 0;
    while i < d.len()
        invariant
            i <= d.len(),
            dv == bval_dict(d@),
            dv.len() == d@.len(),
            k == str_bytes_of(key),
            forall|j: int| 0 <= j < d@.len() ==> #[trigger] dv[j] == (str_bytes(d@[j].0), bval(d@[j].1)),
            forall|j: int| 0 <= j < i ==> (#[trigger] dv[j]).0 != k,
        decreases d.len() - i,
    {
        if bytes_equal(d[i].0.as_str().as_bytes(), key.as_bytes()) {
            proof {
                assert(dv[i as int].0 == k);
                assert(first_key(dv, k, i as int));
                let c = choose|c: int| first_key(dv, k, c);
                if c < i {
                    assert(dv[c].0 != k);
                }
                if c > i {
                    assert(dv[i as int].0 != k);
                }
            }
            return Some(&d[i].1);
        }
        i = i + 1;
    }
    None
}

/// Whether `a` comes before `b` in lexicographic byte order.
pub fn bytes_less(a: &[u8], b: &[u8]) -> (r: bool)
    ensures
        r == bytes_lt(a@, b@),
{
    let mut k: usize = 0;
    while k < a.len() && k < b.len() && a[k] == b[k]
        invariant
            k <= a.len(),
            k <= b.len(),
            bytes_lt(a@, b@) == bytes_lt_from(a@, b@, k as int),
        decreases a.len() - k,
    {
        k = k + 1;
    }
    if k >= a.len() {
        k < b.len()
    } else if k >= b.len() {
        false
    } else {
        a[k] < b[k]
    }
}

/// Whether two byte slices are equal.
pub fn bytes_equal(a: &[u8], b: &[u8]) -> (r: bool)
    ensures
        r == (a@ == b@),
{
    if a.len() != b.len() {
        return false;
    }
    let mut k: usize = 0;
    while k < a.len()
        invariant
            k <= a.len(),
            a.len() == b.len(),
            a@.subrange(0, k as int) == b@.subrange(0, k as int),
        decreases a.len() - k,
    {
        if a[k] != b[k] {
            return false;
        }
        assert(a@.subrange(0, k + 1) =~= a@.subrange(0, k as int).push(a@[k as int]));
        assert(b@.subrange(0, k + 1) =~= b@.subrange(0, k as int).push(b@[k as int]));
        k = k + 1;
    }
    assert(a@ =~= a@.subrange(0, k as int));
    assert(b@ =~= b@.subrange(0, k as int));
    true
}

/// Puts `key` and `value` into the dictionary entries `d`, replacing an
/// entry with the same key, and otherwise keeping keys in ascending order.
pub fn insert_entry(d: &mut Vec<(String, BencodeT)>, key: String, value: BencodeT)
    ensures
        bval_dict(final(d)@) == dict_insert(bval_dict(old(d)@), str_bytes(key), bval(value)),
{
    let ghost dv = bval_dict(d@);
    proof {
        lemma_bval_dict_len(d@);
    }
    let mut p: usize = 0;
    while p < d.len() && bytes_less(d[p].0.as_str().as_bytes(), key.as_str().as_bytes())
        invariant
            p <= d.len(),
            dv == bval_dict(d@),
            dv.len() == d@.len(),
            forall|i: int| 0 <= i < d@.len() ==> #[trigger] dv[i] == (str_bytes(d@[i].0), bval(d@[i].1)),
            forall|q: int| 0 <= q < p ==> bytes_lt(#[trigger] dv[q].0, str_bytes(key)),
        decreases d.len() - p,
    {
        p = p + 1;
    }
    let same = p < d.len() && bytes_equal(d[p].0.as_str().as_bytes(), key.as_str().as_bytes());
    proof {
        lemma_dict_insert_at(dv, str_bytes(key), bval(value), p as int);
    }
    let ghost e = (key, value);
    if same {
        d.remove(p);
        d.insert(p, (key, value));
    } else {
        d.insert(p, (key, value));
    }
    proof {
        lemma_bval_dict_len(d@);
        let want = dict_insert(dv, str_bytes(e.0), bval(e.1));
        assert(bval_dict(d@) =~= want);
    }
}

} // verus!
