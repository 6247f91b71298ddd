//! What is written of a torrent file reads back as the same torrent file.
use vstd::prelude::*;
use vstd::utf8::valid_utf8;
use crate::bittorrent::bencode::{
    bytes_lt, dict_insert, first_key, lemma_bytes_lt_asym, lemma_bytes_lt_irrefl, lemma_bytes_lt_total,
    lemma_bytes_lt_trans, lookup, BVal,
};
use crate::bittorrent::roundtrip::wf;
use crate::bittorrent::bencode::{enc, str_bytes, str_bytes_of};
use crate::bittorrent::bedecoder::{spec_parse, DecodeFault};
use crate::bittorrent::metainfo::{
    fileinfo_into, fileinfo_is, fileinfo_ok,
    hash_chunks, hashes_bytes, hashes_view, info_is, info_ok, info_to, lemma_hashes_roundtrip, metainfo_is,
    metainfo_ok, metainfo_to, mifile_is, mifile_ok, mifile_to, mifiles_is, mifiles_ok, mifiles_to, str_list_is,
    str_list_ok, str_list_to, text_or_bytes, FileInfo, Info, MIFile, MetaInfo,
};

verus! {

/// The keys of dictionary entries are in strictly ascending byte order.
pub open spec fn sorted_keys(d: Seq<(Seq<u8>, BVal)>) -> bool {
    forall|a: int, c: int| 0 <= a < c < d.len() ==> bytes_lt(#[trigger] d[a].0, #[trigger] d[c].0)
}

/// Every key is UTF-8 and every value well formed.
pub open spec fn entries_wf(d: Seq<(Seq<u8>, BVal)>) -> bool {
    &&& forall|k: int| 0 <= k < d.len() ==> valid_utf8(#[trigger] d[k].0)
    &&& forall|k: int| 0 <= k < d.len() ==> wf(#[trigger] d[k].1)
}

/// A first entry with key `q` is the only one.
proof fn lemma_first_key_unique(s: Seq<(Seq<u8>, BVal)>, q: Seq<u8>, i: int, j: int)
    requires
        first_key(s, q, i),
        first_key(s, q, j),
    ensures
        i == j,
{
    if i < j {
        assert(s[i].0 != q);
    } else if j < i {
        assert(s[j].0 != q);
    }
}

/// When some entry has key `q`, one of them is the first.
proof fn lemma_first_key_exists(s: Seq<(Seq<u8>, BVal)>, q: Seq<u8>, i: int)
    requires
        0 <= i < s.len(),
        s[i].0 == q,
    ensures
        exists|j: int| first_key(s, q, j),
    decreases i,
{
    if exists|j: int| 0 <= j < i && s[j].0 == q {
        let j = choose|j: int| 0 <= j < i && s[j].0 == q;
        lemma_first_key_exists(s, q, j);
    } else {
        assert(first_key(s, q, i));
    }
}

/// The value looked up under `q` is that of the first entry with key `q`.
proof fn lemma_lookup_first(s: Seq<(Seq<u8>, BVal)>, q: Seq<u8>, i: int)
    requires
        first_key(s, q, i),
    ensures
        lookup(s, q) == Some(s[i].1),
{
    assert(exists|j: int| 0 <= j < s.len() && s[j].0 == q);
    let c = choose|c: int| first_key(s, q, c);
    assert(first_key(s, q, c));
    lemma_first_key_unique(s, q, c, i);
}

/// Looking up past an entry put in front.
proof fn lemma_lookup_cons(e: (Seq<u8>, BVal), d: Seq<(Seq<u8>, BVal)>, q: Seq<u8>)
    ensures
        lookup(seq![e] + d, q) == (if q == e.0 { Some(e.1) } else { lookup(d, q) }),
{
    let s = seq![e] + d;
    if q == e.0 {
        assert(first_key(s, q, 0));
        lemma_lookup_first(s, q, 0);
    } else if exists|i: int| 0 <= i < d.len() && d[i].0 == q {
        let i = choose|i: int| 0 <= i < d.len() && d[i].0 == q;
        lemma_first_key_exists(d, q, i);
        let j = choose|j: int| first_key(d, q, j);
        assert(first_key(s, q, j + 1)) by {
            assert forall|m: int| 0 <= m < j + 1 implies s[m].0 != q by {
                if m > 0 {
                    assert(s[m] == d[m - 1]);
                }
            }
        }
        lemma_lookup_first(s, q, j + 1);
        lemma_lookup_first(d, q, j);
    } else {
        assert forall|m: int| 0 <= m < s.len() implies s[m].0 != q by {
            if m > 0 {
                assert(s[m] == d[m - 1]);
            }
        }
    }
}

/// Looking up in entries with `k` and `v` put in: `v` under `k`, and what
/// was there under any other key.
pub proof fn lemma_lookup_insert(d: Seq<(Seq<u8>, BVal)>, k: Seq<u8>, v: BVal)
    ensures
        forall|q: Seq<u8>| #[trigger] lookup(dict_insert(d, k, v), q) == (if q == k { Some(v) } else { lookup(d, q) }),
    decreases d.len(),
{
    let r = dict_insert(d, k, v);
    assert forall|q: Seq<u8>| #[trigger] lookup(dict_insert(d, k, v), q) == (if q == k {
        Some(v)
    } else {
        lookup(d, q)
    }) by {
        if d.len() == 0 {
            assert(r == seq![(k, v)] + d);
            lemma_lookup_cons((k, v), d, q);
        } else if bytes_lt(k, d[0].0) {
            lemma_lookup_cons((k, v), d, q);
        } else if k == d[0].0 {
            let t = d.drop_first();
            assert(d == seq![d[0]] + t);
            lemma_lookup_cons((k, v), t, q);
            lemma_lookup_cons(d[0], t, q);
        } else {
            let t = d.drop_first();
            assert(d == seq![d[0]] + t);
            lemma_lookup_insert(t, k, v);
            lemma_lookup_cons(d[0], dict_insert(t, k, v), q);
            lemma_lookup_cons(d[0], t, q);
        }
    }
}

/// Putting an entry into entries with ascending keys keeps them so; every
/// entry of the result is the new one or one of the old.
pub proof fn lemma_insert_keeps_sorted(d: Seq<(Seq<u8>, BVal)>, k: Seq<u8>, v: BVal)
    requires
        sorted_keys(d),
    ensures
        sorted_keys(dict_insert(d, k, v)),
        forall|i: int| 0 <= i < dict_insert(d, k, v).len() ==> #[trigger] dict_insert(d, k, v)[i] == (k, v) || exists|j: int|
            0 <= j < d.len() && dict_insert(d, k, v)[i] == d[j],
    decreases d.len(),
{
    let r = dict_insert(d, k, v);
    if d.len() == 0 {
    } else if bytes_lt(k, d[0].0) {
        assert forall|a: int, c: int| 0 <= a < c < r.len() implies bytes_lt(#[trigger] r[a].0, #[trigger] r[c].0) by {
            if a == 0 {
                if c > 1 {
                    lemma_bytes_lt_trans(k, d[0].0, d[c - 1].0);
                }
            } else {
                assert(r[a] == d[a - 1] && r[c] == d[c - 1]);
            }
        }
        assert forall|i: int| 0 <= i < r.len() implies #[trigger] r[i] == (k, v) || exists|j: int| 0 <= j < d.len() && r[i] == d[j] by {
            if i > 0 {
                assert(r[i] == d[i - 1]);
            }
        }
    } else if k == d[0].0 {
        let t = d.drop_first();
        assert forall|a: int, c: int| 0 <= a < c < r.len() implies bytes_lt(#[trigger] r[a].0, #[trigger] r[c].0) by {
            if a == 0 {
                assert(r[c] == d[c]);
            } else {
                assert(r[a] == d[a] && r[c] == d[c]);
            }
        }
        assert forall|i: int| 0 <= i < r.len() implies #[trigger] r[i] == (k, v) || exists|j: int| 0 <= j < d.len() && r[i] == d[j] by {
            if i > 0 {
                assert(r[i] == d[i]);
            }
        }
    } else {
        lemma_bytes_lt_total(k, d[0].0);
        let t = d.drop_first();
        assert(sorted_keys(t)) by {
            assert forall|a: int, c: int| 0 <= a < c < t.len() implies bytes_lt(#[trigger] t[a].0, #[trigger] t[c].0) by {
                assert(t[a] == d[a + 1] && t[c] == d[c + 1]);
            }
        }
        lemma_insert_keeps_sorted(t, k, v);
        let rt = dict_insert(t, k, v);
        assert(r == seq![d[0]] + rt);
        assert forall|i: int| 0 <= i < r.len() implies #[trigger] r[i] == (k, v) || exists|j: int| 0 <= j < d.len() && r[i] == d[j] by {
            if i == 0 {
                assert(r[0] == d[0]);
            } else {
                assert(r[i] == rt[i - 1]);
                if rt[i - 1] != (k, v) {
                    let j = choose|j: int| 0 <= j < t.len() && rt[i - 1] == t[j];
                    assert(r[i] == d[j + 1]);
                }
            }
        }
        assert forall|a: int, c: int| 0 <= a < c < r.len() implies bytes_lt(#[trigger] r[a].0, #[trigger] r[c].0) by {
            if a == 0 {
                assert(r[c] == rt[c - 1]);
                if rt[c - 1] != (k, v) {
                    let j = choose|j: int| 0 <= j < t.len() && rt[c - 1] == t[j];
                    assert(t[j] == d[j + 1]);
                }
            } else {
                assert(r[a] == rt[a - 1] && r[c] == rt[c - 1]);
            }
        }
    }
}

/// Putting an entry into entries with ascending, well-formed keys and
/// values keeps them so, when the new key and value are well formed.
pub proof fn lemma_insert_sorted(d: Seq<(Seq<u8>, BVal)>, k: Seq<u8>, v: BVal)
    requires
        sorted_keys(d),
        entries_wf(d),
        valid_utf8(k),
        wf(v),
    ensures
        sorted_keys(dict_insert(d, k, v)),
        entries_wf(dict_insert(d, k, v)),
        forall|i: int| 0 <= i < dict_insert(d, k, v).len() ==> #[trigger] dict_insert(d, k, v)[i] == (k, v) || exists|j: int|
            0 <= j < d.len() && dict_insert(d, k, v)[i] == d[j],
{
    lemma_insert_keeps_sorted(d, k, v);
    let r = dict_insert(d, k, v);
    assert forall|m: int| 0 <= m < r.len() implies valid_utf8(#[trigger] r[m].0) && wf(r[m].1) by {
        if r[m] != (k, v) {
            let j = choose|j: int| 0 <= j < d.len() && r[m] == d[j];
        }
    }
}

/// Text has one UTF-8 encoding.
proof fn lemma_utf8_injective()
    ensures
        forall|a: Seq<char>, b: Seq<char>| #[trigger] vstd::utf8::encode_utf8(a) == #[trigger] vstd::utf8::encode_utf8(b) ==> a == b,
{
    assert forall|a: Seq<char>, b: Seq<char>| #[trigger] vstd::utf8::encode_utf8(a) == #[trigger] vstd::utf8::encode_utf8(b) implies a == b by {
        vstd::utf8::encode_utf8_decode_utf8(a);
        vstd::utf8::encode_utf8_decode_utf8(b);
    }
}

/// An integer that bencoding writes and reads back.
pub open spec fn int_fits(i: i64) -> bool {
    crate::bittorrent::utils::int_text_range(i as int)
}

/// A list of strings is written as a list of those strings.
proof fn lemma_str_list_to(v: Seq<String>)
    ensures
        wf(str_list_to(v)),
        str_list_to(v) matches BVal::List(l) && str_list_ok(l) && str_list_is(l, v),
{
    let l = Seq::new(v.len(), |i: int| BVal::Str(str_bytes(v[i])));
    assert forall|k: int| 0 <= k < l.len() implies wf(#[trigger] l[k]) by {
        vstd::utf8::encode_utf8_valid_utf8(v[k]@);
    }
}

/// A file of a torrent with several files is written as a value that
/// describes it.
proof fn lemma_mifile_to(f: MIFile)
    requires
        int_fits(f.length),
    ensures
        wf(mifile_to(f)),
        mifile_ok(mifile_to(f)),
        mifile_is(mifile_to(f), f),
{
    reveal_strlit("length");
    reveal_strlit("md5sum");
    reveal_strlit("path");
    lemma_utf8_injective();
    assert("length"@[0] != "md5sum"@[0]);
    vstd::utf8::encode_utf8_valid_utf8("length"@);
    vstd::utf8::encode_utf8_valid_utf8("md5sum"@);
    vstd::utf8::encode_utf8_valid_utf8("path"@);
    let e: Seq<(Seq<u8>, BVal)> = Seq::empty();
    let d0 = dict_insert(e, str_bytes_of("length"), BVal::Int(f.length as int));
    lemma_insert_sorted(e, str_bytes_of("length"), BVal::Int(f.length as int));
    lemma_lookup_insert(e, str_bytes_of("length"), BVal::Int(f.length as int));
    let d1 = match f.md5sum {
        Some(s) => dict_insert(d0, str_bytes_of("md5sum"), BVal::Str(str_bytes(s))),
        None => d0,
    };
    match f.md5sum {
        Some(s) => {
            vstd::utf8::encode_utf8_valid_utf8(s@);
            lemma_insert_sorted(d0, str_bytes_of("md5sum"), BVal::Str(str_bytes(s)));
            lemma_lookup_insert(d0, str_bytes_of("md5sum"), BVal::Str(str_bytes(s)));
        },
        None => {},
    }
    lemma_str_list_to(f.path@);
    lemma_insert_sorted(d1, str_bytes_of("path"), str_list_to(f.path@));
    lemma_lookup_insert(d1, str_bytes_of("path"), str_list_to(f.path@));
}

/// The files of a torrent with several files are written as a list that
/// describes them.
proof fn lemma_mifiles_to(v: Seq<MIFile>)
    requires
        forall|i: int| 0 <= i < v.len() ==> int_fits(#[trigger] v[i].length),
    ensures
        wf(mifiles_to(v)),
        mifiles_to(v) matches BVal::List(l) && mifiles_ok(l) && mifiles_is(l, v),
{
    let l = Seq::new(v.len(), |i: int| mifile_to(v[i]));
    assert forall|k: int| 0 <= k < l.len() implies wf(#[trigger] l[k]) && mifile_ok(l[k]) && mifile_is(l[k], v[k]) by {
        lemma_mifile_to(v[k]);
    }
}

/// The integers of `info` are ones that bencoding writes and reads back.
pub open spec fn info_ints_fit(info: Info) -> bool {
    &&& int_fits(info.piece_length)
    &&& match info.file_info {
        FileInfo::SingleFileInfo { length, .. } => int_fits(length),
        FileInfo::MultiFileInfo { files, .. } => forall|i: int| 0 <= i < files@.len() ==> int_fits(#[trigger] files@[i].length),
    }
}

/// Two texts that differ have different UTF-8 encodings.
pub proof fn lemma_key_ne(a: &str, b: &str)
    requires
        a@ != b@,
    ensures
        str_bytes_of(a) != str_bytes_of(b),
{
    vstd::utf8::encode_utf8_decode_utf8(a@);
    vstd::utf8::encode_utf8_decode_utf8(b@);
}

/// Putting the description of the files `fi` into dictionary entries
/// that hold none of its keys: the result describes `fi`, stays sorted and
/// well formed, and keeps every other key.
#[verifier::spinoff_prover]
proof fn lemma_fileinfo_into(d: Seq<(Seq<u8>, BVal)>, fi: FileInfo)
    requires
        sorted_keys(d),
        entries_wf(d),
        lookup(d, str_bytes_of("name")) is None,
        lookup(d, str_bytes_of("length")) is None,
        lookup(d, str_bytes_of("md5sum")) is None,
        lookup(d, str_bytes_of("files")) is None,
        match fi {
            FileInfo::SingleFileInfo { length, .. } => int_fits(length),
            FileInfo::MultiFileInfo { files, .. } => forall|i: int| 0 <= i < files@.len() ==> int_fits(#[trigger] files@[i].length),
        },
    ensures
        sorted_keys(fileinfo_into(d, fi)),
        entries_wf(fileinfo_into(d, fi)),
        fileinfo_ok(fileinfo_into(d, fi)),
        fileinfo_is(fileinfo_into(d, fi), fi),
        forall|q: Seq<u8>| q != str_bytes_of("name") && q != str_bytes_of("length") && q != str_bytes_of("md5sum")
            && q != str_bytes_of("files") ==> #[trigger] lookup(fileinfo_into(d, fi), q) == lookup(d, q),
{
    reveal_strlit("name");
    reveal_strlit("length");
    reveal_strlit("md5sum");
    reveal_strlit("files");
    assert("length"@[0] != "md5sum"@[0]);
    lemma_key_ne("name", "length");
    lemma_key_ne("name", "md5sum");
    lemma_key_ne("name", "files");
    lemma_key_ne("length", "md5sum");
    lemma_key_ne("length", "files");
    lemma_key_ne("md5sum", "files");
    vstd::utf8::encode_utf8_valid_utf8("name"@);
    vstd::utf8::encode_utf8_valid_utf8("length"@);
    vstd::utf8::encode_utf8_valid_utf8("md5sum"@);
    vstd::utf8::encode_utf8_valid_utf8("files"@);
    match fi {
        FileInfo::SingleFileInfo { name, length, md5sum } => {
            vstd::utf8::encode_utf8_valid_utf8(name@);
            let nm = BVal::Str(str_bytes(name));
            let d3 = dict_insert(d, str_bytes_of("name"), nm);
            lemma_insert_sorted(d, str_bytes_of("name"), nm);
            lemma_lookup_insert(d, str_bytes_of("name"), nm);
            let d4 = dict_insert(d3, str_bytes_of("length"), BVal::Int(length as int));
            lemma_insert_sorted(d3, str_bytes_of("length"), BVal::Int(length as int));
            lemma_lookup_insert(d3, str_bytes_of("length"), BVal::Int(length as int));
            match md5sum {
                Some(m) => {
                    vstd::utf8::encode_utf8_valid_utf8(m@);
                    lemma_insert_sorted(d4, str_bytes_of("md5sum"), BVal::Str(str_bytes(m)));
                    lemma_lookup_insert(d4, str_bytes_of("md5sum"), BVal::Str(str_bytes(m)));
                },
                None => {},
            }
        },
        FileInfo::MultiFileInfo { name, files } => {
            vstd::utf8::encode_utf8_valid_utf8(name@);
            let nm = BVal::Str(str_bytes(name));
            let d3 = dict_insert(d, str_bytes_of("name"), nm);
            lemma_insert_sorted(d, str_bytes_of("name"), nm);
            lemma_lookup_insert(d, str_bytes_of("name"), nm);
            lemma_mifiles_to(files@);
            lemma_insert_sorted(d3, str_bytes_of("files"), mifiles_to(files@));
            lemma_lookup_insert(d3, str_bytes_of("files"), mifiles_to(files@));
        },
    }
}

/// The `info` dictionary is written as a value that describes it.
#[verifier::spinoff_prover]
proof fn lemma_info_to(info: Info)
    requires
        info_ints_fit(info),
    ensures
        wf(info_to(info)),
        info_ok(info_to(info)),
        info_is(info_to(info), info),
{
    reveal_strlit("piece length");
    reveal_strlit("pieces");
    reveal_strlit("private");
    reveal_strlit("name");
    reveal_strlit("length");
    reveal_strlit("md5sum");
    reveal_strlit("files");
    assert("pieces"@[0] != "length"@[0]);
    assert("pieces"@[0] != "md5sum"@[0]);
    lemma_key_ne("piece length", "pieces");
    lemma_key_ne("piece length", "private");
    lemma_key_ne("pieces", "private");
    lemma_key_ne("piece length", "name");
    lemma_key_ne("piece length", "length");
    lemma_key_ne("piece length", "md5sum");
    lemma_key_ne("piece length", "files");
    lemma_key_ne("pieces", "name");
    lemma_key_ne("pieces", "length");
    lemma_key_ne("pieces", "md5sum");
    lemma_key_ne("pieces", "files");
    lemma_key_ne("private", "name");
    lemma_key_ne("private", "length");
    lemma_key_ne("private", "md5sum");
    lemma_key_ne("private", "files");
    vstd::utf8::encode_utf8_valid_utf8("piece length"@);
    vstd::utf8::encode_utf8_valid_utf8("pieces"@);
    vstd::utf8::encode_utf8_valid_utf8("private"@);
    lemma_hashes_roundtrip(info.pieces@);
    let e: Seq<(Seq<u8>, BVal)> = Seq::empty();
    let pl = BVal::Int(info.piece_length as int);
    let pcs = text_or_bytes(hashes_bytes(info.pieces@));
    let d0 = dict_insert(e, str_bytes_of("piece length"), pl);
    lemma_insert_sorted(e, str_bytes_of("piece length"), pl);
    lemma_lookup_insert(e, str_bytes_of("piece length"), pl);
    let d1 = dict_insert(d0, str_bytes_of("pieces"), pcs);
    lemma_insert_sorted(d0, str_bytes_of("pieces"), pcs);
    lemma_lookup_insert(d0, str_bytes_of("pieces"), pcs);
    let d2 = match info.private {
        Some(x) => dict_insert(d1, str_bytes_of("private"), BVal::Int(if x { 1 } else { 0 })),
        None => d1,
    };
    match info.private {
        Some(x) => {
            lemma_insert_sorted(d1, str_bytes_of("private"), BVal::Int(if x { 1 } else { 0 }));
            lemma_lookup_insert(d1, str_bytes_of("private"), BVal::Int(if x { 1 } else { 0 }));
        },
        None => {},
    }
    lemma_fileinfo_into(d2, info.file_info);
}

/// The keys of a torrent file differ from one another, and are UTF-8.
proof fn lemma_top_keys()
    ensures
        str_bytes_of("info") != str_bytes_of("announce"),
        str_bytes_of("info") != str_bytes_of("announce-list"),
        str_bytes_of("info") != str_bytes_of("creation date"),
        str_bytes_of("info") != str_bytes_of("comment"),
        str_bytes_of("info") != str_bytes_of("created by"),
        str_bytes_of("info") != str_bytes_of("encoding"),
        str_bytes_of("announce") != str_bytes_of("announce-list"),
        str_bytes_of("announce") != str_bytes_of("creation date"),
        str_bytes_of("announce") != str_bytes_of("comment"),
        str_bytes_of("announce") != str_bytes_of("created by"),
        str_bytes_of("announce") != str_bytes_of("encoding"),
        str_bytes_of("announce-list") != str_bytes_of("creation date"),
        str_bytes_of("announce-list") != str_bytes_of("comment"),
        str_bytes_of("announce-list") != str_bytes_of("created by"),
        str_bytes_of("announce-list") != str_bytes_of("encoding"),
        str_bytes_of("creation date") != str_bytes_of("comment"),
        str_bytes_of("creation date") != str_bytes_of("created by"),
        str_bytes_of("creation date") != str_bytes_of("encoding"),
        str_bytes_of("comment") != str_bytes_of("created by"),
        str_bytes_of("comment") != str_bytes_of("encoding"),
        str_bytes_of("created by") != str_bytes_of("encoding"),
        valid_utf8(str_bytes_of("info")),
        valid_utf8(str_bytes_of("announce")),
        valid_utf8(str_bytes_of("announce-list")),
        valid_utf8(str_bytes_of("comment")),
        valid_utf8(str_bytes_of("encoding")),
{
    reveal_strlit("info");
    reveal_strlit("announce");
    reveal_strlit("announce-list");
    reveal_strlit("creation date");
    reveal_strlit("comment");
    reveal_strlit("created by");
    reveal_strlit("encoding");
    assert("announce"@[0] != "encoding"@[0]);
    assert("announce-list"@[0] != "creation date"@[0]);
    lemma_key_ne("info", "announce");
    lemma_key_ne("info", "announce-list");
    lemma_key_ne("info", "creation date");
    lemma_key_ne("info", "comment");
    lemma_key_ne("info", "created by");
    lemma_key_ne("info", "encoding");
    lemma_key_ne("announce", "announce-list");
    lemma_key_ne("announce", "creation date");
    lemma_key_ne("announce", "comment");
    lemma_key_ne("announce", "created by");
    lemma_key_ne("announce", "encoding");
    lemma_key_ne("announce-list", "creation date");
    lemma_key_ne("announce-list", "comment");
    lemma_key_ne("announce-list", "created by");
    lemma_key_ne("announce-list", "encoding");
    lemma_key_ne("creation date", "comment");
    lemma_key_ne("creation date", "created by");
    lemma_key_ne("creation date", "encoding");
    lemma_key_ne("comment", "created by");
    lemma_key_ne("comment", "encoding");
    lemma_key_ne("created by", "encoding");
    vstd::utf8::encode_utf8_valid_utf8("info"@);
    vstd::utf8::encode_utf8_valid_utf8("announce"@);
    vstd::utf8::encode_utf8_valid_utf8("announce-list"@);
    vstd::utf8::encode_utf8_valid_utf8("comment"@);
    vstd::utf8::encode_utf8_valid_utf8("encoding"@);
}

/// What is written of a torrent file `m` reads back as a torrent file that
/// the written value describes just as it describes `m`: `encode`
/// writes the bencoding of `metainfo_to(m)` (whose dictionaries are already
/// in key order), which `decode` parses back to
/// that value, accepts, and turns into a torrent file it describes.
///
/// This holds when the torrent file has no creation date and no author,
/// which are written under the keys `creation_date` and `created_by` while
/// reading looks under `creation date` and `created by`, and when every
/// length has fewer than 19 digits or is `i64::MAX` or its negation: text
/// reading refuses other 19-digit numbers as too large.
#[verifier::spinoff_prover]
pub proof fn lemma_metainfo_roundtrip(m: MetaInfo)
    requires
        m.creation_date is None,
        m.created_by is None,
        info_ints_fit(m.info),
    ensures
        spec_parse(enc(crate::bittorrent::bencode::canon(metainfo_to(m)))) == Ok::<BVal, DecodeFault>(metainfo_to(m)),
        metainfo_ok(metainfo_to(m)),
        metainfo_is(metainfo_to(m), m),
{
    lemma_top_keys();
    lemma_info_to(m.info);
    let e: Seq<(Seq<u8>, BVal)> = Seq::empty();
    let d0 = dict_insert(e, str_bytes_of("info"), info_to(m.info));
    lemma_insert_sorted(e, str_bytes_of("info"), info_to(m.info));
    lemma_lookup_insert(e, str_bytes_of("info"), info_to(m.info));
    let d1 = match m.announce_list {
        Some(l) => dict_insert(d0, str_bytes_of("announce-list"), str_list_to(l@)),
        None => d0,
    };
    match m.announce_list {
        Some(l) => {
            lemma_str_list_to(l@);
            lemma_insert_sorted(d0, str_bytes_of("announce-list"), str_list_to(l@));
            lemma_lookup_insert(d0, str_bytes_of("announce-list"), str_list_to(l@));
        },
        None => {},
    }
    let d2 = match m.announce {
        Some(s) => dict_insert(d1, str_bytes_of("announce"), BVal::Str(str_bytes(s))),
        None => d1,
    };
    match m.announce {
        Some(s) => {
            vstd::utf8::encode_utf8_valid_utf8(s@);
            lemma_insert_sorted(d1, str_bytes_of("announce"), BVal::Str(str_bytes(s)));
            lemma_lookup_insert(d1, str_bytes_of("announce"), BVal::Str(str_bytes(s)));
        },
        None => {},
    }
    let d4 = match m.comment {
        Some(s) => dict_insert(d2, str_bytes_of("comment"), BVal::Str(str_bytes(s))),
        None => d2,
    };
    match m.comment {
        Some(s) => {
            vstd::utf8::encode_utf8_valid_utf8(s@);
            lemma_insert_sorted(d2, str_bytes_of("comment"), BVal::Str(str_bytes(s)));
            lemma_lookup_insert(d2, str_bytes_of("comment"), BVal::Str(str_bytes(s)));
        },
        None => {},
    }
    match m.encoding {
        Some(s) => {
            vstd::utf8::encode_utf8_valid_utf8(s@);
            lemma_insert_sorted(d4, str_bytes_of("encoding"), BVal::Str(str_bytes(s)));
            lemma_lookup_insert(d4, str_bytes_of("encoding"), BVal::Str(str_bytes(s)));
        },
        None => {},
    }
    let v = metainfo_to(m);
    assert(wf(v));
    crate::bittorrent::roundtrip::lemma_parse_encode(v);
}

/// An `info` dictionary of a single-file torrent as torrent files hold
/// it, with the piece length under the key `piece length` (with a space),
/// the piece hashes under `pieces`, and the file's `name` and `length`, is
/// accepted, and what is read from it has that piece length, that file
/// length and that name.
pub proof fn lemma_info_reads_piece_length(
    d: Seq<(Seq<u8>, BVal)>,
    piece_length: int,
    pieces: Seq<u8>,
    name: Seq<u8>,
    length: int,
)
    requires
        lookup(d, str_bytes_of("piece length")) == Some(BVal::Int(piece_length)),
        lookup(d, str_bytes_of("pieces")) == Some(BVal::Bytes(pieces)),
        pieces.len() % 20 == 0,
        lookup(d, str_bytes_of("private")) is None,
        lookup(d, str_bytes_of("name")) == Some(BVal::Str(name)),
        lookup(d, str_bytes_of("length")) == Some(BVal::Int(length)),
        lookup(d, str_bytes_of("md5sum")) is None,
    ensures
        info_ok(BVal::Dict(d)),
        forall|info: Info| #[trigger] info_is(BVal::Dict(d), info) ==> {
            &&& info.piece_length == piece_length
            &&& hashes_view(info.pieces@) == hash_chunks(pieces)
            &&& info.file_info matches FileInfo::SingleFileInfo { name: n, length: l, .. } && str_bytes(n)
                == name && l == length
        },
{
}

/// The `info` dictionary is written with the piece length under the key
/// `piece length` (with a space), as torrent files hold it.
pub proof fn lemma_info_writes_piece_length(info: Info)
    ensures
        info_to(info) is Dict,
        lookup(info_to(info)->Dict_0, str_bytes_of("piece length")) == Some(BVal::Int(info.piece_length as int)),
{
    reveal_strlit("piece length");
    reveal_strlit("pieces");
    reveal_strlit("private");
    reveal_strlit("name");
    reveal_strlit("length");
    reveal_strlit("md5sum");
    reveal_strlit("files");
    lemma_key_ne("piece length", "pieces");
    lemma_key_ne("piece length", "private");
    lemma_key_ne("piece length", "name");
    lemma_key_ne("piece length", "length");
    lemma_key_ne("piece length", "md5sum");
    lemma_key_ne("piece length", "files");
    let q = str_bytes_of("piece length");
    let e: Seq<(Seq<u8>, BVal)> = Seq::empty();
    let pl = BVal::Int(info.piece_length as int);
    let d0 = dict_insert(e, q, pl);
    lemma_lookup_insert(e, q, pl);
    let pcs = text_or_bytes(hashes_bytes(info.pieces@));
    let d1 = dict_insert(d0, str_bytes_of("pieces"), pcs);
    lemma_lookup_insert(d0, str_bytes_of("pieces"), pcs);
    assert(lookup(d1, q) == Some(pl));
    let d2 = match info.private {
        Some(x) => dict_insert(d1, str_bytes_of("private"), BVal::Int(if x { 1 } else { 0 })),
        None => d1,
    };
    match info.private {
        Some(x) => {
            lemma_lookup_insert(d1, str_bytes_of("private"), BVal::Int(if x { 1 } else { 0 }));
        },
        None => {},
    }
    assert(lookup(d2, q) == Some(pl));
    match info.file_info {
        FileInfo::SingleFileInfo { name, length, md5sum } => {
            let n = BVal::Str(str_bytes(name));
            let d3 = dict_insert(d2, str_bytes_of("name"), n);
            lemma_lookup_insert(d2, str_bytes_of("name"), n);
            let d4 = dict_insert(d3, str_bytes_of("length"), BVal::Int(length as int));
            lemma_lookup_insert(d3, str_bytes_of("length"), BVal::Int(length as int));
            assert(lookup(d4, q) == Some(pl));
            match md5sum {
                Some(m) => {
                    lemma_lookup_insert(d4, str_bytes_of("md5sum"), BVal::Str(str_bytes(m)));
                },
                None => {},
            }
        },
        FileInfo::MultiFileInfo { name, files } => {
            let n = BVal::Str(str_bytes(name));
            let d3 = dict_insert(d2, str_bytes_of("name"), n);
            lemma_lookup_insert(d2, str_bytes_of("name"), n);
            lemma_lookup_insert(d3, str_bytes_of("files"), mifiles_to(files@));
        },
    }
}

} // verus!