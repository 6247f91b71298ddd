//! The contents of a `.torrent` file: the hashes of the pieces, their
//! length, the files they make up and the trackers to ask for peers.
use vstd::prelude::*;
use crate::bittorrent::{ParseError, PieceData};
use crate::bittorrent::text::concat;
use crate::bittorrent::bencode::{
    bval, bval_dict, bval_list, dict_get, dict_insert, insert_entry, lookup, str_bytes, str_bytes_of,
    BVal, BencodeT,
};
use crate::bittorrent::bencodable::Bencodable;
use crate::bittorrent::bedecoder::utf8_to_string;

verus! {

/// One file of a torrent with several files.
#[derive(PartialEq, Debug, Clone)]
pub struct MIFile {
    pub length: i64,
    pub md5sum: Option<String>,
    /// The path of the file below the torrent's directory, one component each.
    pub path: Vec<String>,
}

/// The files a torrent describes.
#[derive(PartialEq, Debug, Clone)]
pub enum FileInfo {
    SingleFileInfo { name: String, length: i64, md5sum: Option<String> },
    MultiFileInfo { name: String, files: Vec<MIFile> },
}

/// The `info` dictionary of a torrent file.
#[derive(PartialEq, Debug, Clone)]
pub struct Info {
    pub piece_length: i64,
    /// The SHA-1 hash of each piece.
    pub pieces: Vec<[u8; 20]>,
    pub private: Option<bool>,
    pub file_info: FileInfo,
}

/// A torrent file.
#[derive(PartialEq, Debug, Clone)]
pub struct MetaInfo {
    pub info: Info,
    pub announce: Option<String>,
    pub announce_list: Option<Vec<String>>,
    pub creation_date: Option<String>,
    pub comment: Option<String>,
    pub created_by: Option<String>,
    pub encoding: Option<String>,
}

/// A file on disk that a torrent's data is written to.
#[derive(PartialEq, Debug, Clone)]
pub struct BTFile {
    pub length: i64,
    pub md5sum: Option<String>,
    pub path: String,
}

/// The sum of the lengths of files.
pub open spec fn files_length(f: Seq<MIFile>) -> int
    decreases f.len(),
{
    if f.len() == 0 {
        0
    } else {
        files_length(f.drop_last()) + f.last().length
    }
}

/// The number of bytes of the torrent's data.
pub open spec fn total_length(fi: FileInfo) -> int {
    match fi {
        FileInfo::SingleFileInfo { length, .. } => length as int,
        FileInfo::MultiFileInfo { files, .. } => files_length(files@),
    }
}

/// The torrent has a piece, its piece length is not negative, and what the
/// data has beyond the other pieces is a `u32`.
pub open spec fn last_piece_fits(info: Info) -> bool {
    &&& info.pieces@.len() > 0
    &&& 0 <= info.piece_length
    &&& 0 <= total_length(info.file_info) - (info.pieces@.len() - 1) * info.piece_length <= u32::MAX
}

/// `a` and `b` joined by `/`, or `b` alone when `a` is empty.
pub open spec fn path_join(a: Seq<char>, b: Seq<char>) -> Seq<char> {
    if a.len() == 0 {
        b
    } else {
        a + seq!['/'] + b
    }
}

/// The components of a path joined onto `dir`.
pub open spec fn path_join_all(dir: Seq<char>, parts: Seq<String>) -> Seq<char>
    decreases parts.len(),
{
    if parts.len() == 0 {
        dir
    } else {
        path_join(path_join_all(dir, parts.drop_last()), parts.last()@)
    }
}

/// The SHA-1 digest of bytes.
pub uninterp spec fn sha1_digest(data: Seq<u8>) -> Seq<u8>;

/// The SHA-1 digest of `data` (the `sha1` crate's `Sha1::digest`): claimed
/// to be `sha1_digest` of the bytes, a name that is not spelled out.
#[verifier::external_body]
pub(crate) fn sha1_bytes(data: &[u8]) -> (r: [u8; 20])
    ensures
        r@ == sha1_digest(data@),
{
    let digest = <sha1::Sha1 as sha1::Digest>::digest(data);
    let mut out = [0u8; 20];
    out.copy_from_slice(&digest[..]);
    out
}

/// `a` followed by `/` and `b`, or `b` alone when `a` is empty.
fn join_path(a: String, b: &str) -> (r: String)
    ensures
        r@ == path_join(a@, b@),
{
    if a.as_str().as_bytes().len() == 0 {
        proof {
            vstd::utf8::encode_utf8_decode_utf8(a@);
            assert(vstd::utf8::encode_utf8(a@) =~= Seq::<u8>::empty());
            assert(vstd::utf8::decode_utf8(Seq::<u8>::empty()) =~= Seq::<char>::empty());
            assert(a@ =~= Seq::<char>::empty());
        }
        b.to_string()
    } else {
        proof {
            if a@.len() == 0 {
                assert(vstd::utf8::encode_utf8(a@).len() == 0);
            }
        }
        let s = concat(a, "/");
        proof {
            reveal_strlit("/");
        }
        concat(s, b)
    }
}


/// An optional field is absent or a string.
pub open spec fn opt_str_ok(e: Option<BVal>) -> bool {
    match e {
        None => true,
        Some(b) => b is Str,
    }
}

/// An optional field holds `v`.
pub open spec fn opt_str_is(e: Option<BVal>, v: Option<String>) -> bool {
    match e {
        None => v is None,
        Some(b) => v matches Some(s) && b == BVal::Str(str_bytes(s)),
    }
}

/// An optional string put into a dictionary when it is there.
pub open spec fn opt_str_into(d: Seq<(Seq<u8>, BVal)>, key: Seq<u8>, v: Option<String>) -> Seq<(Seq<u8>, BVal)> {
    match v {
        Some(s) => dict_insert(d, key, BVal::Str(str_bytes(s))),
        None => d,
    }
}

/// A list of strings.
pub open spec fn str_list_ok(l: Seq<BVal>) -> bool {
    forall|i: int| 0 <= i < l.len() ==> (#[trigger] l[i]) is Str
}

/// A list holds the strings `v`.
pub open spec fn str_list_is(l: Seq<BVal>, v: Seq<String>) -> bool {
    &&& l.len() == v.len()
    &&& forall|i: int| 0 <= i < l.len() ==> #[trigger] l[i] == BVal::Str(str_bytes(v[i]))
}

/// The list value of strings.
pub open spec fn str_list_to(v: Seq<String>) -> BVal {
    BVal::List(Seq::new(v.len(), |i: int| BVal::Str(str_bytes(v[i]))))
}

/// The strings of a decoded list of strings, or an error.
fn string_list(b: &BencodeT) -> (r: Result<Vec<String>, ParseError>)
    ensures
        r is Ok <==> (b@ matches BVal::List(l) && str_list_ok(l)),
        r matches Ok(v) ==> (b@ matches BVal::List(l) && str_list_is(l, v@)),
{
    match b {
        BencodeT::List(items) => {
            proof {
                crate::bittorrent::bencode::lemma_bval_list_len(items@);
            }
            let mut out: Vec<String> = Vec::new();
            let mut i: usize = 0;
            while i < items.len()
                invariant
                    i <= items@.len(),
                    b@ == BVal::List(bval_list(items@)),
                    bval_list(items@).len() == items@.len(),
                    forall|j: int| 0 <= j < items@.len() ==> #[trigger] bval_list(items@)[j] == bval(items@[j]),
                    forall|j: int| 0 <= j < i ==> (#[trigger] bval_list(items@)[j]) is Str,
                    str_list_is(bval_list(items@).subrange(0, i as int), out@),
                decreases items@.len() - i,
            {
                match String::from_bencode_t(&items[i]) {
                    Ok(s) => {
                        out.push(s);
                        proof {
                            assert(bval_list(items@)[i as int] == bval(items@[i as int]));
                            let l = bval_list(items@).subrange(0, i + 1);
                            assert forall|j: int| 0 <= j < l.len() implies #[trigger] l[j] == BVal::Str(str_bytes(out@[j])) by {
                                if j < i {
                                    assert(l[j] == bval_list(items@).subrange(0, i as int)[j]);
                                }
                            }
                        }
                    },
                    Err(e) => {
                        proof {
                            assert(!(bval_list(items@)[i as int] is Str));
                            assert(b@ == BVal::List(bval_list(items@)));
                            assert(!str_list_ok(bval_list(items@)));
                        }
                        return Err(ParseError::from_parse("Vector is of incorrect type", e));
                    },
                }
                i = i + 1;
            }
            assert(bval_list(items@).subrange(0, items@.len() as int) =~= bval_list(items@));
            Ok(out)
        },
        _ => Err(ParseError::new_str("Attempted to convert non-list BencodeT to vector")),
    }
}

/// The list value of strings.
fn string_list_to(v: &Vec<String>) -> (r: BencodeT)
    ensures
        r@ == str_list_to(v@),
{
    let mut items: Vec<BencodeT> = Vec::new();
    let mut i: usize = 0;
    while i < v.len()
        invariant
            i <= v@.len(),
            bval_list(items@) == Seq::new(i as nat, |j: int| BVal::Str(str_bytes(v@[j]))),
        decreases v@.len() - i,
    {
        let e = BencodeT::String(v[i].clone());
        proof {
            crate::bittorrent::bencode::lemma_bval_list_push(items@, e);
        }
        items.push(e);
        proof {
            assert(bval_list(items@) =~= Seq::new((i + 1) as nat, |j: int| BVal::Str(str_bytes(v@[j]))));
        }
        i = i + 1;
    }
    BencodeT::List(items)
}

/// The string an optional field holds, or an error when it is not a string.
fn string_from_entry(d: &Vec<(String, BencodeT)>, key: &str) -> (r: Result<Option<String>, ParseError>)
    ensures
        r is Ok <==> opt_str_ok(lookup(bval_dict(d@), str_bytes_of(key))),
        r matches Ok(v) ==> opt_str_is(lookup(bval_dict(d@), str_bytes_of(key)), v),
{
    match dict_get(d, key) {
        Some(b) => match String::from_bencode_t(b) {
            Ok(s) => Ok(Some(s)),
            Err(e) => Err(e),
        },
        None => Ok(None),
    }
}

/// Puts an optional string into dictionary entries when it is there.
fn insert_opt_string(d: &mut Vec<(String, BencodeT)>, key: &str, v: &Option<String>)
    ensures
        bval_dict(final(d)@) == opt_str_into(bval_dict(old(d)@), str_bytes_of(key), *v),
{
    match v {
        Some(s) => {
            insert_entry(d, key.to_string(), BencodeT::String(s.clone()));
        },
        None => {},
    }
}

/// A decoded value is a file of a torrent with several files.
pub open spec fn mifile_ok(b: BVal) -> bool {
    &&& b is Dict
    &&& lookup(b->Dict_0, str_bytes_of("length")) matches Some(BVal::Int(_))
    &&& opt_str_ok(lookup(b->Dict_0, str_bytes_of("md5sum")))
    &&& lookup(b->Dict_0, str_bytes_of("path")) matches Some(BVal::List(l)) && str_list_ok(l)
}

/// A decoded value describes file `f`.
pub open spec fn mifile_is(b: BVal, f: MIFile) -> bool {
    &&& b is Dict
    &&& lookup(b->Dict_0, str_bytes_of("length")) == Some(BVal::Int(f.length as int))
    &&& opt_str_is(lookup(b->Dict_0, str_bytes_of("md5sum")), f.md5sum)
    &&& lookup(b->Dict_0, str_bytes_of("path")) matches Some(BVal::List(l)) && str_list_is(l, f.path@)
}

/// The value that file `f` is written as.
pub open spec fn mifile_to(f: MIFile) -> BVal {
    BVal::Dict(
        dict_insert(
            opt_str_into(
                dict_insert(Seq::empty(), str_bytes_of("length"), BVal::Int(f.length as int)),
                str_bytes_of("md5sum"),
                f.md5sum,
            ),
            str_bytes_of("path"),
            str_list_to(f.path@),
        ),
    )
}

impl MIFile {
    /// The file a decoded dictionary describes.
    #[allow(non_snake_case)]
    pub fn from_BencodeT(bencode_t: &BencodeT) -> (r: Result<MIFile, ParseError>)
        ensures
            r is Ok <==> mifile_ok(bencode_t@),
            r matches Ok(f) ==> mifile_is(bencode_t@, f),
    {
        match bencode_t {
            BencodeT::Dictionary(hm) => {
                let length = match dict_get(hm, "length") {
                    Some(b) => i64::from_bencode_t(b)?,
                    None => {
                        return Err(ParseError::new_str("Did not find length in MIFile"));
                    },
                };
                let md5sum = string_from_entry(hm, "md5sum")?;
                let path = match dict_get(hm, "path") {
                    Some(b) => string_list(b)?,
                    None => {
                        return Err(ParseError::new_str("Did not find path in MIFile"));
                    },
                };
                Ok(MIFile { length: length, md5sum: md5sum, path: path })
            },
            _ => Err(ParseError::new_str("Multifile info not formatted as dictionary")),
        }
    }

    /// The dictionary the file is written as.
    #[allow(non_snake_case)]
    pub fn to_BencodeT(&self) -> (r: BencodeT)
        ensures
            r@ == mifile_to(*self),
    {
        let mut hm: Vec<(String, BencodeT)> = Vec::new();
        insert_entry(&mut hm, "length".to_string(), BencodeT::Integer(self.length));
        insert_opt_string(&mut hm, "md5sum", &self.md5sum);
        insert_entry(&mut hm, "path".to_string(), string_list_to(&self.path));
        BencodeT::Dictionary(hm)
    }
}

/// A list of decoded values are files of a torrent.
pub open spec fn mifiles_ok(l: Seq<BVal>) -> bool {
    forall|i: int| 0 <= i < l.len() ==> mifile_ok(#[trigger] l[i])
}

/// A list of decoded values describes the files `v`.
pub open spec fn mifiles_is(l: Seq<BVal>, v: Seq<MIFile>) -> bool {
    &&& l.len() == v.len()
    &&& forall|i: int| 0 <= i < l.len() ==> mifile_is(#[trigger] l[i], v[i])
}

/// The list value of files.
pub open spec fn mifiles_to(v: Seq<MIFile>) -> BVal {
    BVal::List(Seq::new(v.len(), |i: int| mifile_to(v[i])))
}

/// The files a decoded list describes, or an error.
fn mifile_list(b: &BencodeT) -> (r: Result<Vec<MIFile>, ParseError>)
    ensures
        r is Ok <==> (b@ matches BVal::List(l) && mifiles_ok(l)),
        r matches Ok(v) ==> (b@ matches BVal::List(l) && mifiles_is(l, v@)),
{
    match b {
        BencodeT::List(items) => {
            proof {
                crate::bittorrent::bencode::lemma_bval_list_len(items@);
            }
            let mut out: Vec<MIFile> = Vec::new();
            let mut i: usize = 0;
            while i < items.len()
                invariant
                    i <= items@.len(),
                    b@ == BVal::List(bval_list(items@)),
                    bval_list(items@).len() == items@.len(),
                    forall|j: int| 0 <= j < items@.len() ==> #[trigger] bval_list(items@)[j] == bval(items@[j]),
                    forall|j: int| 0 <= j < i ==> mifile_ok(#[trigger] bval_list(items@)[j]),
                    out@.len() == i,
                    forall|j: int| 0 <= j < i ==> mifile_is(#[trigger] bval_list(items@)[j], out@[j]),
                decreases items@.len() - i,
            {
                match MIFile::from_BencodeT(&items[i]) {
                    Ok(f) => {
                        out.push(f);
                        proof {
                            assert(bval_list(items@)[i as int] == bval(items@[i as int]));
                        }
                    },
                    Err(e) => {
                        proof {
                            assert(bval_list(items@)[i as int] == bval(items@[i as int]));
                            assert(b@ == BVal::List(bval_list(items@)));
                            assert(!mifiles_ok(bval_list(items@)));
                        }
                        return Err(ParseError::from_parse("Vector is of incorrect type", e));
                    },
                }
                i = i + 1;
            }
            Ok(out)
        },
        _ => Err(ParseError::new_str("Attempted to convert non-list BencodeT to vector")),
    }
}

/// The list value of files.
fn mifile_list_to(v: &Vec<MIFile>) -> (r: BencodeT)
    ensures
        r@ == mifiles_to(v@),
{
    let mut items: Vec<BencodeT> = Vec::new();
    let mut i: usize = 0;
    while i < v.len()
        invariant
            i <= v@.len(),
            bval_list(items@) == Seq::new(i as nat, |j: int| mifile_to(v@[j])),
        decreases v@.len() - i,
    {
        let e = v[i].to_BencodeT();
        proof {
            crate::bittorrent::bencode::lemma_bval_list_push(items@, e);
        }
        items.push(e);
        proof {
            assert(bval_list(items@) =~= Seq::new((i + 1) as nat, |j: int| mifile_to(v@[j])));
        }
        i = i + 1;
    }
    BencodeT::List(items)
}

/// Dictionary entries describe the files of a torrent: a name, and either
/// a length (one file) or a list of files.
pub open spec fn fileinfo_ok(d: Seq<(Seq<u8>, BVal)>) -> bool {
    &&& lookup(d, str_bytes_of("name")) matches Some(BVal::Str(_))
    &&& match lookup(d, str_bytes_of("length")) {
        Some(l) => l is Int && opt_str_ok(lookup(d, str_bytes_of("md5sum"))),
        None => lookup(d, str_bytes_of("files")) matches Some(BVal::List(l)) && mifiles_ok(l),
    }
}

/// Dictionary entries describe the files `fi`.
pub open spec fn fileinfo_is(d: Seq<(Seq<u8>, BVal)>, fi: FileInfo) -> bool {
    match fi {
        FileInfo::SingleFileInfo { name, length, md5sum } => {
            &&& lookup(d, str_bytes_of("name")) == Some(BVal::Str(str_bytes(name)))
            &&& lookup(d, str_bytes_of("length")) == Some(BVal::Int(length as int))
            &&& opt_str_is(lookup(d, str_bytes_of("md5sum")), md5sum)
        },
        FileInfo::MultiFileInfo { name, files } => {
            &&& lookup(d, str_bytes_of("name")) == Some(BVal::Str(str_bytes(name)))
            &&& lookup(d, str_bytes_of("length")) is None
            &&& lookup(d, str_bytes_of("files")) matches Some(BVal::List(l)) && mifiles_is(l, files@)
        },
    }
}

/// Dictionary entries with the description of the files `fi` put in.
pub open spec fn fileinfo_into(d: Seq<(Seq<u8>, BVal)>, fi: FileInfo) -> Seq<(Seq<u8>, BVal)> {
    match fi {
        FileInfo::SingleFileInfo { name, length, md5sum } => opt_str_into(
            dict_insert(
                dict_insert(d, str_bytes_of("name"), BVal::Str(str_bytes(name))),
                str_bytes_of("length"),
                BVal::Int(length as int),
            ),
            str_bytes_of("md5sum"),
            md5sum,
        ),
        FileInfo::MultiFileInfo { name, files } => dict_insert(
            dict_insert(d, str_bytes_of("name"), BVal::Str(str_bytes(name))),
            str_bytes_of("files"),
            mifiles_to(files@),
        ),
    }
}

impl FileInfo {
    /// The files that the entries of an `info` dictionary describe.
    #[allow(non_snake_case)]
    pub fn from_BencodeT(hm: &Vec<(String, BencodeT)>) -> (r: Result<FileInfo, ParseError>)
        ensures
            r is Ok <==> fileinfo_ok(bval_dict(hm@)),
            r matches Ok(fi) ==> fileinfo_is(bval_dict(hm@), fi),
    {
        let name = match dict_get(hm, "name") {
            Some(b) => String::from_bencode_t(b)?,
            None => {
                return Err(ParseError::new_str("Did not find name in info"));
            },
        };
        match dict_get(hm, "length") {
            Some(i) => {
                let length = i64::from_bencode_t(i)?;
                let md5sum = string_from_entry(hm, "md5sum")?;
                Ok(FileInfo::SingleFileInfo { name: name, length: length, md5sum: md5sum })
            },
            None => {
                let files = match dict_get(hm, "files") {
                    Some(b) => mifile_list(b)?,
                    None => {
                        return Err(ParseError::new_str("Did not find files in info"));
                    },
                };
                Ok(FileInfo::MultiFileInfo { name: name, files: files })
            },
        }
    }

    /// Puts the description of the files into the entries of an `info` dictionary.
    #[allow(non_snake_case)]
    pub fn to_BencodeT(&self, hm: &mut Vec<(String, BencodeT)>)
        ensures
            bval_dict(final(hm)@) == fileinfo_into(bval_dict(old(hm)@), *self),
    {
        match self {
            FileInfo::SingleFileInfo { name, length, md5sum } => {
                insert_entry(hm, "name".to_string(), BencodeT::String(name.clone()));
                insert_entry(hm, "length".to_string(), BencodeT::Integer(*length));
                insert_opt_string(hm, "md5sum", md5sum);
            },
            FileInfo::MultiFileInfo { name, files } => {
                insert_entry(hm, "name".to_string(), BencodeT::String(name.clone()));
                insert_entry(hm, "files".to_string(), mifile_list_to(files));
            },
        }
    }
}

impl FileInfo {
    /// The name of the file, or of the directory holding the files.
    pub fn name(&self) -> (r: &String)
        ensures
            *r == (match *self {
                FileInfo::SingleFileInfo { name, .. } => name,
                FileInfo::MultiFileInfo { name, .. } => name,
            }),
    {
        match self {
            FileInfo::SingleFileInfo { name, .. } => name,
            FileInfo::MultiFileInfo { name, .. } => name,
        }
    }

    /// The files on disk below `download_dir`, in the order of the torrent's data.
    pub fn as_btfiles(&self, download_dir: &str) -> (r: Vec<BTFile>)
        ensures
            match *self {
                FileInfo::SingleFileInfo { name, length, md5sum } => r@.len() == 1
                    && r@[0].length == length && r@[0].md5sum == md5sum
                    && r@[0].path@ == path_join(download_dir@, name@),
                FileInfo::MultiFileInfo { name, files } => r@.len() == files@.len() && forall|i: int|
                    0 <= i < r@.len() ==> (#[trigger] r@[i]).length == files@[i].length
                        && r@[i].md5sum == files@[i].md5sum && r@[i].path@ == path_join_all(
                        path_join(download_dir@, name@),
                        files@[i].path@,
                    ),
            },
    {
        match self {
            FileInfo::SingleFileInfo { name, length, md5sum } => {
                let path = join_path(download_dir.to_string(), name.as_str());
                let mut v: Vec<BTFile> = Vec::new();
                v.push(BTFile { length: *length, md5sum: md5sum.clone(), path: path });
                v
            },
            FileInfo::MultiFileInfo { name, files } => {
                let base = join_path(download_dir.to_string(), name.as_str());
                let mut v: Vec<BTFile> = Vec::new();
                let mut i: usize = 0;
                while i < files.len()
                    invariant
                        i <= files.len(),
                        base@ == path_join(download_dir@, name@),
                        v@.len() == i,
                        forall|j: int| 0 <= j < i ==> (#[trigger] v@[j]).length == files@[j].length
                            && v@[j].md5sum == files@[j].md5sum && v@[j].path@ == path_join_all(
                            base@,
                            files@[j].path@,
                        ),
                    decreases files.len() - i,
                {
                    let f = &files[i];
                    let mut path = base.clone();
                    let mut k: usize = 0;
                    while k < f.path.len()
                        invariant
                            k <= f.path.len(),
                            path@ == path_join_all(base@, f.path@.subrange(0, k as int)),
                        decreases f.path.len() - k,
                    {
                        path = join_path(path, f.path[k].as_str());
                        proof {
                            let s = f.path@.subrange(0, k + 1);
                            assert(s.drop_last() =~= f.path@.subrange(0, k as int));
                        }
                        k = k + 1;
                    }
                    assert(f.path@.subrange(0, f.path.len() as int) =~= f.path@);
                    v.push(BTFile { length: f.length, md5sum: f.md5sum.clone(), path: path });
                    i = i + 1;
                }
                v
            },
        }
    }
}


/// The 20-byte pieces of `b`, in order.
pub open spec fn hash_chunks(b: Seq<u8>) -> Seq<Seq<u8>> {
    Seq::new(b.len() / 20, |i: int| b.subrange(20 * i, 20 * i + 20))
}

/// The bytes of each hash.
pub open spec fn hashes_view(v: Seq<[u8; 20]>) -> Seq<Seq<u8>> {
    Seq::new(v.len(), |i: int| v[i]@)
}

/// The hashes one after the other.
pub open spec fn hashes_bytes(v: Seq<[u8; 20]>) -> Seq<u8>
    decreases v.len(),
{
    if v.len() == 0 {
        Seq::empty()
    } else {
        hashes_bytes(v.drop_last()) + v.last()@
    }
}

/// The value bytes are written as: a string when they are UTF-8, else a byte string.
pub open spec fn text_or_bytes(b: Seq<u8>) -> BVal {
    if vstd::utf8::valid_utf8(b) {
        BVal::Str(b)
    } else {
        BVal::Bytes(b)
    }
}

/// The bytes of a string or byte string field.
pub open spec fn field_bytes(e: Option<BVal>) -> Option<Seq<u8>> {
    match e {
        Some(BVal::Str(b)) => Some(b),
        Some(BVal::Bytes(b)) => Some(b),
        _ => None,
    }
}

/// An optional field is absent or 0 or 1.
pub open spec fn opt_bool_ok(e: Option<BVal>) -> bool {
    match e {
        None => true,
        Some(b) => b == BVal::Int(0) || b == BVal::Int(1),
    }
}

/// An optional field holds `v`.
pub open spec fn opt_bool_is(e: Option<BVal>, v: Option<bool>) -> bool {
    match e {
        None => v is None,
        Some(b) => v matches Some(x) && b == BVal::Int(if x { 1 } else { 0 }),
    }
}

/// An optional flag put into a dictionary when it is there.
pub open spec fn opt_bool_into(d: Seq<(Seq<u8>, BVal)>, key: Seq<u8>, v: Option<bool>) -> Seq<(Seq<u8>, BVal)> {
    match v {
        Some(x) => dict_insert(d, key, BVal::Int(if x { 1 } else { 0 })),
        None => d,
    }
}

/// A decoded value is an `info` dictionary.
pub open spec fn info_ok(b: BVal) -> bool {
    &&& b is Dict
    &&& lookup(b->Dict_0, str_bytes_of("piece length")) matches Some(BVal::Int(_))
    &&& field_bytes(lookup(b->Dict_0, str_bytes_of("pieces"))) matches Some(p) && p.len() % 20 == 0
    &&& opt_bool_ok(lookup(b->Dict_0, str_bytes_of("private")))
    &&& fileinfo_ok(b->Dict_0)
}

/// A decoded value describes `info`.
pub open spec fn info_is(b: BVal, info: Info) -> bool {
    &&& b is Dict
    &&& lookup(b->Dict_0, str_bytes_of("piece length")) == Some(BVal::Int(info.piece_length as int))
    &&& field_bytes(lookup(b->Dict_0, str_bytes_of("pieces"))) matches Some(p) && hashes_view(info.pieces@)
        == hash_chunks(p)
    &&& opt_bool_is(lookup(b->Dict_0, str_bytes_of("private")), info.private)
    &&& fileinfo_is(b->Dict_0, info.file_info)
}

/// The value `info` is written as.
pub open spec fn info_to(info: Info) -> BVal {
    BVal::Dict(
        fileinfo_into(
            opt_bool_into(
                dict_insert(
                    dict_insert(Seq::empty(), str_bytes_of("piece length"), BVal::Int(info.piece_length as int)),
                    str_bytes_of("pieces"),
                    text_or_bytes(hashes_bytes(info.pieces@)),
                ),
                str_bytes_of("private"),
                info.private,
            ),
            info.file_info,
        ),
    )
}

/// The first tracker of an entry of an announce list: the entry itself, or
/// the first of a non-empty list of trackers.
pub open spec fn announce_item(b: BVal) -> Option<Seq<u8>> {
    match b {
        BVal::Str(x) => Some(x),
        BVal::List(l) => if l.len() > 0 && str_list_ok(l) {
            Some(l[0]->Str_0)
        } else {
            None
        },
        _ => None,
    }
}

/// An optional field is absent or an announce list.
pub open spec fn announce_list_ok(e: Option<BVal>) -> bool {
    match e {
        None => true,
        Some(b) => b matches BVal::List(l) && forall|i: int| 0 <= i < l.len() ==> (#[trigger] announce_item(l[i])) is Some,
    }
}

/// An optional field holds the announce list `v`.
pub open spec fn announce_list_is(e: Option<BVal>, v: Option<Vec<String>>) -> bool {
    match e {
        None => v is None,
        Some(b) => v matches Some(x) && b matches BVal::List(l) && l.len() == x@.len() && forall|i: int|
            0 <= i < l.len() ==> #[trigger] announce_item(l[i]) == Some(str_bytes(x@[i])),
    }
}

/// A decoded value is a torrent file.
pub open spec fn metainfo_ok(b: BVal) -> bool {
    &&& b is Dict
    &&& lookup(b->Dict_0, str_bytes_of("info")) matches Some(x) && info_ok(x)
    &&& opt_str_ok(lookup(b->Dict_0, str_bytes_of("announce")))
    &&& announce_list_ok(lookup(b->Dict_0, str_bytes_of("announce-list")))
    &&& opt_str_ok(lookup(b->Dict_0, str_bytes_of("creation date")))
    &&& opt_str_ok(lookup(b->Dict_0, str_bytes_of("comment")))
    &&& opt_str_ok(lookup(b->Dict_0, str_bytes_of("created by")))
    &&& opt_str_ok(lookup(b->Dict_0, str_bytes_of("encoding")))
}

/// A decoded value describes the torrent file `m`.
pub open spec fn metainfo_is(b: BVal, m: MetaInfo) -> bool {
    &&& b is Dict
    &&& lookup(b->Dict_0, str_bytes_of("info")) matches Some(x) && info_is(x, m.info)
    &&& opt_str_is(lookup(b->Dict_0, str_bytes_of("announce")), m.announce)
    &&& announce_list_is(lookup(b->Dict_0, str_bytes_of("announce-list")), m.announce_list)
    &&& opt_str_is(lookup(b->Dict_0, str_bytes_of("creation date")), m.creation_date)
    &&& opt_str_is(lookup(b->Dict_0, str_bytes_of("comment")), m.comment)
    &&& opt_str_is(lookup(b->Dict_0, str_bytes_of("created by")), m.created_by)
    &&& opt_str_is(lookup(b->Dict_0, str_bytes_of("encoding")), m.encoding)
}

/// The value the torrent file `m` is written as. The creation date and
/// author go under the keys `creation_date` and `created_by`.
pub open spec fn metainfo_to(m: MetaInfo) -> BVal {
    let d0 = dict_insert(Seq::empty(), str_bytes_of("info"), info_to(m.info));
    let d1 = match m.announce_list {
        Some(l) => dict_insert(d0, str_bytes_of("announce-list"), str_list_to(l@)),
        None => d0,
    };
    BVal::Dict(
        opt_str_into(
            opt_str_into(
                opt_str_into(
                    opt_str_into(opt_str_into(d1, str_bytes_of("announce"), m.announce), str_bytes_of("creation_date"), m.creation_date),
                    str_bytes_of("comment"),
                    m.comment,
                ),
                str_bytes_of("created_by"),
                m.created_by,
            ),
            str_bytes_of("encoding"),
            m.encoding,
        ),
    )
}

/// Joining again the 20-byte hashes that `split_hashes` cut out of bytes
/// gives those bytes back, so `hashes_to_string` of them holds the bytes
/// that were split.
pub proof fn lemma_hashes_join(b: Seq<u8>, v: Seq<[u8; 20]>)
    requires
        b.len() % 20 == 0,
        hashes_view(v) == hash_chunks(b),
    ensures
        hashes_bytes(v) == b,
{
    lemma_hashes_roundtrip(v);
    let x = hashes_bytes(v);
    let n = v.len();
    assert(hashes_view(v).len() == n);
    assert(b.len() / 20 == n);
    assert(b.len() == 20 * n);
    assert forall|j: int| 0 <= j < b.len() implies #[trigger] x[j] == b[j] by {
        let q = j / 20;
        let m = j % 20;
        assert(j == 20 * q + m && 0 <= m < 20) by (nonlinear_arith)
            requires
                q == j / 20,
                m == j % 20,
                0 <= j,
        ;
        assert(0 <= q < n) by (nonlinear_arith)
            requires
                j == 20 * q + m,
                0 <= m < 20,
                0 <= j < 20 * n,
        ;
        assert(hash_chunks(x)[q] == hash_chunks(b)[q]);
        assert(hash_chunks(x)[q][m] == x[20 * q + m]);
        assert(hash_chunks(b)[q][m] == b[20 * q + m]);
    }
    assert(x =~= b);
}

/// Cutting concatenated hashes into 20-byte pieces gives back the hashes.
pub proof fn lemma_hashes_roundtrip(v: Seq<[u8; 20]>)
    ensures
        hashes_bytes(v).len() == 20 * v.len(),
        hash_chunks(hashes_bytes(v)) == hashes_view(v),
    decreases v.len(),
{
    if v.len() > 0 {
        let t = v.drop_last();
        lemma_hashes_roundtrip(t);
        let b = hashes_bytes(v);
        let bt = hashes_bytes(t);
        assert(b == bt + v.last()@);
        assert(b.len() / 20 == v.len()) by (nonlinear_arith)
            requires
                b.len() == 20 * t.len() + 20,
                v.len() == t.len() + 1,
        ;
        assert forall|i: int| 0 <= i < v.len() implies #[trigger] hash_chunks(b)[i] == hashes_view(v)[i] by {
            if i < t.len() {
                assert(hash_chunks(bt)[i] == hashes_view(t)[i]);
                assert(b.subrange(20 * i, 20 * i + 20) =~= bt.subrange(20 * i, 20 * i + 20));
            } else {
                assert(b.subrange(20 * i, 20 * i + 20) =~= v.last()@);
            }
        }
        assert(hash_chunks(b) =~= hashes_view(v));
    } else {
        assert(hash_chunks(hashes_bytes(v)) =~= hashes_view(v));
    }
}

impl Info {
    /// The 20-byte hashes that `bytes` hold one after the other.
    pub fn split_hashes(bytes: &[u8]) -> (r: Result<Vec<[u8; 20]>, ParseError>)
        ensures
            r is Ok <==> bytes@.len() % 20 == 0,
            r matches Ok(v) ==> hashes_view(v@) == hash_chunks(bytes@),
            r matches Err(e) ==> e is Parse && e.message() == "pieces string must be multiple of 20"@,
    {
        if bytes.len() % 20 != 0 {
            return Err(ParseError::new_str("pieces string must be multiple of 20"));
        }
        let blen = bytes.len();
        let n = blen / 20;
        let mut vec: Vec<[u8; 20]> = Vec::new();
        let mut i: usize = 0;
        while i < n
            invariant
                i <= n,
                blen == bytes@.len(),
                n == bytes@.len() / 20,
                bytes@.len() % 20 == 0,
                vec@.len() == i,
                forall|j: int| 0 <= j < i ==> (#[trigger] vec@[j])@ == bytes@.subrange(20 * j, 20 * j + 20),
            decreases n - i,
        {
            assert(20 * i + 20 <= bytes@.len()) by (nonlinear_arith)
                requires
                    i < n,
                    n == bytes@.len() / 20,
                    bytes@.len() % 20 == 0,
            ;
            let s = i * 20;
            let mut a: [u8; 20] = [0u8; 20];
            let mut k: usize = 0;
            while k < 20
                invariant
                    k <= 20,
                    s == 20 * i,
                    blen == bytes@.len(),
                    s + 20 <= bytes@.len(),
                    forall|q: int| 0 <= q < k ==> a@[q] == bytes@[s + q],
                decreases 20 - k,
            {
                a[k] = bytes[s + k];
                k = k + 1;
            }
            assert(a@ =~= bytes@.subrange(20 * i, 20 * i + 20));
            vec.push(a);
            i = i + 1;
        }
        assert(hashes_view(vec@) =~= hash_chunks(bytes@));
        Ok(vec)
    }

    /// The hashes one after the other, as a string when they are UTF-8 and
    /// else as a byte string.
    pub fn hashes_to_string(hashes: &Vec<[u8; 20]>) -> (r: BencodeT)
        ensures
            r@ == text_or_bytes(hashes_bytes(hashes@)),
    {
        let mut vec: Vec<u8> = Vec::new();
        let mut i: usize = 0;
        while i < hashes.len()
            invariant
                i <= hashes@.len(),
                vec@ == hashes_bytes(hashes@.subrange(0, i as int)),
            decreases hashes@.len() - i,
        {
            let mut k: usize = 0;
            let ghost start = vec@;
            while k < 20
                invariant
                    k <= 20,
                    i < hashes@.len(),
                    vec@ == start + hashes@[i as int]@.subrange(0, k as int),
                decreases 20 - k,
            {
                vec.push(hashes[i][k]);
                assert(vec@ =~= start + hashes@[i as int]@.subrange(0, k + 1));
                k = k + 1;
            }
            proof {
                let t = hashes@.subrange(0, i + 1);
                assert(t.drop_last() =~= hashes@.subrange(0, i as int));
                assert(hashes@[i as int]@.subrange(0, 20) =~= hashes@[i as int]@);
            }
            i = i + 1;
        }
        assert(hashes@.subrange(0, hashes@.len() as int) =~= hashes@);
        utf8_to_string(vec.as_slice())
    }

    /// The `info` dictionary a decoded value describes.
    #[allow(non_snake_case)]
    pub fn from_BencodeT(bencode_t: &BencodeT) -> (r: Result<Info, ParseError>)
        ensures
            r is Ok <==> info_ok(bencode_t@),
            r matches Ok(info) ==> info_is(bencode_t@, info),
    {
        match bencode_t {
            BencodeT::Dictionary(hm) => {
                let piece_length = match dict_get(hm, "piece length") {
                    Some(b) => i64::from_bencode_t(b)?,
                    None => {
                        return Err(ParseError::new_str("Did not find piece length in info"));
                    },
                };
                let pieces = match dict_get(hm, "pieces") {
                    Some(BencodeT::String(s)) => Info::split_hashes(s.as_str().as_bytes())?,
                    Some(BencodeT::ByteString(b)) => Info::split_hashes(b.as_slice())?,
                    _ => {
                        return Err(ParseError::new_str("Did not find pieces in info"));
                    },
                };
                let private = match dict_get(hm, "private") {
                    Some(b) => Some(bool::from_bencode_t(b)?),
                    None => None,
                };
                let file_info = FileInfo::from_BencodeT(hm)?;
                Ok(Info { piece_length: piece_length, pieces: pieces, private: private, file_info: file_info })
            },
            _ => Err(ParseError::new_str("Attempted to convert non-dictionary BencodeT to Info")),
        }
    }

    /// The dictionary `info` is written as.
    #[allow(non_snake_case)]
    pub fn to_BencodeT(&self) -> (r: BencodeT)
        ensures
            r@ == info_to(*self),
    {
        let mut hm: Vec<(String, BencodeT)> = Vec::new();
        insert_entry(&mut hm, "piece length".to_string(), BencodeT::Integer(self.piece_length));
        insert_entry(&mut hm, "pieces".to_string(), Info::hashes_to_string(&self.pieces));
        match self.private {
            Some(x) => {
                insert_entry(&mut hm, "private".to_string(), x.to_bencode_t());
            },
            None => {},
        }
        self.file_info.to_BencodeT(&mut hm);
        BencodeT::Dictionary(hm)
    }
}

/// The trackers of an announce list: each entry, or the first of each list entry.
fn announce_list(b: &BencodeT) -> (r: Result<Vec<String>, ParseError>)
    ensures
        r is Ok <==> announce_list_ok(Some(b@)),
        r matches Ok(v) ==> announce_list_is(Some(b@), Some(v)),
{
    match b {
        BencodeT::List(items) => {
            proof {
                crate::bittorrent::bencode::lemma_bval_list_len(items@);
            }
            let mut out: Vec<String> = Vec::new();
            let mut i: usize = 0;
            while i < items.len()
                invariant
                    i <= items@.len(),
                    b@ == BVal::List(bval_list(items@)),
                    bval_list(items@).len() == items@.len(),
                    forall|j: int| 0 <= j < items@.len() ==> #[trigger] bval_list(items@)[j] == bval(items@[j]),
                    out@.len() == i,
                    forall|j: int| 0 <= j < i ==> #[trigger] announce_item(bval_list(items@)[j]) == Some(str_bytes(out@[j])),
                decreases items@.len() - i,
            {
                proof {
                    assert(bval_list(items@)[i as int] == bval(items@[i as int]));
                }
                match &items[i] {
                    BencodeT::String(s) => {
                        out.push(s.clone());
                    },
                    BencodeT::List(_) => {
                        let tier = match string_list(&items[i]) {
                            Ok(t) => t,
                            Err(e) => {
                                proof {
                                    assert(announce_item(bval_list(items@)[i as int]) is None);
                                }
                                return Err(e);
                            },
                        };
                        if tier.len() == 0 {
                            proof {
                                assert(announce_item(bval_list(items@)[i as int]) is None);
                            }
                            return Err(ParseError::new_str("Empty list in announce list"));
                        }
                        proof {
                            assert(bval_list(items@)[i as int] matches BVal::List(l) && l[0] == BVal::Str(str_bytes(tier@[0])));
                        }
                        out.push(tier[0].clone());
                    },
                    _ => {
                        proof {
                            assert(announce_item(bval_list(items@)[i as int]) is None);
                        }
                        return Err(ParseError::new_str("Announce list entry is not a string or list"));
                    },
                }
                i = i + 1;
            }
            Ok(out)
        },
        _ => Err(ParseError::new_str("Attempted to convert non-list BencodeT to vector")),
    }
}

impl MetaInfo {
    /// The torrent file a decoded value describes.
    #[allow(non_snake_case)]
    pub fn from_BencodeT(bencodet: &BencodeT) -> (r: Result<MetaInfo, ParseError>)
        ensures
            r is Ok <==> metainfo_ok(bencodet@),
            r matches Ok(m) ==> metainfo_is(bencodet@, m),
    {
        match bencodet {
            BencodeT::Dictionary(hm) => {
                let info = match dict_get(hm, "info") {
                    Some(b) => Info::from_BencodeT(b)?,
                    None => {
                        return Err(ParseError::new_str("Did not find info in MetaInfo HashMap"));
                    },
                };
                let announce = string_from_entry(hm, "announce")?;
                let announce_list = match dict_get(hm, "announce-list") {
                    Some(b) => Some(announce_list(b)?),
                    None => None,
                };
                let creation_date = string_from_entry(hm, "creation date")?;
                let comment = string_from_entry(hm, "comment")?;
                let created_by = string_from_entry(hm, "created by")?;
                let encoding = string_from_entry(hm, "encoding")?;
                Ok(MetaInfo {
                    info: info,
                    announce: announce,
                    announce_list: announce_list,
                    creation_date: creation_date,
                    comment: comment,
                    created_by: created_by,
                    encoding: encoding,
                })
            },
            _ => Err(ParseError::new_str("MetaInfo file not formatted as dictionary")),
        }
    }

    /// The dictionary the torrent file is written as.
    #[allow(non_snake_case)]
    pub fn to_BencodeT(&self) -> (r: BencodeT)
        ensures
            r@ == metainfo_to(*self),
    {
        let mut hm: Vec<(String, BencodeT)> = Vec::new();
        insert_entry(&mut hm, "info".to_string(), self.info.to_BencodeT());
        match &self.announce_list {
            Some(list) => {
                insert_entry(&mut hm, "announce-list".to_string(), string_list_to(list));
            },
            None => {},
        }
        insert_opt_string(&mut hm, "announce", &self.announce);
        insert_opt_string(&mut hm, "creation_date", &self.creation_date);
        insert_opt_string(&mut hm, "comment", &self.comment);
        insert_opt_string(&mut hm, "created_by", &self.created_by);
        insert_opt_string(&mut hm, "encoding", &self.encoding);
        BencodeT::Dictionary(hm)
    }

    /// The torrent file that bencoded bytes hold.
    pub fn decode(contents: &[u8]) -> (r: Result<MetaInfo, ParseError>)
        ensures
            r is Ok <==> (crate::bittorrent::bedecoder::spec_parse(contents@) matches Ok(v) && metainfo_ok(v)),
            r matches Ok(m) ==> (crate::bittorrent::bedecoder::spec_parse(contents@) matches Ok(v) && metainfo_is(v, m)),
    {
        match crate::bittorrent::bedecoder::parse(contents) {
            Ok(bencodet) => MetaInfo::from_BencodeT(&bencodet),
            Err(err) => Err(err),
        }
    }

    /// The bencoded bytes of the torrent file.
    pub fn encode(&self) -> (r: Vec<u8>)
        ensures
            r@ == crate::bittorrent::bencode::enc(crate::bittorrent::bencode::canon(metainfo_to(*self))),
    {
        crate::bittorrent::bencoder::encode(&self.to_BencodeT())
    }

    /// The identifier of the torrent: the SHA-1 digest of its bencoded
    /// `info` dictionary.
    pub fn info_hash(&self) -> (r: crate::bittorrent::hash::Hash)
        ensures
            r@ == sha1_digest(crate::bittorrent::bencode::enc(crate::bittorrent::bencode::canon(info_to(self.info)))),
    {
        let bstring = crate::bittorrent::bencoder::encode(&self.info.to_BencodeT());
        crate::bittorrent::hash::Hash(sha1_bytes(bstring.as_slice()))
    }
}

impl MetaInfo {
    /// The `info` dictionary.
    pub fn info(&self) -> (r: &Info)
        ensures
            *r == self.info,
    {
        &self.info
    }

    /// The length of every piece but the last.
    pub fn piece_length(&self) -> (r: i64)
        ensures
            r == self.info.piece_length,
    {
        self.info.piece_length
    }

    /// The number of pieces.
    pub fn npieces(&self) -> (r: usize)
        ensures
            r == self.info.pieces@.len(),
    {
        self.info.pieces.len()
    }

    /// The torrent's name.
    pub fn name(&self) -> (r: &String)
        ensures
            *r == (match self.info.file_info {
                FileInfo::SingleFileInfo { name, .. } => name,
                FileInfo::MultiFileInfo { name, .. } => name,
            }),
    {
        self.info.file_info.name()
    }

    /// The trackers to ask for peers: the announce URL, then those of the
    /// announce list.
    pub fn trackers(&self) -> (r: Vec<String>)
        ensures
            r@ == (match self.announce {
                Some(a) => seq![a],
                None => Seq::empty(),
            }) + (match self.announce_list {
                Some(l) => l@,
                None => Seq::empty(),
            }),
    {
        let mut v: Vec<String> = Vec::new();
        match &self.announce {
            Some(a) => v.push(a.clone()),
            None => {},
        }
        let ghost head = v@;
        match &self.announce_list {
            Some(list) => {
                let mut i: usize = 0;
                while i < list.len()
                    invariant
                        i <= list.len(),
                        v@ == head + list@.subrange(0, i as int),
                    decreases list.len() - i,
                {
                    v.push(list[i].clone());
                    assert(v@ =~= head + list@.subrange(0, i + 1));
                    i = i + 1;
                }
                assert(list@.subrange(0, list.len() as int) =~= list@);
            },
            None => {
                assert(v@ =~= head + Seq::<String>::empty());
            },
        }
        v
    }

    /// The number of bytes of the torrent's data, summed without overflow.
    pub fn total_length_wide(&self) -> (r: i128)
        ensures
            r == total_length(self.info.file_info),
            i64::MIN * usize::MAX <= r <= i64::MAX * usize::MAX,
    {
        match &self.info.file_info {
            FileInfo::SingleFileInfo { length, .. } => *length as i128,
            FileInfo::MultiFileInfo { files, .. } => {
                let mut total: i128 = 0;
                let mut i: usize = 0;
                while i < files.len()
                    invariant
                        i <= files.len(),
                        total == files_length(files@.subrange(0, i as int)),
                        i64::MIN * i <= total <= i64::MAX * i,
                    decreases files.len() - i,
                {
                    proof {
                        assert(files@.subrange(0, i + 1).drop_last() =~= files@.subrange(0, i as int));
                        assert(i64::MIN * (i + 1) == i64::MIN * i + i64::MIN) by (nonlinear_arith);
                        assert(i64::MAX * (i + 1) == i64::MAX * i + i64::MAX) by (nonlinear_arith);
                        assert(i64::MAX * i <= i64::MAX * usize::MAX) by (nonlinear_arith)
                            requires
                                i <= usize::MAX,
                        ;
                        assert(i64::MIN * i >= i64::MIN * usize::MAX) by (nonlinear_arith)
                            requires
                                i <= usize::MAX,
                        ;
                    }
                    total = total + files[i].length as i128;
                    i = i + 1;
                }
                assert(files@.subrange(0, files.len() as int) =~= files@);
                assert(i64::MAX * i <= i64::MAX * usize::MAX) by (nonlinear_arith)
                    requires
                        i <= usize::MAX,
                ;
                assert(i64::MIN * i >= i64::MIN * usize::MAX) by (nonlinear_arith)
                    requires
                        i <= usize::MAX,
                ;
                total
            },
        }
    }

    /// The number of bytes of the torrent's data.
    pub fn total_length(&self) -> (r: i64)
        requires
            i64::MIN <= total_length(self.info.file_info) <= i64::MAX,
            self.info.file_info matches FileInfo::MultiFileInfo { files, .. } ==> forall|k: int|
                0 <= k <= files@.len() ==> i64::MIN <= #[trigger] files_length(files@.subrange(0, k))
                    <= i64::MAX,
        ensures
            r == total_length(self.info.file_info),
    {
        match &self.info.file_info {
            FileInfo::SingleFileInfo { length, .. } => *length,
            FileInfo::MultiFileInfo { files, .. } => {
                let mut total: i64 = 0;
                let mut i: usize = 0;
                while i < files.len()
                    invariant
                        i <= files.len(),
                        total == files_length(files@.subrange(0, i as int)),
                        forall|k: int|
                            0 <= k <= files@.len() ==> i64::MIN <= #[trigger] files_length(
                                files@.subrange(0, k),
                            ) <= i64::MAX,
                    decreases files.len() - i,
                {
                    proof {
                        assert(files@.subrange(0, i + 1).drop_last() =~= files@.subrange(0, i as int));
                        assert(i64::MIN <= files_length(files@.subrange(0, i + 1)) <= i64::MAX);
                    }
                    total = total + files[i].length;
                    i = i + 1;
                }
                assert(files@.subrange(0, files.len() as int) =~= files@);
                total
            },
        }
    }

    /// The length of the last piece, what the data has beyond the other
    /// pieces, when there is a piece, the piece length is not negative and
    /// that length is a `u32`.
    pub fn checked_last_piece_length(&self) -> (r: Option<u32>)
        ensures
            r is Some <==> last_piece_fits(self.info),
            r matches Some(x) ==> x == total_length(self.info.file_info) - (self.info.pieces@.len() - 1)
                * self.info.piece_length,
    {
        let n = self.info.pieces.len();
        if n == 0 || self.info.piece_length < 0 {
            return None;
        }
        let total = self.total_length_wide();
        let pl = self.info.piece_length as i128;
        let m = (n - 1) as i128;
        assert(m * pl <= 0xffff_ffff_ffff_ffff * 0x7fff_ffff_ffff_ffff) by (nonlinear_arith)
            requires
                0 <= m <= 0xffff_ffff_ffff_ffff,
                0 <= pl <= 0x7fff_ffff_ffff_ffff,
        ;
        assert(0 <= m * pl) by (nonlinear_arith)
            requires
                0 <= m,
                0 <= pl,
        ;
        let full = m * pl;
        if total < 0 {
            return None;
        }
        let last = total - full;
        if 0 <= last && last <= u32::MAX as i128 {
            Some(last as u32)
        } else {
            None
        }
    }

    /// The length of the last piece: what the data has beyond the other pieces.
    pub fn last_piece_length(&self) -> (r: u32)
        requires
            last_piece_fits(self.info),
        ensures
            r == total_length(self.info.file_info) - (self.info.pieces@.len() - 1)
                * self.info.piece_length,
    {
        match self.checked_last_piece_length() {
            Some(x) => x,
            None => 0,
        }
    }

    /// Whether a piece's data has the hash the torrent lists for it.
    pub fn valid_piece(&self, piece: &PieceData) -> (r: bool)
        ensures
            r == (piece.piece.index < self.info.pieces@.len() && sha1_digest(piece.data@)
                == self.info.pieces@[piece.piece.index as int]@),
    {
        let index = piece.piece.index as usize;
        if index >= self.info.pieces.len() {
            return false;
        }
        let digest = sha1_bytes(piece.data.as_slice());
        crate::bittorrent::bencode::bytes_equal(&digest, &self.info.pieces[index])
    }
}

} // verus!
