//! A torrent being downloaded: which pieces and parts of pieces are here,
//! and where in the files each block of a piece lies.
use vstd::prelude::*;
use std::collections::HashMap;
use bit_vec::BitVec;
use crate::bittorrent::{ParseError, Piece, PieceData};
use crate::bittorrent::bitfield::{bits, bv_count_ones, bv_from_elem, bv_get, bv_len, bv_set, count_set};
use crate::bittorrent::markers::{covered, have_range, in_shaded, insert_range, shaded_above, spans, wf_markers, DLMarker};
use crate::bittorrent::metainfo::{total_length, BTFile, FileInfo, MetaInfo};
use crate::bittorrent::text::{concat, decimal_chars, push_decimal};

verus! {

broadcast use vstd::std_specs::hash::group_hash_axioms;

/// A downloading torrent: its metainfo, the pieces we have, the parts of
/// the other pieces we have, and the files on disk.
#[derive(Debug)]
pub struct Torrent {
    pub metainfo: MetaInfo,
    /// The pieces we have.
    pub bitfield: BitVec,
    /// Piece index to the markers of the parts of it we have.
    pub map: HashMap<u32, Vec<DLMarker>>,
    pub files: Vec<BTFile>,
}

/// A stretch of one file that a block of a piece lies in.
#[derive(PartialEq, Debug, Clone)]
pub struct FilePiece {
    pub path: String,
    pub begin: i64,
    pub length: i64,
}

/// The total length of the first `k` files.
pub open spec fn prefix_len(files: Seq<BTFile>, k: int) -> int
    decreases k,
{
    if k <= 0 {
        0
    } else {
        prefix_len(files, k - 1) + files[k - 1].length
    }
}

/// The offset at which file `k` ends.
pub open spec fn file_end(files: Seq<BTFile>, k: int) -> int {
    prefix_len(files, k + 1)
}

/// The first file, from `k` on, whose end is at or past offset `x`.
pub open spec fn first_reaching(files: Seq<BTFile>, x: int, k: int) -> int
    decreases files.len() - k,
{
    if k >= files.len() || prefix_len(files, k + 1) >= x {
        k
    } else {
        first_reaching(files, x, k + 1)
    }
}

/// The files have lengths that are not negative and whose sum fits in `i64`.
pub open spec fn files_fit(files: Seq<BTFile>) -> bool {
    &&& forall|k: int| 0 <= k < files.len() ==> (#[trigger] files[k]).length >= 0
    &&& prefix_len(files, files.len() as int) <= i64::MAX
}

/// The stretches of the files that hold the bytes from offset `a` up to
/// `a + len` of the torrent's data: one for each file from the first whose
/// end reaches `a` to the first whose end reaches `a + len`.
pub open spec fn file_pieces_ok(files: Seq<BTFile>, a: int, len: int, r: Seq<FilePiece>) -> bool {
    let k0 = first_reaching(files, a, 0);
    let k1 = first_reaching(files, a + len, 0);
    &&& r.len() == (if len == 0 { 0 } else { k1 - k0 + 1 })
    &&& forall|j: int| 0 <= j < r.len() ==> {
        let k = k0 + j;
        let start = if a > prefix_len(files, k) { a } else { prefix_len(files, k) };
        let stop = if a + len < prefix_len(files, k + 1) { a + len } else { prefix_len(files, k + 1) };
        &&& (#[trigger] r[j]).path == files[k].path
        &&& r[j].begin == start - prefix_len(files, k)
        &&& r[j].length == stop - start
    }
}

proof fn lemma_prefix_mono(files: Seq<BTFile>, i: int, j: int)
    requires
        0 <= i <= j <= files.len(),
        forall|k: int| 0 <= k < files.len() ==> (#[trigger] files[k]).length >= 0,
    ensures
        prefix_len(files, i) <= prefix_len(files, j),
    decreases j - i,
{
    if i < j {
        lemma_prefix_mono(files, i, j - 1);
        assert(files[j - 1].length >= 0);
    }
}

proof fn lemma_first_reaching(files: Seq<BTFile>, x: int, k: int)
    requires
        0 <= k <= files.len(),
    ensures
        k <= first_reaching(files, x, k) <= files.len(),
        first_reaching(files, x, k) < files.len() ==> prefix_len(files, first_reaching(files, x, k) + 1) >= x,
        forall|m: int| k <= m < first_reaching(files, x, k) ==> #[trigger] file_end(files, m) < x,
    decreases files.len() - k,
{
    if k < files.len() && prefix_len(files, k + 1) < x {
        lemma_first_reaching(files, x, k + 1);
    }
}

/// The file, counted from `k`, that offset `x` lies in, once the files
/// before `k` end before it.
proof fn lemma_first_reaching_from(files: Seq<BTFile>, x: int, k: int)
    requires
        0 <= k <= files.len(),
        forall|m: int| 0 <= m < k ==> #[trigger] file_end(files, m) < x,
    ensures
        first_reaching(files, x, 0) == first_reaching(files, x, k),
    decreases k,
{
    if k > 0 {
        lemma_first_reaching_from(files, x, k - 1);
        assert(file_end(files, k - 1) < x);
    }
}

/// The stretches of files that hold the bytes of block `piece`.
pub fn map_files(files: &Vec<BTFile>, piece: &Piece, piece_length: i64) -> (r: Vec<FilePiece>)
    requires
        files@.len() > 0,
        files_fit(files@),
        0 <= piece.begin + piece.index * piece_length,
        piece.begin + piece.index * piece_length + piece.length <= prefix_len(
            files@,
            files@.len() as int,
        ),
    ensures
        file_pieces_ok(
            files@,
            piece.begin + piece.index * piece_length,
            piece.length as int,
            r@,
        ),
{
    let ghost fs = files@;
    let ghost a = piece.begin + piece.index * piece_length;
    let ghost len = piece.length as int;
    let ghost n = fs.len() as int;
    proof {
        lemma_prefix_mono(fs, 0, n);
        lemma_prefix_mono(fs, 1, n);
        assert(i64::MIN <= piece.index * piece_length <= i64::MAX);
    }
    let nfiles = files.len();
    let mut vec: Vec<FilePiece> = Vec::new();
    let mut total: i64 = 0;
    let mut index = piece.file_index(piece_length);
    let mut i: usize = 0;
    // find the first file
    while total + files[i].length < index
        invariant
            fs == files@,
            n == fs.len(),
            a == piece.begin + piece.index * piece_length,
            len == piece.length,
            files_fit(fs),
            nfiles == n,
            0 <= i < n,
            total == prefix_len(fs, i as int),
            0 <= total,
            file_end(fs, i as int) <= prefix_len(fs, n),
            total <= file_end(fs, i as int),
            index == a,
            0 <= a,
            a + len <= prefix_len(fs, n),
            forall|m: int| 0 <= m < i ==> #[trigger] file_end(fs, m) < a,
        decreases n - i,
    {
        proof {
            lemma_prefix_mono(fs, i + 1, n);
            if i + 1 == n {
                assert(prefix_len(fs, n) < a);
            }
        }
        total = total + files[i].length;
        i = i + 1;
        proof {
            lemma_prefix_mono(fs, i + 1, n);
            assert(fs[i as int].length >= 0);
        }
    }
    let ghost k0 = i as int;
    proof {
        if k0 > 0 {
            assert(file_end(fs, k0 - 1) < a);
        }
        lemma_first_reaching_from(fs, a, k0);
        lemma_first_reaching(fs, a, k0);
        lemma_first_reaching(fs, a + len, 0);
        assert(first_reaching(fs, a, k0) == k0);
    }
    // apportion the block among the files
    let mut remaining: i64 = piece.length as i64;
    while remaining > 0
        invariant_except_break
            fs == files@,
            n == fs.len(),
            len == piece.length,
            files_fit(fs),
            0 <= k0 <= i < n,
            nfiles == n,
            k0 == first_reaching(fs, a, 0),
            forall|m: int| 0 <= m < k0 ==> #[trigger] file_end(fs, m) < a,
            total == prefix_len(fs, i as int),
            0 <= total,
            0 <= a,
            a + len <= prefix_len(fs, n),
            prefix_len(fs, n) <= i64::MAX,
            index == a + len - remaining,
            0 <= remaining <= len,
            remaining == 0 ==> len == 0 && vec@.len() == 0,
            vec@.len() == i - k0,
            i > k0 ==> index == prefix_len(fs, i as int),
            i == k0 ==> index == a,
            prefix_len(fs, i as int) <= index,
            forall|m: int| k0 <= m < i ==> #[trigger] file_end(fs, m) < a + len,
            forall|j: int| 0 <= j < vec@.len() ==> {
                let k = k0 + j;
                let start = if a > prefix_len(fs, k) { a } else { prefix_len(fs, k) };
                let stop = if a + len < prefix_len(fs, k + 1) { a + len } else { prefix_len(fs, k + 1) };
                &&& (#[trigger] vec@[j]).path == fs[k].path
                &&& vec@[j].begin == start - prefix_len(fs, k)
                &&& vec@[j].length == stop - start
            },
        ensures
            file_pieces_ok(fs, a, len, vec@),
        decreases n - i,
    {
        proof {
            lemma_prefix_mono(fs, i + 1, n);
            lemma_prefix_mono(fs, i as int, i + 1);
        }
        let index_in_file = index - total;
        let room = files[i].length - index_in_file;
        let load = if remaining < room { remaining } else { room };
        proof {
            if i == k0 {
                assert(prefix_len(fs, k0 + 1) >= a) by {
                    lemma_first_reaching(fs, a, 0);
                }
            }
        }
        remaining = remaining - load;
        total = total + files[i].length;
        index = index + load;
        vec.push(FilePiece { path: files[i].path.clone(), begin: index_in_file, length: load });
        if remaining == 0 {
            proof {
                lemma_first_reaching_from(fs, a + len, k0);
                lemma_first_reaching(fs, a + len, k0);
                assert(prefix_len(fs, i + 1) >= a + len);
                lemma_first_reaching_from(fs, a + len, i as int);
                assert(first_reaching(fs, a + len, i as int) == i);
            }
            break;
        }
        proof {
            if i + 1 == n {
                assert(prefix_len(fs, n) < a + len);
            }
        }
        i = i + 1;
    }
    proof {
        if len == 0 {
            assert(vec@.len() == 0);
        }
    }
    vec
}

/// The text of a block as `{:?}` shows it.
pub open spec fn piece_debug_text(p: Piece) -> Seq<char> {
    "Piece { index: "@ + decimal_chars(p.index as nat) + ", begin: "@ + decimal_chars(p.begin as nat)
        + ", length: "@ + decimal_chars(p.length as nat) + " }"@
}

/// The text of a block as `{:?}` shows it.
pub fn piece_debug(p: &Piece) -> (r: String)
    ensures
        r@ == piece_debug_text(*p),
{
    let s = push_decimal("Piece { index: ".to_string(), p.index as u64);
    let s = push_decimal(concat(s, ", begin: "), p.begin as u64);
    let s = push_decimal(concat(s, ", length: "), p.length as u64);
    concat(s, " }")
}

impl Torrent {
    /// Every piece's markers are well formed.
    pub open spec fn well_formed(&self) -> bool {
        forall|k: u32| #[trigger] self.map@.contains_key(k) ==> wf_markers(self.map@[k]@)
    }

    /// A torrent for `metainfo` whose files lie below `download_dir`: with
    /// all pieces when `downloaded`, else with none.
    pub fn new(metainfo: MetaInfo, download_dir: &str, downloaded: bool) -> (r: Torrent)
        ensures
            r.well_formed(),
            r.metainfo == metainfo,
            bits(r.bitfield) == Seq::new(metainfo.info.pieces@.len(), |i: int| downloaded),
            r.map@ == Map::<u32, Vec<DLMarker>>::empty(),
    {
        let files = metainfo.info.file_info.as_btfiles(download_dir);
        let npieces = metainfo.npieces();
        let bitfield = bv_from_elem(npieces, downloaded);
        Torrent { metainfo: metainfo, bitfield: bitfield, map: HashMap::new(), files: files }
    }

    pub fn trackers(&self) -> (r: Vec<String>)
        ensures
            r@ == (match self.metainfo.announce {
                Some(a) => seq![a],
                None => Seq::empty(),
            }) + (match self.metainfo.announce_list {
                Some(l) => l@,
                None => Seq::empty(),
            }),
    {
        self.metainfo.trackers()
    }

    pub fn name(&self) -> (r: &String)
        ensures
            *r == (match self.metainfo.info.file_info {
                FileInfo::SingleFileInfo { name, .. } => name,
                FileInfo::MultiFileInfo { name, .. } => name,
            }),
    {
        self.metainfo.name()
    }

    pub fn piece_length(&self) -> (r: i64)
        ensures
            r == self.metainfo.info.piece_length,
    {
        self.metainfo.piece_length()
    }

    /// The number of pieces.
    pub fn npieces(&self) -> (r: usize)
        ensures
            r == bits(self.bitfield).len(),
    {
        bv_len(&self.bitfield)
    }

    /// The pieces we have.
    pub fn bitfield(&self) -> (r: &BitVec)
        ensures
            *r == self.bitfield,
    {
        &self.bitfield
    }

    /// The number of bytes of the pieces we have.
    pub fn downloaded(&self) -> (r: usize)
        requires
            0 <= count_set(bits(self.bitfield)) * (self.metainfo.info.piece_length as usize)
                <= usize::MAX,
        ensures
            r == count_set(bits(self.bitfield)) * (self.metainfo.info.piece_length as usize),
    {
        let total = self.npieces();
        let n = bv_count_ones(&self.bitfield);
        let pl = self.piece_length() as usize;
        proof {
            lemma_count_set_le(bits(self.bitfield));
        }
        (n as usize) * pl
    }

    /// The total size in bytes of the torrent, when it is a `usize`: the sum
    /// of the lengths of its files.
    pub fn checked_size(&self) -> (r: Option<usize>)
        ensures
            r == (if 0 <= total_length(self.metainfo.info.file_info) <= usize::MAX {
                Some(total_length(self.metainfo.info.file_info) as usize)
            } else {
                None::<usize>
            }),
    {
        let total = self.metainfo.total_length_wide();
        if 0 <= total && total <= usize::MAX as i128 {
            Some(total as usize)
        } else {
            None
        }
    }

    /// The total size in bytes of the torrent: the sum of the lengths of its files.
    pub fn size(&self) -> (r: usize)
        requires
            0 <= total_length(self.metainfo.info.file_info) <= usize::MAX,
        ensures
            r == total_length(self.metainfo.info.file_info),
    {
        match self.checked_size() {
            Some(n) => n,
            None => 0,
        }
    }

    /// The number of bytes of the pieces we lack.
    pub fn remaining(&self) -> (r: usize)
        requires
            (self.metainfo.info.piece_length as usize) * bits(self.bitfield).len() <= usize::MAX,
        ensures
            r == (self.metainfo.info.piece_length as usize) * (bits(self.bitfield).len() - count_set(
                bits(self.bitfield),
            )),
    {
        let total = self.npieces();
        let have = bv_count_ones(&self.bitfield);
        assert(have <= total) by {
            lemma_count_set_le(bits(self.bitfield));
        }
        let pl = self.piece_length() as usize;
        proof {
            lemma_count_set_le(bits(self.bitfield));
        }
        let missing = total - have as usize;
        assert(pl * missing <= pl * total) by (nonlinear_arith)
            requires
                missing <= total,
        ;
        pl * missing
    }

    /// The whole of piece `index`, as it is requested.
    pub fn default_piece(&self, index: usize) -> (r: Piece)
        ensures
            r == (Piece {
                index: index as u32,
                begin: 0,
                length: self.metainfo.info.piece_length as u32,
            }),
    {
        Piece::new(index as u32, 0, self.piece_length() as u32)
    }

    /// Whether all of a block of a piece we lack has been downloaded.
    pub fn have_block(&self, piece: &Piece) -> (r: bool)
        requires
            self.well_formed(),
            piece.begin + piece.length <= u32::MAX,
        ensures
            r == (self.map@.contains_key(piece.index) && spans(
                self.map@[piece.index]@,
                piece.begin as int,
                piece.begin + piece.length,
            )),
    {
        match self.map.get(&piece.index) {
            Some(vec) => have_range(vec, piece.begin, piece.begin + piece.length),
            None => false,
        }
    }

    /// Whether offset `dlmarker` of piece `piece_index` lies in a downloaded
    /// part: with `begin`, after its start and up to its end; without, from
    /// its start to before its end.
    pub fn in_shaded(&self, piece_index: &u32, dlmarker: &u32, begin: bool) -> (r: bool)
        requires
            self.well_formed(),
            self.map@.contains_key(*piece_index),
        ensures
            begin ==> r == shaded_above(self.map@[*piece_index]@, *dlmarker as int),
            !begin ==> r == covered(self.map@[*piece_index]@, *dlmarker as int),
    {
        match self.map.get(piece_index) {
            Some(vec) => in_shaded(vec, *dlmarker, begin),
            None => false,
        }
    }

    /// Whether a block can be read for a peer: its piece is one of the
    /// torrent's, and we have the piece or all of the block; else the
    /// reason it cannot.
    pub fn check_readable(&self, piece: &Piece) -> (r: Result<(), String>)
        requires
            self.well_formed(),
            piece.begin + piece.length <= u32::MAX,
        ensures
            piece.index >= bits(self.bitfield).len() ==> (r matches Err(e) && e@
                == "Peer requested nonexistent piece: "@ + piece_debug_text(*piece)),
            piece.index < bits(self.bitfield).len() ==> {
                let have = bits(self.bitfield)[piece.index as int] || (self.map@.contains_key(piece.index)
                    && spans(self.map@[piece.index]@, piece.begin as int, piece.begin + piece.length));
                &&& r is Ok <==> have
                &&& r matches Err(e) ==> e@ == "Don't yet have requested piece: "@ + piece_debug_text(*piece)
            },
    {
        match bv_get(&self.bitfield, piece.index as usize) {
            Some(have) => {
                if have || self.have_block(piece) {
                    Ok(())
                } else {
                    Err(concat("Don't yet have requested piece: ".to_string(), piece_debug(piece).as_str()))
                }
            },
            None => Err(concat("Peer requested nonexistent piece: ".to_string(), piece_debug(piece).as_str())),
        }
    }

    /// Records a downloaded block: a whole piece marks the piece as had and
    /// drops its markers; part of a piece joins the piece's downloaded parts.
    pub fn insert_piece(&mut self, piece: &Piece)
        requires
            old(self).well_formed(),
            piece.begin + piece.length <= u32::MAX,
            piece.index < bits(old(self).bitfield).len(),
        ensures
            final(self).well_formed(),
            recorded(*old(self), *final(self), *piece),
    {
        let max_length: u32 = self.piece_length() as u32;
        if piece.begin == 0 && piece.length == max_length {
            bv_set(&mut self.bitfield, piece.index as usize, true);
            let ghost o = self.map@;
            self.map.remove(&piece.index);
            assert(self.map@ == o.remove(piece.index));
        } else {
            let begin = piece.begin;
            let end = piece.begin + piece.length;
            if begin == end {
                return;
            }
            let ghost o = self.map@;
            let mut vec = match self.map.remove(&piece.index) {
                Some(v) => v,
                None => Vec::new(),
            };
            assert(self.map@ == o.remove(piece.index));
            assert(o.contains_key(piece.index) ==> vec == o[piece.index]);
            assert(!o.contains_key(piece.index) ==> vec@ == Seq::<DLMarker>::empty());
            let ghost before = vec@;
            insert_range(&mut vec, begin, end);
            self.map.insert(piece.index, vec);
            assert(self.map@ == o.remove(piece.index).insert(piece.index, vec));
            assert(forall|x: int| covered(before, x) <==> (o.contains_key(piece.index) && covered(o[piece.index]@, x)));
            assert(self.map@.dom() =~= o.dom().insert(piece.index));
            assert(self.map@[piece.index] == vec);
            assert(forall|x: int| covered(self.map@[piece.index]@, x) <==> ((o.contains_key(piece.index)
                && covered(o[piece.index]@, x)) || (piece.begin <= x < piece.begin + piece.length)));
        }
    }

    /// The stretches of the files that hold block `piece`, when the files
    /// have lengths that are not negative and sum to an `i64`, and the block
    /// lies within them.
    pub fn locate(&self, piece: &Piece) -> (r: Result<Vec<FilePiece>, ParseError>)
        ensures
            ({
                let files = self.files@;
                let off = piece.begin + piece.index * self.metainfo.info.piece_length;
                let nonneg = forall|k: int| 0 <= k < files.len() ==> (#[trigger] files[k]).length >= 0;
                &&& r is Ok <==> (files.len() > 0 && files_fit(files) && 0 <= off && off + piece.length
                    <= prefix_len(files, files.len() as int))
                &&& r matches Ok(v) ==> file_pieces_ok(files, off, piece.length as int, v@)
                &&& r matches Err(e) ==> e is Parse && e.message() == (if !nonneg {
                    "File with a negative length"@
                } else if prefix_len(files, files.len() as int) > i64::MAX {
                    "Files too large"@
                } else {
                    "Block lies outside the torrent's files"@
                })
            }),
    {
        let ghost files = self.files@;
        let mut total: i128 = 0;
        let mut nonneg = true;
        let mut k: usize = 0;
        while k < self.files.len()
            invariant
                k <= files.len(),
                files == self.files@,
                total == prefix_len(files, k as int),
                i64::MIN * k <= total <= i64::MAX * k,
                nonneg <==> forall|j: int| 0 <= j < k ==> (#[trigger] files[j]).length >= 0,
            decreases files.len() - k,
        {
            proof {
                assert(i64::MIN * (k + 1) == i64::MIN * k + i64::MIN) by (nonlinear_arith);
                assert(i64::MAX * (k + 1) == i64::MAX * k + i64::MAX) by (nonlinear_arith);
                assert(i64::MAX * k <= i64::MAX * usize::MAX) by (nonlinear_arith)
                    requires
                        k <= usize::MAX,
                ;
                assert(i64::MIN * k >= i64::MIN * usize::MAX) by (nonlinear_arith)
                    requires
                        k <= usize::MAX,
                ;
            }
            if self.files[k].length < 0 {
                nonneg = false;
            }
            total = total + self.files[k].length as i128;
            k = k + 1;
        }
        if !nonneg {
            return Err(ParseError::new_str("File with a negative length"));
        }
        if total > i64::MAX as i128 {
            return Err(ParseError::new_str("Files too large"));
        }
        let pl = self.metainfo.info.piece_length as i128;
        let index = piece.index as i128;
        assert(-0x1_0000_0000 * 0x8000_0000_0000_0000 <= index * pl <= 0x1_0000_0000 * 0x8000_0000_0000_0000)
            by (nonlinear_arith)
            requires
                0 <= index < 0x1_0000_0000,
                -0x8000_0000_0000_0000 <= pl < 0x8000_0000_0000_0000,
        ;
        let off = piece.begin as i128 + index * pl;
        if self.files.len() == 0 || off < 0 || off + piece.length as i128 > total {
            return Err(ParseError::new_str("Block lies outside the torrent's files"));
        }
        Ok(self.map_files(piece))
    }

    /// The stretches of the files that hold block `piece`.
    pub fn map_files(&self, piece: &Piece) -> (r: Vec<FilePiece>)
        requires
            self.files@.len() > 0,
            files_fit(self.files@),
            0 <= piece.begin + piece.index * self.metainfo.info.piece_length,
            piece.begin + piece.index * self.metainfo.info.piece_length + piece.length
                <= prefix_len(self.files@, self.files@.len() as int),
        ensures
            file_pieces_ok(
                self.files@,
                piece.begin + piece.index * self.metainfo.info.piece_length,
                piece.length as int,
                r@,
            ),
    {
        map_files(&self.files, piece, self.piece_length())
    }
}

/// No more bits are set than there are bits.
pub proof fn lemma_count_set_le(s: Seq<bool>)
    ensures
        count_set(s) <= s.len(),
    decreases s.len(),
{
    if s.len() > 0 {
        lemma_count_set_le(s.drop_last());
    }
}

/// `n` is `o` after block `piece` is recorded: a whole piece is marked as
/// had and its markers dropped; an empty block changes nothing; part of a
/// piece joins the piece's downloaded bytes.
pub open spec fn recorded(o: Torrent, n: Torrent, piece: Piece) -> bool {
    let whole = piece.begin == 0 && piece.length == (o.metainfo.info.piece_length as u32);
    &&& n.metainfo == o.metainfo
    &&& n.files == o.files
    &&& if whole {
        &&& bits(n.bitfield) == bits(o.bitfield).update(piece.index as int, true)
        &&& n.map@ == o.map@.remove(piece.index)
    } else if piece.length == 0 {
        &&& bits(n.bitfield) == bits(o.bitfield)
        &&& n.map@ == o.map@
    } else {
        &&& bits(n.bitfield) == bits(o.bitfield)
        &&& n.map@.dom() == o.map@.dom().insert(piece.index)
        &&& forall|k: u32| k != piece.index && #[trigger] o.map@.contains_key(k) ==> n.map@[k] == o.map@[k]
        &&& forall|x: int| covered(n.map@[piece.index]@, x) <==> ((o.map@.contains_key(piece.index)
            && covered(o.map@[piece.index]@, x)) || (piece.begin <= x < piece.begin + piece.length))
    }
}

/// Once a block is recorded it counts as had: a whole piece is marked in
/// the bit field, and any other non-empty block lies in one downloaded
/// range of its piece, so that `have_block` holds of it.
pub proof fn lemma_recorded_then_have(o: Torrent, n: Torrent, piece: Piece)
    requires
        o.well_formed(),
        n.well_formed(),
        recorded(o, n, piece),
        piece.length > 0,
        piece.index < bits(o.bitfield).len(),
        piece.begin + piece.length <= u32::MAX,
    ensures
        (piece.begin == 0 && piece.length == (o.metainfo.info.piece_length as u32)) ==> bits(
            n.bitfield,
        )[piece.index as int],
        !(piece.begin == 0 && piece.length == (o.metainfo.info.piece_length as u32)) ==> (
        n.map@.contains_key(piece.index) && spans(
            n.map@[piece.index]@,
            piece.begin as int,
            piece.begin + piece.length,
        )),
{
    if !(piece.begin == 0 && piece.length == (o.metainfo.info.piece_length as u32)) {
        assert(n.map@.contains_key(piece.index));
        crate::bittorrent::markers::lemma_covered_spans(
            n.map@[piece.index]@,
            piece.begin as int,
            piece.begin + piece.length,
        );
    }
}

/// Sample blocks of piece 0, as (begin, length): (1, 8), (1, 2), (0, 2),
/// (3, 4), (0, 7), (0, 8), (7, 2), (10, 1), (0, 12).
pub fn make_pieces() -> (r: Vec<Piece>)
    ensures
        r@ == seq![
            Piece { index: 0u32, begin: 1u32, length: 8u32 },
            Piece { index: 0u32, begin: 1u32, length: 2u32 },
            Piece { index: 0u32, begin: 0u32, length: 2u32 },
            Piece { index: 0u32, begin: 3u32, length: 4u32 },
            Piece { index: 0u32, begin: 0u32, length: 7u32 },
            Piece { index: 0u32, begin: 0u32, length: 8u32 },
            Piece { index: 0u32, begin: 7u32, length: 2u32 },
            Piece { index: 0u32, begin: 10u32, length: 1u32 },
            Piece { index: 0u32, begin: 0u32, length: 12u32 },
        ],
{
    let r = vec![
        Piece::new(0, 1, 8),
        Piece::new(0, 1, 2),
        Piece::new(0, 0, 2),
        Piece::new(0, 3, 4),
        Piece::new(0, 0, 7),
        Piece::new(0, 0, 8),
        Piece::new(0, 7, 2),
        Piece::new(0, 10, 1),
        Piece::new(0, 0, 12),
    ];
    assert(r@ =~= seq![
        Piece { index: 0u32, begin: 1u32, length: 8u32 },
        Piece { index: 0u32, begin: 1u32, length: 2u32 },
        Piece { index: 0u32, begin: 0u32, length: 2u32 },
        Piece { index: 0u32, begin: 3u32, length: 4u32 },
        Piece { index: 0u32, begin: 0u32, length: 7u32 },
        Piece { index: 0u32, begin: 0u32, length: 8u32 },
        Piece { index: 0u32, begin: 7u32, length: 2u32 },
        Piece { index: 0u32, begin: 10u32, length: 1u32 },
        Piece { index: 0u32, begin: 0u32, length: 12u32 },
    ]);
    r
}

} // verus!
