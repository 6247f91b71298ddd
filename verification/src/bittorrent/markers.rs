//! The parts of a piece downloaded so far, kept as a sorted list of
//! markers: each `Begin` opens a downloaded range of bytes and the `End`
//! after it closes the range (exclusive).
use vstd::prelude::*;

verus! {

/// One end of a downloaded range of bytes within a piece.
#[derive(PartialEq, Eq, Structural, Debug, Clone, Copy)]
pub enum DLMarker {
    Begin(u32),
    End(u32),
}

/// The offset a marker stands at.
pub open spec fn mval(m: DLMarker) -> u32 {
    match m {
        DLMarker::Begin(v) => v,
        DLMarker::End(v) => v,
    }
}

impl DLMarker {
    /// The offset the marker stands at.
    pub fn val(&self) -> (r: u32)
        ensures
            r == mval(*self),
    {
        match self {
            DLMarker::Begin(val) => *val,
            DLMarker::End(val) => *val,
        }
    }
}

/// A list of markers is well formed when it alternates `Begin` and `End`,
/// starting with `Begin` and ending with `End`, at strictly increasing offsets.
pub open spec fn wf_markers(s: Seq<DLMarker>) -> bool {
    &&& s.len() % 2 == 0
    &&& forall|i: int| 0 <= i < s.len() ==> ((#[trigger] s[i] is Begin) <==> i % 2 == 0)
    &&& forall|i: int, j: int| 0 <= i < j < s.len() ==> mval(s[i]) < mval(s[j])
}

/// Byte `x` lies in a downloaded range.
pub open spec fn covered(s: Seq<DLMarker>, x: int) -> bool {
    exists|k: int| 0 <= k && 2 * k + 1 < s.len() && mval(#[trigger] s[2 * k]) <= x < mval(s[2 * k + 1])
}

/// Some downloaded range holds all of the bytes from `b` up to `e`.
pub open spec fn spans(s: Seq<DLMarker>, b: int, e: int) -> bool {
    exists|k: int| 0 <= k && 2 * k + 1 < s.len() && mval(#[trigger] s[2 * k]) <= b && e <= mval(s[2 * k + 1])
}

/// Offset `x` lies in a downloaded range or at the end of one.
pub open spec fn shaded_above(s: Seq<DLMarker>, x: int) -> bool {
    exists|k: int| 0 <= k && 2 * k + 1 < s.len() && mval(#[trigger] s[2 * k]) < x <= mval(s[2 * k + 1])
}

/// The number of markers at offsets below `x`.
pub open spec fn cnt_lt(s: Seq<DLMarker>, x: int) -> nat
    decreases s.len(),
{
    if s.len() == 0 {
        0
    } else {
        cnt_lt(s.drop_last(), x) + if mval(s.last()) < x {
            1nat
        } else {
            0
        }
    }
}

/// The number of markers at offsets up to `x`.
pub open spec fn cnt_le(s: Seq<DLMarker>, x: int) -> nat
    decreases s.len(),
{
    if s.len() == 0 {
        0
    } else {
        cnt_le(s.drop_last(), x) + if mval(s.last()) <= x {
            1nat
        } else {
            0
        }
    }
}

proof fn lemma_cnt_lt_split(s: Seq<DLMarker>, x: int, i: int)
    requires
        0 <= i <= s.len(),
        forall|j: int| 0 <= j < i ==> mval(#[trigger] s[j]) < x,
        forall|j: int| i <= j < s.len() ==> mval(#[trigger] s[j]) >= x,
    ensures
        cnt_lt(s, x) == i,
    decreases s.len(),
{
    if s.len() > 0 {
        let t = s.drop_last();
        if i == s.len() {
            assert(mval(s[s.len() - 1]) < x);
            lemma_cnt_lt_split(t, x, i - 1);
        } else {
            assert(mval(s[s.len() - 1]) >= x);
            lemma_cnt_lt_split(t, x, i);
        }
    }
}

proof fn lemma_cnt_le_split(s: Seq<DLMarker>, x: int, i: int)
    requires
        0 <= i <= s.len(),
        forall|j: int| 0 <= j < i ==> mval(#[trigger] s[j]) <= x,
        forall|j: int| i <= j < s.len() ==> mval(#[trigger] s[j]) > x,
    ensures
        cnt_le(s, x) == i,
    decreases s.len(),
{
    if s.len() > 0 {
        let t = s.drop_last();
        if i == s.len() {
            assert(mval(s[s.len() - 1]) <= x);
            lemma_cnt_le_split(t, x, i - 1);
        } else {
            assert(mval(s[s.len() - 1]) > x);
            lemma_cnt_le_split(t, x, i);
        }
    }
}

/// In a well-formed list, a byte is covered exactly when an odd number of
/// markers lie at or below it; `i` is that number.
proof fn lemma_covered_parity(s: Seq<DLMarker>, x: int, i: int)
    requires
        wf_markers(s),
        0 <= i <= s.len(),
        forall|j: int| 0 <= j < i ==> mval(#[trigger] s[j]) <= x,
        forall|j: int| i <= j < s.len() ==> mval(#[trigger] s[j]) > x,
    ensures
        covered(s, x) <==> i % 2 == 1,
{
    if i % 2 == 1 {
        let k = (i - 1) / 2;
        assert(2 * k + 1 == i);
        assert(mval(s[2 * k]) <= x);
        assert(mval(s[2 * k + 1]) > x);
    } else {
        if covered(s, x) {
            let k = choose|k: int| 0 <= k && 2 * k + 1 < s.len() && mval(#[trigger] s[2 * k]) <= x < mval(s[2 * k + 1]);
            if 2 * k >= i {
                assert(mval(s[2 * k]) > x);
            }
            if 2 * k + 1 < i {
                assert(mval(s[2 * k + 1]) <= x);
            }
            assert(false);
        }
    }
}

/// The same with `x` strictly above the markers counted.
proof fn lemma_shaded_parity(s: Seq<DLMarker>, x: int, i: int)
    requires
        wf_markers(s),
        0 <= i <= s.len(),
        forall|j: int| 0 <= j < i ==> mval(#[trigger] s[j]) < x,
        forall|j: int| i <= j < s.len() ==> mval(#[trigger] s[j]) >= x,
    ensures
        shaded_above(s, x) <==> i % 2 == 1,
{
    if i % 2 == 1 {
        let k = (i - 1) / 2;
        assert(2 * k + 1 == i);
        assert(mval(s[2 * k]) < x);
        assert(mval(s[2 * k + 1]) >= x);
    } else {
        if shaded_above(s, x) {
            let k = choose|k: int| 0 <= k && 2 * k + 1 < s.len() && mval(#[trigger] s[2 * k]) < x <= mval(s[2 * k + 1]);
            if 2 * k >= i {
                assert(mval(s[2 * k]) >= x);
            }
            if 2 * k + 1 < i {
                assert(mval(s[2 * k + 1]) < x);
            }
            assert(false);
        }
    }
}


/// The markers strictly increase.
pub open spec fn sorted_markers(s: Seq<DLMarker>) -> bool {
    forall|i: int, j: int| 0 <= i < j < s.len() ==> mval(s[i]) < mval(s[j])
}

/// The position splitting the markers below `x` from the rest.
proof fn lemma_split_lt(s: Seq<DLMarker>, x: int) -> (i: int)
    requires
        sorted_markers(s),
    ensures
        0 <= i <= s.len(),
        forall|j: int| 0 <= j < i ==> mval(#[trigger] s[j]) < x,
        forall|j: int| i <= j < s.len() ==> mval(#[trigger] s[j]) >= x,
    decreases s.len(),
{
    if s.len() == 0 {
        0
    } else {
        let t = s.drop_last();
        assert(sorted_markers(t));
        let i = lemma_split_lt(t, x);
        assert forall|j: int| 0 <= j < t.len() implies #[trigger] s[j] == t[j] by {}
        if i == t.len() && mval(s.last()) < x {
            assert forall|j: int| 0 <= j < s.len() implies mval(#[trigger] s[j]) < x by {
                if j < t.len() {
                    assert(mval(t[j]) < x);
                }
            }
            s.len() as int
        } else {
            if i < t.len() {
                assert(mval(t[i]) < mval(s[s.len() - 1]));
                assert(mval(t[i]) >= x);
            }
            assert forall|j: int| i <= j < s.len() implies mval(#[trigger] s[j]) >= x by {
                if j < t.len() {
                    assert(mval(t[j]) >= x);
                }
            }
            assert forall|j: int| 0 <= j < i implies mval(#[trigger] s[j]) < x by {
                assert(mval(t[j]) < x);
            }
            i
        }
    }
}

/// The position splitting the markers at or below `x` from the rest.
proof fn lemma_split_le(s: Seq<DLMarker>, x: int) -> (i: int)
    requires
        sorted_markers(s),
    ensures
        0 <= i <= s.len(),
        forall|j: int| 0 <= j < i ==> mval(#[trigger] s[j]) <= x,
        forall|j: int| i <= j < s.len() ==> mval(#[trigger] s[j]) > x,
    decreases s.len(),
{
    if s.len() == 0 {
        0
    } else {
        let t = s.drop_last();
        assert(sorted_markers(t));
        let i = lemma_split_le(t, x);
        assert forall|j: int| 0 <= j < t.len() implies #[trigger] s[j] == t[j] by {}
        if i == t.len() && mval(s.last()) <= x {
            assert forall|j: int| 0 <= j < s.len() implies mval(#[trigger] s[j]) <= x by {
                if j < t.len() {
                    assert(mval(t[j]) <= x);
                }
            }
            s.len() as int
        } else {
            if i < t.len() {
                assert(mval(t[i]) < mval(s[s.len() - 1]));
                assert(mval(t[i]) > x);
            }
            assert forall|j: int| i <= j < s.len() implies mval(#[trigger] s[j]) > x by {
                if j < t.len() {
                    assert(mval(t[j]) > x);
                }
            }
            assert forall|j: int| 0 <= j < i implies mval(#[trigger] s[j]) <= x by {
                assert(mval(t[j]) <= x);
            }
            i
        }
    }
}

/// The markers between the ranges below `b` and above `e` after the range
/// from `b` to `e` is added.
pub open spec fn middle(b: u32, e: u32, begin_shaded: bool, end_shaded: bool) -> Seq<DLMarker> {
    (if begin_shaded {
        Seq::empty()
    } else {
        seq![DLMarker::Begin(b)]
    }) + (if end_shaded {
        Seq::empty()
    } else {
        seq![DLMarker::End(e)]
    })
}

/// The markers after the range from `b` to `e` is added to `s`, where `p`
/// markers lie below `b` and `q` at or below `e`.
pub open spec fn spliced(s: Seq<DLMarker>, b: u32, e: u32, p: int, q: int) -> Seq<DLMarker> {
    s.subrange(0, p) + middle(b, e, shaded_above(s, b as int), covered(s, e as int))
        + s.subrange(q, s.len() as int)
}

/// The marker at position `j` of `spliced`, by the part it comes from.
spec fn spliced_at(s: Seq<DLMarker>, mid: Seq<DLMarker>, p: int, q: int, j: int) -> DLMarker {
    if j < p {
        s[j]
    } else if j < p + mid.len() {
        mid[j - p]
    } else {
        s[j - p - mid.len() + q]
    }
}

/// The facts about the splice that its proofs share.
spec fn splice_facts(s: Seq<DLMarker>, b: u32, e: u32, p: int, q: int) -> bool {
    &&& wf_markers(s)
    &&& b < e
    &&& 0 <= p <= q <= s.len()
    &&& forall|j: int| 0 <= j < p ==> mval(#[trigger] s[j]) < b
    &&& forall|j: int| p <= j < s.len() ==> mval(#[trigger] s[j]) >= b
    &&& forall|j: int| 0 <= j < q ==> mval(#[trigger] s[j]) <= e
    &&& forall|j: int| q <= j < s.len() ==> mval(#[trigger] s[j]) > e
}

proof fn lemma_spliced_shape(s: Seq<DLMarker>, b: u32, e: u32, p: int, q: int)
    requires
        splice_facts(s, b, e, p, q),
    ensures
        ({
            let bs = shaded_above(s, b as int);
            let es = covered(s, e as int);
            let mid = middle(b, e, bs, es);
            let r = spliced(s, b, e, p, q);
            &&& (bs <==> p % 2 == 1)
            &&& (es <==> q % 2 == 1)
            &&& mid.len() == (if bs { 0int } else { 1int }) + (if es { 0int } else { 1int })
            &&& r.len() == p + mid.len() + s.len() - q
            &&& forall|j: int| 0 <= j < r.len() ==> #[trigger] r[j] == spliced_at(s, mid, p, q, j)
        }),
{
    let bs = shaded_above(s, b as int);
    let es = covered(s, e as int);
    lemma_shaded_parity(s, b as int, p);
    lemma_covered_parity(s, e as int, q);
    let mid = middle(b, e, bs, es);
    let r = spliced(s, b, e, p, q);
    assert forall|j: int| 0 <= j < r.len() implies #[trigger] r[j] == spliced_at(s, mid, p, q, j) by {}
}

proof fn lemma_spliced_wf(s: Seq<DLMarker>, b: u32, e: u32, p: int, q: int)
    requires
        splice_facts(s, b, e, p, q),
    ensures
        wf_markers(spliced(s, b, e, p, q)),
{
    lemma_spliced_shape(s, b, e, p, q);
    let bs = shaded_above(s, b as int);
    let es = covered(s, e as int);
    let mid = middle(b, e, bs, es);
    let r = spliced(s, b, e, p, q);
    let m = mid.len() as int;
    assert((p + m - q) % 2 == 0);
    assert forall|i: int| 0 <= i < r.len() implies ((#[trigger] r[i] is Begin) <==> i % 2 == 0) by {
        assert(r[i] == spliced_at(s, mid, p, q, i));
        if i < p {
        } else if i < p + m {
            if !bs && i == p {
            } else {
                assert(!es);
            }
        } else {
            let k = i - p - m + q;
            assert(s[k] is Begin <==> k % 2 == 0);
        }
    }
    assert forall|i: int, j: int| 0 <= i < j < r.len() implies mval(r[i]) < mval(r[j]) by {
        assert(r[i] == spliced_at(s, mid, p, q, i));
        assert(r[j] == spliced_at(s, mid, p, q, j));
        if j < p + m && i >= p {
            if !bs && i == p {
                assert(mval(r[i]) == b);
                assert(mval(r[j]) == e);
            }
        }
    }
}

proof fn lemma_spliced_covered(s: Seq<DLMarker>, b: u32, e: u32, p: int, q: int, x: int)
    requires
        splice_facts(s, b, e, p, q),
    ensures
        covered(spliced(s, b, e, p, q), x) <==> (covered(s, x) || (b <= x < e)),
{
    lemma_spliced_shape(s, b, e, p, q);
    lemma_spliced_wf(s, b, e, p, q);
    let bs = shaded_above(s, b as int);
    let es = covered(s, e as int);
    let mid = middle(b, e, bs, es);
    let r = spliced(s, b, e, p, q);
    let m = mid.len() as int;
    if x < b {
        let i = lemma_split_le(s, x);
        assert(i <= p) by {
            if i > p {
                assert(mval(s[p]) <= x);
            }
        }
        lemma_covered_parity(s, x, i);
        assert forall|j: int| 0 <= j < i implies mval(#[trigger] r[j]) <= x by {
            assert(r[j] == spliced_at(s, mid, p, q, j));
        }
        assert forall|j: int| i <= j < r.len() implies mval(#[trigger] r[j]) > x by {
            assert(r[j] == spliced_at(s, mid, p, q, j));
        }
        lemma_covered_parity(r, x, i);
    } else if x < e {
        let i = p + (if bs { 0int } else { 1int });
        assert forall|j: int| 0 <= j < i implies mval(#[trigger] r[j]) <= x by {
            assert(r[j] == spliced_at(s, mid, p, q, j));
        }
        assert forall|j: int| i <= j < r.len() implies mval(#[trigger] r[j]) > x by {
            assert(r[j] == spliced_at(s, mid, p, q, j));
            if j < p + m {
                assert(!es);
            }
        }
        lemma_covered_parity(r, x, i);
    } else {
        let i = lemma_split_le(s, x);
        assert(i >= q) by {
            if i < q {
                assert(mval(s[i]) <= e);
            }
        }
        lemma_covered_parity(s, x, i);
        let ir = i - q + p + m;
        assert forall|j: int| 0 <= j < ir implies mval(#[trigger] r[j]) <= x by {
            assert(r[j] == spliced_at(s, mid, p, q, j));
        }
        assert forall|j: int| ir <= j < r.len() implies mval(#[trigger] r[j]) > x by {
            assert(r[j] == spliced_at(s, mid, p, q, j));
        }
        lemma_covered_parity(r, x, ir);
    }
}

/// Whether `x` lies in a downloaded range: with `begin`, strictly after the
/// start of a range and up to its end; without, from its start to just
/// before its end.
pub fn in_shaded(markers: &Vec<DLMarker>, x: u32, begin: bool) -> (r: bool)
    requires
        wf_markers(markers@),
    ensures
        begin ==> r == shaded_above(markers@, x as int),
        !begin ==> r == covered(markers@, x as int),
{
    let ghost s = markers@;
    let mut shaded = false;
    let mut i: usize = 0;
    loop
        invariant_except_break
            i <= markers.len(),
            s == markers@,
            wf_markers(s),
            shaded == (i % 2 == 1),
            forall|j: int| 0 <= j < i ==> mval(#[trigger] s[j]) < x,
        ensures
            i <= markers.len(),
            begin ==> (shaded_above(s, x as int) <==> shaded),
            !begin ==> (covered(s, x as int) <==> shaded),
        decreases markers.len() - i,
    {
        if i >= markers.len() {
            proof {
                lemma_shaded_parity(s, x as int, i as int);
                lemma_covered_parity(s, x as int, i as int);
            }
            break;
        }
        let m = markers[i];
        match m {
            DLMarker::Begin(val) => {
                if val == x && begin {
                    proof {
                        lemma_shaded_parity(s, x as int, i as int);
                    }
                    break;
                } else if val == x && !begin {
                    shaded = true;
                    proof {
                        assert(i % 2 == 0);
                        lemma_covered_parity(s, x as int, i + 1);
                    }
                    break;
                } else if val > x {
                    proof {
                        lemma_shaded_parity(s, x as int, i as int);
                        lemma_covered_parity(s, x as int, i as int);
                    }
                    break;
                }
                shaded = true;
            },
            DLMarker::End(val) => {
                if val == x && begin {
                    proof {
                        lemma_shaded_parity(s, x as int, i as int);
                    }
                    break;
                } else if val == x && !begin {
                    shaded = false;
                    proof {
                        assert(i % 2 == 1);
                        lemma_covered_parity(s, x as int, i + 1);
                    }
                    break;
                } else if val > x {
                    proof {
                        lemma_shaded_parity(s, x as int, i as int);
                        lemma_covered_parity(s, x as int, i as int);
                    }
                    break;
                }
                shaded = false;
            },
        }
        i = i + 1;
    }
    shaded
}

/// Whether one downloaded range holds all of the bytes from `begin` up to `end`.
pub fn have_range(markers: &Vec<DLMarker>, begin: u32, end: u32) -> (r: bool)
    requires
        wf_markers(markers@),
        begin <= end,
    ensures
        r == spans(markers@, begin as int, end as int),
{
    let ghost s = markers@;
    let mut inrange = false;
    let mut i: usize = 0;
    loop
        invariant_except_break
            i <= markers.len(),
            s == markers@,
            wf_markers(s),
            begin <= end,
            inrange == (i % 2 == 1),
            forall|j: int| 0 <= j < i && j % 2 == 0 ==> mval(#[trigger] s[j]) <= begin,
            forall|j: int| 0 <= j < i && j % 2 == 1 ==> mval(#[trigger] s[j]) < begin,
        ensures
            inrange == spans(s, begin as int, end as int),
        decreases markers.len() - i,
    {
        if i >= markers.len() {
            proof {
                if spans(s, begin as int, end as int) {
                    let k = choose|k: int| 0 <= k && 2 * k + 1 < s.len() && mval(#[trigger] s[2 * k]) <= begin && end <= mval(s[2 * k + 1]);
                    assert(mval(s[2 * k + 1]) < begin);
                }
            }
            break;
        }
        let m = markers[i];
        match m {
            DLMarker::Begin(val) => {
                if !inrange && val <= begin {
                    inrange = true;
                } else if !inrange && val > begin {
                    proof {
                        if spans(s, begin as int, end as int) {
                            let k = choose|k: int| 0 <= k && 2 * k + 1 < s.len() && mval(#[trigger] s[2 * k]) <= begin && end <= mval(s[2 * k + 1]);
                            if 2 * k < i {
                                assert(mval(s[2 * k + 1]) < mval(s[i as int]));
                                assert(2 * k + 1 < i);
                            } else if 2 * k > i {
                                assert(mval(s[i as int]) < mval(s[2 * k]));
                            }
                        }
                    }
                    break;
                }
            },
            DLMarker::End(val) => {
                if inrange && val < end {
                    inrange = false;
                    if val >= begin {
                        proof {
                            if spans(s, begin as int, end as int) {
                                let k = choose|k: int| 0 <= k && 2 * k + 1 < s.len() && mval(#[trigger] s[2 * k]) <= begin && end <= mval(s[2 * k + 1]);
                                if 2 * k + 1 < i {
                                    assert(mval(s[2 * k + 1]) < begin);
                                } else if 2 * k + 1 > i {
                                    assert(mval(s[i as int]) < mval(s[2 * k]));
                                }
                            }
                        }
                        break;
                    }
                } else if inrange && val >= end {
                    proof {
                        let k = (i - 1) / 2;
                        assert(2 * k + 1 == i);
                        assert(mval(s[2 * k]) <= begin);
                    }
                    break;
                }
            },
        }
        i = i + 1;
    }
    inrange
}


/// Records the bytes from `begin` up to `end` as downloaded: the markers
/// inside the range go, and a range touching or overlapping the new one
/// merges with it.
pub fn insert_range(markers: &mut Vec<DLMarker>, begin: u32, end: u32)
    requires
        wf_markers(old(markers)@),
        begin < end,
    ensures
        wf_markers(final(markers)@),
        forall|x: int| covered(final(markers)@, x) <==> (covered(old(markers)@, x) || (begin <= x < end)),
        adds_range(old(markers)@, final(markers)@, (begin, end)),
{
    let ghost s = markers@;
    let end_shaded = in_shaded(markers, end, false);
    let begin_shaded = in_shaded(markers, begin, true);
    let ghost p = lemma_split_lt(s, begin as int);
    let ghost q = lemma_split_le(s, end as int);
    assert(p <= q) by {
        if p > q {
            assert(mval(s[q]) < begin);
        }
    }
    // keep the markers outside the new range
    let mut kept: Vec<DLMarker> = Vec::new();
    let mut k: usize = 0;
    while k < markers.len()
        invariant
            k <= markers.len(),
            s == markers@,
            splice_facts(s, begin, end, p, q),
            kept@ == (if k <= p {
                s.subrange(0, k as int)
            } else if k <= q {
                s.subrange(0, p)
            } else {
                s.subrange(0, p) + s.subrange(q, k as int)
            }),
        decreases markers.len() - k,
    {
        let m = markers[k];
        let v = m.val();
        if v < begin || v > end {
            kept.push(m);
        }
        proof {
            if k < p {
                assert(kept@ =~= s.subrange(0, k + 1));
            } else if k < q {
                assert(kept@ =~= s.subrange(0, p));
            } else {
                assert(kept@ =~= s.subrange(0, p) + s.subrange(q, k + 1));
            }
        }
        k = k + 1;
    }
    let ghost kept_view = s.subrange(0, p) + s.subrange(q, s.len() as int);
    assert(kept@ =~= kept_view);
    // insert before the first marker past `begin`
    assert forall|j: int| 0 <= j < kept_view.len() implies #[trigger] kept_view[j] == (if j < p {
        s[j]
    } else {
        s[j - p + q]
    }) by {}
    let mut insert = kept.len();
    let mut i: usize = 0;
    loop
        invariant_except_break
            i <= kept.len(),
            kept@ == kept_view,
            kept_view.len() == p + s.len() - q,
            splice_facts(s, begin, end, p, q),
            forall|j: int| 0 <= j < kept_view.len() ==> #[trigger] kept_view[j] == (if j < p {
                s[j]
            } else {
                s[j - p + q]
            }),
            forall|j: int| 0 <= j < i ==> mval(#[trigger] kept_view[j]) <= begin,
            insert == kept.len(),
        ensures
            insert == p,
        decreases kept.len() - i,
    {
        if i >= kept.len() {
            proof {
                if p < kept.len() {
                    assert(kept_view[p] == s[q]);
                    assert(mval(s[q]) > end);
                    assert(mval(kept_view[p]) <= begin);
                }
            }
            break;
        }
        if kept[i].val() > begin {
            insert = i;
            proof {
                if i > p {
                    assert(kept_view[p] == s[q]);
                    assert(mval(s[q]) > end);
                    assert(mval(kept_view[p]) <= begin);
                }
                if i < p {
                    assert(kept_view[i as int] == s[i as int]);
                    assert(mval(s[i as int]) < begin);
                }
            }
            break;
        }
        i = i + 1;
    }
    proof {
        lemma_shaded_parity(s, begin as int, p);
        lemma_covered_parity(s, end as int, q);
    }
    if !end_shaded {
        kept.insert(insert, DLMarker::End(end));
    }
    if !begin_shaded {
        kept.insert(insert, DLMarker::Begin(begin));
    }
    proof {
        assert(kept@ =~= spliced(s, begin, end, p, q));
        lemma_spliced_wf(s, begin, end, p, q);
        assert forall|x: int| covered(kept@, x) <==> (covered(s, x) || (begin <= x < end)) by {
            lemma_spliced_covered(s, begin, end, p, q, x);
        }
    }
    let ghost r = kept@;
    *markers = kept;
    assert(markers@ == r);
    assert(s == old(markers)@);
}

/// Bytes from `b` up to `e`, all downloaded, lie in one range.
pub proof fn lemma_covered_spans(s: Seq<DLMarker>, b: int, e: int)
    requires
        wf_markers(s),
        b < e,
        forall|x: int| b <= x < e ==> covered(s, x),
    ensures
        spans(s, b, e),
{
    assert(covered(s, b));
    let k = choose|k: int| 0 <= k && 2 * k + 1 < s.len() && mval(#[trigger] s[2 * k]) <= b < mval(s[2 * k + 1]);
    let end = mval(s[2 * k + 1]) as int;
    if end < e {
        assert(covered(s, end));
        let k2 = choose|k2: int| 0 <= k2 && 2 * k2 + 1 < s.len() && mval(#[trigger] s[2 * k2]) <= end < mval(s[2 * k2 + 1]);
        if k2 <= k {
            if k2 < k {
                assert(mval(s[2 * k2 + 1]) <= mval(s[2 * k + 1]));
            }
        } else {
            assert(mval(s[2 * k + 1]) < mval(s[2 * k2]));
        }
    }
}

/// Byte `x` lies in one of the first `n` ranges `blocks` (each from its
/// first offset up to its second).
pub open spec fn in_blocks(blocks: Seq<(u32, u32)>, n: int, x: int) -> bool {
    exists|i: int| 0 <= i < n && #[trigger] blocks[i].0 <= x && x < blocks[i].1
}

/// `b` covers what `a` covers and the bytes of `block`, and nothing more,
/// as after `insert_range(a, block.0, block.1)`.
pub open spec fn adds_range(a: Seq<DLMarker>, b: Seq<DLMarker>, block: (u32, u32)) -> bool {
    forall|x: int| covered(b, x) <==> (covered(a, x) || (block.0 <= x < block.1))
}

/// Ranges inserted one after another, each as `insert_range` records it,
/// starting from no markers, cover exactly the bytes of the ranges inserted:
/// `states[i + 1]` is what `insert_range` makes of `states[i]` and `blocks[i]`.
pub proof fn lemma_inserts_cover(states: Seq<Seq<DLMarker>>, blocks: Seq<(u32, u32)>)
    requires
        states.len() == blocks.len() + 1,
        states[0].len() == 0,
        forall|i: int| 0 <= i < blocks.len() ==> adds_range(states[i], states[i + 1], #[trigger] blocks[i]),
    ensures
        forall|x: int| covered(states[blocks.len() as int], x) <==> in_blocks(blocks, blocks.len() as int, x),
    decreases blocks.len(),
{
    let n = blocks.len() as int;
    if n == 0 {
        assert forall|x: int| !covered(states[0], x) by {}
    } else {
        let st = states.drop_last();
        let bl = blocks.drop_last();
        assert forall|i: int| 0 <= i < bl.len() implies adds_range(st[i], st[i + 1], #[trigger] bl[i]) by {
            assert(st[i + 1] == states[i + 1] && st[i] == states[i] && bl[i] == blocks[i]);
            assert(adds_range(states[i], states[i + 1], blocks[i]));
        }
        lemma_inserts_cover(st, bl);
        assert forall|x: int| covered(states[n], x) <==> in_blocks(blocks, n, x) by {
            assert(adds_range(states[n - 1], states[(n - 1) + 1], blocks[n - 1]));
            assert(covered(states[(n - 1) + 1], x) <==> (covered(states[n - 1], x) || (blocks[n - 1].0 <= x < blocks[n - 1].1)));
            assert(covered(st[n - 1], x) <==> in_blocks(bl, n - 1, x));
            if in_blocks(bl, n - 1, x) {
                let i = choose|i: int| 0 <= i < n - 1 && #[trigger] bl[i].0 <= x && x < bl[i].1;
                assert(blocks[i] == bl[i]);
            }
            if in_blocks(blocks, n, x) {
                let i = choose|i: int| 0 <= i < n && #[trigger] blocks[i].0 <= x && x < blocks[i].1;
                if i < n - 1 {
                    assert(bl[i] == blocks[i]);
                }
            }
        }
    }
}

} // verus!
