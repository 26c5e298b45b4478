//! Where to cut a text: at a chosen string, and into pieces no longer than a
//! limit, preferably right after one of a list of strings.
use vstd::prelude::*;

verus! {

/// `s` occurs in `buf` starting at `i`.
pub open spec fn occurs_at(buf: Seq<u8>, s: Seq<u8>, i: int) -> bool {
    0 <= i && i + s.len() <= buf.len() && buf.subrange(i, i + s.len()) == s
}

/// The last start in `lo..hi` at which `s` occurs in `buf`, or `lo - 1` when
/// there is none.
pub open spec fn last_occurrence(buf: Seq<u8>, s: Seq<u8>, lo: int, hi: int) -> int
    decreases hi - lo,
{
    if hi <= lo {
        lo - 1
    } else if occurs_at(buf, s, hi - 1) {
        hi - 1
    } else {
        last_occurrence(buf, s, lo, hi - 1)
    }
}

/// The split point that the strings from the `k`-th on give for the window
/// `lo..hi`: right after the last occurrence that lies wholly in the window
/// (starts at `lo` or later, ends by `hi`) of the first string that has one,
/// or `hi` when none has.
pub open spec fn split_point(buf: Seq<u8>, strs: Seq<Seq<u8>>, k: int, lo: int, hi: int) -> int
    decreases strs.len() - k,
{
    if k >= strs.len() {
        hi
    } else {
        let i = last_occurrence(buf, strs[k], lo, hi - strs[k].len() + 1);
        if i >= lo {
            i + strs[k].len()
        } else {
            split_point(buf, strs, k + 1, lo, hi)
        }
    }
}

/// How far back from the end of a piece of `size` bytes the search for a
/// cut goes: `max_var` bytes, but not back past the piece's start.
pub open spec fn search_back(max_var: int, size: int) -> int {
    if max_var <= size {
        max_var
    } else {
        size
    }
}

/// The split point after `index` for a piece of `size` bytes: searched for
/// from `index + size` back over `max_var` bytes.
pub open spec fn next_split(buf: Seq<u8>, strs: Seq<Seq<u8>>, index: int, size: int, max_var: int) -> int {
    split_point(buf, strs, 0, index + size - max_var, index + size)
}

/// `a / b`, rounded up.
pub open spec fn ceil_div(a: int, b: int) -> int {
    a / b + if a % b == 0 {
        0int
    } else {
        1int
    }
}

/// The size that a text of `len` bytes is cut to: `len` spread evenly over
/// as many pieces of at most `max` bytes as it needs.
pub open spec fn average_size(len: int, max: int) -> int {
    ceil_div(len, ceil_div(len, max))
}

/// The split points from `index` on: cuts aiming at `size` bytes each until
/// the rest fits in `max`, then the last byte. (A step that would not move
/// on, or reach the end, cannot occur.)
pub open spec fn split_points_from(
    buf: Seq<u8>,
    strs: Seq<Seq<u8>>,
    max: int,
    size: int,
    max_var: int,
    index: int,
) -> Seq<int>
    decreases buf.len() - index,
{
    if index >= buf.len() {
        Seq::empty()
    } else if index + max >= buf.len() {
        seq![buf.len() - 1]
    } else {
        let next = next_split(buf, strs, index, size, search_back(max_var, size));
        if next <= index || next >= buf.len() {
            Seq::empty()
        } else {
            seq![next] + split_points_from(buf, strs, max, size, max_var, next)
        }
    }
}

/// The split points of `buf`: every cut, each the end of a piece and the
/// start of the next, then the position of the last byte. A `buf` that fits
/// in `max` (or a `max` of 0) has no cut; a longer one is cut into as many
/// pieces as it needs, each aiming at the average size.
pub open spec fn split_points(buf: Seq<u8>, strs: Seq<Seq<u8>>, max: int, max_var: int) -> Seq<int> {
    if max == 0 || buf.len() <= max {
        seq![buf.len() - 1]
    } else {
        split_points_from(buf, strs, max, average_size(buf.len() as int, max), max_var, 0)
    }
}

/// The split points of `buf` can be computed: `buf` is not empty, and when it
/// is too long the search window is no longer than `max`.
pub open spec fn splittable(buf: Seq<u8>, max: int, max_var: int) -> bool {
    &&& buf.len() > 0
    &&& (max > 0 && buf.len() > max) ==> max_var <= max
}

/// The byte strings that `v` holds.
pub open spec fn strs_of(v: Seq<Vec<u8>>) -> Seq<Seq<u8>> {
    v.map_values(|s: Vec<u8>| s@)
}

/// Whether `s` occurs in `buf` starting at `i`.
fn occurs_at_exec(buf: &[u8], s: &[u8], i: usize) -> (r: bool)
    requires
        i <= buf@.len(),
    ensures
        r == occurs_at(buf@, s@, i as int),
{
    if s.len() > buf.len() - i {
        return false;
    }
    let mut j: usize = 0;
    while j < s.len()
        invariant
            i + s@.len() <= buf@.len(),
            buf@.len() == buf.len(),
            s@.len() == s.len(),
            j <= s@.len(),
            forall|t: int| 0 <= t < j ==> buf@[i + t] == s@[t],
        decreases s@.len() - j,
    {
        if buf[i + j] != s[j] {
            assert(buf@.subrange(i as int, i + s@.len())[j as int] != s@[j as int]);
            return false;
        }
        j = j + 1;
    }
    assert(buf@.subrange(i as int, i + s@.len()) =~= s@);
    true
}

proof fn lemma_last_occurrence_cut(buf: Seq<u8>, s: Seq<u8>, lo: int, m: int, hi: int)
    requires
        lo <= m <= hi,
        forall|t: int| m <= t < hi ==> !occurs_at(buf, s, t),
    ensures
        last_occurrence(buf, s, lo, hi) == last_occurrence(buf, s, lo, m),
    decreases hi - m,
{
    if m < hi {
        lemma_last_occurrence_cut(buf, s, lo, m, hi - 1);
    }
}

/// The split point after `index`: tries each of the strings in turn, looking
/// from `index + max` back over `max_variance` bytes for the last place where
/// it occurs and ends by `index + max`, and splits right after it; splits at
/// `index + max` when no string occurs there.
pub fn find_split(
    buf: &[u8],
    split_u8vec: &Vec<Vec<u8>>,
    index: usize,
    max: usize,
    max_variance: usize,
) -> (r: usize)
    requires
        max_variance <= index + max <= usize::MAX,
        index + max <= buf@.len() + 1,
    ensures
        r == next_split(buf@, strs_of(split_u8vec@), index as int, max as int, max_variance as int),
{
    let ghost strs = strs_of(split_u8vec@);
    let blen = buf.len();
    let lo = index + max - max_variance;
    let hi = index + max;
    let cap = if hi <= blen {
        hi
    } else {
        blen
    };
    let mut k: usize = 0;
    while k < split_u8vec.len()
        invariant
            strs == strs_of(split_u8vec@),
            lo == index + max - max_variance,
            hi == index + max,
            blen == buf@.len(),
            cap == (if hi <= blen {
                hi
            } else {
                blen
            }),
            lo <= hi <= buf@.len() + 1,
            k <= split_u8vec@.len(),
            split_point(buf@, strs, 0, lo as int, hi as int) == split_point(
                buf@,
                strs,
                k as int,
                lo as int,
                hi as int,
            ),
        decreases split_u8vec@.len() - k,
    {
        let s = split_u8vec[k].as_slice();
        assert(s@ == strs[k as int]);
        let ghost top_all = hi - s@.len() + 1;
        if s.len() <= cap && cap - s.len() >= lo {
            let top = cap - s.len();
            proof {
                assert forall|t: int| top + 1 <= t < top_all implies !occurs_at(buf@, s@, t) by {}
                lemma_last_occurrence_cut(buf@, s@, lo as int, top + 1, top_all);
            }
            let mut p: usize = top;
            while p > lo
                invariant
                    strs == strs_of(split_u8vec@),
                    k < split_u8vec@.len(),
                    s@ == strs[k as int],
                    lo == index + max - max_variance,
                    hi == index + max,
                    blen == buf@.len(),
                    split_point(buf@, strs, 0, lo as int, hi as int) == split_point(
                        buf@,
                        strs,
                        k as int,
                        lo as int,
                        hi as int,
                    ),
                    lo <= p <= top,
                    top + s@.len() <= buf@.len(),
                    top + s@.len() <= hi,
                    last_occurrence(buf@, s@, lo as int, hi - s@.len() + 1) == last_occurrence(
                        buf@,
                        s@,
                        lo as int,
                        p + 1,
                    ),
                decreases p,
            {
                if occurs_at_exec(buf, s, p) {
                    return p + s.len();
                }
                p = p - 1;
            }
            if occurs_at_exec(buf, s, lo) {
                return lo + s.len();
            }
            assert(last_occurrence(buf@, s@, lo as int, lo as int) == lo - 1);
        } else {
            proof {
                if top_all > lo {
                    assert forall|t: int| lo <= t < top_all implies !occurs_at(buf@, s@, t) by {}
                    lemma_last_occurrence_cut(buf@, s@, lo as int, lo as int, top_all);
                }
            }
        }
        k = k + 1;
    }
    hi
}

/// The first start in `lo..hi` at which `s` occurs in `data`, or `hi` when
/// there is none.
pub open spec fn first_occurrence(data: Seq<u8>, s: Seq<u8>, lo: int, hi: int) -> int
    decreases hi - lo,
{
    if lo >= hi {
        hi
    } else if occurs_at(data, s, lo) {
        lo
    } else {
        first_occurrence(data, s, lo + 1, hi)
    }
}

/// Where the chunk of `data` that starts at `pos` ends, when texts are split
/// at each occurrence of `s`: at the first occurrence of `s` that starts
/// after `pos` and ends before the end of the data, or at the end when there
/// is none.
pub open spec fn chunk_end(data: Seq<u8>, s: Seq<u8>, pos: int) -> int {
    let q = first_occurrence(data, s, pos + 1, data.len() - s.len());
    if q < data.len() - s.len() {
        q
    } else {
        data.len() as int
    }
}

/// No occurrence of `s` that starts after `pos` ends by `e`.
pub open spec fn none_ends_by(data: Seq<u8>, s: Seq<u8>, pos: int, e: int) -> bool {
    forall|q: int| pos < q && q + s.len() <= e ==> !occurs_at(data, s, q)
}

proof fn lemma_first_occurrence_at(data: Seq<u8>, s: Seq<u8>, lo: int, q: int, hi: int)
    requires
        lo <= q < hi,
        occurs_at(data, s, q),
        forall|t: int| lo <= t < q ==> !occurs_at(data, s, t),
    ensures
        first_occurrence(data, s, lo, hi) == q,
    decreases q - lo,
{
    if lo < q {
        lemma_first_occurrence_at(data, s, lo + 1, q, hi);
    }
}

proof fn lemma_first_occurrence_none(data: Seq<u8>, s: Seq<u8>, lo: int, hi: int)
    requires
        forall|t: int| lo <= t < hi ==> !occurs_at(data, s, t),
    ensures
        first_occurrence(data, s, lo, hi) == hi,
    decreases hi - lo,
{
    if lo < hi {
        lemma_first_occurrence_none(data, s, lo + 1, hi);
    }
}

/// Reads from `pos` through the next byte `d`: gives the position right
/// after it, or the end of `data`.
fn read_until_exec(data: &[u8], pos: usize, d: u8) -> (r: usize)
    requires
        pos <= data@.len(),
    ensures
        pos <= r <= data@.len(),
        pos < data@.len() ==> pos < r,
        forall|t: int| pos <= t < r - 1 ==> data@[t] != d,
        r < data@.len() ==> data@[r - 1] == d,
{
    let len = data.len();
    let mut i: usize = pos;
    while i < len && data[i] != d
        invariant
            len == data@.len(),
            pos <= i <= len,
            forall|t: int| pos <= t < i ==> data@[t] != d,
        decreases len - i,
    {
        i = i + 1;
    }
    if i < len {
        i + 1
    } else {
        len
    }
}

proof fn lemma_no_end_before_stop(data: Seq<u8>, s: Seq<u8>, pos: int, cur: int, r: int)
    requires
        s.len() > 0,
        cur <= r,
        none_ends_by(data, s, pos, cur),
        forall|t: int| cur <= t < r - 1 ==> data[t] != s.last(),
    ensures
        none_ends_by(data, s, pos, r - 1),
{
    assert forall|q: int| pos < q && q + s.len() <= r - 1 implies !occurs_at(data, s, q) by {
        if q + s.len() > cur && occurs_at(data, s, q) {
            let e = q + s.len();
            assert(data.subrange(q, e)[s.len() - 1] == s[s.len() - 1]);
            assert(data[e - 1] == s.last());
        }
    }
}

/// Where the chunk of `data` that starts at `pos` ends when texts are split
/// at each occurrence of `split_str`: the next chunk starts with
/// `split_str`, and a chunk that starts with it runs on to the next one.
pub fn split_at_str(split_str: &[u8], data: &[u8], pos: usize) -> (r: usize)
    requires
        split_str@.len() > 0,
        pos <= data@.len(),
    ensures
        r == chunk_end(data@, split_str@, pos as int),
        r <= data@.len(),
        pos < data@.len() ==> pos < r,
        r < data@.len() ==> occurs_at(data@, split_str@, r as int),
{
    let ghost s = split_str@;
    let len = data.len();
    let slen = split_str.len();
    let d = split_str[slen - 1];
    let mut cur: usize = pos;
    loop
        invariant
            len == data@.len(),
            s == split_str@,
            slen == s.len(),
            slen > 0,
            d == s.last(),
            pos <= cur <= len,
            cur > pos ==> cur < len,
            none_ends_by(data@, s, pos as int, cur as int),
        decreases len - cur,
    {
        let p1 = read_until_exec(data, cur, d);
        proof {
            lemma_no_end_before_stop(data@, s, pos as int, cur as int, p1 as int);
        }
        let p2 = if p1 - pos == slen {
            let p = read_until_exec(data, p1, d);
            proof {
                assert(none_ends_by(data@, s, pos as int, p1 as int));
                lemma_no_end_before_stop(data@, s, pos as int, p1 as int, p as int);
            }
            p
        } else {
            p1
        };
        assert(none_ends_by(data@, s, pos as int, p2 - 1));
        if p2 >= len {
            proof {
                lemma_first_occurrence_none(data@, s, pos + 1, len - slen);
            }
            return len;
        }
        assert(p2 - pos != slen);
        if p2 - pos >= slen && occurs_at_exec(data, split_str, p2 - slen) {
            proof {
                lemma_first_occurrence_at(data@, s, pos + 1, (p2 - slen) as int, len - slen);
            }
            return p2 - slen;
        }
        assert(none_ends_by(data@, s, pos as int, p2 as int));
        cur = p2;
    }
}

/// The positions that `v` holds, as integers.
pub open spec fn ints_of(v: Seq<usize>) -> Seq<int> {
    v.map_values(|x: usize| x as int)
}

proof fn lemma_last_occurrence_shape(buf: Seq<u8>, s: Seq<u8>, lo: int, hi: int)
    requires
        lo <= hi,
    ensures
        lo - 1 <= last_occurrence(buf, s, lo, hi) < hi,
        last_occurrence(buf, s, lo, hi) >= lo ==> occurs_at(
            buf,
            s,
            last_occurrence(buf, s, lo, hi),
        ),
        forall|i: int|
            last_occurrence(buf, s, lo, hi) < i < hi && lo <= i ==> !occurs_at(buf, s, i),
    decreases hi - lo,
{
    if hi > lo && !occurs_at(buf, s, hi - 1) {
        lemma_last_occurrence_shape(buf, s, lo, hi - 1);
    }
}


proof fn lemma_last_occurrence_none(buf: Seq<u8>, s: Seq<u8>, lo: int, hi: int)
    requires
        hi <= lo,
    ensures
        last_occurrence(buf, s, lo, hi) == lo - 1,
{
}

proof fn lemma_split_point_range(buf: Seq<u8>, strs: Seq<Seq<u8>>, k: int, lo: int, hi: int)
    requires
        0 <= k,
        0 <= lo <= hi <= buf.len(),
    ensures
        lo <= split_point(buf, strs, k, lo, hi) <= hi,
        split_point(buf, strs, k, lo, hi) > lo || split_point(buf, strs, k, lo, hi) == hi,
    decreases strs.len() - k,
{
    if k < strs.len() {
        let sk = strs[k];
        let top = hi - sk.len() + 1;
        if top > lo {
            lemma_last_occurrence_shape(buf, sk, lo, top);
            if sk.len() == 0 {
                assert(buf.subrange(hi, hi) =~= sk);
                assert(occurs_at(buf, sk, hi));
                assert(last_occurrence(buf, sk, lo, top) == hi);
            }
        } else {
            lemma_last_occurrence_none(buf, sk, lo, top);
        }
        if last_occurrence(buf, sk, lo, top) < lo {
            lemma_split_point_range(buf, strs, k + 1, lo, hi);
        }
    }
}

proof fn lemma_average_size(len: int, max: int)
    requires
        0 < max < len,
    ensures
        1 <= ceil_div(len, max),
        1 <= average_size(len, max) <= max,
{
    let n = ceil_div(len, max);
    assert(len == (len / max) * max + len % max) by (nonlinear_arith)
        requires
            max > 0,
    ;
    assert(0 <= len % max < max) by (nonlinear_arith)
        requires
            max > 0,
    ;
    assert(len / max >= 1) by (nonlinear_arith)
        requires
            0 < max < len,
    ;
    assert(n * max >= len) by (nonlinear_arith)
        requires
            n == len / max + (if len % max == 0 { 0int } else { 1int }),
            len == (len / max) * max + len % max,
            0 <= len % max < max,
    ;
    assert(n >= 1);
    let q = len / n;
    let r = len % n;
    assert(len == q * n + r && 0 <= r < n) by (nonlinear_arith)
        requires
            n >= 1,
            q == len / n,
            r == len % n,
    ;
    assert(q <= max) by (nonlinear_arith)
        requires
            len == q * n + r,
            0 <= r,
            n >= 1,
            n * max >= len,
    ;
    assert(q == max ==> r == 0) by (nonlinear_arith)
        requires
            len == q * n + r,
            0 <= r,
            n >= 1,
            n * max >= len,
    ;
    assert(q >= 1 || r > 0) by (nonlinear_arith)
        requires
            len == q * n + r,
            len > 0,
            n >= 1,
            0 <= r,
    ;
}

fn ceil_div_exec(a: usize, b: usize) -> (r: usize)
    requires
        b > 0,
    ensures
        r == ceil_div(a as int, b as int),
{
    let q = a / b;
    if a % b == 0 {
        q
    } else {
        assert(q < a) by (nonlinear_arith)
            requires
                b > 0,
                q == a / b,
                a % b != 0,
        ;
        q + 1
    }
}

/// The split points of `buf`, or `None` where they cannot be computed: for an
/// empty `buf`, and for a search window longer than `max` in a text that is
/// too long.
pub fn split_at_max_checked(
    buf: &[u8],
    split_strs: &Vec<Vec<u8>>,
    max: usize,
    max_variance: usize,
) -> (r: Option<Vec<usize>>)
    ensures
        r is Some <==> splittable(buf@, max as int, max_variance as int),
        r matches Some(v) ==> ints_of(v@) == split_points(
            buf@,
            strs_of(split_strs@),
            max as int,
            max_variance as int,
        ),
{
    let ghost strs = strs_of(split_strs@);
    let len = buf.len();
    if len == 0 {
        return None;
    }
    if max == 0 || len <= max {
        let v = vec![len - 1];
        assert(ints_of(v@) =~= seq![len - 1]);
        return Some(v);
    }
    if max_variance > max {
        return None;
    }
    let pieces = ceil_div_exec(len, max);
    proof {
        lemma_average_size(len as int, max as int);
    }
    let size = ceil_div_exec(len, pieces);
    let ghost total = split_points_from(buf@, strs, max as int, size as int, max_variance as int, 0);
    let mut splits: Vec<usize> = Vec::new();
    let mut index: usize = 0;
    assert(ints_of(splits@) + total =~= total);
    loop
        invariant
            strs == strs_of(split_strs@),
            len == buf@.len(),
            0 < max < len,
            max_variance <= max,
            1 <= size <= max,
            size == average_size(len as int, max as int),
            total == split_points_from(buf@, strs, max as int, size as int, max_variance as int, 0),
            index < len,
            ints_of(splits@) + split_points_from(
                buf@,
                strs,
                max as int,
                size as int,
                max_variance as int,
                index as int,
            ) == total,
        decreases len - index,
    {
        if max >= len - index {
            let ghost before = ints_of(splits@);
            splits.push(len - 1);
            assert(ints_of(splits@) =~= before + seq![len - 1]);
            assert(ints_of(splits@) =~= total);
            return Some(splits);
        }
        let back = if max_variance <= size {
            max_variance
        } else {
            size
        };
        assert(back == search_back(max_variance as int, size as int));
        let next = find_split(buf, split_strs, index, size, back);
        proof {
            lemma_split_point_range(buf@, strs, 0, index + size - back, (index + size) as int);
        }
        let ghost before = ints_of(splits@);
        splits.push(next);
        assert(ints_of(splits@) =~= before + seq![next as int]);
        assert(split_points_from(buf@, strs, max as int, size as int, max_variance as int, index as int)
            =~= seq![next as int] + split_points_from(
            buf@,
            strs,
            max as int,
            size as int,
            max_variance as int,
            next as int,
        ));
        assert(ints_of(splits@) + split_points_from(
            buf@,
            strs,
            max as int,
            size as int,
            max_variance as int,
            next as int,
        ) =~= before + split_points_from(
            buf@,
            strs,
            max as int,
            size as int,
            max_variance as int,
            index as int,
        ));
        index = next;
    }
}

/// The split points of `buf`: every cut, each the end of a piece and the
/// start of the next, then the position of the last byte. A text longer than
/// `max` is cut into as many pieces as it needs, each aiming at the average
/// size, preferably right after one of `split_strs`.
pub fn split_at_max(
    buf: &[u8],
    split_strs: &Vec<Vec<u8>>,
    max: usize,
    max_variance: usize,
) -> (r: Vec<usize>)
    requires
        splittable(buf@, max as int, max_variance as int),
    ensures
        ints_of(r@) == split_points(buf@, strs_of(split_strs@), max as int, max_variance as int),
{
    match split_at_max_checked(buf, split_strs, max, max_variance) {
        Some(v) => v,
        None => {
            assert(false);
            Vec::new()
        },
    }
}

/// None of the strings `strs[k0..k1]` occurs wholly within `lo..hi`.
pub open spec fn none_occur(buf: Seq<u8>, strs: Seq<Seq<u8>>, k0: int, k1: int, lo: int, hi: int) -> bool {
    forall|k: int, i: int|
        k0 <= k < k1 && lo <= i && i + strs[k].len() <= hi ==> !occurs_at(buf, strs[k], i)
}

/// `r` is right after the last occurrence of `strs[k]` wholly within
/// `lo..hi`, and no string before it (from `k0` on) occurs wholly within it.
pub open spec fn split_after(
    buf: Seq<u8>,
    strs: Seq<Seq<u8>>,
    k0: int,
    k: int,
    lo: int,
    hi: int,
    r: int,
) -> bool {
    let i = r - strs[k].len();
    &&& k0 <= k < strs.len()
    &&& lo <= i
    &&& r <= hi
    &&& occurs_at(buf, strs[k], i)
    &&& none_occur(buf, strs, k0, k, lo, hi)
    &&& forall|j: int| i < j && j + strs[k].len() <= hi ==> !occurs_at(buf, strs[k], j)
}

proof fn lemma_split_point_shape(buf: Seq<u8>, strs: Seq<Seq<u8>>, k0: int, lo: int, hi: int)
    requires
        0 <= k0,
        lo <= hi,
    ensures
        ({
            let r = split_point(buf, strs, k0, lo, hi);
            ||| (r == hi && none_occur(buf, strs, k0, strs.len() as int, lo, hi))
            ||| exists|k: int| #[trigger] split_after(buf, strs, k0, k, lo, hi, r)
        }),
    decreases strs.len() - k0,
{
    let r = split_point(buf, strs, k0, lo, hi);
    if k0 < strs.len() {
        let sk = strs[k0];
        let top = hi - sk.len() + 1;
        if top > lo {
            lemma_last_occurrence_shape(buf, sk, lo, top);
        } else {
            lemma_last_occurrence_none(buf, sk, lo, top);
        }
        let i = last_occurrence(buf, sk, lo, top);
        if i >= lo {
            assert(split_after(buf, strs, k0, k0, lo, hi, r));
        } else {
            lemma_split_point_shape(buf, strs, k0 + 1, lo, hi);
            assert(r == split_point(buf, strs, k0 + 1, lo, hi));
            if r == hi && none_occur(buf, strs, k0 + 1, strs.len() as int, lo, hi) {
                assert(none_occur(buf, strs, k0, strs.len() as int, lo, hi));
            } else {
                let k = choose|k: int| #[trigger] split_after(buf, strs, k0 + 1, k, lo, hi, r);
                assert(split_after(buf, strs, k0, k, lo, hi, r));
            }
        }
    }
}

/// Where a piece that starts at `index` and aims at `size` bytes is cut:
/// right after the last occurrence, lying wholly between `max_var` bytes
/// before `index + size` and `index + size`, of the first split string that
/// occurs there; at `index + size` when none does.
pub proof fn law_next_split_shape(
    buf: Seq<u8>,
    strs: Seq<Seq<u8>>,
    index: int,
    size: int,
    max_var: int,
)
    requires
        0 <= size,
        0 <= max_var,
    ensures
        ({
            let lo = index + size - max_var;
            let hi = index + size;
            let r = next_split(buf, strs, index, size, max_var);
            ||| (r == hi && none_occur(buf, strs, 0, strs.len() as int, lo, hi))
            ||| exists|k: int| #[trigger] split_after(buf, strs, 0, k, lo, hi, r)
        }),
{
    lemma_split_point_shape(buf, strs, 0, index + size - max_var, index + size);
}

proof fn lemma_split_points_from_shape(
    buf: Seq<u8>,
    strs: Seq<Seq<u8>>,
    max: int,
    size: int,
    max_var: int,
    index: int,
)
    requires
        0 <= index < buf.len(),
        0 < size <= max,
        0 <= max_var,
    ensures
        ({
            let sp = split_points_from(buf, strs, max, size, max_var, index);
            &&& sp.len() >= 1
            &&& sp.last() == buf.len() - 1
            &&& forall|j: int| 0 <= j < sp.len() ==> index <= #[trigger] sp[j] < buf.len()
            &&& forall|i: int, j: int| 0 <= i < j < sp.len() ==> sp[i] <= sp[j]
            &&& forall|i: int, j: int| 0 <= i < j < sp.len() - 1 ==> sp[i] < sp[j]
            &&& sp.len() > 1 ==> sp[0] > index && sp[0] - index <= size
            &&& sp[0] - index <= max
            &&& forall|j: int| 0 < j < sp.len() ==> #[trigger] sp[j] - sp[j - 1] <= max
            &&& forall|j: int| 0 < j < sp.len() - 1 ==> #[trigger] sp[j] - sp[j - 1] <= size
            &&& sp.len() > 1 ==> index + max < buf.len()
            &&& forall|k: int| 0 <= k < sp.len() - 2 ==> #[trigger] sp[k] + max < buf.len()
        }),
    decreases buf.len() - index,
{
    let sp = split_points_from(buf, strs, max, size, max_var, index);
    if index + max < buf.len() {
        let next = next_split(buf, strs, index, size, search_back(max_var, size));
        lemma_split_point_range(buf, strs, 0, index + size - search_back(max_var, size), index + size);
        lemma_split_points_from_shape(buf, strs, max, size, max_var, next);
        let t = split_points_from(buf, strs, max, size, max_var, next);
        assert(sp == seq![next] + t);
        assert forall|j: int| 0 < j < sp.len() implies #[trigger] sp[j] - sp[j - 1] <= max by {
            if j > 1 {
                assert(sp[j] == t[j - 1] && sp[j - 1] == t[j - 2]);
            }
        }
        assert forall|k: int| 0 <= k < sp.len() - 2 implies #[trigger] sp[k] + max < buf.len() by {
            if k > 0 {
                assert(sp[k] == t[k - 1]);
            }
        }
        assert forall|j: int| 0 < j < sp.len() - 1 implies #[trigger] sp[j] - sp[j - 1] <= size by {
            if j > 1 {
                assert(sp[j] == t[j - 1] && sp[j - 1] == t[j - 2]);
            }
        }
        assert forall|i: int, j: int| 0 <= i < j < sp.len() implies sp[i] <= sp[j] by {
            if i > 0 {
                assert(sp[i] == t[i - 1] && sp[j] == t[j - 1]);
            } else {
                assert(sp[j] == t[j - 1]);
            }
        }
        assert forall|i: int, j: int| 0 <= i < j < sp.len() - 1 implies sp[i] < sp[j] by {
            if i > 0 {
                assert(sp[i] == t[i - 1] && sp[j] == t[j - 1]);
            } else {
                assert(sp[j] == t[j - 1]);
                assert(t[0] <= t[j - 1]);
            }
        }
    }
}

/// The split points come in order, lie within the text and end at its last
/// byte; only the last point may equal the one before.
pub proof fn law_split_points_ordered(buf: Seq<u8>, strs: Seq<Seq<u8>>, max: int, max_var: int)
    requires
        splittable(buf, max, max_var),
        0 <= max,
        0 <= max_var,
    ensures
        ({
            let sp = split_points(buf, strs, max, max_var);
            &&& sp.len() >= 1
            &&& sp.last() == buf.len() - 1
            &&& forall|j: int| 0 <= j < sp.len() ==> 0 <= #[trigger] sp[j] < buf.len()
            &&& forall|i: int, j: int| 0 <= i < j < sp.len() ==> sp[i] <= sp[j]
            &&& forall|i: int, j: int| 0 <= i < j < sp.len() - 1 ==> sp[i] < sp[j]
            &&& sp.len() > 1 ==> sp[0] > 0
        }),
{
    if max > 0 && buf.len() > max {
        lemma_average_size(buf.len() as int, max);
        lemma_split_points_from_shape(
            buf,
            strs,
            max,
            average_size(buf.len() as int, max),
            max_var,
            0,
        );
    }
}

/// Every piece fits within `max`: the first cut and each step to the next
/// point are at most `max` bytes; and every cut but the last point is at
/// most the average size past the one before.
pub proof fn law_split_points_fit(buf: Seq<u8>, strs: Seq<Seq<u8>>, max: int, max_var: int)
    requires
        splittable(buf, max, max_var),
        0 < max,
        0 <= max_var,
    ensures
        ({
            let sp = split_points(buf, strs, max, max_var);
            let size = if buf.len() <= max {
                max
            } else {
                average_size(buf.len() as int, max)
            };
            &&& sp[0] <= max
            &&& forall|j: int| 0 < j < sp.len() ==> #[trigger] sp[j] - sp[j - 1] <= max
            &&& sp.len() > 1 ==> sp[0] <= size
            &&& forall|j: int| 0 < j < sp.len() - 1 ==> #[trigger] sp[j] - sp[j - 1] <= size
        }),
{
    if buf.len() > max {
        lemma_average_size(buf.len() as int, max);
        lemma_split_points_from_shape(
            buf,
            strs,
            max,
            average_size(buf.len() as int, max),
            max_var,
            0,
        );
    }
}

proof fn lemma_first_occurrence_range(data: Seq<u8>, s: Seq<u8>, lo: int, hi: int)
    ensures
        first_occurrence(data, s, lo, hi) == hi || (lo <= first_occurrence(data, s, lo, hi) < hi
            && occurs_at(data, s, first_occurrence(data, s, lo, hi))),
    decreases hi - lo,
{
    if lo < hi && !occurs_at(data, s, lo) {
        lemma_first_occurrence_range(data, s, lo + 1, hi);
    }
}

/// A chunk that starts before the end of the data ends after its start and
/// by the end.
pub proof fn lemma_chunk_end_range(data: Seq<u8>, s: Seq<u8>, pos: int)
    requires
        0 <= pos < data.len(),
    ensures
        pos < chunk_end(data, s, pos) <= data.len(),
{
    lemma_first_occurrence_range(data, s, pos + 1, data.len() - s.len());
}

/// The ends of the chunks that `data` is split into from `pos` on, at each
/// occurrence of `s`. (A chunk that would not move on cannot occur.)
pub open spec fn chunk_ends(data: Seq<u8>, s: Seq<u8>, pos: int) -> Seq<int>
    decreases data.len() - pos,
{
    if pos >= data.len() {
        Seq::empty()
    } else {
        let e = chunk_end(data, s, pos);
        if e <= pos || e > data.len() {
            Seq::empty()
        } else {
            seq![e] + chunk_ends(data, s, e)
        }
    }
}

/// The bytes of the chunks from `from` to each of `ends` in turn.
pub open spec fn chunks_bytes(data: Seq<u8>, ends: Seq<int>, from: int) -> Seq<u8>
    decreases ends.len(),
{
    if ends.len() == 0 {
        Seq::empty()
    } else {
        data.subrange(from, ends[0]) + chunks_bytes(data, ends.drop_first(), ends[0])
    }
}

/// Splitting a text at a string again and again, each chunk starting where
/// the one before ended, gives back the text from where it started: no chunk
/// is empty, none is lost or repeated, and there are no more chunks than
/// bytes.
pub proof fn law_chunks_give_back_the_text(data: Seq<u8>, s: Seq<u8>, pos: int)
    requires
        0 <= pos <= data.len(),
    ensures
        ({
            let ends = chunk_ends(data, s, pos);
            &&& chunks_bytes(data, ends, pos) == data.subrange(pos, data.len() as int)
            &&& forall|i: int|
                0 <= i < ends.len() ==> (if i == 0 {
                    pos
                } else {
                    ends[i - 1]
                }) < #[trigger] ends[i] <= data.len()
            &&& ends.len() <= data.len() - pos
        }),
    decreases data.len() - pos,
{
    let ends = chunk_ends(data, s, pos);
    if pos < data.len() {
        lemma_chunk_end_range(data, s, pos);
        let e = chunk_end(data, s, pos);
        law_chunks_give_back_the_text(data, s, e);
        let rest = chunk_ends(data, s, e);
        assert(ends == seq![e] + rest);
        assert(ends.drop_first() =~= rest);
        assert(data.subrange(pos, data.len() as int) =~= data.subrange(pos, e) + data.subrange(
            e,
            data.len() as int,
        ));
        assert forall|i: int| 0 <= i < ends.len() implies (if i == 0 {
            pos
        } else {
            ends[i - 1]
        }) < #[trigger] ends[i] <= data.len() by {
            if i > 0 {
                assert(ends[i] == rest[i - 1]);
                if i > 1 {
                    assert(ends[i - 1] == rest[i - 2]);
                }
            }
        }
    } else {
        assert(data.subrange(pos, data.len() as int) =~= Seq::<u8>::empty());
    }
}

/// Where the `j`-th piece starts: at 0, or at the split point before it.
pub open spec fn piece_start(sp: Seq<int>, j: int) -> int {
    if j == 0 {
        0
    } else {
        sp[j - 1]
    }
}

/// No cut is made once the rest of the text fits: every piece but the last
/// starts (at 0 or at a split point) more than `max` bytes before the end,
/// and the last split point is the last byte.
pub proof fn law_no_cut_once_rest_fits(buf: Seq<u8>, strs: Seq<Seq<u8>>, max: int, max_var: int)
    requires
        splittable(buf, max, max_var),
        0 <= max,
        0 <= max_var,
    ensures
        ({
            let sp = split_points(buf, strs, max, max_var);
            &&& sp.last() == buf.len() - 1
            &&& forall|j: int|
                0 <= j < sp.len() - 1 ==> #[trigger] piece_start(sp, j) + max < buf.len()
        }),
{
    let sp = split_points(buf, strs, max, max_var);
    if max > 0 && buf.len() > max {
        lemma_average_size(buf.len() as int, max);
        lemma_split_points_from_shape(
            buf,
            strs,
            max,
            average_size(buf.len() as int, max),
            max_var,
            0,
        );
        assert forall|j: int| 0 <= j < sp.len() - 1 implies #[trigger] piece_start(sp, j) + max
            < buf.len() by {
            if j > 0 {
                assert(sp[j - 1] + max < buf.len());
            }
        }
    }
}

} // verus!
