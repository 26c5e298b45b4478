//! File names, extensions and the order of paths, on paths held as bytes.
use vstd::prelude::*;

verus! {

/// The byte that separates path components (`/`).
pub const SEP: u8 = 0x2f;

/// The byte that introduces an extension (`.`).
pub const DOT: u8 = 0x2e;

/// The end of the last component among the first `n` bytes of `p` that is
/// neither empty nor `.`: trailing separators and `.` components are skipped.
pub open spec fn name_end(p: Seq<u8>, n: int) -> int
    decreases n,
{
    if n <= 0 {
        0
    } else if p[n - 1] == SEP {
        name_end(p, n - 1)
    } else if p[n - 1] == DOT && (n == 1 || p[n - 2] == SEP) {
        name_end(p, n - 1)
    } else {
        n
    }
}

/// The start of the component that ends at `e`: just after the nearest
/// separator before `e`, or 0.
pub open spec fn seg_start(p: Seq<u8>, e: int) -> int
    decreases e,
{
    if e <= 0 {
        0
    } else if p[e - 1] == SEP {
        e
    } else {
        seg_start(p, e - 1)
    }
}

/// The position of the last `.` in `p[s..k]`, or `s - 1` when there is none.
pub open spec fn last_dot(p: Seq<u8>, s: int, k: int) -> int
    decreases k - s,
{
    if k <= s {
        s - 1
    } else if p[k - 1] == DOT {
        k - 1
    } else {
        last_dot(p, s, k - 1)
    }
}

/// Start and end of the last normal component of `p`.
pub open spec fn name_bounds(p: Seq<u8>) -> (int, int) {
    let e = name_end(p, p.len() as int);
    (seg_start(p, e), e)
}

/// `p` has a file name: a last component that is neither `.` nor `..`.
pub open spec fn has_file_name(p: Seq<u8>) -> bool {
    let (s, e) = name_bounds(p);
    e > 0 && p.subrange(s, e) != seq![DOT, DOT]
}

/// The extension of `p`: what follows the last `.` of the file name, where that
/// `.` is not the name's first byte.
pub open spec fn extension(p: Seq<u8>) -> Option<Seq<u8>> {
    let (s, e) = name_bounds(p);
    let d = last_dot(p, s, e);
    if has_file_name(p) && d > s {
        Some(p.subrange(d + 1, e))
    } else {
        None
    }
}

/// Where the stem of the file name ends: at the `.` that starts the extension,
/// or at the end of the name.
pub open spec fn stem_end(p: Seq<u8>) -> int {
    let (s, e) = name_bounds(p);
    let d = last_dot(p, s, e);
    if d > s {
        d
    } else {
        e
    }
}

/// `p` with its extension replaced by `ext` (removed when `ext` is empty);
/// anything after the stem goes. A path without a file name is kept as it is.
pub open spec fn with_extension_spec(p: Seq<u8>, ext: Seq<u8>) -> Seq<u8> {
    if !has_file_name(p) {
        p
    } else if ext.len() == 0 {
        p.subrange(0, stem_end(p))
    } else {
        p.subrange(0, stem_end(p)) + seq![DOT] + ext
    }
}

fn skips_back(p: &[u8], k: usize) -> (r: bool)
    requires
        0 < k <= p@.len(),
    ensures
        r == (p@[k - 1] == SEP || (p@[k - 1] == DOT && (k == 1 || p@[k - 2] == SEP))),
{
    if p[k - 1] == SEP {
        true
    } else if p[k - 1] == DOT {
        k == 1 || p[k - 2] == SEP
    } else {
        false
    }
}

/// Start and end of the last normal component of `p`.
pub fn name_bounds_of(p: &[u8]) -> (r: (usize, usize))
    ensures
        r.0 == name_bounds(p@).0,
        r.1 == name_bounds(p@).1,
        r.0 <= r.1 <= p@.len(),
{
    let mut e: usize = p.len();
    while e > 0 && skips_back(p, e)
        invariant
            e <= p@.len(),
            name_end(p@, p@.len() as int) == name_end(p@, e as int),
        decreases e,
    {
        e = e - 1;
    }
    let mut s: usize = e;
    while s > 0 && p[s - 1] != SEP
        invariant
            s <= e <= p@.len(),
            seg_start(p@, e as int) == seg_start(p@, s as int),
        decreases s,
    {
        s = s - 1;
    }
    (s, e)
}

fn last_dot_in(p: &[u8], s: usize, e: usize) -> (r: Option<usize>)
    requires
        s <= e <= p@.len(),
    ensures
        match r {
            Some(d) => d == last_dot(p@, s as int, e as int) && s <= d < e,
            None => last_dot(p@, s as int, e as int) == s - 1,
        },
{
    let mut k: usize = e;
    while k > s && p[k - 1] != DOT
        invariant
            s <= k <= e,
            e <= p@.len(),
            last_dot(p@, s as int, e as int) == last_dot(p@, s as int, k as int),
        decreases k,
    {
        k = k - 1;
    }
    if k > s {
        Some(k - 1)
    } else {
        None
    }
}

fn is_dot_dot(p: &[u8], s: usize, e: usize) -> (r: bool)
    requires
        s <= e <= p@.len(),
    ensures
        r == (p@.subrange(s as int, e as int) == seq![DOT, DOT]),
{
    let ghost name = p@.subrange(s as int, e as int);
    let ghost dd = seq![DOT, DOT];
    if e - s != 2 {
        assert(name.len() != dd.len());
        false
    } else if p[s] == DOT && p[s + 1] == DOT {
        assert(name =~= dd);
        true
    } else {
        assert(name[0] == p@[s as int]);
        assert(name[1] == p@[s + 1]);
        assert(name[0] != dd[0] || name[1] != dd[1]);
        false
    }
}

/// Whether `p` has a file name.
pub fn has_name(p: &[u8]) -> (r: bool)
    ensures
        r == has_file_name(p@),
{
    let (s, e) = name_bounds_of(p);
    e > 0 && !is_dot_dot(p, s, e)
}

/// Whether the extension of `path` is exactly `ext`.
pub fn extension_is(path: &[u8], ext: &[u8]) -> (r: bool)
    ensures
        r == (extension(path@) == Some(ext@)),
{
    let (s, e) = name_bounds_of(path);
    if e == 0 || is_dot_dot(path, s, e) {
        return false;
    }
    match last_dot_in(path, s, e) {
        None => false,
        Some(d) => {
            if d == s {
                return false;
            }
            if e - (d + 1) != ext.len() {
                assert(path@.subrange(d + 1, e as int).len() != ext@.len());
                return false;
            }
            assert(extension(path@) == Some(path@.subrange(d + 1, e as int)));
            let mut i: usize = 0;
            while i < ext.len()
                invariant
                    extension(path@) == Some(path@.subrange(d + 1, e as int)),
                    d + 1 + ext@.len() == e,
                    e <= path@.len(),
                    i <= ext@.len(),
                    forall|j: int| 0 <= j < i ==> path@[d + 1 + j] == ext@[j],
                decreases ext@.len() - i,
            {
                if path[d + 1 + i] != ext[i] {
                    assert(path@.subrange(d + 1, e as int)[i as int] != ext@[i as int]);
                    return false;
                }
                i = i + 1;
            }
            assert(path@.subrange(d + 1, e as int) =~= ext@);
            true
        },
    }
}

fn stem_end_of(p: &[u8]) -> (r: usize)
    ensures
        r == stem_end(p@),
        r <= p@.len(),
{
    let (s, e) = name_bounds_of(p);
    match last_dot_in(p, s, e) {
        Some(d) => if d > s {
            d
        } else {
            e
        },
        None => e,
    }
}

/// `path` with its extension replaced by `ext`, as `PathBuf::set_extension` does.
pub fn with_extension(path: &[u8], ext: &[u8]) -> (r: Vec<u8>)
    ensures
        r@ == with_extension_spec(path@, ext@),
{
    let mut r: Vec<u8> = Vec::new();
    if !has_name(path) {
        let mut i: usize = 0;
        while i < path.len()
            invariant
                i <= path@.len(),
                r@ == path@.subrange(0, i as int),
            decreases path@.len() - i,
        {
            r.push(path[i]);
            i = i + 1;
            assert(r@ =~= path@.subrange(0, i as int));
        }
        assert(r@ =~= path@);
        return r;
    }
    let m = stem_end_of(path);
    let mut i: usize = 0;
    while i < m
        invariant
            m <= path@.len(),
            i <= m,
            r@ == path@.subrange(0, i as int),
        decreases m - i,
    {
        r.push(path[i]);
        i = i + 1;
        assert(r@ =~= path@.subrange(0, i as int));
    }
    if ext.len() == 0 {
        return r;
    }
    r.push(DOT);
    let ghost head = r@;
    let mut j: usize = 0;
    while j < ext.len()
        invariant
            j <= ext@.len(),
            r@ == head + ext@.subrange(0, j as int),
        decreases ext@.len() - j,
    {
        r.push(ext[j]);
        j = j + 1;
        assert(r@ =~= head + ext@.subrange(0, j as int));
    }
    assert(ext@.subrange(0, ext@.len() as int) =~= ext@);
    r
}

/// Marks the end of a component in the key of a path; ranks below every
/// byte and every other mark.
pub const KEY_END: i16 = -4;
/// The root component in the key of a path.
pub const KEY_ROOT: i16 = -3;
/// A leading `.` component in the key of a path.
pub const KEY_CUR: i16 = -2;
/// A `..` component in the key of a path.
pub const KEY_PARENT: i16 = -1;

/// Where the component that starts at `i` ends: at the next separator, or at
/// the end of `p`.
pub open spec fn seg_end(p: Seq<u8>, i: int) -> int
    decreases p.len() - i,
{
    if i >= p.len() {
        p.len() as int
    } else if p[i] == SEP {
        i
    } else {
        seg_end(p, i + 1)
    }
}

/// The key of the component `p[i..j]`: nothing for an empty or `.`
/// component, a mark for `..`, else its bytes; each followed by `KEY_END`.
pub open spec fn segment_key(p: Seq<u8>, i: int, j: int) -> Seq<i16> {
    if j == i || (j == i + 1 && p[i] == DOT) {
        Seq::empty()
    } else if j == i + 2 && p[i] == DOT && p[i + 1] == DOT {
        seq![KEY_PARENT, KEY_END]
    } else {
        p.subrange(i, j).map_values(|b: u8| b as i16) + seq![KEY_END]
    }
}

/// The key of the components of `p` from `i` on, where `i` starts a
/// component.
pub open spec fn components_key_from(p: Seq<u8>, i: int) -> Seq<i16>
    decreases p.len() - i,
{
    if i >= p.len() {
        Seq::empty()
    } else {
        let j = seg_end(p, i);
        if i <= j < p.len() {
            segment_key(p, i, j) + components_key_from(p, j + 1)
        } else {
            segment_key(p, i, j)
        }
    }
}

/// `p` starts with a `.` component.
pub open spec fn starts_with_cur(p: Seq<u8>) -> bool {
    p.len() > 0 && p[0] == DOT && (p.len() == 1 || p[1] == SEP)
}

/// The key of the components of `p`, as `Path::components` gives them: the
/// root if `p` starts with `/`, a leading `.`, then each component between
/// separators, with empty and `.` components left out. Comparing keys
/// compares paths component by component: the root before a leading `.`,
/// before `..`, before any name; names by their bytes, a name before any
/// longer one that it begins.
pub open spec fn path_key(p: Seq<u8>) -> Seq<i16> {
    if p.len() > 0 && p[0] == SEP {
        seq![KEY_ROOT, KEY_END] + components_key_from(p, 1)
    } else if starts_with_cur(p) {
        seq![KEY_CUR, KEY_END] + components_key_from(p, 1)
    } else {
        components_key_from(p, 0)
    }
}

/// Keys in order: value by value, a proper prefix first.
pub open spec fn key_le(a: Seq<i16>, b: Seq<i16>) -> bool
    decreases a.len(),
{
    if a.len() == 0 {
        true
    } else if b.len() == 0 {
        false
    } else if a[0] != b[0] {
        a[0] < b[0]
    } else {
        key_le(a.drop_first(), b.drop_first())
    }
}

/// `a` comes no later than `b` in the order of paths, component by
/// component.
pub open spec fn path_le(a: Seq<u8>, b: Seq<u8>) -> bool {
    key_le(path_key(a), path_key(b))
}

/// `a` and `b` name the same path: they have the same components.
pub open spec fn same_components(a: Seq<u8>, b: Seq<u8>) -> bool {
    path_key(a) == path_key(b)
}

proof fn lemma_key_le_refl(a: Seq<i16>)
    ensures
        key_le(a, a),
    decreases a.len(),
{
    if a.len() > 0 {
        lemma_key_le_refl(a.drop_first());
    }
}

proof fn lemma_key_le_total(a: Seq<i16>, b: Seq<i16>)
    ensures
        key_le(a, b) || key_le(b, a),
    decreases a.len(),
{
    if a.len() > 0 && b.len() > 0 {
        lemma_key_le_total(a.drop_first(), b.drop_first());
    }
}

proof fn lemma_key_le_antisym(a: Seq<i16>, b: Seq<i16>)
    requires
        key_le(a, b),
        key_le(b, a),
    ensures
        a == b,
    decreases a.len(),
{
    if a.len() > 0 && b.len() > 0 {
        lemma_key_le_antisym(a.drop_first(), b.drop_first());
        assert(a =~= seq![a[0]] + a.drop_first());
        assert(b =~= seq![b[0]] + b.drop_first());
    }
}

proof fn lemma_key_le_trans(a: Seq<i16>, b: Seq<i16>, c: Seq<i16>)
    requires
        key_le(a, b),
        key_le(b, c),
    ensures
        key_le(a, c),
    decreases a.len(),
{
    if a.len() > 0 && b.len() > 0 && c.len() > 0 {
        if a[0] == b[0] && b[0] == c[0] {
            lemma_key_le_trans(a.drop_first(), b.drop_first(), c.drop_first());
        }
    }
}

/// The order of paths is reflexive.
pub proof fn lemma_path_le_refl(a: Seq<u8>)
    ensures
        path_le(a, a),
{
    lemma_key_le_refl(path_key(a));
}

/// The order of paths is total.
pub proof fn lemma_path_le_total(a: Seq<u8>, b: Seq<u8>)
    ensures
        path_le(a, b) || path_le(b, a),
{
    lemma_key_le_total(path_key(a), path_key(b));
}

/// Paths that come no later than each other have the same components.
pub proof fn lemma_path_le_antisym(a: Seq<u8>, b: Seq<u8>)
    requires
        path_le(a, b),
        path_le(b, a),
    ensures
        same_components(a, b),
{
    lemma_key_le_antisym(path_key(a), path_key(b));
}

/// The order of paths is transitive.
pub proof fn lemma_path_le_trans(a: Seq<u8>, b: Seq<u8>, c: Seq<u8>)
    requires
        path_le(a, b),
        path_le(b, c),
    ensures
        path_le(a, c),
{
    lemma_key_le_trans(path_key(a), path_key(b), path_key(c));
}

/// Appends the key of the components of `p` from `i0` on to `out`.
fn push_components_key(p: &[u8], i0: usize, out: &mut Vec<i16>)
    requires
        i0 <= p@.len(),
    ensures
        final(out)@ == old(out)@ + components_key_from(p@, i0 as int),
{
    let len = p.len();
    let ghost target = old(out)@ + components_key_from(p@, i0 as int);
    let mut i: usize = i0;
    while i < len
        invariant
            len == p@.len(),
            i <= len,
            out@ + components_key_from(p@, i as int) == target,
        decreases len - i,
    {
        let mut j: usize = i;
        while j < len && p[j] != SEP
            invariant
                len == p@.len(),
                i <= j <= len,
                seg_end(p@, i as int) == seg_end(p@, j as int),
            decreases len - j,
        {
            j = j + 1;
        }
        let ghost before = out@;
        let ghost tail = if j < len {
            components_key_from(p@, j + 1)
        } else {
            Seq::<i16>::empty()
        };
        assert(components_key_from(p@, i as int) == segment_key(p@, i as int, j as int) + tail);
        if j == i || (j - i == 1 && p[i] == DOT) {
        } else if j - i == 2 && p[i] == DOT && p[i + 1] == DOT {
            out.push(KEY_PARENT);
            out.push(KEY_END);
        } else {
            let mut t: usize = i;
            while t < j
                invariant
                    len == p@.len(),
                    i <= t <= j <= len,
                    out@ == before + p@.subrange(i as int, t as int).map_values(|b: u8| b as i16),
                decreases j - t,
            {
                out.push(p[t] as i16);
                t = t + 1;
                assert(out@ =~= before + p@.subrange(i as int, t as int).map_values(|b: u8| b as i16));
            }
            out.push(KEY_END);
        }
        assert(out@ =~= before + segment_key(p@, i as int, j as int));
        let ghost seg = segment_key(p@, i as int, j as int);
        assert(before + seg + tail =~= before + (seg + tail));
        if j < len {
            i = j + 1;
        } else {
            i = len;
        }
        assert(components_key_from(p@, i as int) == tail);
    }
}

/// The key of the components of `p`.
pub fn path_key_of(p: &[u8]) -> (r: Vec<i16>)
    ensures
        r@ == path_key(p@),
{
    let mut r: Vec<i16> = Vec::new();
    if p.len() > 0 && p[0] == SEP {
        r.push(KEY_ROOT);
        r.push(KEY_END);
        push_components_key(p, 1, &mut r);
    } else if p.len() > 0 && p[0] == DOT && (p.len() == 1 || p[1] == SEP) {
        r.push(KEY_CUR);
        r.push(KEY_END);
        push_components_key(p, 1, &mut r);
    } else {
        push_components_key(p, 0, &mut r);
    }
    assert(r@ =~= path_key(p@));
    r
}

/// Whether key `a` comes no later than key `b`.
pub fn key_le_exec(a: &[i16], b: &[i16]) -> (r: bool)
    ensures
        r == key_le(a@, b@),
{
    let mut i: usize = 0;
    assert(a@.skip(0) =~= a@);
    assert(b@.skip(0) =~= b@);
    while i < a.len() && i < b.len() && a[i] == b[i]
        invariant
            i <= a@.len(),
            i <= b@.len(),
            key_le(a@, b@) == key_le(a@.skip(i as int), b@.skip(i as int)),
        decreases a@.len() - i,
    {
        assert(a@.skip(i as int).drop_first() =~= a@.skip(i + 1));
        assert(b@.skip(i as int).drop_first() =~= b@.skip(i + 1));
        i = i + 1;
    }
    if i == a.len() {
        true
    } else if i == b.len() {
        false
    } else {
        a[i] < b[i]
    }
}

/// Whether keys `a` and `b` are equal.
pub fn key_eq_exec(a: &[i16], b: &[i16]) -> (r: bool)
    ensures
        r == (a@ == b@),
{
    if a.len() != b.len() {
        return false;
    }
    let mut i: usize = 0;
    while i < a.len()
        invariant
            a@.len() == b@.len(),
            i <= a@.len(),
            forall|j: int| 0 <= j < i ==> a@[j] == b@[j],
        decreases a@.len() - i,
    {
        if a[i] != b[i] {
            return false;
        }
        i = i + 1;
    }
    assert(a@ =~= b@);
    true
}

/// Whether `a` comes no later than `b` in the order of paths.
pub fn path_le_bytes(a: &[u8], b: &[u8]) -> (r: bool)
    ensures
        r == path_le(a@, b@),
{
    let ka = path_key_of(a);
    let kb = path_key_of(b);
    key_le_exec(ka.as_slice(), kb.as_slice())
}

/// Whether `a` and `b` name the same path, component by component.
pub fn same_path(a: &[u8], b: &[u8]) -> (r: bool)
    ensures
        r == same_components(a@, b@),
{
    let ka = path_key_of(a);
    let kb = path_key_of(b);
    key_eq_exec(ka.as_slice(), kb.as_slice())
}

proof fn lemma_seg_start_prefix(a: Seq<u8>, b: Seq<u8>, k: int)
    requires
        0 <= k <= a.len(),
        k <= b.len(),
        forall|i: int| 0 <= i < k ==> a[i] == b[i],
    ensures
        seg_start(a, k) == seg_start(b, k),
    decreases k,
{
    if k > 0 {
        lemma_seg_start_prefix(a, b, k - 1);
    }
}

proof fn lemma_seg_start_shape(p: Seq<u8>, e: int)
    requires
        0 <= e <= p.len(),
    ensures
        0 <= seg_start(p, e) <= e,
        seg_start(p, e) > 0 ==> p[seg_start(p, e) - 1] == SEP,
        forall|i: int| seg_start(p, e) <= i < e ==> p[i] != SEP,
        seg_start(p, seg_start(p, e)) == seg_start(p, e),
        e > 0 && p[e - 1] != SEP ==> seg_start(p, e) < e,
    decreases e,
{
    if e > 0 && p[e - 1] != SEP {
        lemma_seg_start_shape(p, e - 1);
    }
}

proof fn lemma_seg_start_no_sep(p: Seq<u8>, s: int, k: int)
    requires
        0 <= s <= k <= p.len(),
        forall|i: int| s <= i < k ==> p[i] != SEP,
    ensures
        seg_start(p, k) == seg_start(p, s),
    decreases k - s,
{
    if k > s {
        lemma_seg_start_no_sep(p, s, k - 1);
    }
}

proof fn lemma_name_end_shape(p: Seq<u8>, n: int)
    requires
        0 <= n <= p.len(),
    ensures
        0 <= name_end(p, n) <= n,
        name_end(p, n) > 0 ==> p[name_end(p, n) - 1] != SEP,
    decreases n,
{
    if n > 0 {
        lemma_name_end_shape(p, n - 1);
    }
}

proof fn lemma_last_dot_at(p: Seq<u8>, s: int, m: int, k: int)
    requires
        0 <= s <= m < k <= p.len(),
        p[m] == DOT,
        forall|i: int| m < i < k ==> p[i] != DOT,
    ensures
        last_dot(p, s, k) == m,
    decreases k - s,
{
    if k - 1 > m {
        lemma_last_dot_at(p, s, m, k - 1);
    }
}

proof fn lemma_last_dot_shape(p: Seq<u8>, s: int, k: int)
    requires
        0 <= s <= k <= p.len(),
    ensures
        s - 1 <= last_dot(p, s, k) < k,
        last_dot(p, s, k) >= s ==> p[last_dot(p, s, k)] == DOT,
    decreases k - s,
{
    if k > s && p[k - 1] != DOT {
        lemma_last_dot_shape(p, s, k - 1);
    }
}

/// What replacing the extension of a named path by a nonempty `ext` without
/// `.` or `/` gives: a named path whose name starts where it did, whose stem
/// ends where it did, and whose extension is `ext`.
proof fn lemma_with_extension_shape(p: Seq<u8>, ext: Seq<u8>)
    requires
        has_file_name(p),
        ext.len() > 0,
        !ext.contains(DOT),
        !ext.contains(SEP),
    ensures
        has_file_name(with_extension_spec(p, ext)),
        name_bounds(with_extension_spec(p, ext)).0 == name_bounds(p).0,
        stem_end(with_extension_spec(p, ext)) == stem_end(p),
        last_dot(
            with_extension_spec(p, ext),
            name_bounds(p).0,
            with_extension_spec(p, ext).len() as int,
        ) == stem_end(p),
        with_extension_spec(p, ext).subrange(0, stem_end(p)) == p.subrange(0, stem_end(p)),
        with_extension_spec(p, ext).subrange(stem_end(p) + 1, with_extension_spec(p, ext).len() as int)
            == ext,
{
    let (s, e) = name_bounds(p);
    let m = stem_end(p);
    let q = with_extension_spec(p, ext);
    let n = q.len() as int;
    lemma_name_end_shape(p, p.len() as int);
    lemma_seg_start_shape(p, e);
    lemma_last_dot_shape(p, s, e);
    assert(s < m <= e);
    assert(q =~= p.subrange(0, m) + seq![DOT] + ext);
    assert(n == m + 1 + ext.len());
    assert(q[n - 1] == ext[ext.len() - 1]);
    assert(q[n - 1] != SEP && q[n - 1] != DOT) by {
        assert(ext.contains(ext[ext.len() - 1]));
    }
    assert(name_end(q, n) == n);
    assert forall|i: int| s <= i < n implies q[i] != SEP by {
        if i > m {
            assert(q[i] == ext[i - m - 1]);
            assert(ext.contains(ext[i - m - 1]));
        }
    }
    lemma_seg_start_no_sep(q, s, n);
    lemma_seg_start_prefix(q, p, s);
    assert(seg_start(q, n) == s);
    assert(q[m] == DOT);
    assert forall|i: int| m < i < n implies q[i] != DOT by {
        assert(q[i] == ext[i - m - 1]);
        assert(ext.contains(ext[i - m - 1]));
    }
    lemma_last_dot_at(q, s, m, n);
    assert(q.subrange(s, n).len() == n - s);
    assert(q.subrange(0, m) =~= p.subrange(0, m));
    assert(q.subrange(m + 1, n) =~= ext);
}

/// After the extension of a named path is set to a nonempty `ext` that holds
/// neither `.` nor `/`, the path's extension is `ext`.
pub proof fn law_extension_after_set(p: Seq<u8>, ext: Seq<u8>)
    requires
        has_file_name(p),
        ext.len() > 0,
        !ext.contains(DOT),
        !ext.contains(SEP),
    ensures
        extension(with_extension_spec(p, ext)) == Some(ext),
{
    lemma_with_extension_shape(p, ext);
}

/// Setting the extension twice is setting it once to the second value, when
/// the first is nonempty and holds neither `.` nor `/`.
pub proof fn law_set_extension_twice(p: Seq<u8>, first: Seq<u8>, second: Seq<u8>)
    requires
        first.len() > 0,
        !first.contains(DOT),
        !first.contains(SEP),
    ensures
        with_extension_spec(with_extension_spec(p, first), second) == with_extension_spec(
            p,
            second,
        ),
{
    if has_file_name(p) {
        lemma_with_extension_shape(p, first);
    }
}

/// The component `p[i..j]` is a named one: neither empty nor `.`.
pub open spec fn kept_segment(p: Seq<u8>, i: int, j: int) -> bool {
    !(j == i || (j == i + 1 && p[i] == DOT))
}

/// The components of `p` from `i` on, each as its bytes, in order, where `i`
/// starts a component; empty and `.` components are left out.
pub open spec fn components_from(p: Seq<u8>, i: int) -> Seq<Seq<u8>>
    decreases p.len() - i,
{
    if i >= p.len() {
        Seq::empty()
    } else {
        let j = seg_end(p, i);
        let head = if kept_segment(p, i, j) {
            seq![p.subrange(i, j)]
        } else {
            Seq::<Seq<u8>>::empty()
        };
        if i <= j < p.len() {
            head + components_from(p, j + 1)
        } else {
            head
        }
    }
}

/// `p` starts with the root `/`.
pub open spec fn has_root(p: Seq<u8>) -> bool {
    p.len() > 0 && p[0] == SEP
}

/// The named components of `p`, each as its bytes, in order: those after the
/// root or a leading `.`.
pub open spec fn path_components(p: Seq<u8>) -> Seq<Seq<u8>> {
    if has_root(p) || starts_with_cur(p) {
        components_from(p, 1)
    } else {
        components_from(p, 0)
    }
}

/// The bytes of the file name of `p`: its last named component, or nothing.
pub open spec fn file_name_bytes(p: Seq<u8>) -> Seq<u8> {
    p.subrange(name_bounds(p).0, name_bounds(p).1)
}

spec fn component_code(c: Seq<u8>) -> Seq<i16> {
    if c == seq![DOT, DOT] {
        seq![KEY_PARENT, KEY_END]
    } else {
        c.map_values(|b: u8| b as i16) + seq![KEY_END]
    }
}

spec fn encode_components(cs: Seq<Seq<u8>>) -> Seq<i16>
    decreases cs.len(),
{
    if cs.len() == 0 {
        Seq::empty()
    } else {
        component_code(cs[0]) + encode_components(cs.drop_first())
    }
}

proof fn lemma_seg_end_shape(p: Seq<u8>, i: int)
    requires
        0 <= i <= p.len(),
    ensures
        i <= seg_end(p, i) <= p.len(),
        forall|k: int| i <= k < seg_end(p, i) ==> p[k] != SEP,
        seg_end(p, i) < p.len() ==> p[seg_end(p, i)] == SEP,
    decreases p.len() - i,
{
    if i < p.len() && p[i] != SEP {
        lemma_seg_end_shape(p, i + 1);
    }
}

proof fn lemma_segment_key_code(p: Seq<u8>, i: int, j: int)
    requires
        0 <= i <= j <= p.len(),
    ensures
        segment_key(p, i, j) == (if kept_segment(p, i, j) {
            component_code(p.subrange(i, j))
        } else {
            Seq::<i16>::empty()
        }),
{
    if kept_segment(p, i, j) {
        if j == i + 2 && p[i] == DOT && p[i + 1] == DOT {
            assert(p.subrange(i, j) =~= seq![DOT, DOT]);
        } else if p.subrange(i, j) == seq![DOT, DOT] {
            assert(p.subrange(i, j).len() == 2);
            assert(p.subrange(i, j)[0] == DOT);
            assert(p.subrange(i, j)[1] == DOT);
        }
    }
}

proof fn lemma_encode_concat(a: Seq<Seq<u8>>, b: Seq<Seq<u8>>)
    ensures
        encode_components(a + b) == encode_components(a) + encode_components(b),
    decreases a.len(),
{
    if a.len() == 0 {
        assert(a + b =~= b);
        assert(encode_components(a) + encode_components(b) =~= encode_components(b));
    } else {
        assert((a + b).drop_first() =~= a.drop_first() + b);
        lemma_encode_concat(a.drop_first(), b);
        assert((a + b)[0] == a[0]);
        let x = component_code(a[0]);
        assert(x + (encode_components(a.drop_first()) + encode_components(b)) =~= (x
            + encode_components(a.drop_first())) + encode_components(b));
    }
}

proof fn lemma_key_is_encoding(p: Seq<u8>, i: int)
    requires
        0 <= i <= p.len(),
    ensures
        components_key_from(p, i) == encode_components(components_from(p, i)),
    decreases p.len() - i,
{
    if i < p.len() {
        let j = seg_end(p, i);
        lemma_seg_end_shape(p, i);
        lemma_segment_key_code(p, i, j);
        let head = if kept_segment(p, i, j) {
            seq![p.subrange(i, j)]
        } else {
            Seq::<Seq<u8>>::empty()
        };
        if kept_segment(p, i, j) {
            assert(head.drop_first() =~= Seq::<Seq<u8>>::empty());
            assert(head[0] == p.subrange(i, j));
            assert(encode_components(head.drop_first()) =~= Seq::<i16>::empty());
            assert(encode_components(head) =~= component_code(p.subrange(i, j)));
        } else {
            assert(encode_components(head) =~= Seq::<i16>::empty());
        }
        if j < p.len() {
            lemma_key_is_encoding(p, j + 1);
            lemma_encode_concat(head, components_from(p, j + 1));
        }
    }
}

proof fn lemma_code_shape(c: Seq<u8>)
    ensures
        component_code(c).len() >= 1,
        component_code(c).last() == KEY_END,
        forall|k: int| 0 <= k < component_code(c).len() - 1 ==> component_code(c)[k] >= KEY_PARENT,
        component_code(c)[0] != KEY_ROOT,
        component_code(c)[0] != KEY_CUR,
{
    if c != seq![DOT, DOT] {
        let m = c.map_values(|b: u8| b as i16);
        assert forall|k: int| 0 <= k < component_code(c).len() - 1 implies component_code(
            c,
        )[k] >= KEY_PARENT by {
            assert(component_code(c)[k] == m[k]);
        }
    }
}

proof fn lemma_code_injective(c: Seq<u8>, d: Seq<u8>)
    requires
        component_code(c) == component_code(d),
    ensures
        c == d,
{
    let dd = seq![DOT, DOT];
    if c == dd && d != dd {
        assert(component_code(d)[0] == d[0] as i16);
    } else if c != dd && d == dd {
        assert(component_code(c)[0] == c[0] as i16);
    } else if c != dd && d != dd {
        let mc = c.map_values(|b: u8| b as i16);
        let md = d.map_values(|b: u8| b as i16);
        assert(component_code(c) == mc + seq![KEY_END]);
        assert(component_code(d) == md + seq![KEY_END]);
        assert(mc.len() == md.len());
        assert forall|k: int| 0 <= k < c.len() implies c[k] == d[k] by {
            assert(component_code(c)[k] == mc[k]);
            assert(component_code(d)[k] == md[k]);
        }
        assert(c =~= d);
    }
}

proof fn lemma_code_prefix(c: Seq<u8>, d: Seq<u8>, r1: Seq<i16>, r2: Seq<i16>)
    requires
        component_code(c) + r1 == component_code(d) + r2,
        component_code(c).len() <= component_code(d).len(),
    ensures
        component_code(c).len() == component_code(d).len(),
{
    lemma_code_shape(c);
    lemma_code_shape(d);
    let k = component_code(c).len() - 1;
    assert((component_code(c) + r1)[k] == KEY_END);
    assert((component_code(d) + r2)[k] == component_code(d)[k]);
}

proof fn lemma_encode_shape(cs: Seq<Seq<u8>>)
    ensures
        cs.len() == 0 <==> encode_components(cs).len() == 0,
        cs.len() > 0 ==> encode_components(cs)[0] != KEY_ROOT && encode_components(cs)[0]
            != KEY_CUR,
{
    if cs.len() > 0 {
        lemma_code_shape(cs[0]);
        assert(encode_components(cs)[0] == component_code(cs[0])[0]);
    }
}

proof fn lemma_encode_injective(cs: Seq<Seq<u8>>, ds: Seq<Seq<u8>>)
    requires
        encode_components(cs) == encode_components(ds),
    ensures
        cs == ds,
    decreases cs.len(),
{
    lemma_encode_shape(cs);
    lemma_encode_shape(ds);
    if cs.len() == 0 {
        assert(cs =~= ds);
    } else {
        let x = component_code(cs[0]);
        let y = component_code(ds[0]);
        let e1 = encode_components(cs.drop_first());
        let e2 = encode_components(ds.drop_first());
        if x.len() <= y.len() {
            lemma_code_prefix(cs[0], ds[0], e1, e2);
        } else {
            lemma_code_prefix(ds[0], cs[0], e2, e1);
        }
        assert(x =~= (x + e1).subrange(0, x.len() as int));
        assert(y =~= (y + e2).subrange(0, x.len() as int));
        assert(e1 =~= (x + e1).subrange(x.len() as int, (x + e1).len() as int));
        assert(e2 =~= (y + e2).subrange(x.len() as int, (y + e2).len() as int));
        lemma_code_injective(cs[0], ds[0]);
        lemma_encode_injective(cs.drop_first(), ds.drop_first());
        assert forall|k: int| 0 <= k < cs.len() implies cs[k] == ds[k] by {
            if k > 0 {
                assert(cs[k] == cs.drop_first()[k - 1]);
                assert(ds[k] == ds.drop_first()[k - 1]);
            }
        }
        assert(cs =~= ds);
    }
}

proof fn lemma_path_key_parts(p: Seq<u8>)
    ensures
        has_root(p) <==> (path_key(p).len() > 0 && path_key(p)[0] == KEY_ROOT),
        starts_with_cur(p) <==> (path_key(p).len() > 0 && path_key(p)[0] == KEY_CUR),
        path_key(p).subrange(
            if has_root(p) || starts_with_cur(p) {
                2
            } else {
                0
            },
            path_key(p).len() as int,
        ) == encode_components(path_components(p)),
{
    if has_root(p) || starts_with_cur(p) {
        lemma_key_is_encoding(p, 1);
        let h = if has_root(p) {
            seq![KEY_ROOT, KEY_END]
        } else {
            seq![KEY_CUR, KEY_END]
        };
        assert(path_key(p) == h + components_key_from(p, 1));
        assert(path_key(p).subrange(2, path_key(p).len() as int) =~= components_key_from(p, 1));
    } else {
        lemma_key_is_encoding(p, 0);
        lemma_encode_shape(path_components(p));
        assert(path_key(p).subrange(0, path_key(p).len() as int) =~= path_key(p));
    }
}

proof fn lemma_name_in_components(p: Seq<u8>, i: int)
    requires
        0 <= i <= p.len(),
        i == 0 || p[i - 1] == SEP,
    ensures
        components_from(p, i).len() == 0 ==> name_end(p, p.len() as int) == name_end(p, i),
        components_from(p, i).len() > 0 ==> p.subrange(
            seg_start(p, name_end(p, p.len() as int)),
            name_end(p, p.len() as int),
        ) == components_from(p, i).last(),
    decreases p.len() - i,
{
    if i < p.len() {
        let j = seg_end(p, i);
        lemma_seg_end_shape(p, i);
        lemma_seg_start_no_sep(p, i, j);
        assert(seg_start(p, j) == i);
        if kept_segment(p, i, j) {
            assert(p[j - 1] != SEP);
            if p[j - 1] == DOT {
                assert(j - 1 > i);
                assert(p[j - 2] != SEP);
            }
            assert(name_end(p, j) == j);
        } else if j == i + 1 {
            assert(name_end(p, j) == name_end(p, i));
        }
        let head = if kept_segment(p, i, j) {
            seq![p.subrange(i, j)]
        } else {
            Seq::<Seq<u8>>::empty()
        };
        if j < p.len() {
            lemma_name_in_components(p, j + 1);
            let rest = components_from(p, j + 1);
            assert(components_from(p, i) == head + rest);
            if rest.len() > 0 {
                assert((head + rest).last() == rest.last());
            } else {
                assert(head + rest =~= head);
                assert(name_end(p, j + 1) == name_end(p, j));
            }
        }
    }
}

proof fn lemma_file_name_is_last(p: Seq<u8>)
    ensures
        file_name_bytes(p) == (if path_components(p).len() > 0 {
            path_components(p).last()
        } else {
            Seq::<u8>::empty()
        }),
{
    let n = p.len() as int;
    let cs = path_components(p);
    assert(name_end(p, 0) == 0);
    if has_root(p) {
        lemma_name_in_components(p, 1);
        assert(name_end(p, 1) == 0);
    } else if starts_with_cur(p) {
        assert(name_end(p, 1) == 0);
        if n > 1 {
            lemma_name_in_components(p, 2);
            lemma_seg_end_shape(p, 1);
            assert(components_from(p, 1) =~= components_from(p, 2));
            assert(name_end(p, 2) == 0);
        }
    } else {
        lemma_name_in_components(p, 0);
    }
    if cs.len() == 0 {
        assert(name_end(p, n) == 0);
        assert(file_name_bytes(p) =~= Seq::<u8>::empty());
    }
}

/// Two paths have the same components exactly when they agree on the root, on
/// a leading `.` and on the list of named components, each byte for byte; so
/// two paths with the same components have the same file name.
pub proof fn law_same_components_same_bytes(a: Seq<u8>, b: Seq<u8>)
    ensures
        same_components(a, b) <==> (has_root(a) == has_root(b) && starts_with_cur(a)
            == starts_with_cur(b) && path_components(a) == path_components(b)),
        same_components(a, b) ==> file_name_bytes(a) == file_name_bytes(b),
{
    lemma_path_key_parts(a);
    lemma_path_key_parts(b);
    lemma_file_name_is_last(a);
    lemma_file_name_is_last(b);
    if same_components(a, b) {
        lemma_encode_injective(path_components(a), path_components(b));
    }
    if has_root(a) == has_root(b) && starts_with_cur(a) == starts_with_cur(b) && path_components(a)
        == path_components(b) {
        let ka = path_key(a);
        let kb = path_key(b);
        let h: int = if has_root(a) || starts_with_cur(a) {
            2
        } else {
            0
        };
        if h == 2 {
            assert(ka.subrange(0, 2) =~= kb.subrange(0, 2));
        }
        assert(ka =~= ka.subrange(0, h) + ka.subrange(h, ka.len() as int));
        assert(kb =~= kb.subrange(0, h) + kb.subrange(h, kb.len() as int));
    }
}

} // verus!
