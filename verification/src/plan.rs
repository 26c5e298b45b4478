//! What converting one text file takes: the pieces that are handed to the
//! converter, in order, and whether the work on the file runs to its end.
use crate::args::Args;
use crate::files::{Files, paths_sorted, holds_path, mp3_ext};
use crate::names::{mp3_name, piece_audio_ext, piece_audio_name};
use crate::path::with_extension_spec;
use crate::split::{chunk_end, split_at_max_checked, split_at_str, split_points, splittable,
    strs_of, ints_of, law_split_points_ordered};
use vstd::prelude::*;

verus! {

/// One conversion.
#[derive(Clone, Copy, PartialEq, Eq, Debug)]
pub enum Piece {
    /// The file as it is.
    Whole,
    /// The bytes `start..end` of the file, written to the text of the
    /// `count`-th piece first and converted to the audio of that piece.
    Part { start: usize, end: usize, count: u16 },
}

/// How the work on a file ends.
#[derive(Clone, Copy, PartialEq, Eq, Debug)]
pub enum Stop {
    /// Every piece is done.
    Done,
    /// The string to split at is empty.
    EmptySplitString,
    /// A chunk is too long and the search window for its cuts is longer
    /// than `max`.
    Unsplittable,
    /// The pieces of the file outnumber what their count can hold.
    CountOverflow,
}

/// The conversions for one file, and how the work on it ends.
pub struct FilePlan {
    pub pieces: Vec<Piece>,
    pub stop: Stop,
}

/// The largest count of pieces.
pub const MAX_COUNT: u16 = 65535;

/// The range of the file that a piece converts.
pub open spec fn piece_bounds(p: Piece, len: int) -> (int, int) {
    match p {
        Piece::Whole => (0, len),
        Piece::Part { start, end, .. } => (start as int, end as int),
    }
}

/// The pieces `ps` convert `from..to` of a file of `len` bytes: each starts
/// where the one before ends, and none is empty.
pub open spec fn tiles(ps: Seq<Piece>, from: int, to: int, len: int) -> bool
    decreases ps.len(),
{
    if ps.len() == 0 {
        from == to
    } else {
        let (s, e) = piece_bounds(ps[0], len);
        s == from && s < e && tiles(ps.drop_first(), e, to, len)
    }
}

/// The bytes of `data` that the pieces `ps` convert, one after the other.
pub open spec fn pieces_bytes(ps: Seq<Piece>, data: Seq<u8>) -> Seq<u8>
    decreases ps.len(),
{
    if ps.len() == 0 {
        Seq::empty()
    } else {
        let (s, e) = piece_bounds(ps[0], data.len() as int);
        data.subrange(s, e) + pieces_bytes(ps.drop_first(), data)
    }
}

/// The pieces of a chunk from its split points `sps`: the chunk starts at
/// `base` in a file of `file_len` bytes and is `chunk_len` bytes long; the
/// next piece starts at `start` in the chunk; `count` pieces were written so
/// far. Each cut ends a piece and starts the next; the last point, the last
/// byte, ends the last piece at the end of the chunk. A piece that is the
/// whole file is converted as it is; any other gets the next count. Gives the
/// pieces, the new count and how it ends.
pub open spec fn chunk_pieces(
    sps: Seq<int>,
    base: int,
    chunk_len: int,
    file_len: int,
    start: int,
    count: int,
) -> (Seq<Piece>, int, Stop)
    decreases sps.len(),
{
    if sps.len() == 0 {
        (Seq::empty(), count, Stop::Done)
    } else {
        let end = if sps.len() == 1 {
            chunk_len
        } else {
            sps[0]
        };
        if base == 0 && start == 0 && end == file_len {
            let rest = chunk_pieces(sps.drop_first(), base, chunk_len, file_len, end, count);
            (seq![Piece::Whole] + rest.0, rest.1, rest.2)
        } else if count >= MAX_COUNT {
            (Seq::empty(), count, Stop::CountOverflow)
        } else {
            let rest = chunk_pieces(sps.drop_first(), base, chunk_len, file_len, end, count + 1);
            (
                seq![
                    Piece::Part {
                        start: (base + start) as usize,
                        end: (base + end) as usize,
                        count: (count + 1) as u16,
                    },
                ] + rest.0,
                rest.1,
                rest.2,
            )
        }
    }
}

/// The bytes of an optional byte vector.
pub open spec fn opt_bytes(v: Option<Vec<u8>>) -> Option<Seq<u8>> {
    match v {
        Some(b) => Some(b@),
        None => None,
    }
}

/// Where the chunk that starts at `pos` ends: at the next occurrence of the
/// string to split at, or at the end when there is none.
pub open spec fn chunk_end_of(data: Seq<u8>, split: Option<Seq<u8>>, pos: int) -> int {
    match split {
        Some(s) => chunk_end(data, s, pos),
        None => data.len() as int,
    }
}

/// The pieces of `data` from `pos` on, chunk by chunk: each chunk is cut at
/// its split points into pieces; `count` pieces were written so far. (A
/// chunk that would not move on, or run past the end, cannot occur.)
pub open spec fn plan_from(
    data: Seq<u8>,
    split: Option<Seq<u8>>,
    strs: Seq<Seq<u8>>,
    max: int,
    max_var: int,
    pos: int,
    count: int,
) -> (Seq<Piece>, Stop)
    decreases data.len() - pos,
{
    if pos >= data.len() {
        (Seq::empty(), Stop::Done)
    } else if split matches Some(s) && s.len() == 0 {
        (Seq::empty(), Stop::EmptySplitString)
    } else {
        let end = chunk_end_of(data, split, pos);
        let chunk = data.subrange(pos, end);
        if end <= pos || end > data.len() || !splittable(chunk, max, max_var) {
            (Seq::empty(), Stop::Unsplittable)
        } else {
            let c = chunk_pieces(
                split_points(chunk, strs, max, max_var),
                pos,
                end - pos,
                data.len() as int,
                0,
                count,
            );
            if c.2 != Stop::Done {
                (c.0, c.2)
            } else {
                let rest = plan_from(data, split, strs, max, max_var, end, c.1);
                (c.0 + rest.0, rest.1)
            }
        }
    }
}

/// The pieces of a file with contents `data` under the settings `args`.
pub open spec fn file_plan(data: Seq<u8>, args: Args) -> (Seq<Piece>, Stop) {
    plan_from(
        data,
        opt_bytes(args.split),
        strs_of(args.split_strs@),
        args.max as int,
        args.max_var as int,
        0,
        0,
    )
}

/// The first piece of a file: the whole file, or the piece counted first.
pub open spec fn first_piece(p: Piece) -> bool {
    match p {
        Piece::Whole => true,
        Piece::Part { count, .. } => count == 1,
    }
}

/// A piece that converts part of a file covers a range of it that is not
/// empty.
pub open spec fn piece_within(p: Piece, len: nat) -> bool {
    match p {
        Piece::Part { start, end, .. } => start < end <= len,
        Piece::Whole => true,
    }
}

proof fn lemma_tiles_push(ps: Seq<Piece>, a: int, b: int, p: Piece, len: int)
    requires
        tiles(ps, a, b, len),
        piece_bounds(p, len).0 == b,
        piece_bounds(p, len).0 < piece_bounds(p, len).1,
    ensures
        tiles(ps.push(p), a, piece_bounds(p, len).1, len),
    decreases ps.len(),
{
    let e = piece_bounds(p, len).1;
    let q = ps.push(p);
    if ps.len() == 0 {
        assert(q.drop_first() =~= Seq::<Piece>::empty());
        assert(q[0] == p);
        assert(tiles(q.drop_first(), e, e, len));
    } else {
        let m = piece_bounds(ps[0], len).1;
        lemma_tiles_push(ps.drop_first(), m, b, p, len);
        assert(q.drop_first() =~= ps.drop_first().push(p));
        assert(q[0] == ps[0]);
    }
}

/// Pieces that convert a range of a file, one after the other, give back
/// exactly that range: cutting a text into pieces loses nothing.
pub proof fn law_pieces_give_back_the_text(ps: Seq<Piece>, data: Seq<u8>, from: int, to: int)
    requires
        tiles(ps, from, to, data.len() as int),
        0 <= from,
        to <= data.len(),
    ensures
        pieces_bytes(ps, data) == data.subrange(from, to),
    decreases ps.len(),
{
    if ps.len() > 0 {
        let (s, e) = piece_bounds(ps[0], data.len() as int);
        lemma_tiles_order(ps.drop_first(), e, to, data.len() as int);
        law_pieces_give_back_the_text(ps.drop_first(), data, e, to);
        assert(data.subrange(from, to) =~= data.subrange(s, e) + data.subrange(e, to));
    }
}

proof fn lemma_tiles_order(ps: Seq<Piece>, from: int, to: int, len: int)
    requires
        tiles(ps, from, to, len),
    ensures
        from <= to,
    decreases ps.len(),
{
    if ps.len() > 0 {
        lemma_tiles_order(ps.drop_first(), piece_bounds(ps[0], len).1, to, len);
    }
}

/// The pieces of a file with contents `data`, in the order in which the
/// converter gets them, and how the work on the file ends. When the work
/// runs to its end, the pieces give back the whole file.
pub fn plan_file(data: &[u8], args: &Args) -> (r: FilePlan)
    requires
        data@.len() < usize::MAX,
    ensures
        (r.pieces@, r.stop) == file_plan(data@, *args),
        forall|i: int| 0 <= i < r.pieces@.len() ==> piece_within(#[trigger] r.pieces@[i], data@.len()),
        r.pieces@.len() > 0 ==> first_piece(r.pieces@[0]),
        r.stop == Stop::Done ==> tiles(r.pieces@, 0, data@.len() as int, data@.len() as int),
        r.stop == Stop::Done ==> pieces_bytes(r.pieces@, data@) == data@,
{
    let ghost split = opt_bytes(args.split);
    let ghost strs = strs_of(args.split_strs@);
    let ghost max = args.max as int;
    let ghost max_var = args.max_var as int;
    let ghost total = file_plan(data@, *args);
    let len = data.len();
    let mut pieces: Vec<Piece> = Vec::new();
    let mut pos: usize = 0;
    let mut count: u16 = 0;
    loop
        invariant
            len == data@.len(),
            len < usize::MAX,
            split == opt_bytes(args.split),
            strs == strs_of(args.split_strs@),
            max == args.max as int,
            max_var == args.max_var as int,
            total == file_plan(data@, *args),
            pos <= len,
            forall|i: int| 0 <= i < pieces@.len() ==> piece_within(#[trigger] pieces@[i], len as nat),
            pieces@.len() > 0 ==> first_piece(pieces@[0]),
            pieces@.len() == 0 ==> count == 0,
            tiles(pieces@, 0, pos as int, len as int),
            pieces@ + plan_from(data@, split, strs, max, max_var, pos as int, count as int).0
                == total.0,
            plan_from(data@, split, strs, max, max_var, pos as int, count as int).1 == total.1,
        decreases len - pos,
    {
        if pos >= len {
            assert(pieces@ =~= total.0);
            proof {
                law_pieces_give_back_the_text(pieces@, data@, 0, len as int);
                assert(data@.subrange(0, len as int) =~= data@);
            }
            return FilePlan { pieces, stop: Stop::Done };
        }
        let end = match &args.split {
            Some(s) => {
                if s.len() == 0 {
                    assert(pieces@ =~= total.0);
                    return FilePlan { pieces, stop: Stop::EmptySplitString };
                }
                split_at_str(s.as_slice(), data, pos)
            },
            None => len,
        };
        let chunk = vstd::slice::slice_subrange(data, pos, end);
        let sps = match split_at_max_checked(chunk, &args.split_strs, args.max, args.max_var) {
            Some(v) => v,
            None => {
                assert(pieces@ =~= total.0);
                return FilePlan { pieces, stop: Stop::Unsplittable };
            },
        };
        let ghost s = ints_of(sps@);
        let ghost clen = (end - pos) as int;
        let ghost c = chunk_pieces(s, pos as int, clen, len as int, 0, count as int);
        let ghost before = pieces@;
        let ghost pf = plan_from(data@, split, strs, max, max_var, pos as int, count as int);
        proof {
            law_split_points_ordered(chunk@, strs, max, max_var);
            assert(s.skip(0) =~= s);
            assert(c.2 != Stop::Done ==> pf == (c.0, c.2));
            assert(c.2 == Stop::Done ==> pf == (
                c.0 + plan_from(data@, split, strs, max, max_var, end as int, c.1).0,
                plan_from(data@, split, strs, max, max_var, end as int, c.1).1,
            ));
        }
        let n = sps.len();
        let mut start: usize = 0;
        let mut j: usize = 0;
        while j < n
            invariant
                len == data@.len(),
                len < usize::MAX,
                pos < end <= len,
                clen == end - pos,
                s == ints_of(sps@),
                n == sps@.len(),
                n >= 1,
                s.last() == clen - 1,
                forall|t: int| 0 <= t < s.len() ==> 0 <= #[trigger] s[t] < clen,
                forall|a: int, b: int| 0 <= a < b < s.len() - 1 ==> s[a] < s[b],
                s.len() > 1 ==> s[0] > 0,
                j <= n,
                j < n ==> start as int == (if j == 0 {
                    0int
                } else {
                    s[j - 1]
                }),
                j == n ==> start == clen,
                forall|i: int| 0 <= i < pieces@.len() ==> piece_within(#[trigger] pieces@[i], len as nat),
                pieces@.len() > 0 ==> first_piece(pieces@[0]),
                pieces@.len() == 0 ==> count == 0,
                tiles(pieces@, 0, pos + start, len as int),
                total == file_plan(data@, *args),
                total.0 == before + pf.0,
                total.1 == pf.1,
                c.2 != Stop::Done ==> pf == (c.0, c.2),
                pieces@ + chunk_pieces(
                    s.skip(j as int),
                    pos as int,
                    clen,
                    len as int,
                    start as int,
                    count as int,
                ).0 == before + c.0,
                chunk_pieces(
                    s.skip(j as int),
                    pos as int,
                    clen,
                    len as int,
                    start as int,
                    count as int,
                ).1 == c.1,
                chunk_pieces(
                    s.skip(j as int),
                    pos as int,
                    clen,
                    len as int,
                    start as int,
                    count as int,
                ).2 == c.2,
            decreases n - j,
        {
            let piece_end = if j + 1 == n {
                end - pos
            } else {
                sps[j]
            };
            assert(s.skip(j as int).len() == n - j);
            assert(s.skip(j as int).drop_first() =~= s.skip(j + 1));
            if j + 1 < n {
                assert(s.skip(j as int)[0] == s[j as int]);
                if j > 0 {
                    assert(s[j - 1] < s[j as int]);
                }
            }
            assert(start < piece_end);
            let ghost prev = pieces@;
            if pos == 0 && start == 0 && piece_end == len {
                pieces.push(Piece::Whole);
                assert(pieces@ =~= prev + seq![Piece::Whole]);
                proof {
                    lemma_tiles_push(prev, 0, pos + start, Piece::Whole, len as int);
                }
            } else {
                if count == MAX_COUNT {
                    assert(pieces@ =~= before + c.0);
                    return FilePlan { pieces, stop: Stop::CountOverflow };
                }
                count = count + 1;
                let piece = Piece::Part { start: pos + start, end: pos + piece_end, count };
                pieces.push(piece);
                assert(pieces@ =~= prev + seq![piece]);
                proof {
                    lemma_tiles_push(prev, 0, pos + start, piece, len as int);
                }
            }
            start = piece_end;
            j = j + 1;
        }
        assert(s.skip(j as int) =~= Seq::<int>::empty());
        assert(pieces@ =~= before + c.0);
        pos = end;
    }
}

/// What to do with one text file.
#[derive(Clone, Copy, PartialEq, Eq, Debug)]
pub enum FileStep {
    /// Its audio exists already.
    Skip,
    /// Convert it.
    Convert,
}

/// The audio file that a piece of the text `file_txt` is converted to: the
/// text's own `mp3` name for the whole text, the piece's own for a piece.
pub open spec fn audio_of(file_txt: Seq<u8>, p: Piece) -> Seq<u8> {
    match p {
        Piece::Whole => with_extension_spec(file_txt, mp3_ext()),
        Piece::Part { count, .. } => with_extension_spec(file_txt, piece_audio_ext(count as nat)),
    }
}

/// The names whose presence shows that the text `file_txt` was converted:
/// its `mp3` name, or the audio of its first piece.
pub open spec fn shows_converted(file_txt: Seq<u8>, name: Seq<u8>) -> bool {
    name == with_extension_spec(file_txt, mp3_ext()) || name == with_extension_spec(
        file_txt,
        piece_audio_ext(1),
    )
}

/// `audio` holds a name that shows that `file_txt` was converted.
pub open spec fn converted_before(audio: Seq<Seq<u8>>, file_txt: Seq<u8>) -> bool {
    holds_path(audio, with_extension_spec(file_txt, mp3_ext())) || holds_path(
        audio,
        with_extension_spec(file_txt, piece_audio_ext(1)),
    )
}

/// The audio file that `piece` of the text `file_txt` is converted to.
pub fn piece_audio(file_txt: &[u8], piece: Piece) -> (r: Vec<u8>)
    ensures
        r@ == audio_of(file_txt@, piece),
{
    match piece {
        Piece::Whole => mp3_name(file_txt),
        Piece::Part { count, .. } => piece_audio_name(file_txt, count),
    }
}

/// A text that is converted writes, with its first piece, a name that the
/// next run looks for to skip it.
pub proof fn law_first_audio_shows_conversion(file_txt: Seq<u8>, p: Piece)
    requires
        first_piece(p),
    ensures
        shows_converted(file_txt, audio_of(file_txt, p)),
{
}

/// Whether to skip the text `file_txt` among the files `files`: it is
/// skipped when its audio, whole or of its first piece, is there.
pub fn file_step(files: &Files, file_txt: &[u8]) -> (r: FileStep)
    ensures
        r == FileStep::Skip ==> converted_before(files@.mp3, file_txt@),
        paths_sorted(files@.mp3) ==> (r == FileStep::Skip <==> converted_before(
            files@.mp3,
            file_txt@,
        )),
{
    let whole = mp3_name(file_txt);
    let first = piece_audio_name(file_txt, 1);
    if files.contains(whole.as_slice()) || files.contains(first.as_slice()) {
        FileStep::Skip
    } else {
        FileStep::Convert
    }
}

/// Whether to wait before a request to the converter: between requests,
/// unless testing.
pub fn wait_before_request(test: bool, requested_before: bool) -> (r: bool)
    ensures
        r == (!test && requested_before),
{
    !test && requested_before
}

/// How many of `ps` convert part of a file.
pub open spec fn count_parts(ps: Seq<Piece>) -> int
    decreases ps.len(),
{
    if ps.len() == 0 {
        0
    } else {
        (if ps[0] is Part {
            1int
        } else {
            0int
        }) + count_parts(ps.drop_first())
    }
}

/// The parts among `ps` are numbered `n + 1`, `n + 2`, ... in order.
pub open spec fn numbered_from(ps: Seq<Piece>, n: int) -> bool
    decreases ps.len(),
{
    if ps.len() == 0 {
        true
    } else {
        match ps[0] {
            Piece::Part { count, .. } => count == n + 1 && numbered_from(ps.drop_first(), n + 1),
            Piece::Whole => numbered_from(ps.drop_first(), n),
        }
    }
}

proof fn lemma_numbered_concat(a: Seq<Piece>, b: Seq<Piece>, n: int)
    requires
        numbered_from(a, n),
        numbered_from(b, n + count_parts(a)),
    ensures
        numbered_from(a + b, n),
        count_parts(a + b) == count_parts(a) + count_parts(b),
    decreases a.len(),
{
    if a.len() == 0 {
        assert(a + b =~= b);
    } else {
        assert((a + b).drop_first() =~= a.drop_first() + b);
        assert((a + b)[0] == a[0]);
        match a[0] {
            Piece::Part { .. } => lemma_numbered_concat(a.drop_first(), b, n + 1),
            Piece::Whole => lemma_numbered_concat(a.drop_first(), b, n),
        }
    }
}

proof fn lemma_chunk_numbered(
    sps: Seq<int>,
    base: int,
    chunk_len: int,
    file_len: int,
    start: int,
    count: int,
)
    requires
        0 <= count <= MAX_COUNT,
    ensures
        ({
            let c = chunk_pieces(sps, base, chunk_len, file_len, start, count);
            &&& numbered_from(c.0, count)
            &&& c.1 == count + count_parts(c.0)
            &&& count <= c.1 <= MAX_COUNT
        }),
    decreases sps.len(),
{
    if sps.len() > 0 {
        let end = if sps.len() == 1 {
            chunk_len
        } else {
            sps[0]
        };
        let c = chunk_pieces(sps, base, chunk_len, file_len, start, count);
        if base == 0 && start == 0 && end == file_len {
            lemma_chunk_numbered(sps.drop_first(), base, chunk_len, file_len, end, count);
            let rest = chunk_pieces(sps.drop_first(), base, chunk_len, file_len, end, count);
            assert(c.0 == seq![Piece::Whole] + rest.0);
            assert(c.0.drop_first() =~= rest.0);
        } else if count < MAX_COUNT {
            lemma_chunk_numbered(sps.drop_first(), base, chunk_len, file_len, end, count + 1);
            let rest = chunk_pieces(sps.drop_first(), base, chunk_len, file_len, end, count + 1);
            assert(c.0.drop_first() =~= rest.0);
        }
    }
}

proof fn lemma_plan_numbered(
    data: Seq<u8>,
    split: Option<Seq<u8>>,
    strs: Seq<Seq<u8>>,
    max: int,
    max_var: int,
    pos: int,
    count: int,
)
    requires
        0 <= count <= MAX_COUNT,
    ensures
        numbered_from(plan_from(data, split, strs, max, max_var, pos, count).0, count),
    decreases data.len() - pos,
{
    if pos < data.len() && !(split matches Some(s) && s.len() == 0) {
        let end = chunk_end_of(data, split, pos);
        let chunk = data.subrange(pos, end);
        if !(end <= pos || end > data.len() || !splittable(chunk, max, max_var)) {
            let sps = split_points(chunk, strs, max, max_var);
            let c = chunk_pieces(sps, pos, end - pos, data.len() as int, 0, count);
            lemma_chunk_numbered(sps, pos, end - pos, data.len() as int, 0, count);
            if c.2 == Stop::Done {
                lemma_plan_numbered(data, split, strs, max, max_var, end, c.1);
                let rest = plan_from(data, split, strs, max, max_var, end, c.1);
                lemma_numbered_concat(c.0, rest.0, count);
            }
        }
    }
}

proof fn lemma_numbered_closed(ps: Seq<Piece>, n: int)
    requires
        numbered_from(ps, n),
    ensures
        forall|i: int|
            0 <= i < ps.len() && (#[trigger] ps[i] is Part) ==> ps[i]->count == n + count_parts(
                ps.take(i),
            ) + 1,
    decreases ps.len(),
{
    if ps.len() > 0 {
        let m = if ps[0] is Part {
            n + 1
        } else {
            n
        };
        lemma_numbered_closed(ps.drop_first(), m);
        assert forall|i: int| 0 <= i < ps.len() && (#[trigger] ps[i] is Part) implies ps[i]->count
            == n + count_parts(ps.take(i)) + 1 by {
            if i == 0 {
                assert(ps.take(0) =~= Seq::<Piece>::empty());
            } else {
                assert(ps[i] == ps.drop_first()[i - 1]);
                assert(ps.take(i).drop_first() =~= ps.drop_first().take(i - 1));
                assert(ps.take(i)[0] == ps[0]);
            }
        }
    }
}

/// The parts of a file are numbered 1, 2, 3, ... in the order in which they
/// are converted: the count of each is one more than the number of parts
/// before it, so no two parts share a text or an audio name.
pub proof fn law_parts_numbered_in_order(data: Seq<u8>, args: Args)
    ensures
        ({
            let ps = file_plan(data, args).0;
            forall|i: int|
                0 <= i < ps.len() && (#[trigger] ps[i] is Part) ==> ps[i]->count == count_parts(
                    ps.take(i),
                ) + 1
        }),
{
    lemma_plan_numbered(
        data,
        opt_bytes(args.split),
        strs_of(args.split_strs@),
        args.max as int,
        args.max_var as int,
        0,
        0,
    );
    lemma_numbered_closed(file_plan(data, args).0, 0);
}

} // verus!
