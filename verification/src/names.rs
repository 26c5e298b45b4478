//! The names of the files that a conversion reads and writes.
use crate::files::{mp3_ext, mp3_ext_bytes};
use crate::path::{with_extension, with_extension_spec, DOT};
use vstd::prelude::*;

verus! {

/// The decimal digits of `n`, as ASCII bytes, without leading zeros.
pub open spec fn decimal(n: nat) -> Seq<u8>
    decreases n,
{
    if n < 10 {
        seq![(48 + n) as u8]
    } else {
        decimal(n / 10).push((48 + n % 10) as u8)
    }
}

/// The decimal digits of `n`, with zeros in front up to three digits.
pub open spec fn padded3(n: nat) -> Seq<u8> {
    let d = decimal(n);
    if d.len() >= 3 {
        d
    } else {
        Seq::new((3 - d.len()) as nat, |i: int| 48u8) + d
    }
}

/// The extension of the text of a piece: `gtts_txt`.
pub open spec fn piece_ext_tail() -> Seq<u8> {
    seq![0x67u8, 0x74u8, 0x74u8, 0x73u8, 0x5fu8, 0x74u8, 0x78u8, 0x74u8]
}

/// The extension of the audio written before it gets its final name: `gtts_mp3`.
pub open spec fn pending_ext() -> Seq<u8> {
    seq![0x67u8, 0x74u8, 0x74u8, 0x73u8, 0x5fu8, 0x6du8, 0x70u8, 0x33u8]
}

/// The extension of the audio of the `count`-th piece of a file: the count
/// in at least three digits, a dot, `mp3`.
pub open spec fn piece_audio_ext(count: nat) -> Seq<u8> {
    padded3(count) + seq![DOT] + mp3_ext()
}

/// The extension of the text of the `count`-th piece of a file: the count in
/// at least three digits, a dot, `gtts_txt`.
pub open spec fn piece_ext(count: nat) -> Seq<u8> {
    padded3(count) + seq![DOT] + piece_ext_tail()
}

proof fn lemma_decimal_len(n: nat)
    ensures
        n < 10 ==> decimal(n).len() == 1,
        10 <= n < 100 ==> decimal(n).len() == 2,
        100 <= n ==> decimal(n).len() >= 3,
    decreases n,
{
    if n >= 10 {
        lemma_decimal_len(n / 10);
    }
}

/// Appends the decimal digits of `n` to `out`.
fn push_decimal(out: &mut Vec<u8>, n: u16)
    ensures
        final(out)@ == old(out)@ + decimal(n as nat),
    decreases n,
{
    if n < 10 {
        out.push(48u8 + n as u8);
        assert(final(out)@ =~= old(out)@ + decimal(n as nat));
    } else {
        push_decimal(out, n / 10);
        let ghost mid = out@;
        out.push(48u8 + (n % 10) as u8);
        assert(out@ =~= mid.push((48 + n % 10) as u8));
        assert(decimal(n as nat) == decimal((n / 10) as nat).push((48 + n % 10) as u8));
        assert(out@ =~= old(out)@ + decimal(n as nat));
    }
}

/// The count in at least three digits, then `tail`.
fn padded_with(count: u16, tail: &Vec<u8>) -> (r: Vec<u8>)
    ensures
        r@ == padded3(count as nat) + tail@,
{
    let mut r: Vec<u8> = Vec::new();
    proof {
        lemma_decimal_len(count as nat);
    }
    if count < 10 {
        r.push(48u8);
        r.push(48u8);
    } else if count < 100 {
        r.push(48u8);
    }
    push_decimal(&mut r, count);
    assert(r@ =~= padded3(count as nat));
    let ghost digits = r@;
    let mut i: usize = 0;
    while i < tail.len()
        invariant
            i <= tail@.len(),
            r@ == digits + tail@.subrange(0, i as int),
        decreases tail@.len() - i,
    {
        r.push(tail[i]);
        i = i + 1;
        assert(r@ =~= digits + tail@.subrange(0, i as int));
    }
    assert(tail@.subrange(0, tail@.len() as int) =~= tail@);
    r
}

/// The extension of the text of the `count`-th piece of a file.
pub fn piece_extension(count: u16) -> (r: Vec<u8>)
    ensures
        r@ == piece_ext(count as nat),
{
    let tail = vec![DOT, 0x67u8, 0x74u8, 0x74u8, 0x73u8, 0x5fu8, 0x74u8, 0x78u8, 0x74u8];
    let r = padded_with(count, &tail);
    assert(r@ =~= piece_ext(count as nat));
    r
}

/// The extension of the audio of the `count`-th piece of a file.
pub fn piece_audio_extension(count: u16) -> (r: Vec<u8>)
    ensures
        r@ == piece_audio_ext(count as nat),
{
    let tail = vec![DOT, 0x6du8, 0x70u8, 0x33u8];
    let r = padded_with(count, &tail);
    assert(r@ =~= piece_audio_ext(count as nat));
    r
}

/// The audio file that the `count`-th piece of a text becomes: its own, so
/// that the audio of each piece is kept.
pub fn piece_audio_name(file_txt: &[u8], count: u16) -> (r: Vec<u8>)
    ensures
        r@ == with_extension_spec(file_txt@, piece_audio_ext(count as nat)),
{
    let ext = piece_audio_extension(count);
    with_extension(file_txt, ext.as_slice())
}

/// The audio file that a text becomes: the text's path with extension `mp3`.
pub fn mp3_name(file_txt: &[u8]) -> (r: Vec<u8>)
    ensures
        r@ == with_extension_spec(file_txt@, mp3_ext()),
{
    let ext = mp3_ext_bytes();
    with_extension(file_txt, ext.as_slice())
}

/// The text of the `count`-th piece of a file.
pub fn piece_name(file_txt: &[u8], count: u16) -> (r: Vec<u8>)
    ensures
        r@ == with_extension_spec(file_txt@, piece_ext(count as nat)),
{
    let ext = piece_extension(count);
    with_extension(file_txt, ext.as_slice())
}

/// Where the audio of a conversion is written before it gets its final name.
pub fn pending_name(in_file: &[u8]) -> (r: Vec<u8>)
    ensures
        r@ == with_extension_spec(in_file@, pending_ext()),
{
    let ext = vec![0x67u8, 0x74u8, 0x74u8, 0x73u8, 0x5fu8, 0x6du8, 0x70u8, 0x33u8];
    assert(ext@ =~= pending_ext());
    with_extension(in_file, ext.as_slice())
}

/// The arguments of a request to `gtts-cli` that reads the text `in_file`
/// and writes the audio `out_file`: `--lang en --file <in> --output <out>`.
pub open spec fn gtts_request(in_file: Seq<u8>, out_file: Seq<u8>) -> Seq<Seq<u8>> {
    seq![
        seq![0x2du8, 0x2du8, 0x6cu8, 0x61u8, 0x6eu8, 0x67u8],
        seq![0x65u8, 0x6eu8],
        seq![0x2du8, 0x2du8, 0x66u8, 0x69u8, 0x6cu8, 0x65u8],
        in_file,
        seq![0x2du8, 0x2du8, 0x6fu8, 0x75u8, 0x74u8, 0x70u8, 0x75u8, 0x74u8],
        out_file,
    ]
}

/// The arguments of a request to `gtts-cli` for the text `in_file` and the
/// audio `out_file`.
pub fn gtts_arguments(in_file: &[u8], out_file: &[u8]) -> (r: Vec<Vec<u8>>)
    ensures
        r@.map_values(|a: Vec<u8>| a@) == gtts_request(in_file@, out_file@),
{
    let mut r: Vec<Vec<u8>> = Vec::new();
    r.push(vec![0x2du8, 0x2du8, 0x6cu8, 0x61u8, 0x6eu8, 0x67u8]);
    r.push(vec![0x65u8, 0x6eu8]);
    r.push(vec![0x2du8, 0x2du8, 0x66u8, 0x69u8, 0x6cu8, 0x65u8]);
    r.push(vstd::slice::slice_to_vec(in_file));
    r.push(vec![0x2du8, 0x2du8, 0x6fu8, 0x75u8, 0x74u8, 0x70u8, 0x75u8, 0x74u8]);
    r.push(vstd::slice::slice_to_vec(out_file));
    assert(r@.map_values(|a: Vec<u8>| a@) =~= gtts_request(in_file@, out_file@));
    r
}

} // verus!
