use gtts_batch::args::Args;
use gtts_batch::files::{EntryKind, Files};
use gtts_batch::plan::{file_step, piece_audio, plan_file, wait_before_request, FileStep, Piece, Stop};

fn args(split: Option<&[u8]>, max: usize, max_var: usize, strs: &[&[u8]]) -> Args {
    Args {
        path: b".".to_vec(),
        from: None,
        to: None,
        overwrite: false,
        recurse: false,
        shutdown: false,
        normalize: false,
        abbreviations: false,
        wait: 300000,
        waitms: None,
        split: split.map(|s| s.to_vec()),
        max,
        max_var,
        split_strs: strs.iter().map(|s| s.to_vec()).collect(),
        test: false,
    }
}

fn part(start: usize, end: usize, count: u16) -> Piece {
    Piece::Part { start, end, count }
}

#[test]
fn small_file_is_converted_whole() {
    let p = plan_file(b"hello", &args(None, 40000, 4000, &[b"."]));
    assert_eq!(p.pieces, vec![Piece::Whole]);
    assert_eq!(p.stop, Stop::Done);
    let q = plan_file(b"ab", &args(None, 2, 0, &[]));
    assert_eq!(q.pieces, vec![Piece::Whole]);
}

#[test]
fn empty_file_has_no_pieces() {
    let p = plan_file(b"", &args(None, 40000, 4000, &[b"."]));
    assert!(p.pieces.is_empty());
    assert_eq!(p.stop, Stop::Done);
    let q = plan_file(b"", &args(Some(b""), 40000, 4000, &[b"."]));
    assert_eq!(q.stop, Stop::Done);
}

#[test]
fn long_file_is_cut_to_length() {
    let p = plan_file(b"aaaa.bbbb.cccc", &args(None, 6, 3, &[b"."]));
    assert_eq!(p.pieces, vec![part(0, 5, 1), part(5, 10, 2), part(10, 14, 3)]);
    assert_eq!(p.stop, Stop::Done);
}

#[test]
fn file_is_split_at_the_string() {
    let p = plan_file(b"ab##cd##ef", &args(Some(b"##"), 40000, 4000, &[b"."]));
    assert_eq!(p.pieces, vec![part(0, 2, 1), part(2, 6, 2), part(6, 10, 3)]);
    assert_eq!(p.stop, Stop::Done);
}

#[test]
fn whole_file_when_no_split_happens() {
    let p = plan_file(b"abcdef", &args(None, 6, 2, &[b"."]));
    assert_eq!(p.pieces, vec![Piece::Whole]);
    // a split string that does not occur leaves the file whole
    let q = plan_file(b"abc", &args(Some(b"##"), 40000, 4000, &[b"."]));
    assert_eq!(q.pieces, vec![Piece::Whole]);
    // one that starts the file does too
    let r = plan_file(b"##abc", &args(Some(b"##"), 40000, 4000, &[b"."]));
    assert_eq!(r.pieces, vec![Piece::Whole]);
}

#[test]
fn empty_split_string_stops() {
    let p = plan_file(b"abc", &args(Some(b""), 40000, 4000, &[b"."]));
    assert!(p.pieces.is_empty());
    assert_eq!(p.stop, Stop::EmptySplitString);
}

#[test]
fn unsplittable_chunk_stops() {
    let p = plan_file(b"abcdef", &args(None, 2, 3, &[b"."]));
    assert!(p.pieces.is_empty());
    assert_eq!(p.stop, Stop::Unsplittable);
    let q = plan_file(b"abc", &args(None, 1, 1, &[b""]));
    assert_eq!(q.pieces, vec![part(0, 1, 1), part(1, 2, 2), part(2, 3, 3)]);
    assert_eq!(q.stop, Stop::Done);
}

#[test]
fn last_cut_on_the_last_byte_keeps_it() {
    let p = plan_file(b"abc", &args(None, 1, 1, &[b"x"]));
    assert_eq!(p.pieces, vec![part(0, 1, 1), part(1, 2, 2), part(2, 3, 3)]);
    assert_eq!(p.stop, Stop::Done);
}

#[test]
fn too_many_pieces_stop() {
    let data = vec![b'a'; 70000];
    let p = plan_file(&data, &args(None, 1, 0, &[]));
    assert_eq!(p.pieces.len(), 65535);
    assert_eq!(p.pieces[0], part(0, 1, 1));
    assert_eq!(p.pieces[1], part(1, 2, 2));
    assert_eq!(p.pieces[65534], part(65534, 65535, 65535));
    assert_eq!(p.stop, Stop::CountOverflow);
}

#[test]
fn pieces_lie_within_the_file() {
    let data = b"one. two. three. four. five. six. seven. eight.";
    let p = plan_file(data, &args(Some(b"f"), 9, 4, &[b". ", b" "]));
    assert!(!p.pieces.is_empty());
    assert_eq!(p.stop, Stop::Done);
    let mut joined = Vec::new();
    for piece in &p.pieces {
        match piece {
            Piece::Part { start, end, .. } => {
                assert!(start < end && *end <= data.len());
                joined.extend_from_slice(&data[*start..*end]);
            }
            Piece::Whole => joined.extend_from_slice(data),
        }
    }
    assert_eq!(joined, data.to_vec());
}

#[test]
fn existing_audio_is_skipped() {
    let mut f = Files::new(false, false);
    f.push(b"./a.mp3".to_vec(), EntryKind::File);
    f.push(b"./b.001.mp3".to_vec(), EntryKind::File);
    f.push(b"./c.002.mp3".to_vec(), EntryKind::File);
    f.sort();
    assert_eq!(file_step(&f, b"./a.txt"), FileStep::Skip);
    // the audio of the first piece shows a split text was converted
    assert_eq!(file_step(&f, b"./b.txt"), FileStep::Skip);
    assert_eq!(file_step(&f, b"./c.txt"), FileStep::Convert);
    assert_eq!(file_step(&f, b"./d.txt"), FileStep::Convert);
}

#[test]
fn overwriting_never_skips() {
    let mut f = Files::new(true, false);
    f.push(b"./a.mp3".to_vec(), EntryKind::File);
    f.push(b"./b.001.mp3".to_vec(), EntryKind::File);
    f.sort();
    assert_eq!(file_step(&f, b"./a.txt"), FileStep::Convert);
    assert_eq!(file_step(&f, b"./b.txt"), FileStep::Convert);
}

#[test]
fn converted_text_is_skipped_next_time() {
    for data in [&b"hello"[..], b"aaaa.bbbb.cccc"] {
        let plan = plan_file(data, &args(None, 6, 3, &[b"."]));
        let first = piece_audio(b"./t.txt", plan.pieces[0]);
        let mut f = Files::new(false, false);
        f.push(first, EntryKind::File);
        f.sort();
        assert_eq!(file_step(&f, b"./t.txt"), FileStep::Skip);
    }
}

#[test]
fn each_piece_goes_to_its_own_audio() {
    assert_eq!(piece_audio(b"d/t.txt", Piece::Whole), b"d/t.mp3".to_vec());
    assert_eq!(piece_audio(b"d/t.txt", part(0, 3, 1)), b"d/t.001.mp3".to_vec());
    assert_eq!(piece_audio(b"d/t.txt", part(3, 6, 2)), b"d/t.002.mp3".to_vec());
}

#[test]
fn waits_come_between_requests() {
    assert!(!wait_before_request(false, false));
    assert!(wait_before_request(false, true));
    assert!(!wait_before_request(true, true));
    assert!(!wait_before_request(true, false));
}
