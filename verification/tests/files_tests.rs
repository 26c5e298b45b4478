use gtts_batch::args::Args;
use gtts_batch::files::{order_files, read_dir, Entry, EntryKind, Files};

fn args(overwrite: bool, recurse: bool, path: &[u8]) -> Args {
    Args {
        path: path.to_vec(),
        from: None,
        to: None,
        overwrite,
        recurse,
        shutdown: false,
        normalize: false,
        abbreviations: false,
        wait: 5,
        waitms: None,
        split: None,
        max: 40000,
        max_var: 4000,
        split_strs: vec![],
        test: false,
    }
}

fn entry(p: &[u8], kind: EntryKind) -> Entry {
    Entry { path: p.to_vec(), kind }
}

fn listing() -> Vec<Entry> {
    vec![
        entry(b"./c.txt", EntryKind::File),
        entry(b"./a.mp3", EntryKind::File),
        entry(b"./sub", EntryKind::Dir),
        entry(b"./a.txt", EntryKind::File),
        entry(b"./b.txt", EntryKind::File),
        entry(b"./notes.md", EntryKind::File),
        entry(b"./aa", EntryKind::Dir),
        entry(b"./link", EntryKind::Other),
        entry(b"./x.txt", EntryKind::Other),
    ]
}

#[test]
fn push_sorts_by_kind_and_extension() {
    let mut f = Files::new(false, true);
    f.push(b"./z.txt".to_vec(), EntryKind::File);
    f.push(b"./z.mp3".to_vec(), EntryKind::File);
    f.push(b"./d".to_vec(), EntryKind::Dir);
    f.push(b"./odd".to_vec(), EntryKind::Other);
    f.push(b"./w.wav".to_vec(), EntryKind::File);
    assert_eq!(f.txt_files(), &vec![b"./z.txt".to_vec()]);
    assert_eq!(f.dir_list(), &vec![b"./d".to_vec()]);
    assert!(f.contains(b"./z.mp3"));
    assert!(!f.contains(b"./z.txt"));
}

#[test]
fn directories_only_when_recursing() {
    let mut f = Files::new(false, false);
    f.push_dir(b"./d".to_vec());
    assert!(f.dir_list().is_empty());
}

#[test]
fn overwriting_collects_no_audio() {
    let mut f = Files::new(true, false);
    f.push_file(b"./a.mp3".to_vec());
    f.push_file(b"./a.txt".to_vec());
    assert!(!f.contains(b"./a.mp3"));
    assert_eq!(f.txt_files(), &vec![b"./a.txt".to_vec()]);
}

#[test]
fn read_dir_keeps_listing_order() {
    let f = read_dir(Files::new(false, true), listing());
    assert_eq!(
        f.txt_files(),
        &vec![b"./c.txt".to_vec(), b"./a.txt".to_vec(), b"./b.txt".to_vec()]
    );
    assert_eq!(f.dir_list(), &vec![b"./sub".to_vec(), b"./aa".to_vec()]);
}

#[test]
fn order_files_sorts_a_directory() {
    let (f, a) = order_files(args(false, true, b"."), EntryKind::Dir, listing());
    assert_eq!(
        f.txt_files(),
        &vec![b"./a.txt".to_vec(), b"./b.txt".to_vec(), b"./c.txt".to_vec()]
    );
    assert_eq!(f.dir_list(), &vec![b"./aa".to_vec(), b"./sub".to_vec()]);
    assert!(f.contains(b"./a.mp3"));
    assert!(!f.contains(b"./b.mp3"));
    assert_eq!(a.path, b".".to_vec());
}

#[test]
fn order_files_takes_one_named_file() {
    let (f, _) = order_files(args(false, true, b"book.txt"), EntryKind::File, listing());
    assert_eq!(f.txt_files(), &vec![b"book.txt".to_vec()]);
    assert!(f.dir_list().is_empty());
    let (g, _) = order_files(args(false, true, b"book.md"), EntryKind::File, vec![]);
    assert!(g.txt_files().is_empty());
    let (h, _) = order_files(args(false, true, b"gone"), EntryKind::Other, listing());
    assert!(h.txt_files().is_empty());
}

#[test]
fn order_files_with_overwrite_and_no_recursion() {
    let (f, _) = order_files(args(true, false, b"."), EntryKind::Dir, listing());
    assert!(!f.contains(b"./a.mp3"));
    assert!(f.dir_list().is_empty());
    assert_eq!(f.txt_files().len(), 3);
}

#[test]
fn sort_orders_by_components_and_keeps_duplicates() {
    let mut f = Files::new(false, true);
    for p in [&b"d/b.txt"[..], b"d.x/a.txt", b"d/a.txt", b"d/b.txt"] {
        f.push_file(p.to_vec());
    }
    f.sort();
    f.shrink();
    assert_eq!(
        f.txt_files(),
        &vec![
            b"d/a.txt".to_vec(),
            b"d/b.txt".to_vec(),
            b"d/b.txt".to_vec(),
            b"d.x/a.txt".to_vec()
        ]
    );
}

#[test]
fn contains_finds_every_sorted_entry() {
    let mut f = Files::new(false, false);
    let names: Vec<Vec<u8>> = (0..50).map(|i| format!("dir/{:02}.mp3", (i * 37) % 50).into_bytes()).collect();
    for n in &names {
        f.push_file(n.clone());
    }
    f.sort();
    for n in &names {
        assert!(f.contains(n));
    }
    assert!(!f.contains(b"dir/50.mp3"));
    assert!(!f.contains(b"dir/0.mp3"));
    assert!(!f.contains(b""));
}

#[test]
fn sorting_is_independent_of_listing_order() {
    let orders: [[&[u8]; 4]; 3] = [
        [b"b/x.txt", b"a.txt", b"b.txt", b"a.txt"],
        [b"a.txt", b"b.txt", b"a.txt", b"b/x.txt"],
        [b"b.txt", b"a.txt", b"b/x.txt", b"a.txt"],
    ];
    let mut results = Vec::new();
    for order in orders.iter() {
        let mut f = Files::new(false, false);
        for p in order.iter() {
            f.push_file(p.to_vec());
        }
        f.sort();
        results.push(f.txt_files().clone());
    }
    assert_eq!(results[0], results[1]);
    assert_eq!(results[1], results[2]);
    assert_eq!(
        results[0],
        vec![b"a.txt".to_vec(), b"a.txt".to_vec(), b"b/x.txt".to_vec(), b"b.txt".to_vec()]
    );
}

#[test]
fn gathered_files_have_their_extensions() {
    let (f, _) = order_files(args(false, true, b"."), EntryKind::Dir, listing());
    for p in f.txt_files() {
        assert!(p.ends_with(b".txt"));
    }
    assert!(f.contains(b"./a.mp3"));
}

#[test]
fn contains_compares_components() {
    let mut f = Files::new(false, false);
    f.push_file(b"a//b.mp3".to_vec());
    f.push_file(b"a/./c.mp3".to_vec());
    f.sort();
    assert!(f.contains(b"a/b.mp3"));
    assert!(f.contains(b"a/c.mp3"));
    assert!(!f.contains(b"a/d.mp3"));
}

#[test]
fn sort_skips_dot_components() {
    let mut f = Files::new(false, false);
    f.push_file(b"a/./c.txt".to_vec());
    f.push_file(b"a/b.txt".to_vec());
    f.sort();
    assert_eq!(f.txt_files(), &vec![b"a/b.txt".to_vec(), b"a/./c.txt".to_vec()]);
}
