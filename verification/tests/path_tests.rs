use gtts_batch::path::{extension_is, has_name, path_le_bytes, same_path, with_extension};

#[test]
fn extension_of_plain_names() {
    assert!(extension_is(b"a/b.txt", b"txt"));
    assert!(!extension_is(b"a/b.txt", b"mp3"));
    assert!(extension_is(b"notes.tar.gz", b"gz"));
    assert!(!extension_is(b"notes.tar.gz", b"tar.gz"));
    assert!(!extension_is(b"README", b""));
}

#[test]
fn extension_edge_cases() {
    // a leading dot starts a hidden name, not an extension
    assert!(!extension_is(b".bashrc", b"bashrc"));
    assert!(!extension_is(b"dir/.bashrc", b""));
    // a trailing dot gives an empty extension
    assert!(extension_is(b"name.", b""));
    // trailing separators and `.` components are not part of the name
    assert!(extension_is(b"a.txt/", b"txt"));
    assert!(extension_is(b"a.txt/.", b"txt"));
    assert!(extension_is(b"x/a.txt//./", b"txt"));
    // `..`, `.`, the root and the empty path have no file name
    assert!(!extension_is(b"..", b""));
    assert!(!extension_is(b"a/..", b""));
    assert!(!has_name(b".."));
    assert!(!has_name(b"."));
    assert!(!has_name(b"/"));
    assert!(!has_name(b""));
    assert!(has_name(b"..."));
    assert!(has_name(b"./a"));
}

#[test]
fn with_extension_replaces_or_adds() {
    assert_eq!(with_extension(b"dir/file.txt", b"mp3"), b"dir/file.mp3".to_vec());
    assert_eq!(with_extension(b"dir/file", b"mp3"), b"dir/file.mp3".to_vec());
    assert_eq!(with_extension(b"a.b.txt", b"mp3"), b"a.b.mp3".to_vec());
    assert_eq!(with_extension(b".bashrc", b"mp3"), b".bashrc.mp3".to_vec());
    assert_eq!(with_extension(b"name.", b"mp3"), b"name.mp3".to_vec());
    assert_eq!(with_extension(b"file.txt", b"001.gtts_txt"), b"file.001.gtts_txt".to_vec());
}

#[test]
fn with_extension_edge_cases() {
    // an empty extension removes the old one
    assert_eq!(with_extension(b"f.txt", b""), b"f".to_vec());
    // what follows the name goes
    assert_eq!(with_extension(b"x.txt/", b"mp3"), b"x.mp3".to_vec());
    assert_eq!(with_extension(b"d/x.txt/.", b"mp3"), b"d/x.mp3".to_vec());
    // without a file name nothing changes
    assert_eq!(with_extension(b"..", b"mp3"), b"..".to_vec());
    assert_eq!(with_extension(b"a/..", b"mp3"), b"a/..".to_vec());
    assert_eq!(with_extension(b"/", b"mp3"), b"/".to_vec());
    assert_eq!(with_extension(b"", b"mp3"), b"".to_vec());
}

#[test]
fn extension_after_set_is_the_new_one() {
    for p in [&b"a/b.txt"[..], b"c", b".hidden", b"x.y.z/", b"q."] {
        let q = with_extension(p, b"mp3");
        assert!(extension_is(&q, b"mp3"));
    }
}

#[test]
fn setting_twice_is_setting_once() {
    for p in [&b"a/b.txt"[..], b"c", b".hidden", b"x.y.z/", b"q.", b".."] {
        let twice = with_extension(&with_extension(p, b"mp3"), b"gtts_mp3");
        assert_eq!(twice, with_extension(p, b"gtts_mp3"));
    }
}

#[test]
fn order_of_paths() {
    assert!(path_le_bytes(b"a", b"b"));
    assert!(!path_le_bytes(b"b", b"a"));
    assert!(path_le_bytes(b"a", b"a"));
    assert!(path_le_bytes(b"a", b"ab"));
    assert!(!path_le_bytes(b"ab", b"a"));
    assert!(path_le_bytes(b"", b""));
    // the separator ranks below every other byte: components compare first
    assert!(path_le_bytes(b"a/b", b"a.b"));
    assert!(!path_le_bytes(b"a.b", b"a/b"));
    assert!(path_le_bytes(b"a/z", b"a-b"));
}

#[test]
fn same_path_compares_components() {
    assert!(same_path(b"x/y", b"x/y"));
    assert!(!same_path(b"x/y", b"x/z"));
    assert!(!same_path(b"x/y", b"x/yy"));
    assert!(same_path(b"a//b.mp3", b"a/b.mp3"));
    assert!(same_path(b"a/./b", b"a/b"));
    assert!(same_path(b"a/b/", b"a/b"));
    assert!(same_path(b"./a", b"././a"));
    assert!(!same_path(b"./a", b"a"));
    assert!(!same_path(b"/a", b"a"));
    assert!(!same_path(b"a/../b", b"b"));
}

#[test]
fn order_of_components() {
    // `.` components are skipped
    assert!(!path_le_bytes(b"a/./c.txt", b"a/b.txt"));
    assert!(path_le_bytes(b"a/b.txt", b"a/./c.txt"));
    // the root, then a leading `.`, then `..`, then names
    assert!(path_le_bytes(b"/x", b"./a"));
    assert!(path_le_bytes(b"./a", b"../a"));
    assert!(path_le_bytes(b"../a", b"a"));
    assert!(!path_le_bytes(b"a", b"./a"));
    // a name before a longer one that it begins
    assert!(path_le_bytes(b"a/b", b"ab"));
    assert!(path_le_bytes(b"a//b", b"a/b"));
    assert!(path_le_bytes(b"a/b", b"a//b"));
}
