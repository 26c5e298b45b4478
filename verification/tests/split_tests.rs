use gtts_batch::split::{find_split, split_at_max, split_at_max_checked, split_at_str};

fn strs(list: &[&str]) -> Vec<Vec<u8>> {
    list.iter().map(|s| s.as_bytes().to_vec()).collect()
}

#[test]
fn short_text_is_one_piece() {
    assert_eq!(split_at_max(b"hello", &strs(&["."]), 40000, 4000), vec![4]);
    assert_eq!(split_at_max(b"hello", &strs(&["."]), 5, 1), vec![4]);
    // a max of 0 turns splitting off
    assert_eq!(split_at_max(b"hello world", &strs(&["."]), 0, 0), vec![10]);
}

#[test]
fn long_text_is_split_after_a_string() {
    // 0123456789...
    // aaaa.bbbb.cccc
    assert_eq!(split_at_max(b"aaaa.bbbb.cccc", &strs(&["."]), 6, 3), vec![5, 10, 13]);
}

#[test]
fn first_string_is_preferred() {
    // "\n\n" at 2..4 wins over the later "."
    let buf = b"ab\n\ncd.efghijkl";
    assert_eq!(find_split(buf, &strs(&["\n\n", "."]), 0, 8, 8), 4);
    assert_eq!(find_split(buf, &strs(&[".", "\n\n"]), 0, 8, 8), 7);
}

#[test]
fn last_occurrence_in_window_is_taken() {
    let buf = b"a.b.c.d.efghij";
    assert_eq!(find_split(buf, &strs(&["."]), 0, 8, 8), 8);
    assert_eq!(find_split(buf, &strs(&["."]), 0, 6, 6), 6);
    assert_eq!(find_split(buf, &strs(&["."]), 0, 5, 5), 4);
}

#[test]
fn no_string_in_window_splits_at_max() {
    let buf = b"abcdefghij.klm";
    assert_eq!(find_split(buf, &strs(&["."]), 0, 8, 3), 8);
    assert_eq!(find_split(buf, &strs(&[]), 2, 5, 5), 7);
    assert_eq!(split_at_max(buf, &strs(&["."]), 4, 1), vec![4, 8, 12, 13]);
}

#[test]
fn split_string_must_end_within_max() {
    // "\n\n" starting at 7 would end at 9, past 8: not taken
    let buf = b"abcdefg\n\nhijklmnop";
    assert_eq!(find_split(buf, &strs(&["\n\n"]), 0, 8, 2), 8);
    assert_eq!(find_split(buf, &strs(&["\n\n"]), 0, 9, 2), 9);
    assert_eq!(find_split(b"abc\n\n", &strs(&["\n\n"]), 0, 4, 2), 4);
    assert_eq!(split_at_max(b"abc\n\n", &strs(&["\n\n"]), 4, 2), vec![3, 4]);
}

#[test]
fn long_text_is_cut_at_the_average_size() {
    // 10 bytes need 2 pieces of at most 8: cut at 5
    assert_eq!(split_at_max(b"abcdefghij", &strs(&[]), 8, 2), vec![5, 9]);
    // 14 bytes need 3 pieces of at most 6: aim at 5 each
    assert_eq!(split_at_max(b"abcdefghijklmn", &strs(&[]), 6, 0), vec![5, 10, 13]);
}

#[test]
fn unsplittable_inputs_are_refused() {
    assert_eq!(split_at_max_checked(b"", &strs(&["."]), 10, 1), None);
    // a window longer than max would start before the text
    assert_eq!(split_at_max_checked(b"abcdef", &strs(&["."]), 2, 3), None);
    // an empty split string cuts at the end of the window
    assert_eq!(split_at_max_checked(b"abc", &strs(&[""]), 1, 1), Some(vec![1, 2, 2]));
    // the same input moves on when the first string matches nowhere
    assert_eq!(split_at_max_checked(b"abc", &strs(&["x"]), 1, 1), Some(vec![1, 2, 2]));
    assert_eq!(split_at_max_checked(b"aaa", &strs(&["a", ""]), 1, 1), Some(vec![1, 2, 2]));
    assert_eq!(split_at_max_checked(b"abc", &strs(&["a", ""]), 1, 1), Some(vec![1, 2, 2]));
}

#[test]
fn checked_agrees_with_plain() {
    let buf = b"one. two. three. four. five. six.";
    let s = strs(&[". ", " "]);
    assert_eq!(split_at_max_checked(buf, &s, 10, 5), Some(split_at_max(buf, &s, 10, 5)));
}

#[test]
fn chunks_end_before_the_split_string() {
    let data = b"ab##cd##ef";
    assert_eq!(split_at_str(b"##", data, 0), 2);
    assert_eq!(split_at_str(b"##", data, 2), 6);
    assert_eq!(split_at_str(b"##", data, 6), 10);
    assert_eq!(split_at_str(b"##", data, 10), 10);
}

#[test]
fn chunk_without_split_string_runs_to_the_end() {
    assert_eq!(split_at_str(b"CHAPTER", b"no chapters here", 0), 16);
    assert_eq!(split_at_str(b"x", b"", 0), 0);
}

#[test]
fn chunks_by_chapter() {
    let data = b"intro\nCHAPTER 1\ntext\nCHAPTER 2\nmore";
    let first = split_at_str(b"CHAPTER", data, 0);
    assert_eq!(first, 6);
    assert!(data[first..].starts_with(b"CHAPTER"));
    let second = split_at_str(b"CHAPTER", data, first);
    assert_eq!(second, 21);
    assert!(data[second..].starts_with(b"CHAPTER"));
    assert_eq!(split_at_str(b"CHAPTER", data, second), data.len());
}

#[test]
fn doubled_byte_split_string() {
    // "aa" ends with a byte that also starts it
    assert_eq!(split_at_str(b"aa", b"aaaa", 0), 1);
    assert_eq!(split_at_str(b"aa", b"aaaa", 1), 4);
}

#[test]
fn split_points_come_in_order_and_end_at_the_text_end() {
    let buf = b"The quick brown fox. It jumps over the lazy dog. Then it naps.\n\nThe end.";
    let s = strs(&["\n\n", ". ", " "]);
    let sp = split_at_max(buf, &s, 12, 6);
    assert!(!sp.is_empty());
    assert_eq!(*sp.last().unwrap(), buf.len() - 1);
    for w in sp.windows(2) {
        assert!(w[0] <= w[1]);
    }
    // every piece fits within max
    assert!(sp[0] <= 12);
    for w in sp.windows(2) {
        assert!(w[1] - w[0] <= 12);
    }
}

#[test]
fn split_points_step_by_step() {
    let buf = b"The quick brown fox. It jumps over the lazy dog. Then it naps.\n\nThe end.";
    let s = strs(&["\n\n", ". ", " "]);
    let sp = split_at_max(buf, &s, 12, 6);
    // 72 bytes need 6 pieces of at most 12: each aims at 12
    let mut index = 0;
    for (k, &p) in sp.iter().enumerate() {
        if index + 12 >= buf.len() {
            assert_eq!(k, sp.len() - 1);
            assert_eq!(p, buf.len() - 1);
        } else {
            assert_eq!(p, find_split(buf, &s, index, 12, 6));
        }
        index = p;
    }
}

#[test]
fn window_reaches_back_before_the_piece_start() {
    // index 2, max 2, variance 3: the window starts at 1
    assert_eq!(find_split(b"a.bcdef", &strs(&["."]), 2, 2, 3), 2);
    // the window may end one past the text
    assert_eq!(find_split(b"abc", &strs(&["x"]), 1, 3, 1), 4);
    assert_eq!(find_split(b"abc", &strs(&["c"]), 1, 3, 2), 3);
    assert_eq!(find_split(b"abc", &strs(&[""]), 1, 3, 2), 3);
}

#[test]
fn repeated_chunks_give_back_the_text() {
    let data = b"intro\nCHAPTER 1\ntext\nCHAPTER 2\nmore\nCHAPTER";
    let mut pos = 0;
    let mut joined = Vec::new();
    let mut count = 0;
    while pos < data.len() {
        let end = split_at_str(b"CHAPTER", data, pos);
        assert!(end > pos);
        joined.extend_from_slice(&data[pos..end]);
        pos = end;
        count += 1;
    }
    assert_eq!(joined, data.to_vec());
    assert_eq!(count, 3);
}
