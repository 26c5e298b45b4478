use gtts_batch::names::{
    gtts_arguments,
    mp3_name, pending_name, piece_audio_extension, piece_audio_name, piece_extension, piece_name,
};

#[test]
fn piece_extensions_are_padded_to_three_digits() {
    assert_eq!(piece_extension(1), b"001.gtts_txt".to_vec());
    assert_eq!(piece_extension(0), b"000.gtts_txt".to_vec());
    assert_eq!(piece_extension(12), b"012.gtts_txt".to_vec());
    assert_eq!(piece_extension(100), b"100.gtts_txt".to_vec());
    assert_eq!(piece_extension(999), b"999.gtts_txt".to_vec());
    assert_eq!(piece_extension(1234), b"1234.gtts_txt".to_vec());
    assert_eq!(piece_extension(65535), b"65535.gtts_txt".to_vec());
}

#[test]
fn piece_extensions_match_the_format() {
    for n in [0u16, 5, 9, 10, 99, 101, 1000, 40000] {
        assert_eq!(piece_extension(n), format!("{:03}.gtts_txt", n).into_bytes());
    }
}

#[test]
fn names_of_outputs() {
    assert_eq!(mp3_name(b"book/ch1.txt"), b"book/ch1.mp3".to_vec());
    assert_eq!(piece_name(b"book/ch1.txt", 3), b"book/ch1.003.gtts_txt".to_vec());
    assert_eq!(pending_name(b"book/ch1.txt"), b"book/ch1.gtts_mp3".to_vec());
    assert_eq!(pending_name(b"book/ch1.003.gtts_txt"), b"book/ch1.003.gtts_mp3".to_vec());
}

#[test]
fn each_piece_has_its_own_audio() {
    assert_eq!(piece_audio_extension(7), b"007.mp3".to_vec());
    assert_eq!(piece_audio_name(b"book/ch1.txt", 1), b"book/ch1.001.mp3".to_vec());
    assert_eq!(piece_audio_name(b"book/ch1.txt", 12), b"book/ch1.012.mp3".to_vec());
    assert_ne!(piece_audio_name(b"a.txt", 1), piece_audio_name(b"a.txt", 2));
}

#[test]
fn request_arguments() {
    assert_eq!(
        gtts_arguments(b"a.001.gtts_txt", b"a.001.gtts_mp3"),
        vec![
            b"--lang".to_vec(),
            b"en".to_vec(),
            b"--file".to_vec(),
            b"a.001.gtts_txt".to_vec(),
            b"--output".to_vec(),
            b"a.001.gtts_mp3".to_vec()
        ]
    );
}
