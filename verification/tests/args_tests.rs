use gtts_batch::args::{calc_wait, parse_path, Args};

fn sample() -> Args {
    Args {
        path: b".".to_vec(),
        from: None,
        to: None,
        overwrite: false,
        recurse: false,
        shutdown: false,
        normalize: false,
        abbreviations: false,
        wait: 5,
        waitms: None,
        split: None,
        max: 40000,
        max_var: 4000,
        split_strs: vec![b"\n\n".to_vec(), b"\n".to_vec(), b".".to_vec()],
        test: false,
    }
}

#[test]
fn wait_in_minutes_becomes_milliseconds() {
    let args = calc_wait(sample());
    assert_eq!(args.wait, 300000);
    assert_eq!(args.max, 40000);
    assert_eq!(args.path, b".".to_vec());
}

#[test]
fn wait_in_milliseconds_wins() {
    let mut a = sample();
    a.waitms = Some(250);
    let args = calc_wait(a);
    assert_eq!(args.wait, 250);
    assert_eq!(args.waitms, Some(250));
}

#[test]
fn zero_wait() {
    let mut a = sample();
    a.wait = 0;
    assert_eq!(calc_wait(a).wait, 0);
}

#[test]
fn existing_path_is_taken() {
    assert_eq!(parse_path("books/one.txt", true), Ok(b"books/one.txt".to_vec()));
}

#[test]
fn missing_path_is_refused() {
    assert_eq!(
        parse_path("nowhere", false),
        Err(String::from("Supplied path (nowhere) does not exist"))
    );
}
