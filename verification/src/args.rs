//! The settings of a run and what is worked out from them before it starts.
use vstd::prelude::*;
use vstd::string::StringSliceAdditionalSpecFns;
use vstd::string::StringExecFns;

verus! {

/// The settings of a run, as given on the command line.
pub struct Args {
    /// The file or folder to convert.
    pub path: Vec<u8>,
    /// First file to process, by name (not acted on yet).
    pub from: Option<String>,
    /// Last file to process, by name (not acted on yet).
    pub to: Option<String>,
    /// Overwrite existing audio files instead of skipping their texts.
    pub overwrite: bool,
    /// Go into subfolders.
    pub recurse: bool,
    /// Shut the system down after finishing (not acted on yet).
    pub shutdown: bool,
    /// Remove unusual characters (not acted on yet).
    pub normalize: bool,
    /// Fix troublesome abbreviations (not acted on yet).
    pub abbreviations: bool,
    /// The wait between requests: in minutes as given, in milliseconds once
    /// worked out by `calc_wait`.
    pub wait: u64,
    /// The wait between requests in milliseconds, if given.
    pub waitms: Option<u64>,
    /// Split every text at each occurrence of these bytes.
    pub split: Option<Vec<u8>>,
    /// The largest length in bytes of a text before it is split.
    pub max: usize,
    /// How far back from `max` to look for a place to split.
    pub max_var: usize,
    /// The strings to split after, in order of preference.
    pub split_strs: Vec<Vec<u8>>,
    /// Do everything except the conversions and the waits.
    pub test: bool,
}

/// Milliseconds in a minute.
pub const MS_PER_MINUTE: u64 = 60000;

/// The wait in milliseconds: the one given in milliseconds if there is one,
/// else the one given in minutes.
pub open spec fn wait_ms(wait: u64, waitms: Option<u64>) -> int {
    match waitms {
        Some(ms) => ms as int,
        None => wait * MS_PER_MINUTE,
    }
}

/// The wait can be held in milliseconds.
pub open spec fn wait_fits(wait: u64, waitms: Option<u64>) -> bool {
    wait_ms(wait, waitms) <= u64::MAX
}

/// Works out the wait between requests in milliseconds and stores it in `wait`.
pub fn calc_wait(args: Args) -> (r: Args)
    requires
        wait_fits(args.wait, args.waitms),
    ensures
        r.wait == wait_ms(args.wait, args.waitms),
        (r == Args { wait: r.wait, ..args }),
{
    let mut args = args;
    match args.waitms {
        Some(ms) => {
            args.wait = ms;
        },
        None => {
            args.wait = args.wait * MS_PER_MINUTE;
        },
    }
    args
}

/// The message given for a path that does not exist.
pub open spec fn missing_path_message(p: Seq<char>) -> Seq<char> {
    "Supplied path ("@ + p + ") does not exist"@
}

/// Accepts a path given on the command line if it exists; `exists` tells
/// whether it does.
pub fn parse_path(p: &str, exists: bool) -> (r: Result<Vec<u8>, String>)
    ensures
        exists ==> (r matches Ok(v) && v@ == p.spec_bytes()),
        !exists ==> (r matches Err(m) && m@ == missing_path_message(p@)),
{
    if exists {
        Ok(vstd::slice::slice_to_vec(p.as_bytes()))
    } else {
        let m = String::from_str("Supplied path (").concat(p).concat(") does not exist");
        proof {
            reveal_strlit("Supplied path (");
            reveal_strlit(") does not exist");
        }
        Err(m)
    }
}

} // verus!
