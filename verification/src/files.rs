//! The lists of files that one directory (or one named file) yields: the
//! texts to convert, the converted audio already there, and the directories
//! to go into next.
use crate::path::{extension, path_le, path_le_bytes, path_key, path_key_of, key_eq_exec,
    key_le_exec, same_components, lemma_path_le_trans, lemma_path_le_total,
    lemma_path_le_antisym, extension_is};
use crate::args::Args;
use vstd::prelude::*;

verus! {

broadcast use vstd::seq_lib::group_to_multiset_ensures;

/// What a path names on disk, as far as the lists care.
#[derive(Clone, Copy, PartialEq, Eq, Debug)]
pub enum EntryKind {
    Dir,
    File,
    Other,
}

/// One entry of a directory listing.
pub struct Entry {
    pub path: Vec<u8>,
    pub kind: EntryKind,
}

/// The byte strings that the paths of `v` hold.
pub open spec fn paths_of(v: Seq<Vec<u8>>) -> Seq<Seq<u8>> {
    v.map_values(|p: Vec<u8>| p@)
}

/// The listing `v` as pairs of path bytes and kind.
pub open spec fn entries_of(v: Seq<Entry>) -> Seq<(Seq<u8>, EntryKind)> {
    v.map_values(|e: Entry| (e.path@, e.kind))
}

/// `s` is in the order of paths.
pub open spec fn paths_sorted(s: Seq<Seq<u8>>) -> bool {
    forall|i: int, j: int| 0 <= i < j < s.len() ==> path_le(s[i], s[j])
}

/// The extension of text files: `txt`.
pub open spec fn txt_ext() -> Seq<u8> {
    seq![0x74u8, 0x78u8, 0x74u8]
}

/// The extension of converted audio: `mp3`.
pub open spec fn mp3_ext() -> Seq<u8> {
    seq![0x6du8, 0x70u8, 0x33u8]
}

/// The extension `txt`, as bytes.
pub fn txt_ext_bytes() -> (r: Vec<u8>)
    ensures
        r@ == txt_ext(),
{
    let r = vec![0x74u8, 0x78u8, 0x74u8];
    assert(r@ =~= txt_ext());
    r
}

/// The extension `mp3`, as bytes.
pub fn mp3_ext_bytes() -> (r: Vec<u8>)
    ensures
        r@ == mp3_ext(),
{
    let r = vec![0x6du8, 0x70u8, 0x33u8];
    assert(r@ =~= mp3_ext());
    r
}

/// The lists as values: texts, audio files, directories, and whether audio
/// files and directories are collected at all.
pub struct FilesView {
    pub txt: Seq<Seq<u8>>,
    pub mp3: Seq<Seq<u8>>,
    pub dirs: Seq<Seq<u8>>,
    pub keep_mp3: bool,
    pub keep_dirs: bool,
}

/// Empty lists; audio files are collected unless existing ones are
/// overwritten, directories only when recursing.
pub open spec fn new_view(overwrite: bool, recurse: bool) -> FilesView {
    FilesView {
        txt: Seq::empty(),
        mp3: Seq::empty(),
        dirs: Seq::empty(),
        keep_mp3: !overwrite,
        keep_dirs: recurse,
    }
}

/// The lists after a file is added: a `txt` file goes to the texts, an `mp3`
/// file to the audio files when those are collected, anything else nowhere.
pub open spec fn push_file_view(v: FilesView, file: Seq<u8>) -> FilesView {
    FilesView {
        txt: if extension(file) == Some(txt_ext()) {
            v.txt.push(file)
        } else {
            v.txt
        },
        mp3: if extension(file) == Some(mp3_ext()) && v.keep_mp3 {
            v.mp3.push(file)
        } else {
            v.mp3
        },
        ..v
    }
}

/// The lists after a directory is added: kept only when recursing.
pub open spec fn push_dir_view(v: FilesView, dir: Seq<u8>) -> FilesView {
    if v.keep_dirs {
        FilesView { dirs: v.dirs.push(dir), ..v }
    } else {
        v
    }
}

/// The lists after an entry of the given kind is added.
pub open spec fn push_view(v: FilesView, path: Seq<u8>, kind: EntryKind) -> FilesView {
    match kind {
        EntryKind::Dir => push_dir_view(v, path),
        EntryKind::File => push_file_view(v, path),
        EntryKind::Other => v,
    }
}

/// The lists after every entry of a listing is added, in order.
pub open spec fn push_all_view(v: FilesView, entries: Seq<(Seq<u8>, EntryKind)>) -> FilesView
    decreases entries.len(),
{
    if entries.len() == 0 {
        v
    } else {
        push_view(
            push_all_view(v, entries.drop_last()),
            entries.last().0,
            entries.last().1,
        )
    }
}

/// `w` holds the lists of `v`, each in the order of paths.
pub open spec fn sorted_version(v: FilesView, w: FilesView) -> bool {
    &&& w.keep_mp3 == v.keep_mp3
    &&& w.keep_dirs == v.keep_dirs
    &&& w.txt.to_multiset() == v.txt.to_multiset()
    &&& w.mp3.to_multiset() == v.mp3.to_multiset()
    &&& w.dirs.to_multiset() == v.dirs.to_multiset()
    &&& paths_sorted(w.txt)
    &&& paths_sorted(w.mp3)
    &&& paths_sorted(w.dirs)
}

/// The lists of files found at one place.
pub struct Files {
    files_txt: Vec<Vec<u8>>,
    files_mp3: Vec<Vec<u8>>,
    dirs: Vec<Vec<u8>>,
    keep_mp3: bool,
    keep_dirs: bool,
}

impl View for Files {
    type V = FilesView;

    closed spec fn view(&self) -> FilesView {
        FilesView {
            txt: paths_of(self.files_txt@),
            mp3: paths_of(self.files_mp3@),
            dirs: paths_of(self.dirs@),
            keep_mp3: self.keep_mp3,
            keep_dirs: self.keep_dirs,
        }
    }
}

/// Calls `Vec::shrink_to_fit`, which std documents as lowering the capacity
/// of the vector as much as possible; trusted to leave what the vector holds
/// as it was. Nothing is claimed of the capacity.
#[verifier::external_body]
fn shrink_vec(v: &mut Vec<Vec<u8>>)
    ensures
        final(v)@ == old(v)@,
{
    v.shrink_to_fit();
}

proof fn lemma_insert_sorted(s: Seq<Seq<u8>>, k: int, x: Seq<u8>)
    requires
        paths_sorted(s),
        0 <= k <= s.len(),
        forall|j: int| 0 <= j < k ==> path_le(s[j], x),
        k < s.len() ==> path_le(x, s[k]),
    ensures
        paths_sorted(s.insert(k, x)),
{
    let t = s.insert(k, x);
    assert forall|i: int, j: int| 0 <= i < j < t.len() implies path_le(t[i], t[j]) by {
        if j < k {
        } else if j == k {
        } else if i < k {
            assert(t[j] == s[j - 1]);
            assert(path_le(s[i], s[k]));
            assert(path_le(s[k], s[j - 1]) || k == j - 1);
            if k == j - 1 {
            } else {
                lemma_path_le_trans(s[i], s[k], s[j - 1]);
            }
        } else if i == k {
            if k < j - 1 {
                lemma_path_le_trans(x, s[k], s[j - 1]);
            }
        } else {
            assert(t[i] == s[i - 1] && t[j] == s[j - 1]);
        }
    }
}

/// Sorts a list of paths into the order of paths.
fn sort_paths(v: &mut Vec<Vec<u8>>)
    ensures
        paths_of(final(v)@).to_multiset() == paths_of(old(v)@).to_multiset(),
        paths_sorted(paths_of(final(v)@)),
{
    broadcast use vstd::multiset::group_multiset_axioms;

    let mut rest: Vec<Vec<u8>> = Vec::new();
    std::mem::swap(v, &mut rest);
    let ghost orig = paths_of(rest@);
    assert(paths_of(v@) =~= Seq::<Seq<u8>>::empty());
    assert(paths_of(v@).to_multiset().add(paths_of(rest@).to_multiset()) =~= orig.to_multiset());
    while rest.len() > 0
        invariant
            paths_sorted(paths_of(v@)),
            paths_of(v@).to_multiset().add(paths_of(rest@).to_multiset()) == orig.to_multiset(),
        decreases rest@.len(),
    {
        let ghost before = rest@;
        let item = rest.pop().unwrap();
        assert(paths_of(before) =~= paths_of(rest@).push(item@));
        let mut k: usize = 0;
        while k < v.len() && path_le_bytes(v[k].as_slice(), item.as_slice())
            invariant
                k <= v@.len(),
                paths_sorted(paths_of(v@)),
                forall|j: int| 0 <= j < k ==> path_le(paths_of(v@)[j], item@),
            decreases v@.len() - k,
        {
            k = k + 1;
        }
        proof {
            if k < v@.len() {
                lemma_path_le_total(paths_of(v@)[k as int], item@);
            }
            lemma_insert_sorted(paths_of(v@), k as int, item@);
        }
        let ghost old_v = v@;
        v.insert(k, item);
        assert(paths_of(v@) =~= paths_of(old_v).insert(k as int, item@));
        assert(paths_of(v@).to_multiset().add(paths_of(rest@).to_multiset()) =~= orig.to_multiset());
    }
    assert(paths_of(rest@) =~= Seq::<Seq<u8>>::empty());
    assert(paths_of(v@).to_multiset() =~= orig.to_multiset());
}

/// `s` holds a path with the components of `p`.
pub open spec fn holds_path(s: Seq<Seq<u8>>, p: Seq<u8>) -> bool {
    exists|i: int| 0 <= i < s.len() && #[trigger] same_components(s[i], p)
}

/// Whether the sorted list `v` holds a path with the components of
/// `target`, by halving.
fn search_sorted(v: &Vec<Vec<u8>>, target: &[u8]) -> (r: bool)
    ensures
        r ==> holds_path(paths_of(v@), target@),
        paths_sorted(paths_of(v@)) ==> (r == holds_path(paths_of(v@), target@)),
{
    let ghost s = paths_of(v@);
    let tkey = path_key_of(target);
    let mut lo: usize = 0;
    let mut hi: usize = v.len();
    while lo < hi
        invariant
            s == paths_of(v@),
            tkey@ == path_key(target@),
            lo <= hi <= v@.len(),
            paths_sorted(s) ==> forall|j: int| 0 <= j < lo ==> !#[trigger] same_components(s[j], target@),
            paths_sorted(s) ==> forall|j: int| hi <= j < s.len() ==> !#[trigger] same_components(s[j], target@),
        decreases hi - lo,
    {
        let mid = lo + (hi - lo) / 2;
        let mkey = path_key_of(v[mid].as_slice());
        assert(mkey@ == path_key(s[mid as int]));
        if key_eq_exec(mkey.as_slice(), tkey.as_slice()) {
            assert(same_components(s[mid as int], target@));
            return true;
        } else if key_le_exec(mkey.as_slice(), tkey.as_slice()) {
            proof {
                if paths_sorted(s) {
                    assert forall|j: int| 0 <= j <= mid implies !#[trigger] same_components(s[j], target@) by {
                        if same_components(s[j], target@) && j < mid {
                            assert(path_le(s[j], s[mid as int]));
                            assert(path_le(target@, s[mid as int]));
                            lemma_path_le_antisym(s[mid as int], target@);
                        }
                    }
                }
            }
            lo = mid + 1;
        } else {
            proof {
                lemma_path_le_total(s[mid as int], target@);
                if paths_sorted(s) {
                    assert forall|j: int| mid <= j < s.len() implies !#[trigger] same_components(s[j], target@) by {
                        if same_components(s[j], target@) && j > mid {
                            assert(path_le(s[mid as int], s[j]));
                            assert(path_le(s[mid as int], target@));
                        }
                    }
                }
            }
            hi = mid;
        }
    }
    false
}

impl Files {
    /// Empty lists for one place. Existing audio files are collected unless
    /// they are to be overwritten; directories only when recursing.
    pub fn new(overwrite: bool, recurse: bool) -> (r: Files)
        ensures
            r@ == new_view(overwrite, recurse),
    {
        let r = Files {
            files_txt: Vec::new(),
            files_mp3: Vec::new(),
            dirs: Vec::new(),
            keep_mp3: !overwrite,
            keep_dirs: recurse,
        };
        assert(r@.txt =~= Seq::<Seq<u8>>::empty());
        assert(r@.mp3 =~= Seq::<Seq<u8>>::empty());
        assert(r@.dirs =~= Seq::<Seq<u8>>::empty());
        r
    }

    /// Adds a file by its extension: texts always, audio files when collected.
    pub fn push_file(&mut self, file: Vec<u8>)
        ensures
            final(self)@ == push_file_view(old(self)@, file@),
    {
        let txt = txt_ext_bytes();
        let mp3 = mp3_ext_bytes();
        let ghost before = self@;
        if extension_is(file.as_slice(), txt.as_slice()) {
            assert(txt_ext() != mp3_ext()) by {
                assert(txt_ext()[0] != mp3_ext()[0]);
            }
            self.files_txt.push(file);
            assert(self@.txt =~= before.txt.push(file@));
        } else if self.keep_mp3 && extension_is(file.as_slice(), mp3.as_slice()) {
            self.files_mp3.push(file);
            assert(self@.mp3 =~= before.mp3.push(file@));
        }
        assert(self@ == push_file_view(before, file@));
    }

    /// Adds a directory, when recursing.
    pub fn push_dir(&mut self, file: Vec<u8>)
        ensures
            final(self)@ == push_dir_view(old(self)@, file@),
    {
        let ghost before = self@;
        if self.keep_dirs {
            self.dirs.push(file);
            assert(self@.dirs =~= before.dirs.push(file@));
        }
    }

    /// Adds an entry by what it names: a directory, a file, or neither.
    pub fn push(&mut self, file: Vec<u8>, kind: EntryKind)
        ensures
            final(self)@ == push_view(old(self)@, file@, kind),
    {
        match kind {
            EntryKind::Dir => self.push_dir(file),
            EntryKind::File => self.push_file(file),
            EntryKind::Other => {},
        }
    }

    /// Puts every list into the order of paths.
    pub fn sort(&mut self)
        ensures
            sorted_version(old(self)@, final(self)@),
    {
        sort_paths(&mut self.files_txt);
        sort_paths(&mut self.files_mp3);
        sort_paths(&mut self.dirs);
    }

    /// Gives back the capacity that the lists do not use.
    pub fn shrink(&mut self)
        ensures
            final(self)@ == old(self)@,
    {
        shrink_vec(&mut self.files_txt);
        shrink_vec(&mut self.files_mp3);
        shrink_vec(&mut self.dirs);
    }

    /// Whether an audio file of this path (by its components) was found. The
    /// list of audio files must be sorted for a path that is there to be
    /// found.
    pub fn contains(&self, file: &[u8]) -> (r: bool)
        ensures
            r ==> holds_path(self@.mp3, file@),
            paths_sorted(self@.mp3) ==> (r == holds_path(self@.mp3, file@)),
    {
        search_sorted(&self.files_mp3, file)
    }

    /// The text files found.
    pub fn txt_files(&self) -> (r: &Vec<Vec<u8>>)
        ensures
            paths_of(r@) == self@.txt,
    {
        &self.files_txt
    }

    /// The directories found.
    pub fn dir_list(&self) -> (r: &Vec<Vec<u8>>)
        ensures
            paths_of(r@) == self@.dirs,
    {
        &self.dirs
    }
}

/// Adds every entry of a directory listing, in the order listed.
pub fn read_dir(files: Files, entries: Vec<Entry>) -> (r: Files)
    ensures
        r@ == push_all_view(files@, entries_of(entries@)),
{
    let mut files = files;
    let ghost start = files@;
    let mut i: usize = 0;
    assert(entries_of(entries@).take(0) =~= Seq::<(Seq<u8>, EntryKind)>::empty());
    while i < entries.len()
        invariant
            i <= entries@.len(),
            files@ == push_all_view(start, entries_of(entries@).take(i as int)),
        decreases entries@.len() - i,
    {
        let path = entries[i].path.clone();
        assert(path@ =~= entries@[i as int].path@);
        files.push(path, entries[i].kind);
        let ghost taken = entries_of(entries@).take(i + 1);
        assert(taken.drop_last() =~= entries_of(entries@).take(i as int));
        i = i + 1;
    }
    assert(entries_of(entries@).take(i as int) =~= entries_of(entries@));
    files
}

/// The lists gathered at the place a run starts from: what a directory
/// holds, or the one file named, with nothing else.
pub open spec fn gathered_view(args: Args, kind: EntryKind, entries: Seq<Entry>) -> FilesView {
    let start = new_view(args.overwrite, args.recurse);
    match kind {
        EntryKind::Dir => push_all_view(start, entries_of(entries)),
        EntryKind::File => push_view(start, args.path@, EntryKind::File),
        EntryKind::Other => start,
    }
}

/// Gathers the files at `args.path`, of the given kind, whose listing is
/// `entries` when it is a directory, and sorts them.
pub fn order_files(args: Args, path_kind: EntryKind, entries: Vec<Entry>) -> (r: (Files, Args))
    ensures
        sorted_version(gathered_view(args, path_kind, entries@), r.0@),
        r.1 == args,
{
    let mut files = Files::new(args.overwrite, args.recurse);
    match path_kind {
        EntryKind::Dir => {
            files = read_dir(files, entries);
        },
        EntryKind::File => {
            let path = args.path.clone();
            assert(path@ =~= args.path@);
            files.push(path, EntryKind::File);
        },
        EntryKind::Other => {},
    }
    files.sort();
    files.shrink();
    (files, args)
}

proof fn lemma_push_all_flags(v: FilesView, entries: Seq<(Seq<u8>, EntryKind)>)
    ensures
        push_all_view(v, entries).keep_mp3 == v.keep_mp3,
        push_all_view(v, entries).keep_dirs == v.keep_dirs,
        !v.keep_mp3 ==> push_all_view(v, entries).mp3 == v.mp3,
        !v.keep_dirs ==> push_all_view(v, entries).dirs == v.dirs,
    decreases entries.len(),
{
    if entries.len() > 0 {
        lemma_push_all_flags(v, entries.drop_last());
    }
}

/// With overwriting, no audio file is collected, so no text is skipped for
/// having one.
pub proof fn law_overwrite_collects_no_audio(
    args: Args,
    kind: EntryKind,
    entries: Seq<Entry>,
    w: FilesView,
)
    requires
        args.overwrite,
        sorted_version(gathered_view(args, kind, entries), w),
    ensures
        w.mp3.len() == 0,
        forall|p: Seq<u8>| !holds_path(w.mp3, p),
{
    lemma_push_all_flags(new_view(args.overwrite, args.recurse), entries_of(entries));
    assert(gathered_view(args, kind, entries).mp3.len() == 0);
    assert(w.mp3.len() == w.mp3.to_multiset().len());
}

/// Every text listed has extension `txt`, every audio file `mp3`.
pub open spec fn lists_by_extension(v: FilesView) -> bool {
    &&& forall|i: int| 0 <= i < v.txt.len() ==> extension(#[trigger] v.txt[i]) == Some(txt_ext())
    &&& forall|i: int| 0 <= i < v.mp3.len() ==> extension(#[trigger] v.mp3[i]) == Some(mp3_ext())
}

proof fn lemma_push_all_by_extension(v: FilesView, entries: Seq<(Seq<u8>, EntryKind)>)
    requires
        lists_by_extension(v),
    ensures
        lists_by_extension(push_all_view(v, entries)),
    decreases entries.len(),
{
    if entries.len() > 0 {
        lemma_push_all_by_extension(v, entries.drop_last());
        let u = push_all_view(v, entries.drop_last());
        let w = push_all_view(v, entries);
        assert forall|i: int| 0 <= i < w.txt.len() implies extension(#[trigger] w.txt[i]) == Some(
            txt_ext(),
        ) by {
            if i < u.txt.len() {
                assert(w.txt[i] == u.txt[i]);
            }
        }
        assert forall|i: int| 0 <= i < w.mp3.len() implies extension(#[trigger] w.mp3[i]) == Some(
            mp3_ext(),
        ) by {
            if i < u.mp3.len() {
                assert(w.mp3[i] == u.mp3[i]);
            }
        }
    }
}

/// The texts gathered all have extension `txt` and the audio files all
/// `mp3`, sorted or not.
pub proof fn law_gathered_by_extension(
    args: Args,
    kind: EntryKind,
    entries: Seq<Entry>,
    w: FilesView,
)
    requires
        sorted_version(gathered_view(args, kind, entries), w),
    ensures
        lists_by_extension(w),
{
    let start = new_view(args.overwrite, args.recurse);
    let v = gathered_view(args, kind, entries);
    lemma_push_all_by_extension(start, entries_of(entries));
    lemma_push_all_by_extension(start, seq![(args.path@, EntryKind::File)]);
    assert(push_all_view(start, seq![(args.path@, EntryKind::File)]) == push_view(
        start,
        args.path@,
        EntryKind::File,
    )) by {
        let e = seq![(args.path@, EntryKind::File)];
        assert(e.drop_last() =~= Seq::<(Seq<u8>, EntryKind)>::empty());
        assert(push_all_view(start, e.drop_last()) == start);
        assert(e.last() == (args.path@, EntryKind::File));
    }
    assert(lists_by_extension(v));
    assert forall|i: int| 0 <= i < w.txt.len() implies extension(#[trigger] w.txt[i]) == Some(
        txt_ext(),
    ) by {
        assert(w.txt.contains(w.txt[i]));
        assert(v.txt.to_multiset().count(w.txt[i]) > 0);
        let j = choose|j: int| 0 <= j < v.txt.len() && v.txt[j] == w.txt[i];
    }
    assert forall|i: int| 0 <= i < w.mp3.len() implies extension(#[trigger] w.mp3[i]) == Some(
        mp3_ext(),
    ) by {
        assert(w.mp3.contains(w.mp3[i]));
        assert(v.mp3.to_multiset().count(w.mp3[i]) > 0);
        let j = choose|j: int| 0 <= j < v.mp3.len() && v.mp3[j] == w.mp3[i];
    }
}

/// Without recursing, no directory is collected to be gone into.
pub proof fn law_no_recurse_collects_no_dirs(
    args: Args,
    kind: EntryKind,
    entries: Seq<Entry>,
    w: FilesView,
)
    requires
        !args.recurse,
        sorted_version(gathered_view(args, kind, entries), w),
    ensures
        w.dirs.len() == 0,
{
    lemma_push_all_flags(new_view(args.overwrite, args.recurse), entries_of(entries));
    assert(gathered_view(args, kind, entries).dirs.len() == 0);
    assert(w.dirs.len() == w.dirs.to_multiset().len());
}

/// Audio files are listed only when they are collected.
pub open spec fn audio_only_if_kept(v: FilesView) -> bool {
    !v.keep_mp3 ==> v.mp3.len() == 0
}

/// Every operation on the lists keeps audio files out when they are not
/// collected, and keeps whether they are: so lists made for overwriting hold
/// no audio after any sequence of calls, and no text is skipped for one.
pub proof fn law_audio_only_if_kept(
    v: FilesView,
    w: FilesView,
    file: Seq<u8>,
    kind: EntryKind,
    overwrite: bool,
    recurse: bool,
)
    ensures
        audio_only_if_kept(new_view(overwrite, recurse)),
        new_view(overwrite, recurse).keep_mp3 == !overwrite,
        audio_only_if_kept(v) ==> audio_only_if_kept(push_view(v, file, kind)),
        audio_only_if_kept(v) ==> audio_only_if_kept(push_file_view(v, file)),
        audio_only_if_kept(v) ==> audio_only_if_kept(push_dir_view(v, file)),
        push_view(v, file, kind).keep_mp3 == v.keep_mp3,
        audio_only_if_kept(v) && sorted_version(v, w) ==> audio_only_if_kept(w),
        audio_only_if_kept(v) && !v.keep_mp3 ==> forall|p: Seq<u8>| !holds_path(v.mp3, p),
{
    if audio_only_if_kept(v) && sorted_version(v, w) {
        assert(w.mp3.len() == w.mp3.to_multiset().len());
        assert(v.mp3.len() == v.mp3.to_multiset().len());
    }
}

/// The paths of the directories in a listing, in listing order.
pub open spec fn dir_paths(entries: Seq<(Seq<u8>, EntryKind)>) -> Seq<Seq<u8>>
    decreases entries.len(),
{
    if entries.len() == 0 {
        Seq::empty()
    } else {
        let rest = dir_paths(entries.drop_last());
        if entries.last().1 == EntryKind::Dir {
            rest.push(entries.last().0)
        } else {
            rest
        }
    }
}

proof fn lemma_dir_paths_hold_dirs(entries: Seq<(Seq<u8>, EntryKind)>)
    ensures
        forall|i: int|
            0 <= i < entries.len() && (#[trigger] entries[i]).1 == EntryKind::Dir ==> dir_paths(
                entries,
            ).contains(entries[i].0),
        forall|p: Seq<u8>|
            #[trigger] dir_paths(entries).contains(p) ==> exists|i: int|
                0 <= i < entries.len() && entries[i] == (p, EntryKind::Dir),
    decreases entries.len(),
{
    if entries.len() > 0 {
        let init = entries.drop_last();
        lemma_dir_paths_hold_dirs(init);
        let rest = dir_paths(init);
        assert forall|i: int|
            0 <= i < entries.len() && (#[trigger] entries[i]).1 == EntryKind::Dir implies dir_paths(
                entries,
            ).contains(entries[i].0) by {
            if i < entries.len() - 1 {
                assert(init[i] == entries[i]);
                let k = choose|k: int| 0 <= k < rest.len() && rest[k] == entries[i].0;
                if entries.last().1 == EntryKind::Dir {
                    assert(dir_paths(entries)[k] == rest[k]);
                }
            } else {
                assert(dir_paths(entries)[rest.len() as int] == entries[i].0);
            }
        }
        assert forall|p: Seq<u8>| #[trigger] dir_paths(entries).contains(p) implies exists|i: int|
            0 <= i < entries.len() && entries[i] == (p, EntryKind::Dir) by {
            let k = choose|k: int| 0 <= k < dir_paths(entries).len() && dir_paths(entries)[k] == p;
            if k < rest.len() {
                assert(rest[k] == p);
                assert(rest.contains(p));
                let i = choose|i: int| 0 <= i < init.len() && init[i] == (p, EntryKind::Dir);
                assert(entries[i] == init[i]);
            } else {
                assert(entries[entries.len() - 1] == (p, EntryKind::Dir));
            }
        }
    }
}

proof fn lemma_push_all_dirs(v: FilesView, entries: Seq<(Seq<u8>, EntryKind)>)
    requires
        v.keep_dirs,
    ensures
        push_all_view(v, entries).dirs == v.dirs + dir_paths(entries),
    decreases entries.len(),
{
    if entries.len() == 0 {
        assert(v.dirs + dir_paths(entries) =~= v.dirs);
    } else {
        lemma_push_all_dirs(v, entries.drop_last());
        lemma_push_all_flags(v, entries.drop_last());
        let rest = dir_paths(entries.drop_last());
        if entries.last().1 == EntryKind::Dir {
            assert(v.dirs + rest.push(entries.last().0) =~= (v.dirs + rest).push(entries.last().0));
        }
    }
}

/// Adding a directory while recursing appends it to the directories and
/// leaves everything else as it was; without recursion nothing changes.
pub proof fn law_push_dir_appends(v: FilesView, dir: Seq<u8>)
    ensures
        v.keep_dirs ==> push_dir_view(v, dir).dirs == v.dirs.push(dir),
        !v.keep_dirs ==> push_dir_view(v, dir).dirs == v.dirs,
        push_dir_view(v, dir).txt == v.txt,
        push_dir_view(v, dir).mp3 == v.mp3,
        push_dir_view(v, dir).keep_mp3 == v.keep_mp3,
        push_dir_view(v, dir).keep_dirs == v.keep_dirs,
{
}

/// When recursing, every directory of the listing is gone into, once for
/// each time it is listed, and nothing else is: the directories gathered are
/// the listing's directory entries, in the order of paths.
pub proof fn law_recursion_takes_every_dir(args: Args, entries: Seq<Entry>, w: FilesView)
    requires
        args.recurse,
        sorted_version(gathered_view(args, EntryKind::Dir, entries), w),
    ensures
        w.dirs.to_multiset() == dir_paths(entries_of(entries)).to_multiset(),
        forall|i: int|
            0 <= i < entries.len() && (#[trigger] entries[i]).kind == EntryKind::Dir ==> w.dirs.contains(
                entries[i].path@,
            ),
        forall|p: Seq<u8>|
            #[trigger] w.dirs.contains(p) ==> exists|i: int|
                0 <= i < entries.len() && entries[i].kind == EntryKind::Dir && entries[i].path@ == p,
{
    let es = entries_of(entries);
    let start = new_view(args.overwrite, args.recurse);
    lemma_push_all_dirs(start, es);
    assert(start.dirs + dir_paths(es) =~= dir_paths(es));
    lemma_dir_paths_hold_dirs(es);
    assert forall|i: int|
        0 <= i < entries.len() && (#[trigger] entries[i]).kind == EntryKind::Dir implies w.dirs.contains(
            entries[i].path@,
        ) by {
        assert(es[i] == (entries[i].path@, entries[i].kind));
        assert(dir_paths(es).contains(es[i].0));
        assert(dir_paths(es).to_multiset().count(es[i].0) > 0);
    }
    assert forall|p: Seq<u8>| #[trigger] w.dirs.contains(p) implies exists|i: int|
        0 <= i < entries.len() && entries[i].kind == EntryKind::Dir && entries[i].path@ == p by {
        assert(w.dirs.to_multiset().count(p) > 0);
        assert(dir_paths(es).contains(p));
        let i = choose|i: int| 0 <= i < es.len() && es[i] == (p, EntryKind::Dir);
        assert(es[i] == (entries[i].path@, entries[i].kind));
    }
}

} // verus!
