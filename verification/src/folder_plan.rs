//! How the entries of a folder are arranged once it has been read: when the
//! folder is shown as its one chapterized file, how a playlist orders the
//! files and hides the subfolders it reaches into, when subfolders named
//! like CD folders are merged into the folder, and in which order files and
//! subfolders are shown.
use vstd::prelude::*;
use std::cmp::Ordering;
use crate::audio_meta::{is_audio, is_cover, is_description, spec_is_audio, spec_is_cover, spec_is_description, FoldersOrdering, TimeStamp};
use crate::collator::{cmp_natural, compare_folders, folder_order, natural_order};
use crate::folder_listing::{as_ints, order_by_playlist, playlist_order};
use crate::http::{regex_is_match, spec_regex_is_match};
use crate::playlist::{strings_view, Playlist};
use crate::util::string_views;

verus! {

/// By what entries are sorted.
#[derive(Clone, Copy, Debug)]
pub enum SortKey {
    /// natural order of the names, numbers compared by value
    Natural,
    /// the names with case ignored
    Unicase,
    /// the order of subfolders in a listing
    Folders(FoldersOrdering),
}

/// Whether entry `a` goes after entry `b` under `key`.
pub open spec fn goes_after(key: SortKey, names: Seq<Seq<char>>, mods: Seq<Option<TimeStamp>>, a: int, b: int) -> bool {
    match key {
        SortKey::Natural => natural_order(names[a], names[b]) > 0,
        SortKey::Unicase => folder_order(FoldersOrdering::Alphabetical, names[a], None, names[b], None)
            == Ordering::Greater,
        SortKey::Folders(ord) => folder_order(ord, names[a], mods[a], names[b], mods[b]) == Ordering::Greater,
    }
}

/// `s` with `x` inserted after the last entry that `x` does not go before.
pub open spec fn insert_by(key: SortKey, names: Seq<Seq<char>>, mods: Seq<Option<TimeStamp>>, s: Seq<int>, x: int) -> Seq<int>
    decreases s.len(),
{
    if s.len() == 0 {
        seq![x]
    } else if !goes_after(key, names, mods, s.last(), x) {
        s.push(x)
    } else {
        insert_by(key, names, mods, s.drop_last(), x).push(s.last())
    }
}

/// The entries `s` sorted by inserting them in turn; equal entries keep
/// their order.
pub open spec fn sort_by(key: SortKey, names: Seq<Seq<char>>, mods: Seq<Option<TimeStamp>>, s: Seq<int>) -> Seq<int>
    decreases s.len(),
{
    if s.len() == 0 {
        Seq::empty()
    } else {
        insert_by(key, names, mods, sort_by(key, names, mods, s.drop_last()), s.last())
    }
}

/// The entries of `s` for which `keep` holds, in order.
pub open spec fn select(s: Seq<int>, keep: spec_fn(int) -> bool) -> Seq<int>
    decreases s.len(),
{
    if s.len() == 0 {
        Seq::empty()
    } else if keep(s.last()) {
        select(s.drop_last(), keep).push(s.last())
    } else {
        select(s.drop_last(), keep)
    }
}

/// The indices `0..n`.
pub open spec fn all_indices(n: nat) -> Seq<int> {
    Seq::new(n, |i: int| i)
}

proof fn lemma_insert_by_split(key: SortKey, names: Seq<Seq<char>>, mods: Seq<Option<TimeStamp>>, s: Seq<int>, x: int, k: int)
    requires
        0 <= k <= s.len(),
        forall|j: int| k <= j < s.len() ==> goes_after(key, names, mods, #[trigger] s[j], x),
    ensures
        insert_by(key, names, mods, s, x) == insert_by(key, names, mods, s.take(k), x) + s.skip(k),
    decreases s.len() - k,
{
    if k < s.len() {
        let d = s.drop_last();
        assert forall|j: int| k <= j < d.len() implies goes_after(key, names, mods, #[trigger] d[j], x) by {
            assert(d[j] == s[j]);
        };
        lemma_insert_by_split(key, names, mods, d, x, k);
        assert(d.take(k) =~= s.take(k));
        assert(d.skip(k).push(s.last()) =~= s.skip(k));
    } else {
        assert(s.take(k) =~= s);
        assert(s.skip(k) =~= Seq::<int>::empty());
    }
}

/// `goes_after` at two machine indices.
pub open spec fn goes_after_at(key: SortKey, names: Seq<Seq<char>>, mods: Seq<Option<TimeStamp>>, a: usize, b: usize) -> bool {
    goes_after(key, names, mods, a as int, b as int)
}

proof fn lemma_names_at(names: Seq<String>, a: usize)
    requires
        a < names.len(),
    ensures
        string_views(names)[a as int] == names[a as int]@,
{
}

/// Whether entry `a` goes after entry `b` under `key`.
fn after(key: SortKey, names: &Vec<String>, mods: &Vec<Option<TimeStamp>>, a: usize, b: usize) -> (r: bool)
    requires
        a < names@.len(),
        b < names@.len(),
        key is Folders ==> a < mods@.len() && b < mods@.len(),
    ensures
        r == goes_after_at(key, string_views(names@), mods@, a, b),
{
    proof {
        lemma_names_at(names@, a);
        lemma_names_at(names@, b);
    }
    let o = match key {
        SortKey::Natural => cmp_natural(names[a].as_str(), names[b].as_str()),
        SortKey::Unicase => compare_folders(FoldersOrdering::Alphabetical, names[a].as_str(), None, names[b].as_str(), None),
        SortKey::Folders(ord) => compare_folders(ord, names[a].as_str(), mods[a], names[b].as_str(), mods[b]),
    };
    match o {
        Ordering::Greater => true,
        _ => false,
    }
}

/// The entries `idx` sorted by `key`: insertion in turn, each after the
/// last entry it does not go before, so equal entries keep their order.
pub fn sort_indices(key: SortKey, names: &Vec<String>, mods: &Vec<Option<TimeStamp>>, idx: &Vec<usize>) -> (r: Vec<usize>)
    requires
        forall|j: int| 0 <= j < idx@.len() ==> #[trigger] idx@[j] < names@.len(),
        key is Folders ==> mods@.len() == names@.len(),
    ensures
        as_ints(r@) == sort_by(key, string_views(names@), mods@, as_ints(idx@)),
        forall|j: int| 0 <= j < r@.len() ==> #[trigger] r@[j] < names@.len(),
{
    let ghost nv = string_views(names@);
    let ghost iv = as_ints(idx@);
    let mut out: Vec<usize> = Vec::new();
    let mut n: usize = 0;
    while n < idx.len()
        invariant
            n <= idx@.len(),
            nv == string_views(names@),
            iv == as_ints(idx@),
            forall|j: int| 0 <= j < idx@.len() ==> #[trigger] idx@[j] < names@.len(),
            key is Folders ==> mods@.len() == names@.len(),
            as_ints(out@) == sort_by(key, nv, mods@, iv.take(n as int)),
            forall|j: int| 0 <= j < out@.len() ==> #[trigger] out@[j] < names@.len(),
        decreases idx@.len() - n,
    {
        let x = idx[n];
        let ghost s = as_ints(out@);
        let mut k: usize = out.len();
        while k > 0 && after(key, names, mods, out[k - 1], x)
            invariant
                k <= out@.len(),
                x < names@.len(),
                nv == string_views(names@),
                s == as_ints(out@),
                key is Folders ==> mods@.len() == names@.len(),
                forall|j: int| 0 <= j < out@.len() ==> #[trigger] out@[j] < names@.len(),
                forall|j: int| k <= j < s.len() ==> goes_after(key, nv, mods@, #[trigger] s[j], x as int),
            decreases k,
        {
            k = k - 1;
        }
        proof {
            lemma_insert_by_split(key, nv, mods@, s, x as int, k as int);
            let t = s.take(k as int);
            if k > 0 {
                assert(t.last() == s[k - 1]);
            }
            assert(insert_by(key, nv, mods@, t, x as int) =~= t.push(x as int));
            let t1 = iv.take(n + 1);
            assert(t1.drop_last() =~= iv.take(n as int));
            assert(t1.last() == x as int);
        }
        out.insert(k, x);
        proof {
            assert(as_ints(out@) =~= s.take(k as int).push(x as int) + s.skip(k as int));
            assert forall|j: int| 0 <= j < out@.len() implies #[trigger] out@[j] < names@.len() by {
                if j < k {
                    assert(out@[j] as int == s[j]);
                } else if j > k {
                    assert(out@[j] as int == s[j - 1]);
                }
            };
        }
        n = n + 1;
    }
    assert(iv.take(idx@.len() as int) =~= iv);
    out
}

/// `pattern` matched with case ignored: the inline flag `(?i)` before it.
pub open spec fn case_insensitive(pattern: Seq<char>) -> Seq<char> {
    seq!['(', '?', 'i', ')'] + pattern
}

/// Whether a subfolder named `name` is a CD folder: its name matches
/// `pattern` with case ignored (`None` where the pattern does not compile).
pub fn is_cd_folder(name: &str, pattern: &str) -> (r: Option<bool>)
    ensures
        r == spec_regex_is_match(case_insensitive(pattern@), name@),
{
    let mut p = "(?i)".to_owned();
    p.append(pattern);
    proof {
        reveal_strlit("(?i)");
        assert("(?i)"@ =~= seq!['(', '?', 'i', ')']);
        assert(p@ =~= case_insensitive(pattern@));
    }
    regex_is_match(p.as_str(), name)
}

/// A subfolder of a folder, as read from the disk.
pub struct FolderEntry {
    /// its file name
    pub name: String,
    /// its path within the collection
    pub path: String,
    /// an audio file shown as a folder
    pub is_file: bool,
    pub modified: Option<TimeStamp>,
}

/// How a folder's entries are arranged; every list holds indices into the
/// files or the subfolders that were read.
pub struct FolderPlan {
    /// the folder is shown as its one subfolder, a chapterized file
    pub single_file: bool,
    /// the folder's own files, in the order shown
    pub files: Vec<usize>,
    /// the subfolders shown, in order
    pub subfolders: Vec<usize>,
    /// the CD folders whose files join the folder's, in order
    pub cd_folders: Vec<usize>,
    /// CD folders were merged
    pub is_collapsed: bool,
}

/// A `FolderPlan` as sequences of integers.
pub struct FolderPlanV {
    pub single_file: bool,
    pub files: Seq<int>,
    pub subfolders: Seq<int>,
    pub cd_folders: Seq<int>,
    pub is_collapsed: bool,
}

impl FolderPlan {
    pub open spec fn view(&self) -> FolderPlanV {
        FolderPlanV {
            single_file: self.single_file,
            files: as_ints(self.files@),
            subfolders: as_ints(self.subfolders@),
            cd_folders: as_ints(self.cd_folders@),
            is_collapsed: self.is_collapsed,
        }
    }
}

pub open spec fn folder_names(fs: Seq<FolderEntry>) -> Seq<Seq<char>> {
    fs.map_values(|f: FolderEntry| f.name@)
}

pub open spec fn folder_times(fs: Seq<FolderEntry>) -> Seq<Option<TimeStamp>> {
    fs.map_values(|f: FolderEntry| f.modified)
}

/// A subfolder merged as a CD folder: a real folder whose name matches the
/// pattern, case ignored.
pub open spec fn can_collapse(pattern: Seq<char>, f: FolderEntry) -> bool {
    !f.is_file && spec_regex_is_match(case_insensitive(pattern), f.name@) == Some(true)
}

/// CD folders are merged where there is no playlist, a pattern is set and
/// some subfolder is a CD folder.
pub open spec fn collapses_cd(fs: Seq<FolderEntry>, pattern: Option<Seq<char>>) -> bool {
    match pattern {
        Some(p) => exists|i: int| 0 <= i < fs.len() && can_collapse(p, #[trigger] fs[i]),
        None => false,
    }
}

/// The sort key of files.
pub open spec fn file_key(natural: bool) -> SortKey {
    if natural { SortKey::Natural } else { SortKey::Unicase }
}

/// The arrangement of a folder with files named `files` and subfolders
/// `fs`. A folder with no files and one subfolder that is a chapterized
/// file is shown as that file, unless that is switched off. Else, with a
/// playlist, the files come in its order and, where it reaches into
/// subfolders, those it reaches into are hidden; without one, where CD
/// folders are merged, the files are sorted, the subfolders are sorted by
/// name, and the CD folders among them are taken out in that order; else the
/// files are sorted. The subfolders shown are sorted by `ordering`.
pub open spec fn spec_folder_plan(
    files: Seq<Seq<char>>,
    fs: Seq<FolderEntry>,
    natural: bool,
    ordering: FoldersOrdering,
    playlist: Option<Playlist>,
    cd_pattern: Option<Seq<char>>,
    no_dir_collaps: bool,
) -> FolderPlanV {
    let names = folder_names(fs);
    let times = folder_times(fs);
    let no_times = Seq::<Option<TimeStamp>>::empty();
    if !no_dir_collaps && files.len() == 0 && fs.len() == 1 && fs[0].is_file {
        FolderPlanV {
            single_file: true,
            files: Seq::empty(),
            subfolders: Seq::empty(),
            cd_folders: Seq::empty(),
            is_collapsed: false,
        }
    } else {
        match playlist {
            Some(p) => {
                let shown = if p.covered_v().len() > 0 {
                    select(all_indices(fs.len()), uncovered(p, fs))
                } else {
                    all_indices(fs.len())
                };
                FolderPlanV {
                    single_file: false,
                    files: playlist_order(files, p.items_v()),
                    subfolders: sort_by(SortKey::Folders(ordering), names, times, shown),
                    cd_folders: Seq::empty(),
                    is_collapsed: false,
                }
            },
            None => if collapses_cd(fs, cd_pattern) {
                let pat = cd_pattern.unwrap();
                let by_name = sort_by(file_key(natural), names, times, all_indices(fs.len()));
                FolderPlanV {
                    single_file: false,
                    files: sort_by(file_key(natural), files, no_times, all_indices(files.len())),
                    subfolders: sort_by(
                        SortKey::Folders(ordering),
                        names,
                        times,
                        select(by_name, keep_cd(pat, fs, false)),
                    ),
                    cd_folders: select(by_name, keep_cd(pat, fs, true)),
                    is_collapsed: true,
                }
            } else {
                FolderPlanV {
                    single_file: false,
                    files: sort_by(file_key(natural), files, no_times, all_indices(files.len())),
                    subfolders: sort_by(SortKey::Folders(ordering), names, times, all_indices(fs.len())),
                    cd_folders: Seq::empty(),
                    is_collapsed: false,
                }
            },
        }
    }
}

/// Keeps the subfolders a playlist does not reach into.
pub open spec fn uncovered(p: Playlist, fs: Seq<FolderEntry>) -> spec_fn(int) -> bool {
    |i: int| !p.covered_v().contains(fs[i].path@)
}

/// Keeps the subfolders that are CD folders, where `want` holds, else the
/// others.
pub open spec fn keep_cd(pattern: Seq<char>, fs: Seq<FolderEntry>, want: bool) -> spec_fn(int) -> bool {
    |i: int| can_collapse(pattern, fs[i]) == want
}

/// The indices `0..n`.
fn indices(n: usize) -> (r: Vec<usize>)
    ensures
        as_ints(r@) == all_indices(n as nat),
        forall|j: int| 0 <= j < r@.len() ==> #[trigger] r@[j] < n,
{
    let mut out: Vec<usize> = Vec::new();
    let mut i: usize = 0;
    while i < n
        invariant
            i <= n,
            as_ints(out@) == all_indices(i as nat),
            forall|j: int| 0 <= j < out@.len() ==> #[trigger] out@[j] < i,
        decreases n - i,
    {
        let ghost before = as_ints(out@);
        out.push(i);
        proof {
            assert(as_ints(out@) =~= before.push(i as int));
            assert(as_ints(out@) =~= all_indices((i + 1) as nat));
        }
        i = i + 1;
    }
    out
}

/// The entries of `s` whose flag is `want`, in order.
fn select_flagged(s: &Vec<usize>, flags: &Vec<bool>, want: bool, Ghost(keep): Ghost<spec_fn(int) -> bool>) -> (r: Vec<usize>)
    requires
        forall|j: int| 0 <= j < s@.len() ==> #[trigger] s@[j] < flags@.len(),
        forall|i: int| 0 <= i < flags@.len() ==> keep(i) == (#[trigger] flags@[i] == want),
    ensures
        as_ints(r@) == select(as_ints(s@), keep),
        forall|j: int| 0 <= j < r@.len() ==> #[trigger] r@[j] < flags@.len(),
{
    let ghost sv = as_ints(s@);
    let mut out: Vec<usize> = Vec::new();
    let mut k: usize = 0;
    while k < s.len()
        invariant
            k <= s@.len(),
            sv == as_ints(s@),
            forall|j: int| 0 <= j < s@.len() ==> #[trigger] s@[j] < flags@.len(),
            forall|i: int| 0 <= i < flags@.len() ==> keep(i) == (#[trigger] flags@[i] == want),
            as_ints(out@) == select(sv.take(k as int), keep),
            forall|j: int| 0 <= j < out@.len() ==> #[trigger] out@[j] < flags@.len(),
        decreases s@.len() - k,
    {
        let x = s[k];
        let ghost before = as_ints(out@);
        proof {
            let t1 = sv.take(k + 1);
            assert(t1.drop_last() =~= sv.take(k as int));
            assert(t1.last() == x as int);
            assert(keep(x as int) == (flags@[x as int] == want));
        }
        if flags[x] == want {
            out.push(x);
            proof {
                assert(as_ints(out@) =~= before.push(x as int));
            }
        }
        k = k + 1;
    }
    assert(sv.take(s@.len() as int) =~= sv);
    out
}

/// The names and times of the subfolders.
fn names_and_times(fs: &Vec<FolderEntry>) -> (r: (Vec<String>, Vec<Option<TimeStamp>>))
    ensures
        string_views(r.0@) == folder_names(fs@),
        r.1@ == folder_times(fs@),
{
    let mut names: Vec<String> = Vec::new();
    let mut times: Vec<Option<TimeStamp>> = Vec::new();
    let mut i: usize = 0;
    while i < fs.len()
        invariant
            i <= fs@.len(),
            string_views(names@) == folder_names(fs@.take(i as int)),
            times@ == folder_times(fs@.take(i as int)),
        decreases fs@.len() - i,
    {
        let n = fs[i].name.clone();
        proof {
            assert(fs@.take(i + 1) =~= fs@.take(i as int).push(fs@[i as int]));
            assert(string_views(names@.push(n)) =~= string_views(names@).push(n@));
            assert(folder_names(fs@.take(i + 1)) =~= folder_names(fs@.take(i as int)).push(fs@[i as int].name@));
            assert(folder_times(fs@.take(i + 1)) =~= folder_times(fs@.take(i as int)).push(fs@[i as int].modified));
        }
        names.push(n);
        times.push(fs[i].modified);
        i = i + 1;
    }
    assert(fs@.take(fs@.len() as int) =~= fs@);
    (names, times)
}

/// Which subfolders are CD folders for `pattern`, and whether any is.
fn cd_flags(fs: &Vec<FolderEntry>, pattern: &str) -> (r: (Vec<bool>, bool))
    ensures
        r.0@.len() == fs@.len(),
        forall|j: int| 0 <= j < fs@.len() ==> #[trigger] r.0@[j] == can_collapse(pattern@, fs@[j]),
        r.1 == collapses_cd(fs@, Some(pattern@)),
{
    let mut cd: Vec<bool> = Vec::new();
    let mut any = false;
    let mut i: usize = 0;
    while i < fs.len()
        invariant
            i <= fs@.len(),
            cd@.len() == i,
            forall|j: int| 0 <= j < i ==> #[trigger] cd@[j] == can_collapse(pattern@, fs@[j]),
            any == exists|j: int| 0 <= j < i && can_collapse(pattern@, #[trigger] fs@[j]),
        decreases fs@.len() - i,
    {
        let c = if fs[i].is_file {
            false
        } else {
            match is_cd_folder(fs[i].name.as_str(), pattern) {
                Some(true) => true,
                _ => false,
            }
        };
        cd.push(c);
        proof {
            if c {
                assert(can_collapse(pattern@, fs@[i as int]));
            }
        }
        any = any || c;
        i = i + 1;
    }
    (cd, any)
}

/// Arranges a folder that holds files named `files` (names within the
/// folder) and the subfolders `fs`, as `spec_folder_plan` says. A pattern
/// for CD folders that does not compile matches no folder.
pub fn plan_folder(
    files: &Vec<String>,
    fs: &Vec<FolderEntry>,
    natural: bool,
    ordering: FoldersOrdering,
    playlist: Option<Playlist>,
    cd_pattern: Option<&str>,
    no_dir_collaps: bool,
) -> (r: FolderPlan)
    ensures
        r@ == spec_folder_plan(
            string_views(files@),
            fs@,
            natural,
            ordering,
            playlist,
            match cd_pattern { Some(p) => Some(p@), None => None },
            no_dir_collaps,
        ),
{
    if !no_dir_collaps && files.len() == 0 && fs.len() == 1 && fs[0].is_file {
        let r = FolderPlan {
            single_file: true,
            files: Vec::new(),
            subfolders: Vec::new(),
            cd_folders: Vec::new(),
            is_collapsed: false,
        };
        assert(r@.files =~= Seq::<int>::empty());
        assert(r@.subfolders =~= Seq::<int>::empty());
        assert(r@.cd_folders =~= Seq::<int>::empty());
        return r;
    }
    let (names, times) = names_and_times(fs);
    let no_times: Vec<Option<TimeStamp>> = Vec::new();
    let key = if natural { SortKey::Natural } else { SortKey::Unicase };
    let all = indices(fs.len());
    assert(names@.len() == fs@.len() && times@.len() == fs@.len()) by {
        assert(string_views(names@).len() == names@.len());
    }
    match playlist {
        Some(p) => {
            let shown = if p.has_subfolders() {
                let mut covered: Vec<bool> = Vec::new();
                let mut i: usize = 0;
                while i < fs.len()
                    invariant
                        i <= fs@.len(),
                        covered@.len() == i,
                        forall|j: int| 0 <= j < i ==> #[trigger] covered@[j] == p.covered_v().contains(fs@[j].path@),
                    decreases fs@.len() - i,
                {
                    covered.push(p.is_covering(fs[i].path.as_str()));
                    i = i + 1;
                }
                select_flagged(&all, &covered, false, Ghost(uncovered(p, fs@)))
            } else {
                all
            };
            let subfolders = sort_indices(SortKey::Folders(ordering), &names, &times, &shown);
            let items = p.to_items();
            proof {
                assert(string_views(items@) =~= strings_view(items@));
            }
            let order = order_by_playlist(files, &items);
            let r = FolderPlan {
                single_file: false,
                files: order,
                subfolders,
                cd_folders: Vec::new(),
                is_collapsed: false,
            };
            assert(r@.cd_folders =~= Seq::<int>::empty());
            r
        },
        None => {
            let file_all = indices(files.len());
            let file_order = sort_indices(key, files, &no_times, &file_all);
            let found = match cd_pattern {
                Some(pat) => {
                    let (cd, any) = cd_flags(fs, pat);
                    if any { Some((pat, cd)) } else { None }
                },
                None => None,
            };
            if let Some((pat, cd)) = found {
                let by_name = sort_indices(key, &names, &times, &all);
                let cd_folders = select_flagged(&by_name, &cd, true, Ghost(keep_cd(pat@, fs@, true)));
                let rest = select_flagged(&by_name, &cd, false, Ghost(keep_cd(pat@, fs@, false)));
                let subfolders = sort_indices(SortKey::Folders(ordering), &names, &times, &rest);
                FolderPlan { single_file: false, files: file_order, subfolders, cd_folders, is_collapsed: true }
            } else {
                let subfolders = sort_indices(SortKey::Folders(ordering), &names, &times, &all);
                let r = FolderPlan {
                    single_file: false,
                    files: file_order,
                    subfolders,
                    cd_folders: Vec::new(),
                    is_collapsed: false,
                };
                assert(r@.cd_folders =~= Seq::<int>::empty());
                r
            }
        },
    }
}

/// The total playing time of files with the durations `ds` (a file whose
/// duration is unknown counts 0).
pub open spec fn sum_durations(ds: Seq<Option<u32>>) -> int
    decreases ds.len(),
{
    if ds.len() == 0 {
        0
    } else {
        sum_durations(ds.drop_last()) + match ds.last() {
            Some(d) => d as int,
            None => 0,
        }
    }
}

proof fn lemma_sum_durations_prefix(ds: Seq<Option<u32>>, k: int)
    requires
        0 <= k <= ds.len(),
    ensures
        0 <= sum_durations(ds.take(k)) <= sum_durations(ds),
    decreases ds.len() - k,
{
    if k < ds.len() {
        lemma_sum_durations_prefix(ds.drop_last(), k);
        assert(ds.drop_last().take(k) =~= ds.take(k));
    } else {
        assert(ds.take(k) =~= ds);
        lemma_sum_durations_nonneg(ds);
    }
}

proof fn lemma_sum_durations_nonneg(ds: Seq<Option<u32>>)
    ensures
        sum_durations(ds) >= 0,
    decreases ds.len(),
{
    if ds.len() > 0 {
        lemma_sum_durations_nonneg(ds.drop_last());
    }
}

/// The total playing time of a folder's files, from their durations.
pub fn total_time(durations: &Vec<Option<u32>>) -> (r: u32)
    requires
        sum_durations(durations@) <= u32::MAX,
    ensures
        r == sum_durations(durations@),
{
    let mut total: u32 = 0;
    let mut i: usize = 0;
    while i < durations.len()
        invariant
            i <= durations@.len(),
            sum_durations(durations@) <= u32::MAX,
            total == sum_durations(durations@.take(i as int)),
        decreases durations@.len() - i,
    {
        proof {
            let t1 = durations@.take(i + 1);
            assert(t1.drop_last() =~= durations@.take(i as int));
            lemma_sum_durations_prefix(durations@, i + 1);
        }
        total = match durations[i] {
            Some(d) => total + d,
            None => total,
        };
        i = i + 1;
    }
    assert(durations@.take(durations@.len() as int) =~= durations@);
    total
}

proof fn lemma_insert_by_multiset(key: SortKey, names: Seq<Seq<char>>, mods: Seq<Option<TimeStamp>>, s: Seq<int>, x: int)
    ensures
        insert_by(key, names, mods, s, x).to_multiset() == s.to_multiset().insert(x),
    decreases s.len(),
{
    broadcast use vstd::seq_lib::group_to_multiset_ensures;
    if s.len() == 0 {
        assert(seq![x] =~= s.push(x));
    } else if !goes_after(key, names, mods, s.last(), x) {
    } else {
        let d = s.drop_last();
        lemma_insert_by_multiset(key, names, mods, d, x);
        assert(d.push(s.last()) =~= s);
        assert(s.to_multiset() =~= d.to_multiset().insert(s.last()));
        assert(insert_by(key, names, mods, s, x).to_multiset() =~= d.to_multiset().insert(x).insert(s.last()));
    }
}

proof fn lemma_sort_by_multiset(key: SortKey, names: Seq<Seq<char>>, mods: Seq<Option<TimeStamp>>, s: Seq<int>)
    ensures
        sort_by(key, names, mods, s).to_multiset() == s.to_multiset(),
    decreases s.len(),
{
    broadcast use vstd::seq_lib::group_to_multiset_ensures;
    if s.len() == 0 {
        assert(sort_by(key, names, mods, s) =~= s);
    } else {
        let d = s.drop_last();
        lemma_sort_by_multiset(key, names, mods, d);
        lemma_insert_by_multiset(key, names, mods, sort_by(key, names, mods, d), s.last());
        assert(d.push(s.last()) =~= s);
        assert(s.to_multiset() =~= d.to_multiset().insert(s.last()));
    }
}

proof fn lemma_select_split(s: Seq<int>, pattern: Seq<char>, fs: Seq<FolderEntry>)
    ensures
        select(s, keep_cd(pattern, fs, true)).to_multiset().add(select(s, keep_cd(pattern, fs, false)).to_multiset())
            == s.to_multiset(),
        forall|j: int| 0 <= j < select(s, keep_cd(pattern, fs, true)).len()
            ==> can_collapse(pattern, fs[#[trigger] select(s, keep_cd(pattern, fs, true))[j]]),
        forall|j: int| 0 <= j < select(s, keep_cd(pattern, fs, false)).len()
            ==> !can_collapse(pattern, fs[#[trigger] select(s, keep_cd(pattern, fs, false))[j]]),
    decreases s.len(),
{
    broadcast use vstd::seq_lib::group_to_multiset_ensures;
    let kt = keep_cd(pattern, fs, true);
    let kf = keep_cd(pattern, fs, false);
    if s.len() == 0 {
        assert(select(s, kt) =~= s);
        assert(select(s, kf) =~= s);
        assert(s.to_multiset().add(s.to_multiset()) =~= s.to_multiset());
    } else {
        let d = s.drop_last();
        lemma_select_split(d, pattern, fs);
        assert(d.push(s.last()) =~= s);
        assert(s.to_multiset() =~= d.to_multiset().insert(s.last()));
        let a = select(d, kt);
        let b = select(d, kf);
        if kt(s.last()) {
            assert(select(s, kt) == a.push(s.last()));
            assert(select(s, kf) == b);
            assert(select(s, kt).to_multiset().add(b.to_multiset()) =~= a.to_multiset().add(b.to_multiset()).insert(s.last()));
            assert forall|j: int| 0 <= j < select(s, kt).len() implies can_collapse(pattern, fs[#[trigger] select(s, kt)[j]]) by {
                if j < a.len() {
                    assert(select(s, kt)[j] == a[j]);
                }
            }
        } else {
            assert(select(s, kt) == a);
            assert(select(s, kf) == b.push(s.last()));
            assert(a.to_multiset().add(select(s, kf).to_multiset()) =~= a.to_multiset().add(b.to_multiset()).insert(s.last()));
            assert forall|j: int| 0 <= j < select(s, kf).len() implies !can_collapse(pattern, fs[#[trigger] select(s, kf)[j]]) by {
                if j < b.len() {
                    assert(select(s, kf)[j] == b[j]);
                }
            }
        }
    }
}

/// Where CD folders are merged, each subfolder is either merged or shown,
/// once: the merged ones are CD folders, the shown ones are not.
pub proof fn lemma_cd_merge_partition(
    files: Seq<Seq<char>>,
    fs: Seq<FolderEntry>,
    natural: bool,
    ordering: FoldersOrdering,
    pattern: Seq<char>,
    no_dir_collaps: bool,
)
    requires
        !(!no_dir_collaps && files.len() == 0 && fs.len() == 1 && fs[0].is_file),
        collapses_cd(fs, Some(pattern)),
    ensures
        spec_folder_plan(files, fs, natural, ordering, None, Some(pattern), no_dir_collaps).is_collapsed,
        spec_folder_plan(files, fs, natural, ordering, None, Some(pattern), no_dir_collaps).cd_folders.to_multiset().add(
            spec_folder_plan(files, fs, natural, ordering, None, Some(pattern), no_dir_collaps).subfolders.to_multiset(),
        ) == all_indices(fs.len()).to_multiset(),
        forall|j: int| 0 <= j < spec_folder_plan(files, fs, natural, ordering, None, Some(pattern), no_dir_collaps).cd_folders.len()
            ==> can_collapse(pattern, fs[#[trigger] spec_folder_plan(files, fs, natural, ordering, None, Some(pattern), no_dir_collaps).cd_folders[j]]),
        forall|j: int| 0 <= j < spec_folder_plan(files, fs, natural, ordering, None, Some(pattern), no_dir_collaps).subfolders.len()
            ==> !can_collapse(pattern, fs[#[trigger] spec_folder_plan(files, fs, natural, ordering, None, Some(pattern), no_dir_collaps).subfolders[j]]),
{
    broadcast use vstd::seq_lib::group_to_multiset_ensures;
    let names = folder_names(fs);
    let times = folder_times(fs);
    let all = all_indices(fs.len());
    let by_name = sort_by(file_key(natural), names, times, all);
    let rest = select(by_name, keep_cd(pattern, fs, false));
    let p = spec_folder_plan(files, fs, natural, ordering, None, Some(pattern), no_dir_collaps);
    lemma_sort_by_multiset(file_key(natural), names, times, all);
    lemma_select_split(by_name, pattern, fs);
    lemma_sort_by_multiset(SortKey::Folders(ordering), names, times, rest);
    assert(p.subfolders == sort_by(SortKey::Folders(ordering), names, times, rest));
    assert(p.cd_folders == select(by_name, keep_cd(pattern, fs, true)));
    assert forall|j: int| 0 <= j < p.subfolders.len() implies !can_collapse(pattern, fs[#[trigger] p.subfolders[j]]) by {
        let e = p.subfolders[j];
        assert(p.subfolders.contains(e));
        assert(p.subfolders.to_multiset().count(e) > 0);
        assert(rest.to_multiset().count(e) > 0);
        assert(rest.contains(e));
        let i = choose|i: int| 0 <= i < rest.len() && rest[i] == e;
        assert(!can_collapse(pattern, fs[rest[i]]));
    }
}

// ---------------------------------------------------------------------
// the files of a folder for download

/// A file met while listing a folder for download: a file of the folder, or
/// a file of one of its subfolders that is included.
pub struct DirItem {
    pub path: String,
    pub from_subdir: bool,
}

/// What has been chosen so far: the audio files, and the first cover and
/// the first description of the folder itself.
pub struct DirChoice {
    pub audio: Seq<int>,
    pub cover: Option<int>,
    pub description: Option<int>,
}

/// The choice after the items `items`: an audio file is taken; of the other
/// files of the folder itself, the first cover and then the first
/// description, a file counting as a cover where it can.
pub open spec fn dir_choice(items: Seq<DirItem>) -> DirChoice
    decreases items.len(),
{
    if items.len() == 0 {
        DirChoice { audio: Seq::empty(), cover: None, description: None }
    } else {
        let st = dir_choice(items.drop_last());
        let i = items.len() - 1;
        let it = items.last();
        if spec_is_audio(it.path@) {
            DirChoice { audio: st.audio.push(i), ..st }
        } else if it.from_subdir {
            st
        } else if st.cover is None && spec_is_cover(it.path@) {
            DirChoice { cover: Some(i), ..st }
        } else if st.description is None && spec_is_description(it.path@) {
            DirChoice { description: Some(i), ..st }
        } else {
            st
        }
    }
}

pub open spec fn opt_seq(o: Option<int>) -> Seq<int> {
    match o {
        Some(i) => seq![i],
        None => Seq::empty(),
    }
}

/// The files offered: the audio files in the order met, then the cover,
/// then the description.
pub open spec fn spec_dir_files(items: Seq<DirItem>) -> Seq<int> {
    let c = dir_choice(items);
    c.audio + opt_seq(c.cover) + opt_seq(c.description)
}

/// The indices of the items offered for download, as `spec_dir_files`
/// says.
pub fn select_dir_files(items: &Vec<DirItem>) -> (r: Vec<usize>)
    ensures
        as_ints(r@) == spec_dir_files(items@),
{
    let mut audio: Vec<usize> = Vec::new();
    let mut cover: Option<usize> = None;
    let mut description: Option<usize> = None;
    let mut k: usize = 0;
    while k < items.len()
        invariant
            k <= items@.len(),
            as_ints(audio@) == dir_choice(items@.take(k as int)).audio,
            match cover { Some(c) => dir_choice(items@.take(k as int)).cover == Some(c as int), None => dir_choice(items@.take(k as int)).cover is None },
            match description { Some(c) => dir_choice(items@.take(k as int)).description == Some(c as int), None => dir_choice(items@.take(k as int)).description is None },
        decreases items@.len() - k,
    {
        proof {
            let t1 = items@.take(k + 1);
            assert(t1.drop_last() =~= items@.take(k as int));
            assert(t1.last() == items@[k as int]);
        }
        let p = items[k].path.as_str();
        let ghost before = as_ints(audio@);
        if is_audio(p) {
            audio.push(k);
            proof {
                assert(as_ints(audio@) =~= before.push(k as int));
            }
        } else if items[k].from_subdir {
        } else if cover.is_none() && is_cover(p) {
            cover = Some(k);
        } else if description.is_none() && is_description(p) {
            description = Some(k);
        }
        k = k + 1;
    }
    proof {
        assert(items@.take(items@.len() as int) =~= items@);
    }
    let ghost a = as_ints(audio@);
    match cover {
        Some(c) => {
            audio.push(c);
        },
        None => {},
    }
    let ghost b = as_ints(audio@);
    assert(b =~= a + opt_seq(dir_choice(items@).cover));
    match description {
        Some(d) => {
            audio.push(d);
        },
        None => {},
    }
    assert(as_ints(audio@) =~= b + opt_seq(dir_choice(items@).description));
    audio
}

} // verus!
