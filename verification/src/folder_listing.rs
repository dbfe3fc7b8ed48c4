//! The decisions of listing a folder of a collection: what each entry of the
//! folder becomes, when a folder with a single chapterized file is shown as
//! that file, how a playlist orders the files, how the files of a collapsed
//! CD folder are named, and in which order files are shown.
use vstd::prelude::*;
use std::cmp::Ordering;
use crate::collator::{cmp_natural, natural_order};
use crate::util::{str_equal, string_views};

verus! {

/// What an entry of a folder becomes in its listing.
#[derive(Clone, Copy, Debug, PartialEq, Eq, Structural)]
pub enum EntryRole {
    /// a subfolder; `is_file` where it is an audio file shown as a folder
    Subfolder { is_file: bool },
    /// an audio file of the folder
    AudioFile,
    /// the folder's cover
    Cover,
    /// the folder's description
    Description,
    /// the folder's playlist
    Playlist,
    /// nothing
    Skip,
}

/// What is known of an entry when it is listed.
#[derive(Clone, Copy, Debug, PartialEq, Eq, Structural)]
pub struct EntryFacts {
    pub is_dir: bool,
    pub is_file: bool,
    /// the name is of an audio type
    pub is_audio: bool,
    /// the media library read the file
    pub meta_readable: bool,
    /// the file has chapters in its metadata
    pub has_chapters_meta: bool,
    /// the file is long enough to be split into chapters
    pub is_long: bool,
    /// a chapters side file exists for it
    pub has_chapters_file: bool,
    /// the name is of a cover type
    pub is_cover: bool,
    /// the name is of a description type
    pub is_description: bool,
    /// the name is of a playlist
    pub is_playlist: bool,
}

/// A folder is a subfolder; an audio file the media library cannot read is
/// skipped; one with chapters (unless chapter metadata are ignored), a long
/// one, or one with a chapters file is shown as a folder; another audio file
/// is a file of the folder. Of the other files the first cover, the first
/// description and the first playlist are taken.
pub open spec fn spec_entry_role(f: EntryFacts, ignore_chapters_meta: bool, have_cover: bool, have_description: bool, have_playlist: bool) -> EntryRole {
    if f.is_dir {
        EntryRole::Subfolder { is_file: false }
    } else if !f.is_file {
        EntryRole::Skip
    } else if f.is_audio {
        if !f.meta_readable {
            EntryRole::Skip
        } else if !ignore_chapters_meta && f.has_chapters_meta {
            EntryRole::Subfolder { is_file: true }
        } else if f.is_long || f.has_chapters_file {
            EntryRole::Subfolder { is_file: true }
        } else {
            EntryRole::AudioFile
        }
    } else if !have_cover && f.is_cover {
        EntryRole::Cover
    } else if !have_description && f.is_description {
        EntryRole::Description
    } else if !have_playlist && f.is_playlist {
        EntryRole::Playlist
    } else {
        EntryRole::Skip
    }
}

/// What an entry of a folder becomes.
pub fn entry_role(f: EntryFacts, ignore_chapters_meta: bool, have_cover: bool, have_description: bool, have_playlist: bool) -> (r: EntryRole)
    ensures
        r == spec_entry_role(f, ignore_chapters_meta, have_cover, have_description, have_playlist),
{
    if f.is_dir {
        EntryRole::Subfolder { is_file: false }
    } else if !f.is_file {
        EntryRole::Skip
    } else if f.is_audio {
        if !f.meta_readable {
            EntryRole::Skip
        } else if !ignore_chapters_meta && f.has_chapters_meta {
            EntryRole::Subfolder { is_file: true }
        } else if f.is_long || f.has_chapters_file {
            EntryRole::Subfolder { is_file: true }
        } else {
            EntryRole::AudioFile
        }
    } else if !have_cover && f.is_cover {
        EntryRole::Cover
    } else if !have_description && f.is_description {
        EntryRole::Description
    } else if !have_playlist && f.is_playlist {
        EntryRole::Playlist
    } else {
        EntryRole::Skip
    }
}

/// Whether an audio file of `duration` seconds is long enough to be shown
/// as a folder of chapters: the limit, `chapters_from_duration` minutes,
/// is over ten minutes and the file is longer than it.
pub fn is_long_file(chapters_from_duration: u32, duration: u32) -> (r: bool)
    requires
        chapters_from_duration * 60 <= u32::MAX,
    ensures
        r == (chapters_from_duration * 60 > 600 && duration > chapters_from_duration * 60),
{
    let max_dur = chapters_from_duration * 60;
    max_dur > 600 && duration > max_dur
}

/// Whether a folder is shown as its only entry, a chapterized audio file:
/// collapsing is allowed, it has no files and exactly one subfolder, which
/// is a file.
pub fn collapse_single_file(no_dir_collaps: bool, files_count: usize, subfolders: &Vec<bool>) -> (r: bool)
    ensures
        r == (!no_dir_collaps && files_count == 0 && subfolders@.len() == 1 && subfolders@[0]),
{
    !no_dir_collaps && files_count == 0 && subfolders.len() == 1 && subfolders[0]
}

// ---------------------------------------------------------------------
// playlists

/// The files in the order of the playlist: for each item the file with
/// that path, each file at most once; items without a file are left out.
pub open spec fn playlist_order(files: Seq<Seq<char>>, items: Seq<Seq<char>>) -> Seq<int>
    decreases items.len(),
{
    if items.len() == 0 {
        Seq::empty()
    } else {
        let before = playlist_order(files, items.drop_last());
        match first_index_free(files, before, items.last(), 0) {
            Some(i) => before.push(i),
            None => before,
        }
    }
}

/// The first index from `from` on of a file named `item` that `taken` does
/// not hold.
pub open spec fn first_index_free(files: Seq<Seq<char>>, taken: Seq<int>, item: Seq<char>, from: int) -> Option<int>
    decreases files.len() - from,
{
    if from < 0 || from >= files.len() {
        None
    } else if files[from] == item && !taken.contains(from) {
        Some(from)
    } else {
        first_index_free(files, taken, item, from + 1)
    }
}

/// Indices as integers.
pub open spec fn as_ints(t: Seq<usize>) -> Seq<int> {
    t.map_values(|x: usize| x as int)
}

/// Whether `taken` holds `i`.
fn holds(taken: &Vec<usize>, i: usize) -> (r: bool)
    ensures
        r == as_ints(taken@).contains(i as int),
{
    let mut k: usize = 0;
    while k < taken.len()
        invariant
            k <= taken@.len(),
            forall|j: int| 0 <= j < k ==> taken@[j] != i,
        decreases taken@.len() - k,
    {
        if taken[k] == i {
            assert(as_ints(taken@)[k as int] == i as int);
            return true;
        }
        k = k + 1;
    }
    proof {
        if as_ints(taken@).contains(i as int) {
            let j = choose|j: int| 0 <= j < taken@.len() && #[trigger] as_ints(taken@)[j] == i as int;
            assert(taken@[j] == i);
        }
    }
    false
}

/// The first file named `item` from 0 on that `taken` does not hold.
fn find_free(files: &Vec<String>, taken: &Vec<usize>, item: &str) -> (r: Option<usize>)
    ensures
        match first_index_free(string_views(files@), as_ints(taken@), item@, 0) {
            Some(i) => r matches Some(j) && j as int == i,
            None => r is None,
        },
{
    let ghost fv = string_views(files@);
    let mut i: usize = 0;
    while i < files.len()
        invariant
            i <= files@.len(),
            fv == string_views(files@),
            first_index_free(fv, as_ints(taken@), item@, 0) == first_index_free(fv, as_ints(taken@), item@, i as int),
        decreases files@.len() - i,
    {
        assert(fv[i as int] == files@[i as int]@);
        if str_equal(files[i].as_str(), item) && !holds(taken, i) {
            return Some(i);
        }
        i = i + 1;
    }
    None
}

/// The indices of the files in the order of the playlist.
pub fn order_by_playlist(files: &Vec<String>, items: &Vec<String>) -> (r: Vec<usize>)
    ensures
        as_ints(r@) == playlist_order(string_views(files@), string_views(items@)),
{
    let ghost fv = string_views(files@);
    let ghost iv = string_views(items@);
    let mut out: Vec<usize> = Vec::new();
    let mut k: usize = 0;
    while k < items.len()
        invariant
            k <= items@.len(),
            fv == string_views(files@),
            iv == string_views(items@),
            as_ints(out@) == playlist_order(fv, iv.take(k as int)),
        decreases items@.len() - k,
    {
        let item = items[k].as_str();
        proof {
            assert(iv.take(k + 1).drop_last() =~= iv.take(k as int));
            assert(iv.take(k + 1).last() == item@);
        }
        let ghost taken = as_ints(out@);
        let found = find_free(files, &out, item);
        proof {
            let t1 = iv.take(k + 1);
            assert(t1.len() > 0);
            assert(playlist_order(fv, t1) == match first_index_free(fv, playlist_order(fv, t1.drop_last()), t1.last(), 0) {
                Some(i) => playlist_order(fv, t1.drop_last()).push(i),
                None => playlist_order(fv, t1.drop_last()),
            });
        }
        match found {
            Some(i) => {
                out.push(i);
                assert(as_ints(out@) =~= taken.push(i as int));
            },
            None => {},
        }
        k = k + 1;
    }
    assert(iv.take(items@.len() as int) =~= iv);
    out
}

// ---------------------------------------------------------------------
// collapsed CD folders

/// The name of a file of a collapsed CD folder: the folder's name, a space
/// and the file's name.
pub fn cd_file_name(prefix: &str, name: &str) -> (r: String)
    ensures
        r@ == prefix@ + seq![' '] + name@,
{
    let mut s = prefix.to_owned();
    s.append(" ");
    s.append(name);
    proof {
        reveal_strlit(" ");
        assert(" "@ =~= seq![' ']);
    }
    s
}

/// The pseudo file name of a file of a collapsed CD folder: the folder's
/// name, `$$` and the file's name.
pub fn cd_pseudo_file_name(subdir_name: &str, file_name: &str) -> (r: String)
    ensures
        r@ == subdir_name@ + seq!['$', '$'] + file_name@,
{
    let mut s = subdir_name.to_owned();
    s.append("$$");
    s.append(file_name);
    proof {
        reveal_strlit("$$");
        assert("$$"@ =~= seq!['$', '$']);
    }
    s
}

// ---------------------------------------------------------------------
// the order of files

/// `s` (indices into `names`) with `x` inserted after the last index whose
/// name is not after the name of `x` in natural order.
pub open spec fn insert_natural(names: Seq<Seq<char>>, s: Seq<int>, x: int) -> Seq<int>
    decreases s.len(),
{
    if s.len() == 0 {
        seq![x]
    } else if natural_order(names[s.last()], names[x]) <= 0 {
        s.push(x)
    } else {
        insert_natural(names, s.drop_last(), x).push(s.last())
    }
}

/// The indices `0..n` of `names` sorted by inserting them in turn.
pub open spec fn natural_sort(names: Seq<Seq<char>>, n: int) -> Seq<int>
    decreases n,
{
    if n <= 0 {
        Seq::empty()
    } else {
        insert_natural(names, natural_sort(names, n - 1), n - 1)
    }
}

proof fn lemma_insert_natural_split(names: Seq<Seq<char>>, s: Seq<int>, x: int, k: int)
    requires
        0 <= k <= s.len(),
        forall|j: int| k <= j < s.len() ==> natural_order(names[#[trigger] s[j]], names[x]) > 0,
    ensures
        insert_natural(names, s, x) == insert_natural(names, s.take(k), x) + s.skip(k),
    decreases s.len() - k,
{
    if k < s.len() {
        let d = s.drop_last();
        assert forall|j: int| k <= j < d.len() implies natural_order(names[#[trigger] d[j]], names[x]) > 0 by {
            assert(d[j] == s[j]);
        };
        lemma_insert_natural_split(names, d, x, k);
        assert(d.take(k) =~= s.take(k));
        assert(d.skip(k).push(s.last()) =~= s.skip(k));
    } else {
        assert(s.take(k) =~= s);
        assert(s.skip(k) =~= Seq::<int>::empty());
    }
}

fn is_after(a: &str, b: &str) -> (r: bool)
    ensures
        r == (natural_order(a@, b@) > 0),
{
    match cmp_natural(a, b) {
        Ordering::Greater => true,
        _ => false,
    }
}

/// The order in which files named `names` are shown: natural order of the
/// names (numbers compared by value), the order of insertion among equals.
pub fn natural_file_order(names: &Vec<String>) -> (r: Vec<usize>)
    ensures
        as_ints(r@) == natural_sort(string_views(names@), names@.len() as int),
{
    let ghost nv = string_views(names@);
    let mut out: Vec<usize> = Vec::new();
    let mut n: usize = 0;
    while n < names.len()
        invariant
            n <= names@.len(),
            nv == string_views(names@),
            as_ints(out@) == natural_sort(nv, n as int),
            forall|j: int| 0 <= j < out@.len() ==> #[trigger] out@[j] < n,
        decreases names@.len() - n,
    {
        let ghost s = as_ints(out@);
        let mut k: usize = out.len();
        while k > 0 && is_after(names[out[k - 1]].as_str(), names[n].as_str())
            invariant
                k <= out@.len(),
                n < names@.len(),
                nv == string_views(names@),
                s == as_ints(out@),
                forall|j: int| 0 <= j < out@.len() ==> #[trigger] out@[j] < n,
                forall|j: int| k <= j < s.len() ==> natural_order(nv[#[trigger] s[j]], nv[n as int]) > 0,
            decreases k,
        {
            assert(nv[out@[k - 1] as int] == names@[out@[k - 1] as int]@);
            assert(nv[n as int] == names@[n as int]@);
            k = k - 1;
        }
        proof {
            if k > 0 {
                assert(nv[out@[k - 1] as int] == names@[out@[k - 1] as int]@);
                assert(nv[n as int] == names@[n as int]@);
            }
            lemma_insert_natural_split(nv, s, n as int, k as int);
            let t = s.take(k as int);
            if k > 0 {
                assert(t.last() == s[k - 1]);
                assert(t.drop_last() =~= s.take(k - 1));
            }
            assert(insert_natural(nv, t, n as int) =~= t.push(n as int));
        }
        out.insert(k, n);
        proof {
            assert(as_ints(out@) =~= s.take(k as int).push(n as int) + s.skip(k as int));
            assert forall|j: int| 0 <= j < out@.len() implies #[trigger] out@[j] < n + 1 by {
                if j < k {
                    assert(out@[j] as int == s[j]);
                } else if j > k {
                    assert(out@[j] as int == s[j - 1]);
                }
            };
        }
        n = n + 1;
    }
    out
}

proof fn lemma_first_index_free(files: Seq<Seq<char>>, taken: Seq<int>, item: Seq<char>, from: int)
    ensures
        first_index_free(files, taken, item, from) matches Some(i) ==> 0 <= i < files.len() && !taken.contains(i)
            && files[i] == item,
    decreases files.len() - from,
{
    if 0 <= from < files.len() && !(files[from] == item && !taken.contains(from)) {
        lemma_first_index_free(files, taken, item, from + 1);
    }
}

/// A playlist shows each file at most once, and only files of the folder
/// that it names.
pub proof fn lemma_playlist_order_distinct(files: Seq<Seq<char>>, items: Seq<Seq<char>>)
    ensures
        forall|a: int, b: int| 0 <= a < b < playlist_order(files, items).len() ==> playlist_order(files, items)[a] != playlist_order(files, items)[b],
        forall|a: int| 0 <= a < playlist_order(files, items).len() ==> 0 <= #[trigger] playlist_order(files, items)[a] < files.len()
            && items.contains(files[playlist_order(files, items)[a]]),
    decreases items.len(),
{
    if items.len() > 0 {
        let d = items.drop_last();
        lemma_playlist_order_distinct(files, d);
        let before = playlist_order(files, d);
        lemma_first_index_free(files, before, items.last(), 0);
        let r = playlist_order(files, items);
        assert forall|a: int| 0 <= a < r.len() implies 0 <= #[trigger] r[a] < files.len() && items.contains(files[r[a]]) by {
            if a < before.len() {
                assert(r[a] == before[a]);
                let j = choose|j: int| 0 <= j < d.len() && d[j] == files[before[a]];
                assert(items[j] == d[j]);
            } else {
                assert(items[items.len() - 1] == items.last());
            }
        };
        assert forall|a: int, b: int| 0 <= a < b < r.len() implies r[a] != r[b] by {
            if b == before.len() {
                assert(before[a] == r[a]);
                assert(before.contains(r[a]));
            }
        };
    }
}

} // verus!
