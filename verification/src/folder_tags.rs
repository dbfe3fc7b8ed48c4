//! Tags shared by a folder's files: a tag that is the same in every file of
//! the folder becomes a tag of the folder and is taken out of the files;
//! any other tag stays with its file.
use vstd::prelude::*;
use crate::util::str_equal;

verus! {

pub type Tags = Vec<(String, String)>;

pub open spec fn tags_view(t: Seq<(String, String)>) -> Seq<(Seq<char>, Seq<char>)> {
    t.map_values(|p: (String, String)| (p.0@, p.1@))
}

pub open spec fn files_view(f: Seq<Option<Tags>>) -> Seq<Option<Seq<(Seq<char>, Seq<char>)>>> {
    f.map_values(|o: Option<Tags>| match o {
        Some(t) => Some(tags_view(t@)),
        None => None,
    })
}

/// No tag name occurs twice.
pub open spec fn distinct_names(t: Seq<(Seq<char>, Seq<char>)>) -> bool {
    forall|a: int, b: int| 0 <= a < b < t.len() ==> t[a].0 != t[b].0
}

/// Whether a file's tags hold the tag `name` with the value `value`.
pub open spec fn file_has(t: Option<Seq<(Seq<char>, Seq<char>)>>, name: Seq<char>, value: Seq<char>) -> bool {
    t matches Some(p) && p.contains((name, value))
}

/// Whether the tag `name` has the value `value` in the folder: the folder
/// has files, and every one of them has the tag with this value.
pub open spec fn folder_has(files: Seq<Option<Seq<(Seq<char>, Seq<char>)>>>, name: Seq<char>, value: Seq<char>) -> bool {
    files.len() > 0 && forall|i: int| 0 <= i < files.len() ==> #[trigger] file_has(files[i], name, value)
}

/// Whether `name` is a tag of the folder.
pub open spec fn folder_key(files: Seq<Option<Seq<(Seq<char>, Seq<char>)>>>, name: Seq<char>) -> bool {
    exists|v: Seq<char>| #[trigger] folder_has(files, name, v)
}

/// The tags of `p` that are not tags of the folder, in order.
pub open spec fn drop_folder_keys(files: Seq<Option<Seq<(Seq<char>, Seq<char>)>>>, p: Seq<(Seq<char>, Seq<char>)>) -> Seq<(Seq<char>, Seq<char>)>
    decreases p.len(),
{
    if p.len() == 0 {
        p
    } else {
        let sub = drop_folder_keys(files, p.drop_last());
        if folder_key(files, p.last().0) { sub } else { sub.push(p.last()) }
    }
}

/// The tags of a file once the folder's tags are taken out; none where
/// nothing is left.
pub open spec fn remaining_tags(files: Seq<Option<Seq<(Seq<char>, Seq<char>)>>>, t: Option<Seq<(Seq<char>, Seq<char>)>>) -> Option<Seq<(Seq<char>, Seq<char>)>> {
    match t {
        None => None,
        Some(p) => {
            let q = drop_folder_keys(files, p);
            if q.len() == 0 { None } else { Some(q) }
        },
    }
}

/// Whether the folder tags are computed: the folder has files and the first
/// of them has tags.
pub open spec fn folder_tags_apply(files: Seq<Option<Seq<(Seq<char>, Seq<char>)>>>) -> bool {
    files.len() > 0 && files[0] is Some
}

/// Whether some tag of `t` is named `k`.
pub open spec fn name_in(t: Seq<(Seq<char>, Seq<char>)>, k: Seq<char>) -> bool {
    exists|x: int| 0 <= x < t.len() && #[trigger] t[x].0 == k
}

/// Whether `k` is the name of a tag in `tags`.
fn has_name(tags: &Vec<(String, String)>, k: &str) -> (r: bool)
    ensures
        r == (exists|a: int| 0 <= a < tags@.len() && #[trigger] tags@[a].0@ == k@),
{
    let mut a: usize = 0;
    while a < tags.len()
        invariant
            a <= tags@.len(),
            forall|b: int| 0 <= b < a ==> tags@[b].0@ != k@,
        decreases tags@.len() - a,
    {
        if str_equal(tags[a].0.as_str(), k) {
            return true;
        }
        a = a + 1;
    }
    false
}

/// Whether `tags` hold the tag `k` with the value `v`.
fn has_pair(tags: &Vec<(String, String)>, k: &str, v: &str) -> (r: bool)
    ensures
        r == tags_view(tags@).contains((k@, v@)),
{
    let mut a: usize = 0;
    while a < tags.len()
        invariant
            a <= tags@.len(),
            forall|b: int| 0 <= b < a ==> tags_view(tags@)[b] != (k@, v@),
        decreases tags@.len() - a,
    {
        if str_equal(tags[a].0.as_str(), k) && str_equal(tags[a].1.as_str(), v) {
            assert(tags_view(tags@)[a as int] == (k@, v@));
            return true;
        }
        a = a + 1;
    }
    false
}

/// Whether every file has the tag `k` with the value `v`.
fn all_have_pair(files: &Vec<Option<Tags>>, k: &str, v: &str) -> (r: bool)
    ensures
        r == (forall|i: int| 0 <= i < files@.len() ==> #[trigger] file_has(files_view(files@)[i], k@, v@)),
{
    let mut i: usize = 0;
    while i < files.len()
        invariant
            i <= files@.len(),
            forall|j: int| 0 <= j < i ==> #[trigger] file_has(files_view(files@)[j], k@, v@),
        decreases files@.len() - i,
    {
        let ok = match &files[i] {
            Some(t) => {
                assert(files_view(files@)[i as int] == Some(tags_view(t@)));
                has_pair(t, k, v)
            },
            None => {
                assert(files_view(files@)[i as int] is None);
                false
            },
        };
        if !ok {
            assert(!file_has(files_view(files@)[i as int], k@, v@));
            return false;
        }
        assert(file_has(files_view(files@)[i as int], k@, v@));
        i = i + 1;
    }
    true
}

fn clone_pair(p: &(String, String)) -> (r: (String, String))
    ensures
        r.0@ == p.0@,
        r.1@ == p.1@,
{
    (p.0.clone(), p.1.clone())
}

/// The folder's tags: those of the first file that every file has.
fn shared_tags(files: &Vec<Option<Tags>>, first: &Tags) -> (r: Tags)
    requires
        files@.len() > 0,
        files_view(files@)[0] == Some(tags_view(first@)),
        distinct_names(tags_view(first@)),
    ensures
        distinct_names(tags_view(r@)),
        forall|k: Seq<char>, v: Seq<char>| #![trigger tags_view(r@).contains((k, v))]
            tags_view(r@).contains((k, v)) <==> folder_has(files_view(files@), k, v),
        forall|k: Seq<char>| #![trigger name_in(tags_view(r@), k)]
            name_in(tags_view(r@), k) <==> folder_key(files_view(files@), k),
{
    let ghost fv = files_view(files@);
    let ghost t0 = tags_view(first@);
    let mut out: Tags = Vec::new();
    let mut j: usize = 0;
    while j < first.len()
        invariant
            j <= first@.len(),
            fv == files_view(files@),
            t0 == tags_view(first@),
            fv.len() > 0,
            fv[0] == Some(t0),
            distinct_names(t0),
            forall|x: int| #![trigger tags_view(out@)[x]] 0 <= x < out@.len() ==> exists|a: int| 0 <= a < j && #[trigger] t0[a] == tags_view(out@)[x],
            forall|x: int| 0 <= x < out@.len() ==> #[trigger] folder_has(fv, tags_view(out@)[x].0, tags_view(out@)[x].1),
            forall|a: int| 0 <= a < j && folder_has(fv, #[trigger] t0[a].0, t0[a].1) ==> tags_view(out@).contains(t0[a]),
            distinct_names(tags_view(out@)),
        decreases first@.len() - j,
    {
        let k = first[j].0.as_str();
        let v = first[j].1.as_str();
        assert(t0[j as int] == (k@, v@));
        if all_have_pair(files, k, v) {
            let ghost o = tags_view(out@);
            let p = clone_pair(&first[j]);
            out.push(p);
            proof {
                let nv = tags_view(out@);
                assert(nv =~= o.push((k@, v@)));
                assert(nv[nv.len() - 1] == t0[j as int]);
                assert forall|x: int| #![trigger tags_view(out@)[x]] 0 <= x < out@.len() implies exists|a: int| 0 <= a < j + 1 && #[trigger] t0[a] == tags_view(out@)[x] by {
                    if x < o.len() {
                        assert(nv[x] == o[x]);
                    }
                };
                assert forall|x: int| 0 <= x < out@.len() implies #[trigger] folder_has(fv, tags_view(out@)[x].0, tags_view(out@)[x].1) by {
                    if x < o.len() {
                        assert(nv[x] == o[x]);
                    }
                };
                assert forall|a: int| 0 <= a < j + 1 && folder_has(fv, #[trigger] t0[a].0, t0[a].1) implies tags_view(out@).contains(t0[a]) by {
                    if a < j {
                        assert(o.contains(t0[a]));
                        let x = choose|x: int| 0 <= x < o.len() && o[x] == t0[a];
                        assert(nv[x] == o[x]);
                    } else {
                        assert(nv[nv.len() - 1] == t0[a]);
                    }
                };
                assert forall|x: int, y: int| 0 <= x < y < nv.len() implies nv[x].0 != nv[y].0 by {
                    if y == nv.len() - 1 {
                        assert(nv[x] == o[x]);
                        let a = choose|a: int| 0 <= a < j && #[trigger] t0[a] == o[x];
                        assert(a != j);
                    } else {
                        assert(nv[x] == o[x] && nv[y] == o[y]);
                    }
                };
            }
        } else {
            proof {
                assert forall|a: int| 0 <= a < j + 1 && folder_has(fv, #[trigger] t0[a].0, t0[a].1) implies tags_view(out@).contains(t0[a]) by {
                    if a == j {
                        assert(folder_has(fv, k@, v@));
                        assert(forall|i: int| 0 <= i < files@.len() ==> #[trigger] file_has(files_view(files@)[i], k@, v@));
                    }
                };
            }
        }
        j = j + 1;
    }
    proof {
        let rv = tags_view(out@);
        assert forall|k: Seq<char>, v: Seq<char>| #![trigger rv.contains((k, v))] rv.contains((k, v)) <==> folder_has(fv, k, v) by {
            if rv.contains((k, v)) {
                let x = choose|x: int| 0 <= x < rv.len() && rv[x] == (k, v);
                assert(folder_has(fv, rv[x].0, rv[x].1));
            }
            if folder_has(fv, k, v) {
                assert(file_has(fv[0], k, v));
                let a = choose|a: int| 0 <= a < t0.len() && t0[a] == (k, v);
                assert(folder_has(fv, t0[a].0, t0[a].1));
            }
        };
        assert forall|k: Seq<char>| #![trigger name_in(rv, k)] name_in(rv, k) <==> folder_key(fv, k) by {
            if name_in(rv, k) {
                let x = choose|x: int| 0 <= x < rv.len() && #[trigger] rv[x].0 == k;
                assert(folder_has(fv, rv[x].0, rv[x].1));
            }
            if folder_key(fv, k) {
                let v = choose|v: Seq<char>| #[trigger] folder_has(fv, k, v);
                assert(file_has(fv[0], k, v));
                let a = choose|a: int| 0 <= a < t0.len() && t0[a] == (k, v);
                assert(folder_has(fv, t0[a].0, t0[a].1));
                assert(rv.contains(t0[a]));
                let x = choose|x: int| 0 <= x < rv.len() && rv[x] == t0[a];
                assert(rv[x].0 == k);
            }
        };
    }
    out
}

/// The tags of `p` whose names are not in `folder`.
fn drop_names(p: &Tags, folder: &Tags, Ghost(files): Ghost<Seq<Option<Seq<(Seq<char>, Seq<char>)>>>>) -> (r: Tags)
    requires
        forall|k: Seq<char>| #![trigger name_in(tags_view(folder@), k)] name_in(tags_view(folder@), k) <==> folder_key(files, k),
    ensures
        tags_view(r@) == drop_folder_keys(files, tags_view(p@)),
{
    let ghost pv = tags_view(p@);
    let mut out: Tags = Vec::new();
    let mut j: usize = 0;
    while j < p.len()
        invariant
            j <= p@.len(),
            pv == tags_view(p@),
            forall|k: Seq<char>| #![trigger name_in(tags_view(folder@), k)] name_in(tags_view(folder@), k) <==> folder_key(files, k),
            tags_view(out@) == drop_folder_keys(files, pv.take(j as int)),
        decreases p@.len() - j,
    {
        let k = p[j].0.as_str();
        let inf = has_name(folder, k);
        proof {
            assert(pv.take(j + 1).drop_last() =~= pv.take(j as int));
            assert(pv.take(j + 1).last() == pv[j as int]);
            assert(pv[j as int].0 == k@);
            if inf {
                let a = choose|a: int| 0 <= a < folder@.len() && #[trigger] folder@[a].0@ == k@;
                assert(tags_view(folder@)[a].0 == k@);
            }
            if name_in(tags_view(folder@), k@) {
                let a = choose|a: int| 0 <= a < tags_view(folder@).len() && #[trigger] tags_view(folder@)[a].0 == k@;
                assert(folder@[a].0@ == k@);
            }
            assert(inf == folder_key(files, k@));
        }
        if !inf {
            let ghost o = tags_view(out@);
            let q = clone_pair(&p[j]);
            out.push(q);
            assert(tags_view(out@) =~= o.push(pv[j as int]));
        }
        j = j + 1;
    }
    assert(pv.take(p@.len() as int) =~= pv);
    out
}

/// Takes the tags that are the same in all files of a folder out of the
/// files and gives them back as the folder's tags; none where there are
/// none. Nothing is done where the folder has no files or its first file
/// has no tags. Each file's tags name each tag once.
pub fn extract_folder_tags(files: &mut Vec<Option<Tags>>) -> (r: Option<Tags>)
    requires
        forall|i: int| 0 <= i < old(files)@.len() ==> (#[trigger] files_view(old(files)@)[i] matches Some(t) ==> distinct_names(t)),
    ensures
        !folder_tags_apply(files_view(old(files)@)) ==> r is None && files_view(final(files)@) == files_view(old(files)@),
        folder_tags_apply(files_view(old(files)@)) ==> {
            let fs = files_view(old(files)@);
            &&& files_view(final(files)@) == fs.map_values(
                |t: Option<Seq<(Seq<char>, Seq<char>)>>| remaining_tags(fs, t),
            )
            &&& match r {
                Some(t) => tags_view(t@).len() > 0 && distinct_names(tags_view(t@)) && (forall|k: Seq<char>, v: Seq<char>|
                    #![trigger tags_view(t@).contains((k, v))] tags_view(t@).contains((k, v)) <==> folder_has(fs, k, v)),
                None => forall|k: Seq<char>| !folder_key(fs, k),
            }
        },
{
    if files.len() == 0 {
        return None;
    }
    let ghost before = files_view(files@);
    let folder = match &files[0] {
        None => {
            return None;
        },
        Some(first) => {
            assert(before[0] == Some(tags_view(first@)));
            shared_tags(files, first)
        },
    };
    let n = files.len();
    let mut i: usize = 0;
    while i < n
        invariant
            n == files@.len(),
            n == before.len(),
            i <= n,
            forall|k: Seq<char>| #![trigger name_in(tags_view(folder@), k)] name_in(tags_view(folder@), k) <==> folder_key(before, k),
            forall|j: int| 0 <= j < i ==> files_view(files@)[j] == remaining_tags(before, before[j]),
            forall|j: int| i <= j < n ==> files_view(files@)[j] == before[j],
        decreases n - i,
    {
        let ghost cur = files_view(files@);
        let new_tags = match &files[i] {
            Some(p) => {
                let q = drop_names(p, &folder, Ghost(before));
                assert(cur[i as int] == Some(tags_view(p@)));
                if q.len() == 0 {
                    None
                } else {
                    Some(q)
                }
            },
            None => None,
        };
        files.set(i, new_tags);
        proof {
            assert forall|j: int| 0 <= j < n implies #[trigger] files_view(files@)[j] == (if j == i { remaining_tags(before, before[j]) } else { cur[j] }) by {
                if j != i {
                    assert(files@[j] == old_files_elem(files@, j));
                }
            };
        }
        i = i + 1;
    }
    proof {
        assert(files_view(files@) =~= before.map_values(|t: Option<Seq<(Seq<char>, Seq<char>)>>| remaining_tags(before, t)));
    }
    if folder.len() == 0 {
        proof {
            assert forall|k: Seq<char>| !folder_key(before, k) by {
                if folder_key(before, k) {
                    assert(name_in(tags_view(folder@), k));
                }
            };
        }
        None
    } else {
        Some(folder)
    }
}

spec fn old_files_elem(s: Seq<Option<Tags>>, j: int) -> Option<Tags> {
    s[j]
}

} // verus!
