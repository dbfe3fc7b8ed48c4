//! Playlists (`.m3u`, `.m3u8`) that order the audio files of a folder and
//! may reach into its subfolders.
use vstd::prelude::*;
use crate::audio_meta::{is_audio, spec_is_audio};
use crate::util::{
    components_view, path_components, path_extension, path_is_absolute, spec_path_components,
    spec_path_extension, spec_path_is_absolute, spec_trim, str_equal, str_trim, PathComponent,
    PathComponentV,
};

verus! {

/// Whether a path names a playlist: its extension is `m3u` or `m3u8`.
pub fn is_playlist(path: &str) -> (r: bool)
    ensures
        r == match spec_path_extension(path@) {
            Some(e) => e == seq!['m', '3', 'u'] || e == seq!['m', '3', 'u', '8'],
            None => false,
        },
{
    match path_extension(path) {
        Some(ext) => {
            proof {
                reveal_strlit("m3u");
                assert("m3u"@ =~= seq!['m', '3', 'u']);
                reveal_strlit("m3u8");
                assert("m3u8"@ =~= seq!['m', '3', 'u', '8']);
            }
            str_equal(ext.as_str(), "m3u") || str_equal(ext.as_str(), "m3u8")
        },
        None => false,
    }
}

/// A line of a playlist, read as a path relative to the playlist's folder.
#[derive(Clone, Debug, PartialEq, Eq)]
pub enum PlaylistItem {
    /// a file in the folder itself
    CurrentDir(String),
    /// a file in a subfolder (the path, then the subfolder)
    Subdir(String, String),
    /// a path that a playlist may not hold
    Illegal(String),
}

pub enum PlaylistItemV {
    CurrentDir(Seq<char>),
    Subdir(Seq<char>, Seq<char>),
    Illegal(Seq<char>),
}

impl View for PlaylistItem {
    type V = PlaylistItemV;

    open spec fn view(&self) -> PlaylistItemV {
        match self {
            PlaylistItem::CurrentDir(p) => PlaylistItemV::CurrentDir(p@),
            PlaylistItem::Subdir(p, d) => PlaylistItemV::Subdir(p@, d@),
            PlaylistItem::Illegal(p) => PlaylistItemV::Illegal(p@),
        }
    }
}

impl PlaylistItem {
    /// The path of the item.
    pub fn path(&self) -> (r: &String)
        ensures
            r@ == item_path(self@),
    {
        match self {
            PlaylistItem::CurrentDir(p) => p,
            PlaylistItem::Subdir(p, _) => p,
            PlaylistItem::Illegal(p) => p,
        }
    }
}

pub open spec fn item_path(i: PlaylistItemV) -> Seq<char> {
    match i {
        PlaylistItemV::CurrentDir(p) => p,
        PlaylistItemV::Subdir(p, _) => p,
        PlaylistItemV::Illegal(p) => p,
    }
}

pub open spec fn all_normal(cs: Seq<PathComponentV>) -> bool {
    forall|i: int| 0 <= i < cs.len() ==> #[trigger] cs[i] is Normal
}

/// A relative path of one to four plain names: in the folder for one name,
/// else in the subfolder of the first name.
pub open spec fn spec_validate_path(p: Seq<char>) -> PlaylistItemV {
    let cs = spec_path_components(p);
    if spec_path_is_absolute(p) || cs.len() > 4 || cs.len() < 1 || !all_normal(cs) {
        PlaylistItemV::Illegal(p)
    } else if cs.len() == 1 {
        PlaylistItemV::CurrentDir(p)
    } else {
        PlaylistItemV::Subdir(p, cs[0]->Normal_0)
    }
}

/// How a playlist may hold the path `p`.
pub fn validate_path(p: &str) -> (r: PlaylistItem)
    ensures
        r@ == spec_validate_path(p@),
{
    if path_is_absolute(p) {
        return PlaylistItem::Illegal(p.to_owned());
    }
    let segments = path_components(p);
    let sz = segments.len();
    proof {
        assert(components_view(segments@).len() == segments@.len());
    }
    if sz > 4 || sz < 1 {
        return PlaylistItem::Illegal(p.to_owned());
    }
    let mut i: usize = 0;
    while i < sz
        invariant
            sz == segments@.len(),
            components_view(segments@) == spec_path_components(p@),
            i <= sz,
            forall|j: int| 0 <= j < i ==> #[trigger] components_view(segments@)[j] is Normal,
        decreases sz - i,
    {
        match &segments[i] {
            PathComponent::Normal(_) => {},
            PathComponent::Other => {
                proof {
                    assert(segments@[i as int] == PathComponent::Other);
                    assert(components_view(segments@)[i as int] == segments@[i as int]@);
                    assert(!(spec_path_components(p@)[i as int] is Normal));
                    assert(!all_normal(spec_path_components(p@)));
                }
                return PlaylistItem::Illegal(p.to_owned());
            },
        }
        i += 1;
    }
    if sz == 1 {
        PlaylistItem::CurrentDir(p.to_owned())
    } else {
        match &segments[0] {
            PathComponent::Normal(d) => PlaylistItem::Subdir(p.to_owned(), d.clone()),
            PathComponent::Other => PlaylistItem::Illegal(p.to_owned()),
        }
    }
}

/// What a line of a playlist offers: nothing (a comment, an empty line or an
/// illegal path), or an item to be checked for existence.
pub open spec fn spec_line_candidate(line: Seq<char>) -> Option<PlaylistItemV> {
    let l = spec_trim(line);
    if l.len() == 0 || l[0] == '#' {
        None
    } else {
        let item = spec_validate_path(l);
        if item is Illegal || !spec_is_audio(l) {
            None
        } else {
            Some(item)
        }
    }
}

/// The item a playlist line offers, where it offers one: a trimmed line that
/// is no comment, is a legal path and names an audio file.
pub fn line_candidate(line: &str) -> (r: Option<PlaylistItem>)
    ensures
        match spec_line_candidate(line@) {
            Some(i) => r matches Some(x) && x@ == i,
            None => r is None,
        },
{
    let l = str_trim(line);
    if l.unicode_len() == 0 || l.get_char(0) == '#' {
        return None;
    }
    let item = validate_path(l);
    match item {
        PlaylistItem::Illegal(_) => None,
        _ => if is_audio(l) {
            Some(item)
        } else {
            None
        },
    }
}

/// A playlist: its items in order and the subfolders they reach into.
pub struct Playlist {
    items: Vec<String>,
    covered_dirs: Vec<String>,
    path: String,
}

pub open spec fn strings_view(v: Seq<String>) -> Seq<Seq<char>> {
    v.map_values(|s: String| s@)
}

pub open spec fn items_paths(items: Seq<PlaylistItemV>) -> Seq<Seq<char>> {
    items.map_values(|i: PlaylistItemV| item_path(i))
}

/// The subfolder an item lies in, where it lies in one.
pub open spec fn item_subdir(i: PlaylistItemV) -> Option<Seq<char>> {
    match i {
        PlaylistItemV::Subdir(_, d) => Some(d),
        _ => None,
    }
}

impl Playlist {
    #[verifier::type_invariant]
    spec fn dirs_distinct(&self) -> bool {
        strings_view(self.covered_dirs@).no_duplicates()
    }

    pub closed spec fn items_v(&self) -> Seq<Seq<char>> {
        strings_view(self.items@)
    }

    /// The subfolders the items reach into, each once.
    pub closed spec fn covered_v(&self) -> Set<Seq<char>> {
        strings_view(self.covered_dirs@).to_set()
    }

    pub closed spec fn path_v(&self) -> Seq<char> {
        self.path@
    }

    /// The playlist at `path` of the given items, in the order of its lines
    /// (items found and of legal form).
    pub fn new(path: String, found: Vec<PlaylistItem>) -> (r: Playlist)
        ensures
            r.path_v() == path@,
            r.items_v() == items_paths(found@.map_values(|i: PlaylistItem| i@)),
            forall|d: Seq<char>|
                #![trigger r.covered_v().contains(d)]
                r.covered_v().contains(d) <==> exists|k: int|
                    0 <= k < found@.len() && item_subdir(#[trigger] found@[k]@) == Some(d),
    {
        let ghost fv = found@.map_values(|i: PlaylistItem| i@);
        let mut items: Vec<String> = Vec::new();
        let mut covered_dirs: Vec<String> = Vec::new();
        let mut k: usize = 0;
        while k < found.len()
            invariant
                k <= found@.len(),
                fv == found@.map_values(|i: PlaylistItem| i@),
                strings_view(items@) == items_paths(fv.subrange(0, k as int)),
                strings_view(covered_dirs@).no_duplicates(),
                forall|d: Seq<char>|
                    #![trigger strings_view(covered_dirs@).contains(d)]
                    strings_view(covered_dirs@).contains(d) <==> exists|j: int|
                        0 <= j < k && item_subdir(#[trigger] found@[j]@) == Some(d),
            decreases found@.len() - k,
        {
            proof {
                assert(fv.subrange(0, k + 1) =~= fv.subrange(0, k as int).push(found@[k as int]@));
            }
            let p = found[k].path().clone();
            let ghost old_cov = strings_view(covered_dirs@);
            match &found[k] {
                PlaylistItem::Subdir(_, d) => {
                    if !contains_string(&covered_dirs, d) {
                        let dc = d.clone();
                        proof {
                            assert(strings_view(covered_dirs@.push(dc)) =~= strings_view(
                                covered_dirs@,
                            ).push(d@));
                        }
                        covered_dirs.push(dc);
                    }
                },
                _ => {},
            }
            proof {
                assert forall|d: Seq<char>|
                    strings_view(covered_dirs@).contains(d) <==> (old_cov.contains(d)
                        || item_subdir(found@[k as int]@) == Some(d)) by {
                    if strings_view(covered_dirs@).contains(d) && !old_cov.contains(d) {
                        let j = choose|j: int|
                            0 <= j < strings_view(covered_dirs@).len() && strings_view(
                                covered_dirs@,
                            )[j] == d;
                        assert(j == old_cov.len());
                    }
                    if old_cov.contains(d) {
                        let j = choose|j: int| 0 <= j < old_cov.len() && old_cov[j] == d;
                        assert(strings_view(covered_dirs@)[j] == d);
                    }
                    if item_subdir(found@[k as int]@) == Some(d) && !old_cov.contains(d) {
                        assert(strings_view(covered_dirs@)[old_cov.len() as int] == d);
                    }
                }
                assert(strings_view(items@.push(p)) =~= strings_view(items@).push(p@));
                assert(items_paths(fv.subrange(0, k as int).push(found@[k as int]@)) =~= items_paths(
                    fv.subrange(0, k as int),
                ).push(item_path(found@[k as int]@)));
                assert forall|d: Seq<char>|
                    #![trigger strings_view(covered_dirs@).contains(d)]
                    strings_view(covered_dirs@).contains(d) <==> exists|j: int|
                        0 <= j < k + 1 && item_subdir(#[trigger] found@[j]@) == Some(d) by {
                    if exists|j: int| 0 <= j < k + 1 && item_subdir(#[trigger] found@[j]@) == Some(d) {
                        let j = choose|j: int| 0 <= j < k + 1 && item_subdir(#[trigger] found@[j]@) == Some(d);
                        if j < k {
                            assert(exists|j2: int| 0 <= j2 < k && item_subdir(#[trigger] found@[j2]@) == Some(d));
                            assert(old_cov.contains(d));
                        }
                    }
                    if old_cov.contains(d) {
                        assert(exists|j2: int| 0 <= j2 < k && item_subdir(#[trigger] found@[j2]@) == Some(d));
                        let j2 = choose|j2: int| 0 <= j2 < k && item_subdir(#[trigger] found@[j2]@) == Some(d);
                        assert(0 <= j2 < k + 1 && item_subdir(found@[j2]@) == Some(d));
                    }
                }
            }
            items.push(p);
            k += 1;
        }
        proof {
            assert(fv.subrange(0, found@.len() as int) =~= fv);
            assert forall|d: Seq<char>|
                #![trigger strings_view(covered_dirs@).to_set().contains(d)]
                strings_view(covered_dirs@).to_set().contains(d) <==> strings_view(covered_dirs@).contains(d) by {}
        }
        Playlist { items, covered_dirs, path }
    }

    /// The paths of the items, in order.
    pub fn to_items(self) -> (r: Vec<String>)
        ensures
            strings_view(r@) == self.items_v(),
    {
        self.items
    }

    /// Whether the playlist reaches into the subfolder `p`.
    pub fn is_covering(&self, p: &str) -> (r: bool)
        ensures
            r == self.covered_v().contains(p@),
    {
        let r = contains_str(&self.covered_dirs, p);
        proof {
            assert(strings_view(self.covered_dirs@).to_set().contains(p@) <==> strings_view(
                self.covered_dirs@,
            ).contains(p@));
        }
        r
    }

    /// The path of the playlist file.
    pub fn path(&self) -> (r: &str)
        ensures
            r@ == self.path_v(),
    {
        self.path.as_str()
    }

    /// Whether any item lies in a subfolder.
    pub fn has_subfolders(&self) -> (r: bool)
        ensures
            r == (self.covered_v().len() > 0),
    {
        proof {
            use_type_invariant(self);
            strings_view(self.covered_dirs@).unique_seq_to_set();
            if self.covered_dirs@.len() > 0 {
                assert(strings_view(self.covered_dirs@).len() > 0);
            }
        }
        self.covered_dirs.len() != 0
    }
}

/// The subfolder a path of two to four plain components lies in: its first
/// component.
pub open spec fn subdir_of_path(p: Seq<char>) -> Option<Seq<char>> {
    let cs = spec_path_components(p);
    if 2 <= cs.len() <= 4 && cs[0] is Normal {
        Some(cs[0]->Normal_0)
    } else {
        None
    }
}

/// A playlist made of legal items (as `line_candidate` offers them), as
/// `Playlist::new` makes it: it reaches into the subfolder `d` exactly where
/// one of its items has two to four plain components, the first named `d`;
/// and it has subfolders exactly where one of its items has two or more
/// components.
pub proof fn lemma_covering_of_legal_items(pl: Playlist, found: Seq<PlaylistItemV>, d: Seq<char>)
    requires
        forall|k: int| 0 <= k < found.len() ==> #[trigger] found[k] == spec_validate_path(item_path(found[k]))
            && !(found[k] is Illegal),
        pl.items_v() == items_paths(found),
        forall|x: Seq<char>|
            #![trigger pl.covered_v().contains(x)]
            pl.covered_v().contains(x) <==> exists|k: int| 0 <= k < found.len() && item_subdir(#[trigger] found[k]) == Some(x),
    ensures
        pl.covered_v().contains(d) <==> exists|k: int|
            0 <= k < pl.items_v().len() && subdir_of_path(#[trigger] pl.items_v()[k]) == Some(d),
        (pl.covered_v().len() > 0) <==> exists|k: int|
            0 <= k < pl.items_v().len() && spec_path_components(#[trigger] pl.items_v()[k]).len() >= 2,
{
    assert forall|k: int| 0 <= k < found.len() implies {
        &&& pl.items_v()[k] == item_path(found[k])
        &&& item_subdir(#[trigger] found[k]) == subdir_of_path(item_path(found[k]))
        &&& (item_subdir(found[k]) is Some <==> spec_path_components(item_path(found[k])).len() >= 2)
    } by {
        let p = item_path(found[k]);
        let cs = spec_path_components(p);
        assert(found[k] == spec_validate_path(p));
        if cs.len() >= 1 && cs.len() <= 4 && all_normal(cs) {
            if cs.len() >= 2 {
                assert(cs[0] is Normal);
            }
        }
    }
    if pl.covered_v().contains(d) {
        let k = choose|k: int| 0 <= k < found.len() && item_subdir(#[trigger] found[k]) == Some(d);
        assert(subdir_of_path(pl.items_v()[k]) == Some(d));
    }
    if exists|k: int| 0 <= k < pl.items_v().len() && subdir_of_path(#[trigger] pl.items_v()[k]) == Some(d) {
        let k = choose|k: int| 0 <= k < pl.items_v().len() && subdir_of_path(#[trigger] pl.items_v()[k]) == Some(d);
        assert(item_subdir(found[k]) == Some(d));
        assert(pl.covered_v().contains(d));
    }
    broadcast use vstd::seq_lib::seq_to_set_is_finite;
    assert(pl.covered_v().finite());
    if pl.covered_v().len() > 0 {
        vstd::set_lib::lemma_set_empty_equivalency_len(pl.covered_v());
        let x = choose|x: Seq<char>| pl.covered_v().contains(x);
        assert(pl.covered_v().contains(x));
        let k = choose|k: int| 0 <= k < found.len() && item_subdir(#[trigger] found[k]) == Some(x);
        assert(spec_path_components(pl.items_v()[k]).len() >= 2);
    }
    if exists|k: int| 0 <= k < pl.items_v().len() && spec_path_components(#[trigger] pl.items_v()[k]).len() >= 2 {
        let k = choose|k: int| 0 <= k < pl.items_v().len() && spec_path_components(#[trigger] pl.items_v()[k]).len() >= 2;
        let x = item_subdir(found[k])->Some_0;
        assert(item_subdir(found[k]) == Some(x));
        assert(pl.covered_v().contains(x));
        vstd::set_lib::lemma_set_empty_equivalency_len(pl.covered_v());
        if pl.covered_v().len() == 0 {
            assert(!Set::<Seq<char>>::empty().contains(x));
        }
    }
}

/// The items that the lines `lines` offer (see `spec_line_candidate`) and
/// whose files are present, as `present` says of each line.
pub open spec fn kept_items(lines: Seq<Seq<char>>, present: Seq<bool>) -> Seq<PlaylistItemV>
    decreases lines.len(),
{
    if lines.len() == 0 || present.len() == 0 {
        Seq::empty()
    } else {
        let before = kept_items(lines.drop_last(), present.drop_last());
        match spec_line_candidate(lines.last()) {
            Some(i) => if present.last() {
                before.push(i)
            } else {
                before
            },
            None => before,
        }
    }
}

proof fn lemma_kept_items_legal(lines: Seq<Seq<char>>, present: Seq<bool>)
    ensures
        forall|k: int| 0 <= k < kept_items(lines, present).len() ==> #[trigger] kept_items(lines, present)[k]
            == spec_validate_path(item_path(kept_items(lines, present)[k])) && !(kept_items(lines, present)[k] is Illegal),
    decreases lines.len(),
{
    if lines.len() > 0 && present.len() > 0 {
        lemma_kept_items_legal(lines.drop_last(), present.drop_last());
        let before = kept_items(lines.drop_last(), present.drop_last());
        let all = kept_items(lines, present);
        assert forall|k: int| 0 <= k < all.len() implies #[trigger] all[k] == spec_validate_path(item_path(all[k]))
            && !(all[k] is Illegal) by {
            if k < before.len() {
                assert(all[k] == before[k]);
            } else {
                let l = spec_trim(lines.last());
                assert(all[k] == spec_validate_path(l));
            }
        }
    }
}

impl Playlist {
    /// The playlist at `path` of the items its lines offer whose files are
    /// present (`present` says it of each line), in the order of the lines.
    /// It reaches into the subfolder `d` exactly where one of its items has
    /// two to four plain components, the first named `d`; and it has
    /// subfolders exactly where one of its items has two or more components.
    pub fn from_lines(path: String, lines: &Vec<String>, present: &Vec<bool>) -> (r: Playlist)
        requires
            lines@.len() == present@.len(),
        ensures
            r.path_v() == path@,
            r.items_v() == items_paths(kept_items(strings_view(lines@), present@)),
            forall|d: Seq<char>|
                #![trigger r.covered_v().contains(d)]
                r.covered_v().contains(d) <==> exists|k: int|
                    0 <= k < r.items_v().len() && subdir_of_path(#[trigger] r.items_v()[k]) == Some(d),
            (r.covered_v().len() > 0) <==> exists|k: int|
                0 <= k < r.items_v().len() && spec_path_components(#[trigger] r.items_v()[k]).len() >= 2,
    {
        let ghost lv = strings_view(lines@);
        let mut found: Vec<PlaylistItem> = Vec::new();
        let mut k: usize = 0;
        while k < lines.len()
            invariant
                k <= lines@.len(),
                lines@.len() == present@.len(),
                lv == strings_view(lines@),
                found@.map_values(|i: PlaylistItem| i@) == kept_items(lv.take(k as int), present@.take(k as int)),
            decreases lines@.len() - k,
        {
            proof {
                assert(lv.take(k + 1).drop_last() =~= lv.take(k as int));
                assert(present@.take(k + 1).drop_last() =~= present@.take(k as int));
                assert(lv.take(k + 1).last() == lines@[k as int]@);
                assert(present@.take(k + 1).last() == present@[k as int]);
            }
            let ghost before = found@.map_values(|i: PlaylistItem| i@);
            match line_candidate(lines[k].as_str()) {
                Some(item) => {
                    if present[k] {
                        let ghost iv = item@;
                        found.push(item);
                        proof {
                            assert(found@.map_values(|i: PlaylistItem| i@) =~= before.push(iv));
                        }
                    }
                },
                None => {},
            }
            k = k + 1;
        }
        proof {
            assert(lv.take(lines@.len() as int) =~= lv);
            assert(present@.take(lines@.len() as int) =~= present@);
        }
        let ghost fv = found@.map_values(|i: PlaylistItem| i@);
        let ghost fs = found@;
        let r = Playlist::new(path, found);
        proof {
            lemma_kept_items_legal(lv, present@);
            assert forall|x: Seq<char>|
                #![trigger r.covered_v().contains(x)]
                r.covered_v().contains(x) <==> exists|k: int| 0 <= k < fv.len() && item_subdir(#[trigger] fv[k]) == Some(x) by {
                if r.covered_v().contains(x) {
                    let k = choose|k: int| 0 <= k < fs.len() && item_subdir(#[trigger] fs[k]@) == Some(x);
                    assert(fv[k] == fs[k]@);
                }
                if exists|k: int| 0 <= k < fv.len() && item_subdir(#[trigger] fv[k]) == Some(x) {
                    let k = choose|k: int| 0 <= k < fv.len() && item_subdir(#[trigger] fv[k]) == Some(x);
                    assert(fv[k] == fs[k]@);
                    assert(item_subdir(fs[k]@) == Some(x));
                }
            }
            assert forall|d: Seq<char>| r.covered_v().contains(d) <==> exists|k: int|
                0 <= k < r.items_v().len() && subdir_of_path(#[trigger] r.items_v()[k]) == Some(d) by {
                lemma_covering_of_legal_items(r, fv, d);
            }
            lemma_covering_of_legal_items(r, fv, Seq::empty());
        }
        r
    }
}

fn contains_str(v: &Vec<String>, s: &str) -> (r: bool)
    ensures
        r == strings_view(v@).contains(s@),
{
    let mut i: usize = 0;
    while i < v.len()
        invariant
            i <= v@.len(),
            forall|j: int| 0 <= j < i ==> strings_view(v@)[j] != s@,
        decreases v@.len() - i,
    {
        if str_equal(v[i].as_str(), s) {
            proof {
                assert(strings_view(v@)[i as int] == s@);
            }
            return true;
        }
        i += 1;
    }
    false
}

fn contains_string(v: &Vec<String>, s: &String) -> (r: bool)
    ensures
        r == strings_view(v@).contains(s@),
{
    contains_str(v, s.as_str())
}

} // verus!
