//! Options of a collection, and how a text such as
//! `no-cache,chapters-duration=44,tags=title+album` changes them.
use vstd::prelude::*;
use crate::numbers::{parse_u32, spec_parse_u32};
use crate::util::{
    ascii_lowercase, spec_ascii_lowercase, spec_trim, split_char, split_on, str_equal, str_trim,
    string_views,
};

verus! {

/// Minimum chapter duration for splitting, in minutes.
pub const MINIMUM_CHAPTER_DURATION: u32 = 10;

/// Why a text of options was refused.
#[derive(Clone, Copy, Debug, PartialEq, Eq, Structural)]
pub enum OptionError {
    /// A flag with a value other than `true` or `false`.
    InvalidBool,
    /// A number option whose value is not a number.
    NotInteger,
    /// A number option without a value.
    ValueRequired,
    /// A chapter duration below the minimum.
    ChapterTooShort,
    /// A tag that is not one of the known tags.
    TagNotAllowed,
    /// The option `tags` without a value.
    TagsRequired,
    /// An option that is not known.
    UnknownOption,
}

/// Options of one collection.
pub struct CollectionOptions {
    pub no_cache: bool,
    /// length of a part when a long file is split, in minutes
    pub chapters_duration: u32,
    /// length from which a file counts as long, in minutes
    pub chapters_from_duration: u32,
    pub ignore_chapters_meta: bool,
    pub allow_symlinks: bool,
    pub no_dir_collaps: bool,
    pub natural_files_ordering: bool,
    /// the tags to read from audio files, each once
    pub tags: Option<Vec<String>>,
    pub cd_folder_regex_str: Option<String>,
    pub force_cache_update_on_init: bool,
    pub passive_init: bool,
    /// time before the end of the last file at which a folder counts as finished
    pub time_to_end_of_folder: u32,
}

pub struct CollectionOptionsV {
    pub no_cache: bool,
    pub chapters_duration: u32,
    pub chapters_from_duration: u32,
    pub ignore_chapters_meta: bool,
    pub allow_symlinks: bool,
    pub no_dir_collaps: bool,
    pub natural_files_ordering: bool,
    pub tags: Option<Seq<Seq<char>>>,
    pub cd_folder_regex_str: Option<Seq<char>>,
    pub force_cache_update_on_init: bool,
    pub passive_init: bool,
    pub time_to_end_of_folder: u32,
}

impl View for CollectionOptions {
    type V = CollectionOptionsV;

    open spec fn view(&self) -> CollectionOptionsV {
        CollectionOptionsV {
            no_cache: self.no_cache,
            chapters_duration: self.chapters_duration,
            chapters_from_duration: self.chapters_from_duration,
            ignore_chapters_meta: self.ignore_chapters_meta,
            allow_symlinks: self.allow_symlinks,
            no_dir_collaps: self.no_dir_collaps,
            natural_files_ordering: self.natural_files_ordering,
            tags: match self.tags {
                Some(t) => Some(string_views(t@)),
                None => None,
            },
            cd_folder_regex_str: match self.cd_folder_regex_str {
                Some(r) => Some(r@),
                None => None,
            },
            force_cache_update_on_init: self.force_cache_update_on_init,
            passive_init: self.passive_init,
            time_to_end_of_folder: self.time_to_end_of_folder,
        }
    }
}

pub open spec fn default_options() -> CollectionOptionsV {
    CollectionOptionsV {
        no_cache: false,
        chapters_duration: 0,
        chapters_from_duration: 30,
        ignore_chapters_meta: false,
        allow_symlinks: false,
        no_dir_collaps: false,
        natural_files_ordering: true,
        tags: None,
        cd_folder_regex_str: None,
        force_cache_update_on_init: false,
        passive_init: false,
        time_to_end_of_folder: 10,
    }
}

impl Default for CollectionOptions {
    fn default() -> (r: CollectionOptions)
        ensures
            r@ == default_options(),
    {
        CollectionOptions {
            no_cache: false,
            chapters_duration: 0,
            chapters_from_duration: 30,
            ignore_chapters_meta: false,
            allow_symlinks: false,
            no_dir_collaps: false,
            natural_files_ordering: true,
            tags: None,
            cd_folder_regex_str: None,
            force_cache_update_on_init: false,
            passive_init: false,
            time_to_end_of_folder: 10,
        }
    }
}

/// The index of the first `c` in `s` at or after `i`, or the length of `s`.
pub open spec fn first_index_from(s: Seq<char>, c: char, i: int) -> int
    decreases s.len() - i,
{
    if i >= s.len() {
        s.len() as int
    } else if s[i] == c {
        i
    } else {
        first_index_from(s, c, i + 1)
    }
}

/// An option split at its first `=` into name and value.
pub open spec fn split_once_eq(item: Seq<char>) -> (Seq<char>, Option<Seq<char>>) {
    let k = first_index_from(item, '=', 0);
    if k < item.len() {
        (item.subrange(0, k), Some(item.subrange(k + 1, item.len() as int)))
    } else {
        (item, None)
    }
}

/// The value of a flag: `true` where it has none.
pub open spec fn bool_value(val: Option<Seq<char>>) -> Result<bool, OptionError> {
    match val {
        None => Ok(true),
        Some(s) => if spec_ascii_lowercase(s) == "true"@ {
            Ok(true)
        } else if spec_ascii_lowercase(s) == "false"@ {
            Ok(false)
        } else {
            Err(OptionError::InvalidBool)
        },
    }
}

/// The value of a number option.
pub open spec fn u32_value(val: Option<Seq<char>>) -> Result<u32, OptionError> {
    match val {
        None => Err(OptionError::ValueRequired),
        Some(s) => match spec_parse_u32(s) {
            Some(v) => Ok(v),
            None => Err(OptionError::NotInteger),
        },
    }
}

pub open spec fn is_allowed_tag(t: Seq<char>) -> bool {
    t == "album"@ || t == "album_artist"@ || t == "artist"@ || t == "comment"@
        || t == "composer"@ || t == "copyright"@ || t == "creation_time"@ || t == "date"@
        || t == "disc"@ || t == "encoder"@ || t == "encoded_by"@ || t == "filename"@
        || t == "genre"@ || t == "language"@ || t == "performer"@ || t == "publisher"@
        || t == "service_name"@ || t == "service_provider"@ || t == "title"@ || t == "track"@
        || t == "variant_bitrate"@ || t == "series"@ || t == "series_sequence"@
}

pub open spec fn basic_tags() -> Seq<Seq<char>> {
    seq!["album"@, "artist"@, "composer"@, "date"@, "genre"@, "performer"@, "title"@]
}

/// A tag as written in an option: trimmed and in small letters.
pub open spec fn tag_of(part: Seq<char>) -> Seq<char> {
    spec_ascii_lowercase(spec_trim(part))
}

/// `s` with each element kept at its first occurrence only.
pub open spec fn dedup(s: Seq<Seq<char>>) -> Seq<Seq<char>>
    decreases s.len(),
{
    if s.len() == 0 {
        s
    } else {
        let d = dedup(s.drop_last());
        if d.contains(s.last()) {
            d
        } else {
            d.push(s.last())
        }
    }
}

/// The tags of `tags=a+b+...`.
pub open spec fn tags_value(val: Option<Seq<char>>) -> Result<Seq<Seq<char>>, OptionError> {
    match val {
        None => Err(OptionError::TagsRequired),
        Some(t) => {
            let tags = split_on(t, '+').map_values(|p: Seq<char>| tag_of(p));
            if forall|i: int| 0 <= i < tags.len() ==> is_allowed_tag(#[trigger] tags[i]) {
                Ok(dedup(tags))
            } else {
                Err(OptionError::TagNotAllowed)
            }
        },
    }
}

/// The names of the flags.
pub open spec fn is_flag_name(tag: Seq<char>) -> bool {
    tag == "nc"@ || tag == "no-cache"@ || tag == "force-cache-update"@
        || tag == "ignore-chapters-meta"@ || tag == "allow-symlinks"@ || tag == "no-dir-collaps"@
}

/// The options with the flag `tag` set to `b`.
pub open spec fn set_flag(o: CollectionOptionsV, tag: Seq<char>, b: bool) -> CollectionOptionsV {
    if tag == "nc"@ || tag == "no-cache"@ {
        CollectionOptionsV { no_cache: b, ..o }
    } else if tag == "force-cache-update"@ {
        CollectionOptionsV { force_cache_update_on_init: b, ..o }
    } else if tag == "ignore-chapters-meta"@ {
        CollectionOptionsV { ignore_chapters_meta: b, ..o }
    } else if tag == "allow-symlinks"@ {
        CollectionOptionsV { allow_symlinks: b, ..o }
    } else {
        CollectionOptionsV { no_dir_collaps: b, ..o }
    }
}

/// The options after the option `tag` with the value `val`, or why it is
/// refused.
pub open spec fn apply_named(o: CollectionOptionsV, tag: Seq<char>, val: Option<Seq<char>>) -> Result<CollectionOptionsV, OptionError> {
    if is_flag_name(tag) {
        match bool_value(val) {
            Ok(b) => Ok(set_flag(o, tag, b)),
            Err(e) => Err(e),
        }
    } else if tag == "chapters-duration"@ {
        match u32_value(val) {
            Ok(v) => if v < MINIMUM_CHAPTER_DURATION {
                Err(OptionError::ChapterTooShort)
            } else {
                Ok(CollectionOptionsV { chapters_duration: v, ..o })
            },
            Err(e) => Err(e),
        }
    } else if tag == "chapters-from-duration"@ {
        match u32_value(val) {
            Ok(v) => if v > 0 && v < MINIMUM_CHAPTER_DURATION {
                Err(OptionError::ChapterTooShort)
            } else {
                Ok(CollectionOptionsV { chapters_from_duration: v, ..o })
            },
            Err(e) => Err(e),
        }
    } else if tag == "tags"@ {
        match tags_value(val) {
            Ok(t) => Ok(CollectionOptionsV { tags: Some(t), ..o }),
            Err(e) => Err(e),
        }
    } else if tag == "default-tags"@ {
        match bool_value(val) {
            Ok(b) => Ok(CollectionOptionsV { tags: if b { Some(basic_tags()) } else { None }, ..o }),
            Err(e) => Err(e),
        }
    } else {
        Err(OptionError::UnknownOption)
    }
}

/// The options after one option `item`, or why it is refused: the item is
/// split at its first `=` and both parts are trimmed.
pub open spec fn apply_option(o: CollectionOptionsV, item: Seq<char>) -> Result<CollectionOptionsV, OptionError> {
    let tag = spec_trim(split_once_eq(item).0);
    let val = match split_once_eq(item).1 {
        Some(v) => Some(spec_trim(v)),
        None => None,
    };
    apply_named(o, tag, val)
}

/// The options after the options `items` in turn, stopping at the first
/// refused one: what the earlier ones changed stays.
pub open spec fn run_options(o: CollectionOptionsV, items: Seq<Seq<char>>) -> (CollectionOptionsV, Result<(), OptionError>)
    decreases items.len(),
{
    if items.len() == 0 {
        (o, Ok(()))
    } else {
        let prev = run_options(o, items.drop_last());
        if prev.1 is Err {
            prev
        } else {
            match apply_option(prev.0, items.last()) {
                Ok(next) => (next, Ok(())),
                Err(e) => (prev.0, Err(e)),
            }
        }
    }
}

/// Whether `t` is one of the known tags.
fn allowed_tag(t: &str) -> (r: bool)
    ensures
        r == is_allowed_tag(t@),
{
    str_equal(t, "album") || str_equal(t, "album_artist") || str_equal(t, "artist")
        || str_equal(t, "comment") || str_equal(t, "composer") || str_equal(t, "copyright")
        || str_equal(t, "creation_time") || str_equal(t, "date") || str_equal(t, "disc")
        || str_equal(t, "encoder") || str_equal(t, "encoded_by") || str_equal(t, "filename")
        || str_equal(t, "genre") || str_equal(t, "language") || str_equal(t, "performer")
        || str_equal(t, "publisher") || str_equal(t, "service_name")
        || str_equal(t, "service_provider") || str_equal(t, "title") || str_equal(t, "track")
        || str_equal(t, "variant_bitrate") || str_equal(t, "series")
        || str_equal(t, "series_sequence")
}

/// The basic tags.
fn basic_tag_list() -> (r: Vec<String>)
    ensures
        string_views(r@) == basic_tags(),
{
    let r = vec![
        "album".to_owned(),
        "artist".to_owned(),
        "composer".to_owned(),
        "date".to_owned(),
        "genre".to_owned(),
        "performer".to_owned(),
        "title".to_owned(),
    ];
    assert(string_views(r@) =~= basic_tags());
    r
}

/// Whether `v` holds a string equal to `s`.
fn contains_str(v: &Vec<String>, s: &str) -> (r: bool)
    ensures
        r == string_views(v@).contains(s@),
{
    let mut i: usize = 0;
    while i < v.len()
        invariant
            i <= v@.len(),
            forall|k: int| 0 <= k < i ==> v@[k]@ != s@,
        decreases v@.len() - i,
    {
        if str_equal(v[i].as_str(), s) {
            assert(string_views(v@)[i as int] == s@);
            return true;
        }
        i = i + 1;
    }
    proof {
        if string_views(v@).contains(s@) {
            let k = choose|k: int| 0 <= k < string_views(v@).len() && string_views(v@)[k] == s@;
            assert(v@[k]@ == s@);
        }
    }
    false
}

/// The value of a flag.
fn flag_value(val: &Option<&str>) -> (r: Result<bool, OptionError>)
    ensures
        r == bool_value(match val { Some(v) => Some(v@), None => None }),
{
    match val {
        None => Ok(true),
        Some(s) => {
            let l = ascii_lowercase(s);
            if str_equal(l.as_str(), "true") {
                Ok(true)
            } else if str_equal(l.as_str(), "false") {
                Ok(false)
            } else {
                Err(OptionError::InvalidBool)
            }
        },
    }
}

/// The value of a number option.
fn number_value(val: &Option<&str>) -> (r: Result<u32, OptionError>)
    ensures
        r == u32_value(match val { Some(v) => Some(v@), None => None }),
{
    match val {
        None => Err(OptionError::ValueRequired),
        Some(s) => match parse_u32(s) {
            Some(v) => Ok(v),
            None => Err(OptionError::NotInteger),
        },
    }
}

/// The tags of the value of `tags`.
fn tag_list(val: &Option<&str>) -> (r: Result<Vec<String>, OptionError>)
    ensures
        match tags_value(match val { Some(v) => Some(v@), None => None }) {
            Ok(t) => r matches Ok(v) && string_views(v@) == t,
            Err(e) => r == Err::<Vec<String>, OptionError>(e),
        },
{
    match val {
        None => Err(OptionError::TagsRequired),
        Some(t) => {
            let ghost tv = t@;
            let parts = split_char(t, '+');
            let ghost tags = split_on(t@, '+').map_values(|p: Seq<char>| tag_of(p));
            let mut out: Vec<String> = Vec::new();
            let mut i: usize = 0;
            while i < parts.len()
                invariant
                    i <= parts@.len(),
                    (match val { Some(v) => Some(v@), None => None }) == Some(tv),
                    string_views(parts@) == split_on(tv, '+'),
                    tags == split_on(tv, '+').map_values(|p: Seq<char>| tag_of(p)),
                    forall|k: int| 0 <= k < i ==> is_allowed_tag(#[trigger] tags[k]),
                    string_views(out@) == dedup(tags.subrange(0, i as int)),
                decreases parts@.len() - i,
            {
                let tag = ascii_lowercase(str_trim(parts[i].as_str()));
                assert(string_views(parts@)[i as int] == parts@[i as int]@);
                assert(tag@ == tags[i as int]);
                if !allowed_tag(tag.as_str()) {
                    assert(!is_allowed_tag(tags[i as int]));
                    return Err(OptionError::TagNotAllowed);
                }
                proof {
                    assert(tags.subrange(0, i + 1).drop_last() =~= tags.subrange(0, i as int));
                    assert(tags.subrange(0, i + 1).last() == tag@);
                }
                if !contains_str(&out, tag.as_str()) {
                    let ghost before = string_views(out@);
                    out.push(tag);
                    assert(string_views(out@) =~= before.push(tags[i as int]));
                }
                i = i + 1;
            }
            assert(tags.subrange(0, tags.len() as int) =~= tags);
            Ok(out)
        },
    }
}

/// Proof that a refused option ends the run: the state and the error stay.
proof fn lemma_run_options_stops(o: CollectionOptionsV, items: Seq<Seq<char>>, k: int)
    requires
        0 <= k <= items.len(),
        run_options(o, items.subrange(0, k)).1 is Err,
    ensures
        run_options(o, items) == run_options(o, items.subrange(0, k)),
    decreases items.len() - k,
{
    if k < items.len() {
        let next = items.subrange(0, k + 1);
        assert(next.drop_last() =~= items.subrange(0, k));
        lemma_run_options_stops(o, items, k + 1);
    } else {
        assert(items.subrange(0, k) =~= items);
    }
}

impl CollectionOptions {
    /// Applies one option, or leaves `self` as it is and says why not.
    fn apply_option(&mut self, item: &str) -> (r: Result<(), OptionError>)
        ensures
            match apply_option(old(self)@, item@) {
                Ok(v) => r is Ok && final(self)@ == v,
                Err(e) => r == Err::<(), OptionError>(e) && final(self)@ == old(self)@,
            },
    {
        let n = item.unicode_len();
        let mut k: usize = 0;
        while k < n && item.get_char(k) != '='
            invariant
                n == item@.len(),
                k <= n,
                first_index_from(item@, '=', 0) == first_index_from(item@, '=', k as int),
            decreases n - k,
        {
            k = k + 1;
        }
        assert(first_index_from(item@, '=', 0) == k);
        let raw_tag = item.substring_char(0, k);
        let tag = str_trim(raw_tag);
        let val: Option<&str> = if k < n {
            Some(str_trim(item.substring_char(k + 1, n)))
        } else {
            None
        };
        proof {
            if k >= n {
                assert(item@.subrange(0, k as int) =~= item@);
            }
        }
        self.apply_named(tag, val)
    }

    /// Sets the flag `tag`.
    fn set_flag(&mut self, tag: &str, b: bool)
        requires
            is_flag_name(tag@),
        ensures
            final(self)@ == set_flag(old(self)@, tag@, b),
    {
        if str_equal(tag, "nc") || str_equal(tag, "no-cache") {
            self.no_cache = b;
        } else if str_equal(tag, "force-cache-update") {
            self.force_cache_update_on_init = b;
        } else if str_equal(tag, "ignore-chapters-meta") {
            self.ignore_chapters_meta = b;
        } else if str_equal(tag, "allow-symlinks") {
            self.allow_symlinks = b;
        } else {
            self.no_dir_collaps = b;
        }
    }

    /// Applies the option `tag` with the value `val`, or leaves `self` as it
    /// is and says why not.
    fn apply_named(&mut self, tag: &str, val: Option<&str>) -> (r: Result<(), OptionError>)
        ensures
            match apply_named(old(self)@, tag@, match val { Some(v) => Some(v@), None => None }) {
                Ok(v) => r is Ok && final(self)@ == v,
                Err(e) => r == Err::<(), OptionError>(e) && final(self)@ == old(self)@,
            },
    {
        let is_flag = str_equal(tag, "nc") || str_equal(tag, "no-cache")
            || str_equal(tag, "force-cache-update") || str_equal(tag, "ignore-chapters-meta")
            || str_equal(tag, "allow-symlinks") || str_equal(tag, "no-dir-collaps");
        if is_flag {
            match flag_value(&val) {
                Ok(b) => {
                    self.set_flag(tag, b);
                    Ok(())
                },
                Err(e) => Err(e),
            }
        } else if str_equal(tag, "chapters-duration") {
            match number_value(&val) {
                Ok(v) => {
                    if v < MINIMUM_CHAPTER_DURATION {
                        return Err(OptionError::ChapterTooShort);
                    }
                    self.chapters_duration = v;
                    Ok(())
                },
                Err(e) => Err(e),
            }
        } else if str_equal(tag, "chapters-from-duration") {
            match number_value(&val) {
                Ok(v) => {
                    if v > 0 && v < MINIMUM_CHAPTER_DURATION {
                        return Err(OptionError::ChapterTooShort);
                    }
                    self.chapters_from_duration = v;
                    Ok(())
                },
                Err(e) => Err(e),
            }
        } else if str_equal(tag, "tags") {
            match tag_list(&val) {
                Ok(t) => {
                    self.tags = Some(t);
                    Ok(())
                },
                Err(e) => Err(e),
            }
        } else if str_equal(tag, "default-tags") {
            match flag_value(&val) {
                Ok(b) => {
                    if b {
                        self.tags = Some(basic_tag_list());
                    } else {
                        self.tags = None;
                    }
                    Ok(())
                },
                Err(e) => Err(e),
            }
        } else {
            Err(OptionError::UnknownOption)
        }
    }

    /// Applies the comma-separated options of `s` in turn. At the first
    /// refused one it stops and returns why; the options before it stay
    /// applied.
    pub fn update_from_str_options(&mut self, s: &str) -> (r: Result<(), OptionError>)
        ensures
            (final(self)@, r) == run_options(old(self)@, split_on(s@, ',')),
    {
        let items = split_char(s, ',');
        let ghost all = split_on(s@, ',');
        let mut i: usize = 0;
        assert(all.subrange(0, 0) =~= Seq::<Seq<char>>::empty());
        while i < items.len()
            invariant
                i <= items@.len(),
                string_views(items@) == all,
                all == split_on(s@, ','),
                (self@, Ok::<(), OptionError>(())) == run_options(old(self)@, all.subrange(0, i as int)),
            decreases items@.len() - i,
        {
            proof {
                assert(all.subrange(0, i + 1).drop_last() =~= all.subrange(0, i as int));
                assert(all.subrange(0, i + 1).last() == items@[i as int]@);
            }
            match self.apply_option(items[i].as_str()) {
                Ok(()) => {},
                Err(e) => {
                    proof {
                        lemma_run_options_stops(old(self)@, all, i + 1);
                    }
                    return Err(e);
                },
            }
            i = i + 1;
        }
        assert(all.subrange(0, all.len() as int) =~= all);
        Ok(())
    }
}

/// The tags that an option sets hold each tag once, and exactly the tags
/// that were written.
pub proof fn lemma_dedup_distinct(s: Seq<Seq<char>>)
    ensures
        forall|i: int, j: int| 0 <= i < j < dedup(s).len() ==> dedup(s)[i] != dedup(s)[j],
        forall|x: Seq<char>| dedup(s).contains(x) <==> s.contains(x),
    decreases s.len(),
{
    if s.len() > 0 {
        lemma_dedup_distinct(s.drop_last());
        let d = dedup(s.drop_last());
        assert forall|x: Seq<char>| dedup(s).contains(x) <==> s.contains(x) by {
            if s.contains(x) && x != s.last() {
                let k = choose|k: int| 0 <= k < s.len() && s[k] == x;
                assert(s.drop_last()[k] == x);
            }
            if s.drop_last().contains(x) {
                let k = choose|k: int| 0 <= k < s.drop_last().len() && s.drop_last()[k] == x;
                assert(s[k] == x);
            }
            if !d.contains(s.last()) && x == s.last() {
                assert(d.push(s.last())[d.len() as int] == x);
            }
            if !d.contains(s.last()) && d.push(s.last()).contains(x) && x != s.last() {
                let k = choose|k: int| 0 <= k < d.len() + 1 && d.push(s.last())[k] == x;
                assert(d[k] == x);
            }
            if d.contains(x) && !d.contains(s.last()) {
                let k = choose|k: int| 0 <= k < d.len() && d[k] == x;
                assert(d.push(s.last())[k] == x);
            }
            assert(s[s.len() - 1] == s.last());
        };
    }
}

/// Each flag sets its own option, and only it, to the flag's value (`true`
/// where the flag has no value); `nc` is the short form of `no-cache`. A
/// value that is no boolean refuses the flag and changes nothing.
pub proof fn lemma_flags(o: CollectionOptionsV, val: Option<Seq<char>>)
    ensures
        apply_named(o, "nc"@, val) == apply_named(o, "no-cache"@, val),
        val is None ==> apply_named(o, "no-cache"@, val) == Ok::<CollectionOptionsV, OptionError>(
            CollectionOptionsV { no_cache: true, ..o },
        ),
        bool_value(val) matches Ok(b) ==> {
            &&& apply_named(o, "no-cache"@, val) == Ok::<CollectionOptionsV, OptionError>(
                CollectionOptionsV { no_cache: b, ..o },
            )
            &&& apply_named(o, "force-cache-update"@, val) == Ok::<CollectionOptionsV, OptionError>(
                CollectionOptionsV { force_cache_update_on_init: b, ..o },
            )
            &&& apply_named(o, "ignore-chapters-meta"@, val) == Ok::<CollectionOptionsV, OptionError>(
                CollectionOptionsV { ignore_chapters_meta: b, ..o },
            )
            &&& apply_named(o, "allow-symlinks"@, val) == Ok::<CollectionOptionsV, OptionError>(
                CollectionOptionsV { allow_symlinks: b, ..o },
            )
            &&& apply_named(o, "no-dir-collaps"@, val) == Ok::<CollectionOptionsV, OptionError>(
                CollectionOptionsV { no_dir_collaps: b, ..o },
            )
        },
        bool_value(val) matches Err(e) ==> {
            &&& apply_named(o, "no-cache"@, val) == Err::<CollectionOptionsV, OptionError>(e)
            &&& apply_named(o, "force-cache-update"@, val) == Err::<CollectionOptionsV, OptionError>(e)
            &&& apply_named(o, "ignore-chapters-meta"@, val) == Err::<CollectionOptionsV, OptionError>(e)
            &&& apply_named(o, "allow-symlinks"@, val) == Err::<CollectionOptionsV, OptionError>(e)
            &&& apply_named(o, "no-dir-collaps"@, val) == Err::<CollectionOptionsV, OptionError>(e)
        },
{
    reveal_strlit("nc");
    reveal_strlit("no-cache");
    reveal_strlit("force-cache-update");
    reveal_strlit("ignore-chapters-meta");
    reveal_strlit("allow-symlinks");
    reveal_strlit("no-dir-collaps");
    assert("nc"@.len() == 2);
    assert("no-cache"@.len() == 8);
    assert("force-cache-update"@.len() == 18);
    assert("ignore-chapters-meta"@.len() == 20);
    assert("allow-symlinks"@.len() == 14);
    assert("no-dir-collaps"@.len() == 14);
    assert("allow-symlinks"@[0] != "no-dir-collaps"@[0]);
}

/// The number options: `chapters-duration` takes a number of at least 10
/// minutes, `chapters-from-duration` 0 or at least 10; each sets its own
/// option and nothing else. Without a value, or with one that is no number,
/// they are refused and change nothing.
pub proof fn lemma_number_options(o: CollectionOptionsV, val: Option<Seq<char>>)
    ensures
        val is None ==> apply_named(o, "chapters-duration"@, val) == Err::<CollectionOptionsV, OptionError>(OptionError::ValueRequired)
            && apply_named(o, "chapters-from-duration"@, val) == Err::<CollectionOptionsV, OptionError>(OptionError::ValueRequired),
        val matches Some(t) && spec_parse_u32(t) is None ==> apply_named(o, "chapters-duration"@, val)
            == Err::<CollectionOptionsV, OptionError>(OptionError::NotInteger) && apply_named(o, "chapters-from-duration"@, val)
            == Err::<CollectionOptionsV, OptionError>(OptionError::NotInteger),
        val is Some && spec_parse_u32(val->Some_0) is Some ==> {
            let v = spec_parse_u32(val->Some_0)->Some_0;
            &&& apply_named(o, "chapters-duration"@, val) == if v < 10 {
                Err::<CollectionOptionsV, OptionError>(OptionError::ChapterTooShort)
            } else {
                Ok(CollectionOptionsV { chapters_duration: v, ..o })
            }
            &&& apply_named(o, "chapters-from-duration"@, val) == if 0 < v < 10 {
                Err::<CollectionOptionsV, OptionError>(OptionError::ChapterTooShort)
            } else {
                Ok(CollectionOptionsV { chapters_from_duration: v, ..o })
            }
        },
{
    reveal_strlit("chapters-duration");
    reveal_strlit("chapters-from-duration");
    reveal_strlit("nc");
    reveal_strlit("no-cache");
    reveal_strlit("force-cache-update");
    reveal_strlit("ignore-chapters-meta");
    reveal_strlit("allow-symlinks");
    reveal_strlit("no-dir-collaps");
    assert("chapters-duration"@.len() == 17);
    assert("chapters-from-duration"@.len() == 22);
    assert("nc"@.len() == 2);
    assert("no-cache"@.len() == 8);
    assert("force-cache-update"@.len() == 18);
    assert("ignore-chapters-meta"@.len() == 20);
    assert("allow-symlinks"@.len() == 14);
    assert("no-dir-collaps"@.len() == 14);
}

/// A flag's value is `true` or `false` in any case of letters; other values
/// are refused.
pub proof fn lemma_bool_values(s: Seq<char>)
    ensures
        spec_ascii_lowercase(s) == "true"@ ==> bool_value(Some(s)) == Ok::<bool, OptionError>(true),
        spec_ascii_lowercase(s) == "false"@ ==> bool_value(Some(s)) == Ok::<bool, OptionError>(false),
        spec_ascii_lowercase(s) != "true"@ && spec_ascii_lowercase(s) != "false"@ ==> bool_value(Some(s))
            == Err::<bool, OptionError>(OptionError::InvalidBool),
        bool_value(None) == Ok::<bool, OptionError>(true),
{
    reveal_strlit("true");
    reveal_strlit("false");
    assert("true"@.len() == 4);
    assert("false"@.len() == 5);
}

} // verus!
