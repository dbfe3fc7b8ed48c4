//! Chapters of long audio files: splitting a file into parts of equal
//! length, deciding which files are long enough, and the side file that
//! lists chapters.
use vstd::prelude::*;
use crate::audio_meta::{decimal, u64_to_string, AudioMeta, Chapter, DirType, FullAudioMeta};
use crate::util::{path_file_name, path_with_file_name, spec_path_file_name, spec_path_with_file_name};

verus! {

/// The options of a collection that decide how folders are listed.
#[derive(Clone, Debug, PartialEq, Eq)]
pub struct FolderOptions {
    /// length of a part when a long file is split, in minutes
    pub chapters_duration: u32,
    /// length from which a file counts as long, in minutes
    pub chapters_from_duration: u32,
    pub ignore_chapters_meta: bool,
    pub allow_symlinks: bool,
    pub no_dir_collaps: bool,
    pub natural_files_ordering: bool,
}

/// A chapter as numbers and text.
pub struct ChapterV {
    pub number: nat,
    pub title: Seq<char>,
    pub start: nat,
    pub end: nat,
}

impl View for Chapter {
    type V = ChapterV;

    open spec fn view(&self) -> ChapterV {
        ChapterV {
            number: self.number as nat,
            title: self.title@,
            start: self.start as nat,
            end: self.end as nat,
        }
    }
}

pub open spec fn chapters_view(cs: Seq<Chapter>) -> Seq<ChapterV> {
    cs.map_values(|c: Chapter| c@)
}

/// `Part n`.
pub open spec fn part_title(n: nat) -> Seq<char> {
    seq!['P', 'a', 'r', 't', ' '] + decimal(n)
}

/// Where the part that starts at `start` ends: one part length later, or at
/// the end of the file where less than a third of a part would be left.
pub open spec fn part_end(start: nat, total: nat, part: nat) -> nat {
    if total - (start + part) < part / 3 {
        total
    } else {
        start + part
    }
}

/// The parts of a file of `total` ms from `start` on, numbered from `number`.
pub open spec fn spec_parts_from(start: nat, total: nat, part: nat, number: nat) -> Seq<ChapterV>
    decreases total - start,
{
    if start >= total || part == 0 {
        Seq::empty()
    } else {
        let end = part_end(start, total, part);
        seq![ChapterV { number, title: part_title(number), start, end }] + spec_parts_from(
            end,
            total,
            part,
            number + 1,
        )
    }
}

/// The parts of a file of `duration` seconds, each `chapters_duration` minutes.
pub open spec fn spec_split_chapters(duration: u32, chapters_duration: u32) -> Seq<ChapterV> {
    spec_parts_from(0, duration as nat * 1000, chapters_duration as nat * 60000, 0)
}

impl FolderOptions {
    /// The file of `dur` seconds split into parts of `chapters_duration` minutes.
    pub fn split_chapters(&self, dur: u32) -> (r: Vec<Chapter>)
        requires
            self.chapters_duration > 0,
        ensures
            chapters_view(r@) == spec_split_chapters(dur, self.chapters_duration),
    {
        let chap_length: u64 = self.chapters_duration as u64 * 60 * 1000;
        let mut count: u32 = 0;
        let mut start: u64 = 0;
        let tot: u64 = dur as u64 * 1000;
        let mut chaps: Vec<Chapter> = Vec::new();
        let ghost whole = spec_split_chapters(dur, self.chapters_duration);
        proof {
            assert(chapters_view(chaps@) + spec_parts_from(0, tot as nat, chap_length as nat, 0)
                =~= whole);
        }
        while start < tot
            invariant
                chap_length == self.chapters_duration as u64 * 60000,
                chap_length > 0,
                tot == dur as u64 * 1000,
                start <= tot,
                start < tot ==> count as nat * chap_length <= start,
                whole == spec_split_chapters(dur, self.chapters_duration),
                chapters_view(chaps@) + spec_parts_from(
                    start as nat,
                    tot as nat,
                    chap_length as nat,
                    count as nat,
                ) == whole,
            decreases tot - start,
        {
            let end = start + chap_length;
            let dif: i64 = tot as i64 - end as i64;
            let end = if dif < chap_length as i64 / 3 {
                tot
            } else {
                end
            };
            let mut title = String::new();
            title.append("Part ");
            title.append(u64_to_string(count as u64).as_str());
            proof {
                reveal_strlit("Part ");
                assert("Part "@ =~= seq!['P', 'a', 'r', 't', ' ']);
                assert(title@ =~= part_title(count as nat));
                assert(end == part_end(start as nat, tot as nat, chap_length as nat));
                let c = ChapterV {
                    number: count as nat,
                    title: part_title(count as nat),
                    start: start as nat,
                    end: end as nat,
                };
                assert(chapters_view(chaps@.push(Chapter { title, start, end, number: count }))
                    =~= chapters_view(chaps@).push(c));
                assert(chapters_view(chaps@).push(c) + spec_parts_from(
                    end as nat,
                    tot as nat,
                    chap_length as nat,
                    count as nat + 1,
                ) =~= chapters_view(chaps@) + spec_parts_from(
                    start as nat,
                    tot as nat,
                    chap_length as nat,
                    count as nat,
                ));
                assert((count as nat + 1) * chap_length == count as nat * chap_length + chap_length)
                    by (nonlinear_arith);
                assert(chap_length <= 0xffff_ffff * 60000) by (nonlinear_arith)
                    requires
                        chap_length == self.chapters_duration as u64 * 60000,
                ;
                assert(count as nat + 1 <= 0xffff_ffff) by (nonlinear_arith)
                    requires
                        start < tot ==> count as nat * chap_length <= start,
                        start < tot,
                        tot <= 0xffff_ffff * 1000,
                        chap_length >= 60000,
                ;
            }
            chaps.push(Chapter { title, start, end, number: count });
            count += 1;
            start = end;
        }
        proof {
            assert(chapters_view(chaps@) + Seq::<ChapterV>::empty() =~= chapters_view(chaps@));
        }
        chaps
    }

    /// Whether a file counts as long: the threshold is over ten minutes and
    /// the file lasts longer.
    pub fn is_long_file(&self, meta: Option<&AudioMeta>) -> (r: bool)
        requires
            self.chapters_from_duration * 60 <= u32::MAX,
        ensures
            r == match meta {
                Some(m) => self.chapters_from_duration * 60 > 600 && m.duration
                    > self.chapters_from_duration * 60,
                None => false,
            },
    {
        match meta {
            Some(m) => {
                let max_dur = self.chapters_from_duration * 60;
                max_dur > 60 * 10 && m.duration > max_dur
            },
            None => false,
        }
    }
}

/// The side file that lists the chapters of `path`: its file name with
/// `.chapters` appended.
pub open spec fn spec_chapters_file_path(path: Seq<char>) -> Option<Seq<char>> {
    match spec_path_file_name(path) {
        Some(n) => Some(
            spec_path_with_file_name(
                path,
                n + seq!['.', 'c', 'h', 'a', 'p', 't', 'e', 'r', 's'],
            ),
        ),
        None => None,
    }
}

/// The path of the chapters side file of `path`, where `path` has a file name.
pub fn chapters_file_path(path: &str) -> (r: Option<String>)
    ensures
        match spec_chapters_file_path(path@) {
            Some(p) => r matches Some(x) && x@ == p,
            None => r is None,
        },
{
    match path_file_name(path) {
        Some(n) => {
            let mut f = n;
            f.append(".chapters");
            proof {
                reveal_strlit(".chapters");
                assert(".chapters"@ =~= seq!['.', 'c', 'h', 'a', 'p', 't', 'e', 'r', 's']);
            }
            Some(path_with_file_name(path, f.as_str()))
        },
        None => None,
    }
}

// ---------------------------------------------------------------------
// what the parts of a split file are

/// The parts of a split file cover it exactly: the first starts at the
/// beginning, each starts where the one before ends, the last ends at the
/// end of the file, parts are numbered from 0, and every part but the last
/// has the chosen length and ends at least a third of a part before the end
/// of the file; so, where there are several parts, the last is at least a
/// third of a part long, and no part is longer than a part and a third.
pub proof fn lemma_split_chapters_cover(duration: u32, chapters_duration: u32)
    requires
        chapters_duration > 0,
    ensures
        ({
            let cs = spec_split_chapters(duration, chapters_duration);
            let total = duration as nat * 1000;
            let part = chapters_duration as nat * 60000;
            &&& duration == 0 <==> cs.len() == 0
            &&& cs.len() > 0 ==> cs[0].start == 0 && cs.last().end == total
            &&& forall|i: int| 0 <= i < cs.len() - 1 ==> #[trigger] cs[i].end == cs[i + 1].start
            &&& forall|i: int| 0 <= i < cs.len() ==> #[trigger] cs[i].number == i
            &&& forall|i: int| 0 <= i < cs.len() ==> #[trigger] cs[i].title == seq!['P', 'a', 'r', 't', ' '] + decimal(i as nat)
            &&& forall|i: int| 0 <= i < cs.len() ==> #[trigger] cs[i].start < cs[i].end
            &&& forall|i: int| 0 <= i < cs.len() - 1 ==> #[trigger] cs[i].end - cs[i].start == part
            &&& forall|i: int| 0 <= i < cs.len() - 1 ==> total - #[trigger] cs[i].end >= part / 3
            &&& cs.len() > 1 ==> cs.last().end - cs.last().start >= part / 3
            &&& cs.len() > 0 ==> cs.last().end - cs.last().start < part + part / 3
        }),
{
    lemma_parts_from(0, duration as nat * 1000, chapters_duration as nat * 60000, 0);
}

proof fn lemma_parts_from(start: nat, total: nat, part: nat, number: nat)
    requires
        part > 0,
        start <= total,
    ensures
        ({
            let cs = spec_parts_from(start, total, part, number);
            &&& start == total <==> cs.len() == 0
            &&& cs.len() > 0 ==> cs[0].start == start && cs.last().end == total
            &&& forall|i: int| 0 <= i < cs.len() - 1 ==> #[trigger] cs[i].end == cs[i + 1].start
            &&& forall|i: int| 0 <= i < cs.len() ==> #[trigger] cs[i].number == number + i
            &&& forall|i: int| 0 <= i < cs.len() ==> #[trigger] cs[i].title == seq!['P', 'a', 'r', 't', ' '] + decimal((number + i) as nat)
            &&& forall|i: int| 0 <= i < cs.len() ==> #[trigger] cs[i].start < cs[i].end
            &&& forall|i: int| 0 <= i < cs.len() - 1 ==> #[trigger] cs[i].end - cs[i].start == part
            &&& forall|i: int| 0 <= i < cs.len() - 1 ==> total - #[trigger] cs[i].end >= part / 3
            &&& cs.len() > 1 ==> cs.last().end - cs.last().start >= part / 3
            &&& cs.len() > 0 && part >= 3 ==> cs.last().end - cs.last().start < part + part / 3
        }),
    decreases total - start,
{
    if start < total {
        let end = part_end(start, total, part);
        lemma_parts_from(end, total, part, number + 1);
        let head = ChapterV { number, title: part_title(number), start, end };
        let rest = spec_parts_from(end, total, part, number + 1);
        let cs = spec_parts_from(start, total, part, number);
        assert(cs == seq![head] + rest);
        assert forall|i: int| 0 <= i < cs.len() - 1 implies #[trigger] cs[i].end == cs[i + 1].start by {
            if i > 0 {
                assert(cs[i] == rest[i - 1]);
                assert(cs[i + 1] == rest[i]);
            } else {
                assert(cs[1] == rest[0]);
            }
        }
        assert forall|i: int| 0 <= i < cs.len() - 1 implies #[trigger] cs[i].end - cs[i].start == part by {
            if i > 0 {
                assert(cs[i] == rest[i - 1]);
            } else {
                assert(rest.len() > 0);
            }
        }
        assert forall|i: int| 0 <= i < cs.len() implies #[trigger] cs[i].number == number + i by {
            if i > 0 {
                assert(cs[i] == rest[i - 1]);
            }
        }
        assert forall|i: int| 0 <= i < cs.len() implies #[trigger] cs[i].title == seq!['P', 'a', 'r', 't', ' '] + decimal((number + i) as nat) by {
            if i > 0 {
                assert(cs[i] == rest[i - 1]);
                assert((number + 1 + (i - 1)) as nat == (number + i) as nat);
            }
        }
        assert forall|i: int| 0 <= i < cs.len() implies #[trigger] cs[i].start < cs[i].end by {
            if i > 0 {
                assert(cs[i] == rest[i - 1]);
            }
        }
        if rest.len() > 0 {
            assert(cs.last() == rest.last());
            assert(end != total);
            assert(end == start + part);
            assert(total - end >= part / 3);
        }
        assert forall|i: int| 0 <= i < cs.len() - 1 implies total - #[trigger] cs[i].end >= part / 3 by {
            if i > 0 {
                assert(cs[i] == rest[i - 1]);
            } else {
                assert(cs[0].end == end);
            }
        }
        if rest.len() == 1 {
            assert(rest[0].start == end);
        }
    }
}

/// A row of a chapters side file as read: the title, start and end in ms,
/// each where it could be read.
pub type ChapterRow = (Option<String>, Option<u64>, Option<u64>);

/// Whether a row gives all three fields.
pub open spec fn row_complete(r: ChapterRow) -> bool {
    r.0 is Some && r.1 is Some && r.2 is Some
}

/// The chapters of the rows of a side file: the rows that give all three
/// fields, numbered from 0 in their order.
pub open spec fn spec_chapters_from_rows(rows: Seq<ChapterRow>) -> Seq<ChapterV>
    decreases rows.len(),
{
    if rows.len() == 0 {
        Seq::empty()
    } else {
        let before = spec_chapters_from_rows(rows.drop_last());
        let r = rows.last();
        if row_complete(r) {
            before.push(ChapterV {
                number: before.len(),
                title: r.0.unwrap()@,
                start: r.1.unwrap() as nat,
                end: r.2.unwrap() as nat,
            })
        } else {
            before
        }
    }
}

proof fn lemma_chapters_from_rows_len(rows: Seq<ChapterRow>)
    ensures
        spec_chapters_from_rows(rows).len() <= rows.len(),
    decreases rows.len(),
{
    if rows.len() > 0 {
        lemma_chapters_from_rows_len(rows.drop_last());
    }
}

/// The chapters listed by the rows of a chapters side file: rows missing a
/// field are skipped, the others numbered in order from 0.
pub fn chapters_from_rows(rows: &Vec<ChapterRow>) -> (r: Vec<Chapter>)
    requires
        rows.len() <= u32::MAX,
    ensures
        chapters_view(r@) == spec_chapters_from_rows(rows@),
{
    let mut out: Vec<Chapter> = Vec::new();
    let mut i: usize = 0;
    while i < rows.len()
        invariant
            i <= rows.len(),
            rows.len() <= u32::MAX,
            chapters_view(out@) == spec_chapters_from_rows(rows@.take(i as int)),
        decreases rows.len() - i,
    {
        proof {
            assert(rows@.take(i + 1).drop_last() =~= rows@.take(i as int));
            lemma_chapters_from_rows_len(rows@.take(i as int));
        }
        let row = &rows[i];
        match (&row.0, row.1, row.2) {
            (Some(title), Some(start), Some(end)) => {
                let number = out.len() as u32;
                let ghost before = out@;
                out.push(Chapter { number, title: title.clone(), start, end });
                proof {
                    assert(out@.drop_last() =~= before);
                    assert(chapters_view(out@) =~= chapters_view(before).push(out@.last()@));
                }
            },
            _ => {},
        }
        i = i + 1;
    }
    proof {
        assert(rows@.take(rows.len() as int) =~= rows@);
    }
    out
}

pub open spec fn opt_chapters_view(c: Option<Vec<Chapter>>) -> Option<Seq<ChapterV>> {
    match c {
        Some(v) => Some(chapters_view(v@)),
        None => None,
    }
}

impl FolderOptions {
    /// Whether a file of `m` counts as long; see `is_long_file`.
    pub open spec fn spec_is_long(&self, m: AudioMeta) -> bool {
        self.chapters_from_duration * 60 > 600 && m.duration > self.chapters_from_duration * 60
    }

    /// The chapters and audio information with which an audio file is shown
    /// as a folder, or `None` where it is not: the chapters of its metadata;
    /// without them, those of its side file where it lists more than one;
    /// without a side file, parts of equal length where the file is long.
    pub open spec fn spec_file_dir_type(
        &self,
        meta_chapters: Option<Seq<ChapterV>>,
        audio_meta: Option<AudioMeta>,
        side_chapters: Option<Seq<ChapterV>>,
    ) -> Option<(Seq<ChapterV>, AudioMeta)> {
        match (meta_chapters, audio_meta) {
            (Some(ch), Some(am)) => Some((ch, am)),
            (None, Some(am)) => match side_chapters {
                Some(ch) => if ch.len() > 1 { Some((ch, am)) } else { None },
                None => if self.spec_is_long(am) {
                    Some((spec_split_chapters(am.duration, self.chapters_duration), am))
                } else {
                    None
                },
            },
            _ => None,
        }
    }

    /// What an audio file is in a listing, from what its metadata and its
    /// side file of chapters give (see `spec_file_dir_type`); the side file
    /// counts only where the metadata gives audio information and no
    /// chapters.
    pub fn file_dir_type(
        &self,
        meta_chapters: Option<Vec<Chapter>>,
        audio_meta: Option<AudioMeta>,
        side_chapters: Option<Vec<Chapter>>,
        has_cover: bool,
        has_description: bool,
    ) -> (r: DirType)
        requires
            self.chapters_duration > 0,
            self.chapters_from_duration * 60 <= u32::MAX,
        ensures
            match self.spec_file_dir_type(opt_chapters_view(meta_chapters), audio_meta, opt_chapters_view(side_chapters)) {
                Some((ch, am)) => r matches DirType::File(f) && chapters_view(f.chapters@) == ch
                    && f.audio_meta == am && f.has_cover == has_cover && f.has_description == has_description,
                None => r is Other,
            },
    {
        match (meta_chapters, audio_meta) {
            (Some(chapters), Some(audio_meta)) => DirType::File(FullAudioMeta { chapters, audio_meta, has_cover, has_description }),
            (None, Some(audio_meta)) => match side_chapters {
                Some(chapters) => {
                    if chapters.len() > 1 {
                        DirType::File(FullAudioMeta { chapters, audio_meta, has_cover, has_description })
                    } else {
                        DirType::Other
                    }
                },
                None => {
                    if self.is_long_file(Some(&audio_meta)) {
                        let chapters = self.split_chapters(audio_meta.duration);
                        DirType::File(FullAudioMeta { chapters, audio_meta, has_cover, has_description })
                    } else {
                        DirType::Other
                    }
                },
            },
            _ => DirType::Other,
        }
    }
}

} // verus!
