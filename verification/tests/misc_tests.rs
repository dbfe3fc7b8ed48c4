use audioserve::folder_tags::extract_folder_tags;
use audioserve::media::{
    bitrate_kbps, chapter_title, check_ret, duration_ms, make_chapter, norm_time, MediaError,
    StreamKind,
};
use audioserve::dirtree::{
    is_match, no_terms_matched, path_matches_tokens, query_tokens, search_paths, search_terms, DirEntry, Options,
};
use audioserve::leaky::start_one;
use audioserve::util::get_modified;

#[test]
fn dir_entries_and_terms() {
    let e = DirEntry::new("Chesterton Modrý");
    assert_eq!(e.name, "Chesterton Modrý");
    assert_eq!(e.search_tag, "chesterton modrý");
    assert_eq!(search_terms("Doyle  MODRY"), vec!["doyle".to_string(), "".to_string(), "modry".to_string()]);
    let o = Options::default();
    assert!(o.include_files);
    assert_eq!(o.watch_delay, 10);
}

#[test]
fn matching_terms() {
    let terms = vec!["doyle".to_string(), "modry".to_string()];
    let none = no_terms_matched(2);
    let (m, next) = is_match("arthur doyle", &terms, &none);
    assert!(!m);
    let next = next.unwrap();
    assert_eq!(next.get(0), Some(true));
    assert_eq!(next.get(1), Some(false));
    let (m, next2) = is_match("modry karbunkl", &terms, &next);
    assert!(m);
    assert!(next2.is_none());
    let (m, next3) = is_match("nothing", &terms, &none);
    assert!(!m);
    assert!(next3.is_none());
}

#[test]
fn leaky_bucket() {
    assert_eq!(start_one(0, 0, 2), (1, Ok(1)));
    assert_eq!(start_one(1, 0, 2), (2, Ok(2)));
    assert_eq!(start_one(2, 0, 2), (2, Err(2)));
    assert_eq!(start_one(2, 5, 2), (1, Ok(1)));
    assert_eq!(start_one(5, 1, 2), (4, Err(4)));
}

#[test]
fn media_conversions() {
    assert_eq!(check_ret(0), Ok(()));
    assert_eq!(check_ret(-2), Err(MediaError::AVError(-2)));
    assert_eq!(norm_time(90000, 1, 90000), 1000);
    assert_eq!(norm_time(3, 1, 1000), 3);
    assert_eq!(duration_ms(2_500_999), 2500);
    assert_eq!(duration_ms(-5_000), 0);
    assert_eq!(bitrate_kbps(128_500), 128);
    assert_eq!(bitrate_kbps(-1), 0);
    assert_eq!(StreamKind::from_codec_type(1), StreamKind::AUDIO);
    assert_eq!(StreamKind::from_codec_type(-1), StreamKind::UNKNOWN);
    assert_eq!(chapter_title(None, -3), "Chapter -3");
    assert_eq!(chapter_title(Some("Intro".into()), 1), "Intro");
    let c = make_chapter(5_000_000_000, None, 1000, 2000, 1, 1000);
    assert_eq!(c.num, i32::MAX);
    assert_eq!(c.title, "Chapter 5000000000");
    assert_eq!(c.start, 1000);
    assert_eq!(c.end, 2000);
}

fn tags(v: &[(&str, &str)]) -> Vec<(String, String)> {
    v.iter().map(|(k, v)| (k.to_string(), v.to_string())).collect()
}

#[test]
fn folder_tags_shared() {
    let mut files = vec![
        Some(tags(&[("album", "A"), ("title", "one"), ("artist", "X")])),
        Some(tags(&[("artist", "X"), ("album", "A"), ("title", "two")])),
        Some(tags(&[("album", "A"), ("artist", "X")])),
    ];
    let folder = extract_folder_tags(&mut files).unwrap();
    let mut folder_sorted = folder.clone();
    folder_sorted.sort();
    assert_eq!(folder_sorted, tags(&[("album", "A"), ("artist", "X")]));
    assert_eq!(files[0], Some(tags(&[("title", "one")])));
    assert_eq!(files[1], Some(tags(&[("title", "two")])));
    assert_eq!(files[2], None);
}

#[test]
fn folder_tags_only_when_every_file_has_them() {
    // a tag missing from one file stays with the files
    let mut files = vec![
        Some(tags(&[("album", "A"), ("artist", "X")])),
        Some(tags(&[("album", "A")])),
    ];
    let folder = extract_folder_tags(&mut files).unwrap();
    assert_eq!(folder, tags(&[("album", "A")]));
    assert_eq!(files[0], Some(tags(&[("artist", "X")])));
    assert_eq!(files[1], None);
    // a file without tags keeps every tag with the files
    let mut files = vec![Some(tags(&[("album", "A")])), None];
    assert!(extract_folder_tags(&mut files).is_none());
    assert_eq!(files[0], Some(tags(&[("album", "A")])));
}

#[test]
fn folder_tags_none() {
    let mut files = vec![None, Some(tags(&[("album", "A")]))];
    assert!(extract_folder_tags(&mut files).is_none());
    assert_eq!(files[1], Some(tags(&[("album", "A")])));
    let mut files = vec![Some(tags(&[("title", "a")])), Some(tags(&[("title", "b")]))];
    assert!(extract_folder_tags(&mut files).is_none());
    assert_eq!(files[0], Some(tags(&[("title", "a")])));
    let mut empty: Vec<Option<Vec<(String, String)>>> = vec![];
    assert!(extract_folder_tags(&mut empty).is_none());
}

#[test]
fn modified_time_of_link_and_target() {
    assert_eq!(get_modified(Some((10, 5)), Some((10, 7))), Some((10, 7)));
    assert_eq!(get_modified(Some((11, 0)), Some((10, 999))), Some((11, 0)));
    assert_eq!(get_modified(Some((3, 3)), Some((3, 3))), Some((3, 3)));
    assert_eq!(get_modified(None, Some((10, 7))), None);
    assert_eq!(get_modified(Some((10, 7)), None), None);
}

#[test]
fn query_words_and_folder_search() {
    assert_eq!(
        query_tokens("  Doyle  MODRÝ\tpes "),
        vec!["doyle".to_string(), "modrý".to_string(), "pes".to_string()]
    );
    assert!(query_tokens(" \n ").is_empty());
    let tokens = query_tokens("doyle pes");
    assert!(path_matches_tokens("Audio/Doyle/Pes baskervillský", &tokens));
    assert!(!path_matches_tokens("Audio/Doyle/Studie", &tokens));
    assert!(path_matches_tokens("anything", &vec![]));
}

#[test]
fn search_skips_folders_below_a_match() {
    let paths: Vec<String> = ["a", "a/b", "a/b/c", "ab", "x/aa", "y"].iter().map(|s| s.to_string()).collect();
    let tokens = query_tokens("A");
    assert_eq!(search_paths(&paths, &tokens), vec![0, 3, 4]);
    let tokens = query_tokens("b c");
    assert_eq!(search_paths(&paths, &tokens), vec![2]);
}
