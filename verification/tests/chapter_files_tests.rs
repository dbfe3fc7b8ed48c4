use audioserve::audio_meta::{AudioMeta, Chapter, DirType, FileSection};
use audioserve::chapter_files::{
    chapter_entries, name_and_path_for_chapter, parse_chapter_path, parse_span, split_marker,
    try_name_and_path_for_chapter, try_parse_chapter_path, try_parse_span, ChapterPathError,
};

#[test]
fn test_create_pseudofile_name() {
    let chap = Chapter {
        number: 1,
        title: "Chapter1".into(),
        start: 1000,
        end: 2000,
    };

    let p = "stoker/dracula/dracula.m4b";
    let (_, pseudo) = name_and_path_for_chapter(p, &chap, false).unwrap();
    assert_eq!(
        pseudo,
        "stoker/dracula/dracula.m4b/001 - Chapter1$$1000-2000$$.m4b"
    );
    let (_, pseudo) = name_and_path_for_chapter(p, &chap, true).unwrap();
    assert_eq!(
        pseudo,
        "stoker/dracula/dracula.m4b$$001 - Chapter1$$1000-2000$$.m4b"
    );
}

#[test]
fn test_long_chapter_name() {
    let long_name = "As I ponder the complexities of the world, I am struck by the fragility of human existence and the interconnectedness of all things. From the tiniest microbe to the vast expanses of the universe, everything is connected in ways we may never fully comprehend.";
    let chap = Chapter {
        number: 1,
        title: long_name.into(),
        start: 1000,
        end: 2000,
    };

    let correct = "stoker/dracula/dracula.m4b/001 - As I ponder the complexities of the world, I am struck by the fragility of human existence and the interconnect... tiniest microbe to the vast expanses of the universe, everything is connected in ways we may never fully comprehend.$$1000-2000$$.m4b";

    let p = "stoker/dracula/dracula.m4b";
    let (_, pseudo) = name_and_path_for_chapter(p, &chap, false).unwrap();
    assert_eq!(correct, pseudo);

    let limit_case: String = (0..237).into_iter().map(|_| "X").collect();
    let chap2 = Chapter {
        number: 1,
        title: limit_case,
        start: 1000,
        end: 2000,
    };
    let p2 = "";
    let (_, name) = name_and_path_for_chapter(p2, &chap2, false).unwrap();
    assert_eq!(254, name.len());
    assert!(name.find("...").unwrap() > 100);

    let cesky =
        "příliš žluťoučký kůň úpěl ďábelské ódy. PŘÍLIŠ ŽLUŤOUČKÝ KŮŇ ÚPĚL ĎÁBELSKÉ ÓDY.";
    let cesky = cesky.to_string() + cesky + cesky + cesky + cesky + cesky;
    let chap3 = Chapter {
        number: 1,
        title: cesky,
        start: 1000,
        end: 2000,
    };
    let (_, name) = name_and_path_for_chapter(p2, &chap3, false).unwrap();
    assert_eq!(253, name.len());
    assert!(name.find("...").unwrap() > 100);
}

#[test]
fn test_pseudo_file() {
    let fname = format!(
        "kniha/{:3} - {}$${}-{}$${}",
        1, "Usak Jede", 1234, 5678, ".opus"
    );
    let (p, span) = parse_chapter_path(&fname);
    let span = span.unwrap();
    assert_eq!("kniha", p);
    assert_eq!(span.start, 1234);
    assert_eq!(span.duration, Some(5678u64 - 1234));
}

#[test]
fn test_pseudo_file2() {
    let f = "stoker/dracula/dracula.m4b/001 - Chapter1$$1000-2000$$.m4b";
    let (p, span) = parse_chapter_path(f);
    let span = span.unwrap();
    assert_eq!(p, "stoker/dracula/dracula.m4b");
    assert_eq!(span.start, 1000);
    assert_eq!(span.duration.unwrap(), 1000);

    let f = "stoker/dracula/dracula.m4b/001 - Chapter1$$1000-2000$$";
    let (p, span) = parse_chapter_path(f);
    let span = span.unwrap();
    assert_eq!(p, "stoker/dracula/dracula.m4b");
    assert_eq!(span.start, 1000);
    assert_eq!(span.duration.unwrap(), 1000);

    let f = "stoker/dracula/dracula.m4b$$001 - Chapter1$$1000-2000$$.m4b";
    let (p, span) = parse_chapter_path(f);
    let span = span.unwrap();
    assert_eq!(p, "stoker/dracula/dracula.m4b");
    assert_eq!(span.start, 1000);
    assert_eq!(span.duration.unwrap(), 1000);

    let f = "stoker/dracula/dracula.m4b$$001 - Chapter1$$1000-2000$$";
    let (p, span) = parse_chapter_path(f);
    let span = span.unwrap();
    assert_eq!(p, "stoker/dracula/dracula.m4b");
    assert_eq!(span.start, 1000);
    assert_eq!(span.duration.unwrap(), 1000);
}

#[test]
fn test_pseudo_file3() {
    let f = "Follet Ken/Srsen leta v noci/CD1$$01 Srsen leta v noci.opus";
    let (p, span) = parse_chapter_path(f);
    assert!(span.is_none());
    assert_eq!(p, "Follet Ken/Srsen leta v noci/CD1/01 Srsen leta v noci.opus");
}

#[test]
fn pseudo_file_round_trip() {
    let chap = Chapter { number: 12, title: "a/b".into(), start: 5, end: 17 };
    let (name, path) = name_and_path_for_chapter("book/x.mp3", &chap, false).unwrap();
    assert_eq!(name, "012 - a-b");
    let (real, span) = parse_chapter_path(&path);
    assert_eq!(real, "book/x.mp3");
    let span = span.unwrap();
    assert_eq!(span.start, 5);
    assert_eq!(span.duration, Some(12));
}

#[test]
fn span_edges() {
    let s = parse_span("x 10-25 y").unwrap();
    assert_eq!(s.start, 10);
    assert_eq!(s.duration, Some(15));
    assert!(parse_span("no span").is_none());
    assert!(try_parse_span("30-20").is_none());
    assert_eq!(try_parse_span("none"), Some(None));
    assert!(try_parse_chapter_path("a/b$$c$$30-20$$.mp3").is_none());
    assert_eq!(split_marker("a$$$b$$"), vec!["a".to_string(), "$b".to_string(), "".to_string()]);
}

#[test]
fn chapter_path_errors() {
    let chap = Chapter { number: 1, title: "t".into(), start: 0, end: 1 };
    assert_eq!(name_and_path_for_chapter("/", &chap, true), Err(ChapterPathError::NoParent));
    assert_eq!(name_and_path_for_chapter("", &chap, true), Err(ChapterPathError::NoParent));
    let (name, path) = name_and_path_for_chapter("", &chap, false).unwrap();
    assert_eq!(name, "001 - t");
    assert_eq!(path, "001 - t$$0-1$$");
    assert!(try_name_and_path_for_chapter("x", &chap, false).is_some());
}

#[test]
fn chapters_of_side_file_rows() {
    let rows: Vec<(Option<String>, Option<u64>, Option<u64>)> = vec![
        (Some("Intro".to_string()), Some(0), Some(1500)),
        (Some("Broken".to_string()), None, Some(2000)),
        (Some("Main".to_string()), Some(1500), Some(90000)),
        (None, Some(90000), Some(100000)),
        (Some("End".to_string()), Some(90000), Some(100000)),
    ];
    let chapters = audioserve::chapters::chapters_from_rows(&rows);
    let expected = vec![
        Chapter { number: 0, title: "Intro".to_string(), start: 0, end: 1500 },
        Chapter { number: 1, title: "Main".to_string(), start: 1500, end: 90000 },
        Chapter { number: 2, title: "End".to_string(), start: 90000, end: 100000 },
    ];
    assert_eq!(chapters, expected);
    assert!(audioserve::chapters::chapters_from_rows(&vec![]).is_empty());
}

fn folder_options() -> audioserve::chapters::FolderOptions {
    audioserve::chapters::FolderOptions {
        chapters_duration: 30,
        chapters_from_duration: 60,
        ignore_chapters_meta: false,
        allow_symlinks: false,
        no_dir_collaps: false,
        natural_files_ordering: true,
    }
}

fn chapter(n: u32, start: u64, end: u64) -> Chapter {
    Chapter { number: n, title: format!("c{}", n), start, end }
}

#[test]
fn dir_type_of_audio_files() {
    let o = folder_options();
    let short = AudioMeta { duration: 600, bitrate: 128 };
    let long = AudioMeta { duration: 3 * 3600, bitrate: 64 };
    // chapters in the metadata
    match o.file_dir_type(Some(vec![chapter(0, 0, 10)]), Some(short), None, true, false) {
        DirType::File(f) => {
            assert_eq!(f.chapters, vec![chapter(0, 0, 10)]);
            assert_eq!(f.audio_meta, short);
            assert!(f.has_cover && !f.has_description);
        }
        _ => panic!("expected a file shown as folder"),
    }
    // a side file with one chapter only
    assert!(matches!(o.file_dir_type(None, Some(short), Some(vec![chapter(0, 0, 10)]), false, false), DirType::Other));
    // a side file with two
    match o.file_dir_type(None, Some(short), Some(vec![chapter(0, 0, 10), chapter(1, 10, 20)]), false, false) {
        DirType::File(f) => assert_eq!(f.chapters.len(), 2),
        _ => panic!("expected a file shown as folder"),
    }
    // no side file: a long file is split into parts of 30 minutes
    match o.file_dir_type(None, Some(long), None, false, false) {
        DirType::File(f) => {
            assert_eq!(f.chapters.len(), 6);
            assert_eq!(f.chapters[1].start, 30 * 60 * 1000);
        }
        _ => panic!("expected a file shown as folder"),
    }
    assert!(matches!(o.file_dir_type(None, Some(short), None, false, false), DirType::Other));
    assert!(matches!(o.file_dir_type(Some(vec![chapter(0, 0, 1)]), None, None, false, false), DirType::Other));
}

#[test]
fn chapter_entries_of_a_file() {
    let chapters = vec![chapter(0, 0, 61_500), chapter(1, 61_500, 120_000)];
    let entries = chapter_entries("books/book.m4b", &chapters, 64, false).unwrap().unwrap();
    assert_eq!(entries.len(), 2);
    let (name, path) = name_and_path_for_chapter("books/book.m4b", &chapters[1], false).unwrap();
    assert_eq!(entries[1].name, name);
    assert_eq!(entries[1].path, path);
    assert_eq!(entries[0].meta, AudioMeta { duration: 61, bitrate: 64 });
    assert_eq!(entries[1].section, FileSection { start: 61_500, duration: Some(58_500) });
    let bad = vec![chapter(0, 0, 10), chapter(1, 20, 10)];
    assert_eq!(chapter_entries("books/book.m4b", &bad, 64, false), None);
    assert_eq!(chapter_entries("books/book.m4b", &vec![], 64, true), Some(Ok(vec![])));
}
