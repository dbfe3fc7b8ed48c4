use audioserve::audio_meta::{FoldersOrdering, TimeStamp};
use audioserve::folder_plan::{
    is_cd_folder, plan_folder, select_dir_files, sort_indices, total_time, DirItem, FolderEntry, SortKey,
};
use audioserve::playlist::{line_candidate, Playlist, PlaylistItem};

fn folder(name: &str, is_file: bool, modified: Option<u64>) -> FolderEntry {
    FolderEntry {
        name: name.to_string(),
        path: format!("book/{}", name),
        is_file,
        modified: modified.map(TimeStamp),
    }
}

fn strings(v: &[&str]) -> Vec<String> {
    v.iter().map(|s| s.to_string()).collect()
}

#[test]
fn sort_indices_natural_keeps_equal_order() {
    let names = strings(&["10 - v deset", "2 - dve", "10 - deset", "3 - tri"]);
    let all = vec![0, 1, 2, 3];
    let r = sort_indices(SortKey::Natural, &names, &Vec::new(), &all);
    assert_eq!(r, vec![1, 3, 2, 0]);
}

#[test]
fn sort_indices_recent_first() {
    let names = strings(&["a", "b", "c"]);
    let mods = vec![Some(TimeStamp(5)), None, Some(TimeStamp(9))];
    let r = sort_indices(SortKey::Folders(FoldersOrdering::RecentFirst), &names, &mods, &vec![0, 1, 2]);
    assert_eq!(r, vec![2, 0, 1]);
}

#[test]
fn sort_indices_unicase() {
    let names = strings(&["beta", "Alpha", "gamma"]);
    let r = sort_indices(SortKey::Unicase, &names, &Vec::new(), &vec![0, 1, 2]);
    assert_eq!(r, vec![1, 0, 2]);
}

#[test]
fn cd_folder_pattern() {
    assert_eq!(is_cd_folder("CD 1", r"^CD\s*\d+$"), Some(true));
    assert_eq!(is_cd_folder("Extras", r"^CD\s*\d+$"), Some(false));
    assert_eq!(is_cd_folder("CD 1", "("), None);
    assert_eq!(is_cd_folder("cd1", r"^CD\s*\d+$"), Some(true));
}

#[test]
fn plan_single_chapterized_file() {
    let fs = vec![folder("book.m4b", true, None)];
    let p = plan_folder(&Vec::new(), &fs, false, FoldersOrdering::Alphabetical, None, None, false);
    assert!(p.single_file);
    let p = plan_folder(&Vec::new(), &fs, false, FoldersOrdering::Alphabetical, None, None, true);
    assert!(!p.single_file);
    assert_eq!(p.subfolders, vec![0]);
}

#[test]
fn plan_collapses_cd_folders() {
    let files = strings(&["10 intro.mp3", "2 intro.mp3"]);
    let fs = vec![
        folder("CD 2", false, None),
        folder("Extras", false, None),
        folder("CD 1", false, None),
        folder("CD 3.m4b", true, None),
    ];
    let p = plan_folder(&files, &fs, true, FoldersOrdering::Alphabetical, None, Some(r"^CD\s*\d+"), false);
    assert!(p.is_collapsed);
    assert_eq!(p.files, vec![1, 0]);
    assert_eq!(p.cd_folders, vec![2, 0]);
    assert_eq!(p.subfolders, vec![3, 1]);
}

#[test]
fn plan_without_cd_match_sorts_everything() {
    let files = strings(&["b.mp3", "a.mp3"]);
    let fs = vec![folder("zeta", false, Some(1)), folder("alpha", false, Some(2))];
    let p = plan_folder(&files, &fs, false, FoldersOrdering::RecentFirst, None, Some(r"^CD\s*\d+$"), false);
    assert!(!p.is_collapsed);
    assert_eq!(p.files, vec![1, 0]);
    assert_eq!(p.subfolders, vec![1, 0]);
    assert!(p.cd_folders.is_empty());
}

#[test]
fn plan_with_playlist() {
    let files = strings(&["a.mp3", "b.mp3", "c.mp3"]);
    let fs = vec![folder("usak", false, None), folder("other", false, None)];
    let found = vec![
        PlaylistItem::CurrentDir("c.mp3".to_string()),
        PlaylistItem::Subdir("usak/x.mp3".to_string(), "book/usak".to_string()),
        PlaylistItem::CurrentDir("a.mp3".to_string()),
    ];
    let pl = Playlist::new("book/list.m3u".to_string(), found);
    let p = plan_folder(&files, &fs, false, FoldersOrdering::Alphabetical, Some(pl), Some(r"^CD"), false);
    assert_eq!(p.files, vec![2, 0]);
    assert_eq!(p.subfolders, vec![1]);
    assert!(!p.is_collapsed);
}

#[test]
fn dir_files_audio_then_cover_then_description() {
    let items = vec![
        DirItem { path: "d/a.mp3".to_string(), from_subdir: false },
        DirItem { path: "d/cover.jpg".to_string(), from_subdir: false },
        DirItem { path: "d/b.mp3".to_string(), from_subdir: false },
        DirItem { path: "d/info.txt".to_string(), from_subdir: false },
        DirItem { path: "d/back.png".to_string(), from_subdir: false },
        DirItem { path: "d/cd1/c.mp3".to_string(), from_subdir: true },
        DirItem { path: "d/cd1/art.jpg".to_string(), from_subdir: true },
    ];
    assert_eq!(select_dir_files(&items), vec![0, 2, 5, 1, 3]);
}

#[test]
fn dir_files_without_cover() {
    let items = vec![
        DirItem { path: "d/notes.txt".to_string(), from_subdir: false },
        DirItem { path: "d/x.bin".to_string(), from_subdir: false },
    ];
    assert_eq!(select_dir_files(&items), vec![0]);
}

#[test]
fn playlist_covers_first_components_of_deeper_items() {
    let lines = ["b.mp3", "usak/a.mp3", "# comment", "usak/sub/c.mp3", "/abs/d.mp3"];
    let found: Vec<PlaylistItem> = lines.iter().filter_map(|l| line_candidate(l)).collect();
    let pl = Playlist::new("list.m3u".to_string(), found);
    assert!(pl.is_covering("usak"));
    assert!(!pl.is_covering("sub"));
    assert!(!pl.is_covering("b.mp3"));
    assert!(pl.has_subfolders());
    assert_eq!(pl.to_items().len(), 3);
    let flat: Vec<PlaylistItem> = ["x.mp3", "y.mp3"].iter().filter_map(|l| line_candidate(l)).collect();
    let pl = Playlist::new("flat.m3u".to_string(), flat);
    assert!(!pl.has_subfolders());
}

#[test]
fn total_time_of_files() {
    assert_eq!(total_time(&vec![Some(10), None, Some(5)]), 15);
    assert_eq!(total_time(&Vec::new()), 0);
}

#[test]
fn playlist_from_lines_keeps_present_candidates() {
    let lines: Vec<String> = ["b.mp3", "usak/a.mp3", "# note", "gone/x.mp3", "usak/sub/c.mp3"]
        .iter()
        .map(|s| s.to_string())
        .collect();
    let present = vec![true, true, false, false, true];
    let pl = Playlist::from_lines("list.m3u".to_string(), &lines, &present);
    assert!(pl.is_covering("usak"));
    assert!(!pl.is_covering("gone"));
    assert!(pl.has_subfolders());
    assert_eq!(pl.to_items(), vec!["b.mp3".to_string(), "usak/a.mp3".to_string(), "usak/sub/c.mp3".to_string()]);
}
