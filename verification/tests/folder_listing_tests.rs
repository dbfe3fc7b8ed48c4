use audioserve::folder_listing::{
    cd_file_name, cd_pseudo_file_name, collapse_single_file, entry_role, natural_file_order,
    order_by_playlist, EntryFacts, EntryRole,
};

fn facts() -> EntryFacts {
    EntryFacts {
        is_dir: false,
        is_file: true,
        is_audio: false,
        meta_readable: true,
        has_chapters_meta: false,
        is_long: false,
        has_chapters_file: false,
        is_cover: false,
        is_description: false,
        is_playlist: false,
    }
}

#[test]
fn entry_roles() {
    let dir = EntryFacts { is_dir: true, is_file: false, ..facts() };
    assert_eq!(entry_role(dir, false, false, false, false), EntryRole::Subfolder { is_file: false });
    let audio = EntryFacts { is_audio: true, ..facts() };
    assert_eq!(entry_role(audio, false, false, false, false), EntryRole::AudioFile);
    let chaptered = EntryFacts { is_audio: true, has_chapters_meta: true, ..facts() };
    assert_eq!(entry_role(chaptered, false, false, false, false), EntryRole::Subfolder { is_file: true });
    assert_eq!(entry_role(chaptered, true, false, false, false), EntryRole::AudioFile);
    let unreadable = EntryFacts { is_audio: true, meta_readable: false, ..facts() };
    assert_eq!(entry_role(unreadable, false, false, false, false), EntryRole::Skip);
    let cover = EntryFacts { is_cover: true, ..facts() };
    assert_eq!(entry_role(cover, false, false, false, false), EntryRole::Cover);
    assert_eq!(entry_role(cover, false, true, false, false), EntryRole::Skip);
    let pl = EntryFacts { is_playlist: true, ..facts() };
    assert_eq!(entry_role(pl, false, false, false, false), EntryRole::Playlist);
    assert!(collapse_single_file(false, 0, &vec![true]));
    assert!(!collapse_single_file(true, 0, &vec![true]));
    assert!(!collapse_single_file(false, 1, &vec![true]));
}

#[test]
fn playlist_and_names() {
    let files = vec!["a.mp3".to_string(), "b.mp3".to_string(), "c.mp3".to_string()];
    let items = vec!["c.mp3".to_string(), "x.mp3".to_string(), "a.mp3".to_string(), "c.mp3".to_string()];
    assert_eq!(order_by_playlist(&files, &items), vec![2, 0]);
    assert_eq!(cd_file_name("CD1", "01 intro"), "CD1 01 intro");
    assert_eq!(cd_pseudo_file_name("CD1", "01.mp3"), "CD1$$01.mp3");
}

#[test]
fn natural_order_of_files() {
    let names: Vec<String> = ["10 - x", "2 - y", "1 - z", "2 - a"].iter().map(|s| s.to_string()).collect();
    assert_eq!(natural_file_order(&names), vec![2, 3, 1, 0]);
}
