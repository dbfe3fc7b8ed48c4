use audioserve::update::UpdateActionKind::{
    RefreshFolder, RefreshFolderRecursive, RemoveFolder, RenameFolder,
};
use audioserve::update::{
    actions_for_event, filter_event, merge_batch, EventDisposition, EventFacts, EventKindClass,
    Modification, MoveFacts, PendingEvents, UpdateAction, UpdateActionKind, watch_event_actions,
};

fn a(path: &str, kind: UpdateActionKind) -> UpdateAction {
    UpdateAction::new(path.to_string(), kind)
}

#[test]
fn covered_table() {
    let refresh = a("x", RefreshFolder);
    assert!(refresh.is_covered_by(&RefreshFolder, false));
    assert!(!refresh.is_covered_by(&RefreshFolder, true));
    assert!(refresh.is_covered_by(&RefreshFolderRecursive, true));
    assert!(refresh.is_covered_by(&RemoveFolder, true));
    assert!(!refresh.is_covered_by(&RenameFolder { to: "y".into() }, false));
    let rec = a("x", RefreshFolderRecursive);
    assert!(!rec.is_covered_by(&RefreshFolder, false));
    assert!(rec.is_covered_by(&RemoveFolder, true));
    let rem = a("x", RemoveFolder);
    assert!(rem.is_covered_by(&RemoveFolder, true));
    assert!(!rem.is_covered_by(&RefreshFolderRecursive, false));
    let ren = a("x", RenameFolder { to: "z".into() });
    assert!(!ren.is_covered_by(&RemoveFolder, false));
}

#[test]
fn event_kinds() {
    assert_eq!(Modification::from_event_kind(EventKindClass::Create, None), Some(Modification::Created));
    assert_eq!(Modification::from_event_kind(EventKindClass::RenameFrom, None), Some(Modification::Deleted));
    assert_eq!(Modification::from_event_kind(EventKindClass::RenameTo, None), Some(Modification::Created));
    assert_eq!(
        Modification::from_event_kind(EventKindClass::RenameBoth, Some("b".into())),
        Some(Modification::MovedTo("b".into()))
    );
    assert_eq!(Modification::from_event_kind(EventKindClass::RenameBoth, None), None);
    assert_eq!(Modification::from_event_kind(EventKindClass::Access, None), None);
    assert_eq!(filter_event(EventKindClass::Create, true), EventDisposition::Rescan);
    assert_eq!(filter_event(EventKindClass::Access, false), EventDisposition::Ignore);
    assert_eq!(filter_event(EventKindClass::Remove, false), EventDisposition::Pass);
}

fn facts(col: &str, is_dir: bool, parent: &str, mv: Option<MoveFacts>) -> EventFacts {
    EventFacts { col_path: col.into(), is_dir, true_parent: parent.into(), move_to: mv }
}

#[test]
fn actions_of_events() {
    let r = actions_for_event(&Modification::Created, &facts("a/b", true, "a", None));
    assert_eq!(r, vec![a("a/b", RefreshFolderRecursive), a("a", RefreshFolder)]);
    let r = actions_for_event(&Modification::Deleted, &facts("a/b", true, "a", None));
    assert_eq!(r, vec![a("a/b", RemoveFolder), a("a", RefreshFolder)]);
    let r = actions_for_event(&Modification::Modified, &facts("a/b.mp3", false, "a", None));
    assert_eq!(r, vec![a("a", RefreshFolder)]);
    let mv = MoveFacts {
        dest_path: "c/b".into(),
        dest_is_dir: true,
        dest_true_parent: "c".into(),
        dest_collapsable: false,
    };
    let r = actions_for_event(&Modification::MovedTo("/x/c/b".into()), &facts("a/b", true, "a", Some(mv)));
    assert_eq!(
        r,
        vec![a("a/b", RenameFolder { to: "c/b".into() }), a("a", RefreshFolder), a("c", RefreshFolder)]
    );
}

#[test]
fn merging_actions() {
    let merged = merge_batch(vec![
        a("a", RefreshFolderRecursive),
        a("a/b", RefreshFolder),
        a("c", RefreshFolder),
        a("c", RefreshFolder),
        a("c", RemoveFolder),
    ]);
    assert_eq!(merged, vec![a("a", RefreshFolderRecursive), a("c", RemoveFolder)]);
}

#[test]
fn pending_events() {
    let mut p = PendingEvents::new();
    p.insert_event(EventKindClass::Create, vec!["/r/a".into()], 10);
    p.insert_event(EventKindClass::Modify, vec!["/r/a".into()], 20);
    p.insert_event(EventKindClass::Modify, vec!["/r/b".into()], 30);
    assert_eq!(p.len(), 2);
    let due = p.take_due(false, 40, 15);
    assert_eq!(due.len(), 1);
    assert_eq!(due[0].path, "/r/a");
    assert_eq!(due[0].change_type, Modification::Created);
    assert_eq!(due[0].last_change, 20);
    assert_eq!(p.len(), 1);
    p.insert_event(EventKindClass::Create, vec!["/r/c".into()], 50);
    p.insert_event(EventKindClass::Remove, vec!["/r/c".into()], 60);
    assert_eq!(p.len(), 1);
    p.insert_event(EventKindClass::Access, vec![], 70);
    let all = p.take_due(true, 0, 1000);
    assert_eq!(all.len(), 1);
    assert_eq!(all[0].path, "/r/b");
    assert_eq!(p.len(), 0);
}

#[test]
fn pending_sorted_and_moves() {
    let mut p = PendingEvents::new();
    p.insert_event(EventKindClass::Modify, vec!["/r/z".into()], 1);
    p.insert_event(EventKindClass::Modify, vec!["/r/a-b".into()], 2);
    p.insert_event(EventKindClass::Modify, vec!["/r/a/b".into()], 3);
    p.insert_event(EventKindClass::RenameBoth, vec!["/r/m".into(), "/r/z".into()], 4);
    let all = p.take_due(true, 10, 0);
    let paths: Vec<&str> = all.iter().map(|e| e.path.as_str()).collect();
    assert_eq!(paths, vec!["/r/a/b", "/r/a-b", "/r/m"]);
    assert_eq!(all[2].change_type, Modification::MovedTo("/r/z".into()));
}

fn ua(path: &str, kind: UpdateActionKind) -> UpdateAction {
    UpdateAction { path: path.to_string(), kind }
}

#[test]
fn watcher_events_as_cache_takes_them() {
    assert_eq!(
        watch_event_actions(&Modification::Created, "a/b", true, false),
        vec![ua("a/b", RefreshFolderRecursive), ua("a", RefreshFolder)]
    );
    assert_eq!(watch_event_actions(&Modification::Created, "a/b.mp3", false, false), vec![ua("a", RefreshFolder)]);
    assert_eq!(watch_event_actions(&Modification::Modified, "a/b", true, false), vec![ua("a/b", RefreshFolder)]);
    assert_eq!(watch_event_actions(&Modification::Deleted, "a/b", true, false), vec![ua("a/b", RemoveFolder)]);
    assert_eq!(watch_event_actions(&Modification::Deleted, "b.mp3", false, false), vec![ua("", RefreshFolder)]);
    assert_eq!(
        watch_event_actions(&Modification::MovedTo("c/d".to_string()), "a/b", true, true),
        vec![ua("a/b", RenameFolder { to: "c/d".to_string() })]
    );
    assert_eq!(
        watch_event_actions(&Modification::MovedTo("x".to_string()), "a/b", true, false),
        vec![ua("a/b", RemoveFolder)]
    );
    assert_eq!(
        watch_event_actions(&Modification::MovedTo("c/d.mp3".to_string()), "a/b.mp3", false, true),
        vec![ua("a", RefreshFolder)]
    );
}
