//! How file system events become updates of the collection cache: each event
//! is turned into actions on folders, and the actions of a batch of events
//! are merged so that an action already covered by another on the same or
//! the parent folder is dropped.
use vstd::prelude::*;
use crate::cache_paths::{parent_path, spec_parent_path};
use crate::util::{path_parent, spec_path_parent, str_equal};

verus! {

/// What is to be done with a folder of the collection.
#[derive(Debug, Clone, PartialEq, Eq)]
pub enum UpdateActionKind {
    RefreshFolder,
    RefreshFolderRecursive,
    RemoveFolder,
    RenameFolder { to: String },
}

pub enum UpdateActionKindV {
    RefreshFolder,
    RefreshFolderRecursive,
    RemoveFolder,
    RenameFolder { to: Seq<char> },
}

impl View for UpdateActionKind {
    type V = UpdateActionKindV;

    open spec fn view(&self) -> UpdateActionKindV {
        match self {
            UpdateActionKind::RefreshFolder => UpdateActionKindV::RefreshFolder,
            UpdateActionKind::RefreshFolderRecursive => UpdateActionKindV::RefreshFolderRecursive,
            UpdateActionKind::RemoveFolder => UpdateActionKindV::RemoveFolder,
            UpdateActionKind::RenameFolder { to } => UpdateActionKindV::RenameFolder { to: to@ },
        }
    }
}

/// An action on the folder `path`, relative to the collection root.
#[derive(Debug, Clone, PartialEq, Eq)]
pub struct UpdateAction {
    pub path: String,
    pub kind: UpdateActionKind,
}

pub struct UpdateActionV {
    pub path: Seq<char>,
    pub kind: UpdateActionKindV,
}

impl View for UpdateAction {
    type V = UpdateActionV;

    open spec fn view(&self) -> UpdateActionV {
        UpdateActionV { path: self.path@, kind: self.kind@ }
    }
}

pub open spec fn actions_view(v: Seq<UpdateAction>) -> Seq<UpdateActionV> {
    v.map_values(|a: UpdateAction| a@)
}

/// Whether an action of kind `mine` on a folder is made unnecessary by an
/// action of kind `other` on the same folder or, where `other_is_parent`,
/// on its parent: a refresh is covered by a recursive refresh or a removal
/// (and by a plain refresh of the same folder), a recursive refresh by a
/// recursive refresh or a removal, a removal by a removal; a rename is
/// never covered and never covers.
pub open spec fn spec_is_covered_by(mine: UpdateActionKindV, other: UpdateActionKindV, other_is_parent: bool) -> bool {
    match mine {
        UpdateActionKindV::RefreshFolder => match other {
            UpdateActionKindV::RefreshFolder => !other_is_parent,
            UpdateActionKindV::RefreshFolderRecursive => true,
            UpdateActionKindV::RemoveFolder => true,
            UpdateActionKindV::RenameFolder { .. } => false,
        },
        UpdateActionKindV::RefreshFolderRecursive => match other {
            UpdateActionKindV::RefreshFolderRecursive => true,
            UpdateActionKindV::RemoveFolder => true,
            _ => false,
        },
        UpdateActionKindV::RemoveFolder => other is RemoveFolder,
        UpdateActionKindV::RenameFolder { .. } => false,
    }
}

impl UpdateActionKind {
    /// A copy of the kind.
    pub fn duplicate(&self) -> (r: Self)
        ensures
            r@ == self@,
    {
        match self {
            UpdateActionKind::RefreshFolder => UpdateActionKind::RefreshFolder,
            UpdateActionKind::RefreshFolderRecursive => UpdateActionKind::RefreshFolderRecursive,
            UpdateActionKind::RemoveFolder => UpdateActionKind::RemoveFolder,
            UpdateActionKind::RenameFolder { to } => UpdateActionKind::RenameFolder { to: to.clone() },
        }
    }
}

impl UpdateAction {
    /// The action `kind` on `path`.
    pub fn new(path: String, kind: UpdateActionKind) -> (r: Self)
        ensures
            r@ == (UpdateActionV { path: path@, kind: kind@ }),
    {
        UpdateAction { path, kind }
    }

    /// Whether this action is covered by an action of kind `other` on the
    /// same folder or, where `other_is_parent`, on its parent.
    pub fn is_covered_by(&self, other: &UpdateActionKind, other_is_parent: bool) -> (r: bool)
        ensures
            r == spec_is_covered_by(self.kind@, other@, other_is_parent),
    {
        match &self.kind {
            UpdateActionKind::RefreshFolder => match other {
                UpdateActionKind::RefreshFolder => !other_is_parent,
                UpdateActionKind::RefreshFolderRecursive => true,
                UpdateActionKind::RemoveFolder => true,
                UpdateActionKind::RenameFolder { .. } => false,
            },
            UpdateActionKind::RefreshFolderRecursive => match other {
                UpdateActionKind::RefreshFolder => false,
                UpdateActionKind::RefreshFolderRecursive => true,
                UpdateActionKind::RemoveFolder => true,
                UpdateActionKind::RenameFolder { .. } => false,
            },
            UpdateActionKind::RemoveFolder => match other {
                UpdateActionKind::RefreshFolder => false,
                UpdateActionKind::RefreshFolderRecursive => false,
                UpdateActionKind::RemoveFolder => true,
                UpdateActionKind::RenameFolder { .. } => false,
            },
            UpdateActionKind::RenameFolder { .. } => false,
        }
    }
}

// ---------------------------------------------------------------------
// events

/// A change of a path, as the watcher reports it after debouncing.
#[derive(Debug, Clone, PartialEq, Eq)]
pub enum Modification {
    Created,
    Deleted,
    Modified,
    MovedTo(String),
}

pub enum ModificationV {
    Created,
    Deleted,
    Modified,
    MovedTo(Seq<char>),
}

impl View for Modification {
    type V = ModificationV;

    open spec fn view(&self) -> ModificationV {
        match self {
            Modification::Created => ModificationV::Created,
            Modification::Deleted => ModificationV::Deleted,
            Modification::Modified => ModificationV::Modified,
            Modification::MovedTo(p) => ModificationV::MovedTo(p@),
        }
    }
}

/// The kind of a file system event, as far as the cache tells kinds apart.
#[derive(Debug, Clone, Copy, PartialEq, Eq, Structural)]
pub enum EventKindClass {
    /// any event, unknown kind
    Any,
    /// a read
    Access,
    /// a creation
    Create,
    /// a rename, seen from the old name
    RenameFrom,
    /// a rename, seen from the new name
    RenameTo,
    /// a rename with both names
    RenameBoth,
    /// another modification
    Modify,
    /// a folder removed
    RemoveFolder,
    /// something else removed
    Remove,
    /// none of the above
    Other,
}

/// The modification that an event of kind `kind` makes; a rename with both
/// names is a move to the second path, where there is one.
pub open spec fn spec_from_event_kind(kind: EventKindClass, other_path: Option<Seq<char>>) -> Option<ModificationV> {
    match kind {
        EventKindClass::Create => Some(ModificationV::Created),
        EventKindClass::RenameFrom => Some(ModificationV::Deleted),
        EventKindClass::RenameTo => Some(ModificationV::Created),
        EventKindClass::RenameBoth => match other_path {
            Some(p) => Some(ModificationV::MovedTo(p)),
            None => None,
        },
        EventKindClass::Modify => Some(ModificationV::Modified),
        EventKindClass::RemoveFolder => Some(ModificationV::Deleted),
        EventKindClass::Remove => Some(ModificationV::Deleted),
        _ => None,
    }
}

impl Modification {
    /// The modification of an event.
    pub fn from_event_kind(kind: EventKindClass, other_path: Option<String>) -> (r: Option<Self>)
        ensures
            match spec_from_event_kind(kind, match other_path { Some(p) => Some(p@), None => None }) {
                Some(m) => r matches Some(x) && x@ == m,
                None => r is None,
            },
    {
        match kind {
            EventKindClass::Create => Some(Modification::Created),
            EventKindClass::RenameFrom => Some(Modification::Deleted),
            EventKindClass::RenameTo => Some(Modification::Created),
            EventKindClass::RenameBoth => match other_path {
                Some(p) => Some(Modification::MovedTo(p)),
                None => None,
            },
            EventKindClass::Modify => Some(Modification::Modified),
            EventKindClass::RemoveFolder => Some(Modification::Deleted),
            EventKindClass::Remove => Some(Modification::Deleted),
            _ => None,
        }
    }
}

/// What to do with a watcher event.
#[derive(Debug, Clone, Copy, PartialEq, Eq, Structural)]
pub enum EventDisposition {
    /// hand it to the updater
    Pass,
    /// drop it
    Ignore,
    /// the watcher lost events: rescan the collection
    Rescan,
}

/// An event that needs a rescan asks for one; of the others, reads and
/// events of unknown or other kinds are dropped and the rest pass.
pub open spec fn spec_filter_event(kind: EventKindClass, need_rescan: bool) -> EventDisposition {
    if need_rescan {
        EventDisposition::Rescan
    } else {
        match kind {
            EventKindClass::Any | EventKindClass::Access | EventKindClass::Other => EventDisposition::Ignore,
            _ => EventDisposition::Pass,
        }
    }
}

/// What to do with a watcher event.
pub fn filter_event(kind: EventKindClass, need_rescan: bool) -> (r: EventDisposition)
    ensures
        r == spec_filter_event(kind, need_rescan),
{
    if need_rescan {
        EventDisposition::Rescan
    } else {
        match kind {
            EventKindClass::Any | EventKindClass::Access | EventKindClass::Other => EventDisposition::Ignore,
            _ => EventDisposition::Pass,
        }
    }
}

// ---------------------------------------------------------------------
// the actions of one event

/// What the file system says of the destination of a move.
pub struct MoveFacts {
    /// the destination, relative to the collection root
    pub dest_path: String,
    /// the destination is a folder
    pub dest_is_dir: bool,
    /// the destination's folder, where a collapsed CD folder counts as its parent
    pub dest_true_parent: String,
    /// the destination is a CD folder that is collapsed into its parent
    pub dest_collapsable: bool,
}

/// What the file system says of the path of an event.
pub struct EventFacts {
    /// the path, relative to the collection root
    pub col_path: String,
    /// the path is a folder (or a file shown as one)
    pub is_dir: bool,
    /// the folder that shows the path, where a collapsed CD folder counts as its parent
    pub true_parent: String,
    /// facts of the destination of a move
    pub move_to: Option<MoveFacts>,
}

pub open spec fn act(path: Seq<char>, kind: UpdateActionKindV) -> UpdateActionV {
    UpdateActionV { path, kind }
}

/// The actions for one event: a created folder is refreshed recursively and
/// its parent refreshed; a modified folder is refreshed, a modified file's
/// folder too; a deleted folder is removed and its parent refreshed, a
/// deleted file's folder refreshed; a moved folder is removed (where the
/// destination is a collapsed CD folder) or renamed, and the old and, where
/// it differs, new parent refreshed; a moved file's folder is refreshed, and
/// so is the destination: a folder with its parent, recursively, a file its
/// folder.
pub open spec fn spec_actions_for_event(change: ModificationV, col_path: Seq<char>, is_dir: bool, true_parent: Seq<char>, move_to: Option<(Seq<char>, bool, Seq<char>, bool)>) -> Seq<UpdateActionV> {
    match change {
        ModificationV::Created => if is_dir {
            seq![act(col_path, UpdateActionKindV::RefreshFolderRecursive), act(true_parent, UpdateActionKindV::RefreshFolder)]
        } else {
            seq![act(true_parent, UpdateActionKindV::RefreshFolder)]
        },
        ModificationV::Modified => if is_dir {
            seq![act(col_path, UpdateActionKindV::RefreshFolder)]
        } else {
            seq![act(true_parent, UpdateActionKindV::RefreshFolder)]
        },
        ModificationV::Deleted => if is_dir {
            seq![act(col_path, UpdateActionKindV::RemoveFolder), act(spec_parent_path(col_path), UpdateActionKindV::RefreshFolder)]
        } else {
            seq![act(true_parent, UpdateActionKindV::RefreshFolder)]
        },
        ModificationV::MovedTo(_) => match move_to {
            None => Seq::empty(),
            Some((dest, dest_is_dir, dest_true_parent, dest_collapsable)) => if is_dir {
                let first = if dest_collapsable {
                    act(col_path, UpdateActionKindV::RemoveFolder)
                } else {
                    act(col_path, UpdateActionKindV::RenameFolder { to: dest })
                };
                let orig_parent = spec_parent_path(col_path);
                let new_parent = spec_parent_path(dest);
                if new_parent != orig_parent {
                    seq![first, act(orig_parent, UpdateActionKindV::RefreshFolder), act(new_parent, UpdateActionKindV::RefreshFolder)]
                } else {
                    seq![first, act(orig_parent, UpdateActionKindV::RefreshFolder)]
                }
            } else if dest_is_dir {
                seq![
                    act(true_parent, UpdateActionKindV::RefreshFolder),
                    act(spec_parent_path(dest), UpdateActionKindV::RefreshFolder),
                    act(dest, UpdateActionKindV::RefreshFolderRecursive),
                ]
            } else {
                seq![act(true_parent, UpdateActionKindV::RefreshFolder), act(dest_true_parent, UpdateActionKindV::RefreshFolder)]
            },
        },
    }
}

pub open spec fn move_facts_view(m: Option<MoveFacts>) -> Option<(Seq<char>, bool, Seq<char>, bool)> {
    match m {
        Some(f) => Some((f.dest_path@, f.dest_is_dir, f.dest_true_parent@, f.dest_collapsable)),
        None => None,
    }
}

/// The actions for one event; a move comes with the facts of its
/// destination.
pub fn actions_for_event(change: &Modification, facts: &EventFacts) -> (r: Vec<UpdateAction>)
    requires
        (change@ is MovedTo) ==> facts.move_to is Some,
    ensures
        actions_view(r@) == spec_actions_for_event(change@, facts.col_path@, facts.is_dir, facts.true_parent@, move_facts_view(facts.move_to)),
{
    let mut result: Vec<UpdateAction> = Vec::new();
    let col_path = &facts.col_path;
    match change {
        Modification::Created => {
            if facts.is_dir {
                result.push(UpdateAction::new(col_path.clone(), UpdateActionKind::RefreshFolderRecursive));
            }
            result.push(UpdateAction::new(facts.true_parent.clone(), UpdateActionKind::RefreshFolder));
        },
        Modification::Modified => {
            if facts.is_dir {
                result.push(UpdateAction::new(col_path.clone(), UpdateActionKind::RefreshFolder));
            } else {
                result.push(UpdateAction::new(facts.true_parent.clone(), UpdateActionKind::RefreshFolder));
            }
        },
        Modification::Deleted => {
            if facts.is_dir {
                result.push(UpdateAction::new(col_path.clone(), UpdateActionKind::RemoveFolder));
                result.push(UpdateAction::new(parent_path(col_path.as_str()), UpdateActionKind::RefreshFolder));
            } else {
                result.push(UpdateAction::new(facts.true_parent.clone(), UpdateActionKind::RefreshFolder));
            }
        },
        Modification::MovedTo(_) => {
            match &facts.move_to {
                None => {},
                Some(m) => {
                    if facts.is_dir {
                        if m.dest_collapsable {
                            result.push(UpdateAction::new(col_path.clone(), UpdateActionKind::RemoveFolder));
                        } else {
                            result.push(UpdateAction::new(col_path.clone(), UpdateActionKind::RenameFolder { to: m.dest_path.clone() }));
                        }
                        let orig_parent = parent_path(col_path.as_str());
                        let new_parent = parent_path(m.dest_path.as_str());
                        let parents_differ = !str_equal(new_parent.as_str(), orig_parent.as_str());
                        result.push(UpdateAction::new(orig_parent, UpdateActionKind::RefreshFolder));
                        if parents_differ {
                            result.push(UpdateAction::new(new_parent, UpdateActionKind::RefreshFolder));
                        }
                    } else {
                        result.push(UpdateAction::new(facts.true_parent.clone(), UpdateActionKind::RefreshFolder));
                        if m.dest_is_dir {
                            result.push(UpdateAction::new(parent_path(m.dest_path.as_str()), UpdateActionKind::RefreshFolder));
                            result.push(UpdateAction::new(m.dest_path.clone(), UpdateActionKind::RefreshFolderRecursive));
                        } else {
                            result.push(UpdateAction::new(m.dest_true_parent.clone(), UpdateActionKind::RefreshFolder));
                        }
                    }
                },
            }
        },
    }
    assert(actions_view(result@) =~= spec_actions_for_event(change@, facts.col_path@, facts.is_dir, facts.true_parent@, move_facts_view(facts.move_to)));
    result
}

// ---------------------------------------------------------------------
// merging the actions of a batch

#[verifier::external_type_specification]
#[verifier::external_body]
#[verifier::reject_recursive_types(K)]
#[verifier::reject_recursive_types(V)]
#[verifier::reject_recursive_types(S)]
pub struct ExIndexMap<K, V, S>(indexmap::IndexMap<K, V, S>);

/// The map of pending actions: folder paths with their action kind, in
/// insertion order.
pub type ActionMap = indexmap::IndexMap<String, UpdateActionKind>;

/// The entries of an action map, in order.
pub uninterp spec fn action_map_entries(m: indexmap::IndexMap<String, UpdateActionKind>) -> Seq<(Seq<char>, UpdateActionKindV)>;

/// Whether no path occurs twice.
pub open spec fn distinct_paths(e: Seq<(Seq<char>, UpdateActionKindV)>) -> bool {
    forall|i: int, j: int| 0 <= i < j < e.len() ==> e[i].0 != e[j].0
}

/// The index of `path` in the entries, if it is there.
pub open spec fn path_index(e: Seq<(Seq<char>, UpdateActionKindV)>, path: Seq<char>) -> Option<int> {
    if exists|i: int| 0 <= i < e.len() && e[i].0 == path {
        Some(choose|i: int| 0 <= i < e.len() && e[i].0 == path)
    } else {
        None
    }
}

/// The kind stored for `path`.
pub open spec fn kind_for(e: Seq<(Seq<char>, UpdateActionKindV)>, path: Seq<char>) -> Option<UpdateActionKindV> {
    match path_index(e, path) {
        Some(i) => Some(e[i].1),
        None => None,
    }
}

/// The entries after `IndexMap::insert`: an existing path keeps its place
/// and takes the new kind; a new path goes last.
pub open spec fn insert_entry(e: Seq<(Seq<char>, UpdateActionKindV)>, path: Seq<char>, kind: UpdateActionKindV) -> Seq<(Seq<char>, UpdateActionKindV)> {
    match path_index(e, path) {
        Some(i) => e.update(i, (path, kind)),
        None => e.push((path, kind)),
    }
}

/// Calls `IndexMap::new`: an empty map.
#[verifier::external_body]
fn action_map_new() -> (r: indexmap::IndexMap<String, UpdateActionKind>)
    ensures
        action_map_entries(r) == Seq::<(Seq<char>, UpdateActionKindV)>::empty(),
{
    indexmap::IndexMap::new()
}

/// Calls `IndexMap::get` and clones the kind found: the kind stored for the
/// path, if any.
#[verifier::external_body]
fn action_map_get(m: &indexmap::IndexMap<String, UpdateActionKind>, path: &str) -> (r: Option<UpdateActionKind>)
    ensures
        match kind_for(action_map_entries(*m), path@) {
            Some(k) => r matches Some(x) && x@ == k,
            None => r is None,
        },
{
    m.get(path).cloned()
}

/// Calls `IndexMap::insert`, which (as its documentation says) updates an
/// existing key in its place and puts a new key last.
#[verifier::external_body]
fn action_map_insert(m: &mut indexmap::IndexMap<String, UpdateActionKind>, path: String, kind: UpdateActionKind)
    ensures
        action_map_entries(*final(m)) == insert_entry(action_map_entries(*old(m)), path@, kind@),
        distinct_paths(action_map_entries(*final(m))),
{
    m.insert(path, kind);
}

/// Calls `IndexMap::into_iter` and collects the actions in order.
#[verifier::external_body]
fn action_map_into_actions(m: indexmap::IndexMap<String, UpdateActionKind>) -> (r: Vec<UpdateAction>)
    ensures
        actions_view(r@) == action_map_entries(m).map_values(|e: (Seq<char>, UpdateActionKindV)| act(e.0, e.1)),
{
    m.into_iter().map(|(path, kind)| UpdateAction { path, kind }).collect()
}

/// Whether an action is covered by what the map holds for its parent (where
/// it has one) or for its own path.
pub open spec fn covered_in(e: Seq<(Seq<char>, UpdateActionKindV)>, a: UpdateActionV) -> bool {
    (match spec_path_parent(a.path) {
        Some(p) => match kind_for(e, p) {
            Some(k) => spec_is_covered_by(a.kind, k, true),
            None => false,
        },
        None => false,
    }) || (match kind_for(e, a.path) {
        Some(k) => spec_is_covered_by(a.kind, k, false),
        None => false,
    })
}

/// The map after the actions `acts` in turn: an action that is covered is
/// dropped, any other is inserted.
pub open spec fn merge_actions(e: Seq<(Seq<char>, UpdateActionKindV)>, acts: Seq<UpdateActionV>) -> Seq<(Seq<char>, UpdateActionKindV)>
    decreases acts.len(),
{
    if acts.len() == 0 {
        e
    } else {
        let before = merge_actions(e, acts.drop_last());
        let a = acts.last();
        if covered_in(before, a) {
            before
        } else {
            insert_entry(before, a.path, a.kind)
        }
    }
}

/// Adds the actions `acts` to the map in turn, dropping those covered by an
/// action already there.
pub fn merge_into(map: &mut indexmap::IndexMap<String, UpdateActionKind>, acts: Vec<UpdateAction>)
    ensures
        action_map_entries(*final(map)) == merge_actions(action_map_entries(*old(map)), actions_view(acts@)),
{
    let ghost start = action_map_entries(*map);
    let mut i: usize = 0;
    while i < acts.len()
        invariant
            i <= acts@.len(),
            start == action_map_entries(*old(map)),
            action_map_entries(*map) == merge_actions(start, actions_view(acts@).take(i as int)),
        decreases acts@.len() - i,
    {
        let action = &acts[i];
        proof {
            let av = actions_view(acts@);
            assert(av.take(i + 1).drop_last() =~= av.take(i as int));
            assert(av.take(i + 1).last() == action@);
        }
        let mut covered = false;
        match path_parent(action.path.as_str()) {
            Some(p) => match action_map_get(map, p.as_str()) {
                Some(existing) => {
                    covered = action.is_covered_by(&existing, true);
                },
                None => {},
            },
            None => {},
        }
        if !covered {
            match action_map_get(map, action.path.as_str()) {
                Some(existing) => {
                    covered = action.is_covered_by(&existing, false);
                },
                None => {},
            }
        }
        if !covered {
            action_map_insert(map, action.path.clone(), action.kind.duplicate());
        }
        i = i + 1;
    }
    assert(actions_view(acts@).take(acts@.len() as int) =~= actions_view(acts@));
}

/// The actions of a batch, merged: each is dropped where an action kept
/// before it covers it, on the same folder or its parent.
pub fn merge_batch(acts: Vec<UpdateAction>) -> (r: Vec<UpdateAction>)
    ensures
        actions_view(r@) == merge_actions(Seq::empty(), actions_view(acts@)).map_values(
            |e: (Seq<char>, UpdateActionKindV)| act(e.0, e.1),
        ),
{
    let mut map = action_map_new();
    merge_into(&mut map, acts);
    action_map_into_actions(map)
}

proof fn lemma_insert_entry(e: Seq<(Seq<char>, UpdateActionKindV)>, path: Seq<char>, kind: UpdateActionKindV)
    requires
        distinct_paths(e),
    ensures
        distinct_paths(insert_entry(e, path, kind)),
        forall|j: int| 0 <= j < insert_entry(e, path, kind).len() ==> {
            let x = #[trigger] insert_entry(e, path, kind)[j];
            x == (path, kind) || e.contains(x)
        },
{
    let r = insert_entry(e, path, kind);
    match path_index(e, path) {
        Some(i) => {
            assert forall|j: int| 0 <= j < r.len() implies {
                let x = #[trigger] r[j];
                x == (path, kind) || e.contains(x)
            } by {
                if j != i {
                    assert(e[j] == r[j]);
                }
            };
        },
        None => {
            assert forall|j: int| 0 <= j < r.len() implies {
                let x = #[trigger] r[j];
                x == (path, kind) || e.contains(x)
            } by {
                if j < e.len() {
                    assert(e[j] == r[j]);
                }
            };
        },
    }
}

/// A merged batch holds at most one action per folder, and only actions of
/// the batch itself.
pub proof fn lemma_merge_actions_distinct(acts: Seq<UpdateActionV>)
    ensures
        distinct_paths(merge_actions(Seq::empty(), acts)),
        forall|j: int| 0 <= j < merge_actions(Seq::empty(), acts).len() ==> exists|k: int| 0 <= k < acts.len()
            && #[trigger] merge_actions(Seq::empty(), acts)[j] == (acts[k].path, acts[k].kind),
    decreases acts.len(),
{
    if acts.len() > 0 {
        let prev = acts.drop_last();
        lemma_merge_actions_distinct(prev);
        let before = merge_actions(Seq::empty(), prev);
        let a = acts.last();
        let r = merge_actions(Seq::empty(), acts);
        if !covered_in(before, a) {
            lemma_insert_entry(before, a.path, a.kind);
        }
        assert forall|j: int| 0 <= j < r.len() implies exists|k: int| 0 <= k < acts.len()
            && #[trigger] r[j] == (acts[k].path, acts[k].kind) by {
            if r[j] == (a.path, a.kind) {
                assert(r[j] == (acts[acts.len() - 1].path, acts[acts.len() - 1].kind));
            } else {
                assert(before.contains(r[j]));
                let m = choose|m: int| 0 <= m < before.len() && before[m] == r[j];
                let k = choose|k: int| 0 <= k < prev.len() && #[trigger] before[m] == (prev[k].path, prev[k].kind);
                assert(prev[k] == acts[k]);
            }
        };
    }
}

// ---------------------------------------------------------------------
// debouncing events

/// What `Path::starts_with` gives: whether `base` is a prefix of `p`,
/// component by component.
pub uninterp spec fn spec_path_starts_with(p: Seq<char>, base: Seq<char>) -> bool;

/// Calls `Path::starts_with`.
#[verifier::external_body]
fn path_starts_with(p: &str, base: &str) -> (r: bool)
    ensures
        r == spec_path_starts_with(p@, base@),
{
    std::path::Path::new(p).starts_with(base)
}

/// A pending change of a path: when it last changed (in ms of the
/// updater's clock) and how.
pub struct PendingEvent {
    pub path: String,
    pub last_change: u64,
    pub change_type: Modification,
}

pub struct PendingEventV {
    pub path: Seq<char>,
    pub last_change: u64,
    pub change_type: ModificationV,
}

impl View for PendingEvent {
    type V = PendingEventV;

    open spec fn view(&self) -> PendingEventV {
        PendingEventV { path: self.path@, last_change: self.last_change, change_type: self.change_type@ }
    }
}

pub open spec fn pending_view(v: Seq<PendingEvent>) -> Seq<PendingEventV> {
    v.map_values(|e: PendingEvent| e@)
}

/// No path is pending twice.
pub open spec fn distinct_pending(v: Seq<PendingEventV>) -> bool {
    forall|i: int, j: int| 0 <= i < j < v.len() ==> v[i].path != v[j].path
}

/// The changes waiting for their debounce interval to pass, one per path.
pub struct PendingEvents {
    events: Vec<PendingEvent>,
}

/// The pending events that `keep` accepts, in order.
pub open spec fn keep_events(v: Seq<PendingEventV>, keep: spec_fn(PendingEventV) -> bool) -> Seq<PendingEventV>
    decreases v.len(),
{
    if v.len() == 0 {
        v
    } else {
        let sub = keep_events(v.drop_last(), keep);
        if keep(v.last()) {
            sub.push(v.last())
        } else {
            sub
        }
    }
}

/// The pending events under `base`, in order.
pub open spec fn retain_under(v: Seq<PendingEventV>, base: Seq<char>) -> Seq<PendingEventV> {
    keep_events(v, |e: PendingEventV| spec_path_starts_with(e.path, base))
}

/// The pending events without the one for `path`.
pub open spec fn remove_path(v: Seq<PendingEventV>, path: Seq<char>) -> Seq<PendingEventV> {
    keep_events(v, |e: PendingEventV| e.path != path)
}

/// Keeping some of the pending events keeps them distinct, and keeps only
/// events that were there.
pub proof fn lemma_keep_events(v: Seq<PendingEventV>, keep: spec_fn(PendingEventV) -> bool)
    requires
        distinct_pending(v),
    ensures
        distinct_pending(keep_events(v, keep)),
        forall|x: PendingEventV| keep_events(v, keep).contains(x) ==> v.contains(x) && keep(x),
    decreases v.len(),
{
    if v.len() > 0 {
        let d = v.drop_last();
        assert(distinct_pending(d));
        lemma_keep_events(d, keep);
        let sub = keep_events(d, keep);
        assert forall|x: PendingEventV| keep_events(v, keep).contains(x) implies v.contains(x) && keep(x) by {
            if sub.contains(x) {
                assert(d.contains(x));
                let k = choose|k: int| 0 <= k < d.len() && d[k] == x;
                assert(v[k] == x);
            } else {
                assert(x == v.last());
                assert(v[v.len() - 1] == x);
            }
        };
        if keep(v.last()) {
            assert forall|i: int, j: int| 0 <= i < j < sub.push(v.last()).len() implies sub.push(v.last())[i].path != sub.push(v.last())[j].path by {
                if j == sub.len() {
                    let x = sub[i];
                    assert(sub.contains(x));
                    assert(d.contains(x));
                    let k = choose|k: int| 0 <= k < d.len() && d[k] == x;
                    assert(v[k] == x);
                    assert(v[v.len() - 1] == v.last());
                }
            };
        }
    }
}

/// The index of the pending event for `path`, if there is one.
pub open spec fn pending_index(v: Seq<PendingEventV>, path: Seq<char>) -> Option<int> {
    if exists|i: int| 0 <= i < v.len() && v[i].path == path {
        Some(choose|i: int| 0 <= i < v.len() && v[i].path == path)
    } else {
        None
    }
}

/// The pending events after a change `m` of `path` at `now`: a known path
/// takes the new time and change, except that a creation stays a creation
/// when it is modified and disappears when it is deleted; a new path is
/// added last.
pub open spec fn record_change(v: Seq<PendingEventV>, path: Seq<char>, m: ModificationV, now: u64) -> Seq<PendingEventV> {
    match pending_index(v, path) {
        Some(i) => {
            let old = v[i].change_type;
            if old is Created && m is Modified {
                v.update(i, PendingEventV { path, last_change: now, change_type: old })
            } else if old is Created && m is Deleted {
                v.remove(i)
            } else {
                v.update(i, PendingEventV { path, last_change: now, change_type: m })
            }
        },
        None => v.push(PendingEventV { path, last_change: now, change_type: m }),
    }
}

/// Recording a change `m` of `path` at `now`: where `path` was pending,
/// a creation that is deleted leaves nothing pending for it; otherwise the
/// one event pending for it afterwards carries the time `now`, and keeps
/// its kind where a creation is modified, else takes `m`. A path not
/// pending becomes pending last, at `now`, with `m`. The events of other
/// paths stay as they were, in order.
pub proof fn lemma_record_change(v: Seq<PendingEventV>, path: Seq<char>, m: ModificationV, now: u64)
    requires
        distinct_pending(v),
    ensures
        ({
            let r = record_change(v, path, m, now);
            &&& distinct_pending(r)
            &&& forall|j: int| 0 <= j < v.len() && v[j].path != path ==> r.contains(#[trigger] v[j])
            &&& forall|j: int| 0 <= j < r.len() && r[j].path != path ==> v.contains(#[trigger] r[j])
            &&& (exists|i: int| 0 <= i < v.len() && v[i].path == path && v[i].change_type is Created && m is Deleted)
                ==> forall|j: int| 0 <= j < r.len() ==> #[trigger] r[j].path != path
            &&& !(exists|i: int| 0 <= i < v.len() && v[i].path == path && v[i].change_type is Created && m is Deleted)
                ==> exists|j: int| 0 <= j < r.len() && #[trigger] r[j].path == path && r[j].last_change == now && r[j].change_type
                == (if (exists|i: int| 0 <= i < v.len() && v[i].path == path && v[i].change_type is Created) && m is Modified {
                ModificationV::Created
            } else {
                m
            })
            &&& (forall|i: int| 0 <= i < v.len() ==> v[i].path != path) ==> r == v.push(
                PendingEventV { path, last_change: now, change_type: m },
            )
        }),
{
    let r = record_change(v, path, m, now);
    match pending_index(v, path) {
        Some(i) => {
            assert(v[i].path == path);
            assert forall|k: int| 0 <= k < v.len() && v[k].path == path implies k == i by {
                if k < i {
                    assert(v[k].path != v[i].path);
                } else if k > i {
                    assert(v[i].path != v[k].path);
                }
            }
            let old = v[i].change_type;
            if old is Created && m is Deleted {
                assert(r == v.remove(i));
                assert forall|j: int| 0 <= j < r.len() implies #[trigger] r[j].path != path by {
                    if j < i {
                        assert(r[j] == v[j]);
                    } else {
                        assert(r[j] == v[j + 1]);
                    }
                }
                assert forall|j: int| 0 <= j < v.len() && v[j].path != path implies r.contains(#[trigger] v[j]) by {
                    if j < i {
                        assert(r[j] == v[j]);
                    } else {
                        assert(r[j - 1] == v[j]);
                    }
                }
                assert forall|j: int| 0 <= j < r.len() && r[j].path != path implies v.contains(#[trigger] r[j]) by {
                    if j < i {
                        assert(r[j] == v[j]);
                    } else {
                        assert(r[j] == v[j + 1]);
                    }
                }
                assert forall|a: int, b: int| 0 <= a < b < r.len() implies r[a].path != r[b].path by {
                    let a2 = if a < i { a } else { a + 1 };
                    let b2 = if b < i { b } else { b + 1 };
                    assert(r[a] == v[a2]);
                    assert(r[b] == v[b2]);
                }
            } else {
                let ct = if old is Created && m is Modified { old } else { m };
                assert(r == v.update(i, PendingEventV { path, last_change: now, change_type: ct }));
                assert(r[i].path == path && r[i].last_change == now);
                assert forall|j: int| 0 <= j < v.len() && v[j].path != path implies r.contains(#[trigger] v[j]) by {
                    assert(r[j] == v[j]);
                }
                assert forall|j: int| 0 <= j < r.len() && r[j].path != path implies v.contains(#[trigger] r[j]) by {
                    assert(r[j] == v[j]);
                }
                assert forall|a: int, b: int| 0 <= a < b < r.len() implies r[a].path != r[b].path by {
                    if a != i && b != i {
                        assert(r[a] == v[a] && r[b] == v[b]);
                    } else if a == i {
                        assert(r[b] == v[b]);
                        assert(v[a].path != v[b].path);
                    } else {
                        assert(r[a] == v[a]);
                        assert(v[a].path != v[b].path);
                    }
                }
            }
        },
        None => {
            let e = PendingEventV { path, last_change: now, change_type: m };
            assert(r == v.push(e));
            assert(r[v.len() as int] == e);
            assert forall|j: int| 0 <= j < v.len() && v[j].path != path implies r.contains(#[trigger] v[j]) by {
                assert(r[j] == v[j]);
            }
            assert forall|j: int| 0 <= j < r.len() && r[j].path != path implies v.contains(#[trigger] r[j]) by {
                assert(r[j] == v[j]);
            }
            assert forall|a: int, b: int| 0 <= a < b < r.len() implies r[a].path != r[b].path by {
                if b == v.len() {
                    assert(r[a] == v[a]);
                } else {
                    assert(r[a] == v[a] && r[b] == v[b]);
                }
            }
        },
    }
}

/// The pending events after an event of kind `kind` on `paths` at `now`.
/// An event without paths changes nothing. A removed folder keeps only the
/// pending events under it; an event without a modification changes nothing
/// more. A move drops what was pending for its destination, and the change
/// is then recorded for the first path.
pub open spec fn spec_insert_event(v: Seq<PendingEventV>, kind: EventKindClass, paths: Seq<Seq<char>>, now: u64) -> Seq<PendingEventV> {
    if paths.len() == 0 {
        v
    } else {
        let path = paths[0];
        let v1 = if kind is RemoveFolder { retain_under(v, path) } else { v };
        let other = if paths.len() > 1 { Some(paths[1]) } else { None };
        match spec_from_event_kind(kind, other) {
            None => v1,
            Some(m) => {
                let v2 = match m {
                    ModificationV::MovedTo(dest) => remove_path(v1, dest),
                    _ => v1,
                };
                record_change(v2, path, m, now)
            },
        }
    }
}

impl PendingEvents {
    #[verifier::type_invariant]
    spec fn distinct(&self) -> bool {
        distinct_pending(pending_view(self.events@))
    }

    pub closed spec fn view_events(&self) -> Seq<PendingEventV> {
        pending_view(self.events@)
    }

    /// No pending events.
    pub fn new() -> (r: Self)
        ensures
            r.view_events() == Seq::<PendingEventV>::empty(),
    {
        let r = PendingEvents { events: Vec::new() };
        assert(pending_view(r.events@) =~= Seq::<PendingEventV>::empty());
        r
    }

    /// The number of pending events.
    pub fn len(&self) -> (r: usize)
        ensures
            r == self.view_events().len(),
    {
        self.events.len()
    }
}

impl Modification {
    /// A copy of the modification.
    pub fn duplicate(&self) -> (r: Self)
        ensures
            r@ == self@,
    {
        match self {
            Modification::Created => Modification::Created,
            Modification::Deleted => Modification::Deleted,
            Modification::Modified => Modification::Modified,
            Modification::MovedTo(p) => Modification::MovedTo(p.clone()),
        }
    }
}

impl PendingEvent {
    /// A copy of the event.
    pub fn duplicate(&self) -> (r: Self)
        ensures
            r@ == self@,
    {
        PendingEvent { path: self.path.clone(), last_change: self.last_change, change_type: self.change_type.duplicate() }
    }
}

proof fn lemma_pending_index_unique(v: Seq<PendingEventV>, path: Seq<char>, i: int)
    requires
        distinct_pending(v),
        0 <= i < v.len(),
        v[i].path == path,
    ensures
        pending_index(v, path) == Some(i),
{
    let j = choose|j: int| 0 <= j < v.len() && v[j].path == path;
    assert(v[j].path == path);
    if j != i {
        if j < i {
            assert(v[j].path != v[i].path);
        } else {
            assert(v[i].path != v[j].path);
        }
    }
}

impl PendingEvents {
    /// The index of the event pending for `path`.
    fn find(&self, path: &str) -> (r: Option<usize>)
        ensures
            match pending_index(self.view_events(), path@) {
                Some(i) => r == Some(i as usize),
                None => r is None,
            },
            r matches Some(i) ==> i < self.view_events().len() && self.view_events()[i as int].path == path@,
    {
        proof { use_type_invariant(self); }
        let mut i: usize = 0;
        while i < self.events.len()
            invariant
                i <= self.events@.len(),
                distinct_pending(pending_view(self.events@)),
                forall|k: int| 0 <= k < i ==> self.events@[k].path@ != path@,
            decreases self.events@.len() - i,
        {
            if str_equal(self.events[i].path.as_str(), path) {
                proof {
                    lemma_pending_index_unique(pending_view(self.events@), path@, i as int);
                }
                return Some(i);
            }
            i = i + 1;
        }
        proof {
            let v = pending_view(self.events@);
            if exists|j: int| 0 <= j < v.len() && v[j].path == path@ {
                let j = choose|j: int| 0 <= j < v.len() && v[j].path == path@;
                assert(self.events@[j].path@ == path@);
            }
        }
        None
    }

    /// Keeps the events that `keep_under` (if `Some`) starts with, or that are
    /// not for `drop` (if `Some`).
    fn keep(&mut self, keep_under: Option<&str>, drop: Option<&str>)
        requires
            keep_under is Some != drop is Some,
        ensures
            keep_under matches Some(b) ==> final(self).view_events() == retain_under(old(self).view_events(), b@),
            drop matches Some(d) ==> final(self).view_events() == remove_path(old(self).view_events(), d@),
    {
        proof { use_type_invariant(&*self); }
        let ghost pred: spec_fn(PendingEventV) -> bool = match keep_under {
            Some(b) => |e: PendingEventV| spec_path_starts_with(e.path, b@),
            None => |e: PendingEventV| e.path != drop.unwrap()@,
        };
        let ghost before = pending_view(self.events@);
        let mut out: Vec<PendingEvent> = Vec::new();
        let mut i: usize = 0;
        while i < self.events.len()
            invariant
                i <= self.events@.len(),
                before == pending_view(self.events@),
                keep_under is Some != drop is Some,
                pred == (match keep_under {
                    Some(b) => |e: PendingEventV| spec_path_starts_with(e.path, b@),
                    None => |e: PendingEventV| e.path != drop.unwrap()@,
                }),
                pending_view(out@) == keep_events(before.take(i as int), pred),
            decreases self.events@.len() - i,
        {
            let e = &self.events[i];
            let k = match keep_under {
                Some(b) => path_starts_with(e.path.as_str(), b),
                None => match drop {
                    Some(d) => !str_equal(e.path.as_str(), d),
                    None => true,
                },
            };
            proof {
                assert(before.take(i + 1).drop_last() =~= before.take(i as int));
                assert(before.take(i + 1).last() == e@);
                assert(k == pred(e@));
            }
            if k {
                let ghost o = pending_view(out@);
                out.push(e.duplicate());
                assert(pending_view(out@) =~= o.push(e@));
            }
            i = i + 1;
        }
        proof {
            assert(before.take(before.len() as int) =~= before);
            lemma_keep_events(before, pred);
        }
        self.events = out;
    }

    /// Records the change `m` of `path` at `now`.
    fn record(&mut self, path: String, m: Modification, now: u64)
        ensures
            final(self).view_events() == record_change(old(self).view_events(), path@, m@, now),
    {
        proof { use_type_invariant(&*self); }
        let ghost before = pending_view(self.events@);
        match self.find(path.as_str()) {
            Some(i) => {
                let old_created = match &self.events[i].change_type {
                    Modification::Created => true,
                    _ => false,
                };
                let new_modified = match &m { Modification::Modified => true, _ => false };
                let new_deleted = match &m { Modification::Deleted => true, _ => false };
                let mut evs: Vec<PendingEvent> = Vec::new();
                std::mem::swap(&mut evs, &mut self.events);
                assert(pending_view(evs@) == before);
                if old_created && new_modified {
                    let ev = PendingEvent { path, last_change: now, change_type: Modification::Created };
                    evs.set(i, ev);
                    assert(pending_view(evs@) =~= before.update(i as int, ev@));
                } else if old_created && new_deleted {
                    evs.remove(i);
                    assert(pending_view(evs@) =~= before.remove(i as int));
                } else {
                    let ev = PendingEvent { path, last_change: now, change_type: m };
                    evs.set(i, ev);
                    assert(pending_view(evs@) =~= before.update(i as int, ev@));
                }
                proof {
                    let v = pending_view(evs@);
                    assert forall|a: int, b: int| 0 <= a < b < v.len() implies v[a].path != v[b].path by {
                        if !(old_created && new_deleted) {
                            assert(before[i as int].path == path@);
                            if a == i {
                                assert(before[a].path != before[b].path);
                            } else if b == i {
                                assert(before[a].path != before[b].path);
                            } else {
                                assert(before[a].path != before[b].path);
                            }
                        } else {
                            let a2 = if a < i { a } else { a + 1 };
                            let b2 = if b < i { b } else { b + 1 };
                            assert(v[a] == before[a2]);
                            assert(v[b] == before[b2]);
                            assert(before[a2].path != before[b2].path);
                        }
                    };
                }
                self.events = evs;
            },
            None => {
                let mut evs: Vec<PendingEvent> = Vec::new();
                std::mem::swap(&mut evs, &mut self.events);
                let ev = PendingEvent { path, last_change: now, change_type: m };
                evs.push(ev);
                proof {
                    let v = pending_view(evs@);
                    assert(v =~= before.push(ev@));
                    assert forall|a: int, b: int| 0 <= a < b < v.len() implies v[a].path != v[b].path by {
                        if b == before.len() {
                            if v[a].path == ev@.path {
                                assert(before[a].path == path@);
                            }
                        } else {
                            assert(before[a].path != before[b].path);
                        }
                    };
                }
                self.events = evs;
            },
        }
    }

    /// Records an event of kind `kind` on `paths` that came at `now`.
    pub fn insert_event(&mut self, kind: EventKindClass, paths: Vec<String>, now: u64)
        ensures
            final(self).view_events() == spec_insert_event(old(self).view_events(), kind, crate::util::string_views(paths@), now),
    {
        if paths.len() == 0 {
            return;
        }
        let ghost pv = crate::util::string_views(paths@);
        let path = paths[0].clone();
        assert(pv[0] == path@);
        if kind == EventKindClass::RemoveFolder {
            self.keep(Some(path.as_str()), None);
        }
        let other = if paths.len() > 1 {
            assert(pv[1] == paths@[1]@);
            Some(paths[1].clone())
        } else {
            None
        };
        let detected = match Modification::from_event_kind(kind, other) {
            Some(m) => m,
            None => return,
        };
        match &detected {
            Modification::MovedTo(dest) => {
                self.keep(None, Some(dest.as_str()));
            },
            _ => {},
        }
        self.record(path, detected, now);
    }
}

// ---------------------------------------------------------------------
// taking the events that are due

/// What `Path::cmp` gives for two paths (compared component by component),
/// as -1, 0 or 1.
pub uninterp spec fn spec_path_order(a: Seq<char>, b: Seq<char>) -> int;

/// Calls `Path::cmp`. The result is named by `spec_path_order`; as `Ord`
/// documents for `Path`, swapping the paths reverses the result.
#[verifier::external_body]
fn path_order_sign(a: &str, b: &str) -> (r: i8)
    ensures
        r == spec_path_order(a@, b@),
        r == -spec_path_order(b@, a@),
        -1 <= r <= 1,
{
    match std::path::Path::new(a).cmp(std::path::Path::new(b)) {
        std::cmp::Ordering::Less => -1,
        std::cmp::Ordering::Equal => 0,
        std::cmp::Ordering::Greater => 1,
    }
}

/// The order of pending events: by path, then by time of change.
pub open spec fn event_order(a: PendingEventV, b: PendingEventV) -> int {
    let p = spec_path_order(a.path, b.path);
    if p != 0 {
        p
    } else if a.last_change < b.last_change {
        -1
    } else if a.last_change > b.last_change {
        1
    } else {
        0
    }
}

/// `s` with `x` inserted after the last element that is not after it.
pub open spec fn insert_sorted(s: Seq<PendingEventV>, x: PendingEventV) -> Seq<PendingEventV>
    decreases s.len(),
{
    if s.len() == 0 {
        seq![x]
    } else if event_order(s.last(), x) <= 0 {
        s.push(x)
    } else {
        insert_sorted(s.drop_last(), x).push(s.last())
    }
}

/// `s` sorted by inserting its elements in turn.
pub open spec fn sort_events(s: Seq<PendingEventV>) -> Seq<PendingEventV>
    decreases s.len(),
{
    if s.len() == 0 {
        s
    } else {
        insert_sorted(sort_events(s.drop_last()), s.last())
    }
}

/// Whether a pending event is due: all are where `all`, else those whose
/// last change is at least `interval` ms before `now` (a change after `now`
/// counts as made at `now`).
pub open spec fn is_due(e: PendingEventV, all: bool, now: u64, interval: u64) -> bool {
    all || (if now >= e.last_change { now - e.last_change } else { 0 }) >= interval
}

fn event_order_of(a: &PendingEvent, b: &PendingEvent) -> (r: i8)
    ensures
        r == event_order(a@, b@),
{
    let p = path_order_sign(a.path.as_str(), b.path.as_str());
    if p != 0 {
        p
    } else if a.last_change < b.last_change {
        -1
    } else if a.last_change > b.last_change {
        1
    } else {
        0
    }
}

proof fn lemma_insert_sorted_split(s: Seq<PendingEventV>, x: PendingEventV, k: int)
    requires
        0 <= k <= s.len(),
        forall|j: int| k <= j < s.len() ==> event_order(#[trigger] s[j], x) > 0,
    ensures
        insert_sorted(s, x) == insert_sorted(s.take(k), x) + s.skip(k),
    decreases s.len() - k,
{
    if k < s.len() {
        assert(event_order(s.last(), x) > 0);
        let d = s.drop_last();
        assert forall|j: int| k <= j < d.len() implies event_order(#[trigger] d[j], x) > 0 by {
            assert(d[j] == s[j]);
        };
        lemma_insert_sorted_split(d, x, k);
        assert(d.take(k) =~= s.take(k));
        assert(d.skip(k).push(s.last()) =~= s.skip(k));
    } else {
        assert(s.take(k) =~= s);
        assert(s.skip(k) =~= Seq::<PendingEventV>::empty());
    }
}

/// Inserts `x` into `v` where `insert_sorted` puts it.
fn insert_event_sorted(v: &mut Vec<PendingEvent>, x: PendingEvent)
    ensures
        pending_view(final(v)@) == insert_sorted(pending_view(old(v)@), x@),
{
    let ghost s = pending_view(v@);
    let mut k: usize = v.len();
    while k > 0 && event_order_of(&v[k - 1], &x) > 0
        invariant
            k <= v@.len(),
            s == pending_view(v@),
            forall|j: int| k <= j < s.len() ==> event_order(#[trigger] s[j], x@) > 0,
        decreases k,
    {
        k = k - 1;
    }
    proof {
        lemma_insert_sorted_split(s, x@, k as int);
        let t = s.take(k as int);
        if k > 0 {
            assert(t.last() == s[k - 1]);
            assert(t.drop_last() =~= s.take(k - 1));
        }
        assert(insert_sorted(t, x@) =~= t.push(x@));
    }
    v.insert(k, x);
    assert(pending_view(v@) =~= s.take(k as int).push(x@) + s.skip(k as int));
}

impl PendingEvents {
    /// Takes the events that are due, sorted by path and time of change;
    /// the others stay pending.
    pub fn take_due(&mut self, all: bool, now: u64, interval: u64) -> (r: Vec<PendingEvent>)
        ensures
            final(self).view_events() == keep_events(old(self).view_events(), |e: PendingEventV| !is_due(e, all, now, interval)),
            pending_view(r@) == sort_events(keep_events(old(self).view_events(), |e: PendingEventV| is_due(e, all, now, interval))),
    {
        proof { use_type_invariant(&*self); }
        let ghost before = pending_view(self.events@);
        let ghost stay = |e: PendingEventV| !is_due(e, all, now, interval);
        let ghost go = |e: PendingEventV| is_due(e, all, now, interval);
        let mut kept: Vec<PendingEvent> = Vec::new();
        let mut due: Vec<PendingEvent> = Vec::new();
        let mut i: usize = 0;
        while i < self.events.len()
            invariant
                i <= self.events@.len(),
                before == pending_view(self.events@),
                stay == (|e: PendingEventV| !is_due(e, all, now, interval)),
                go == (|e: PendingEventV| is_due(e, all, now, interval)),
                pending_view(kept@) == keep_events(before.take(i as int), stay),
                pending_view(due@) == sort_events(keep_events(before.take(i as int), go)),
            decreases self.events@.len() - i,
        {
            let e = &self.events[i];
            let elapsed: u64 = if now >= e.last_change { now - e.last_change } else { 0 };
            let d = all || elapsed >= interval;
            proof {
                assert(before.take(i + 1).drop_last() =~= before.take(i as int));
                assert(before.take(i + 1).last() == e@);
                assert(d == is_due(e@, all, now, interval));
            }
            if d {
                proof {
                    let kk = keep_events(before.take(i + 1), go);
                    assert(kk == keep_events(before.take(i as int), go).push(e@));
                    assert(kk.drop_last() =~= keep_events(before.take(i as int), go));
                    assert(kk.last() == e@);
                }
                insert_event_sorted(&mut due, e.duplicate());
            } else {
                let ghost o = pending_view(kept@);
                kept.push(e.duplicate());
                assert(pending_view(kept@) =~= o.push(e@));
            }
            i = i + 1;
        }
        proof {
            assert(before.take(before.len() as int) =~= before);
            lemma_keep_events(before, stay);
        }
        self.events = kept;
        due
    }
}

proof fn lemma_insert_sorted_multiset(s: Seq<PendingEventV>, x: PendingEventV)
    ensures
        insert_sorted(s, x).to_multiset() == s.to_multiset().insert(x),
    decreases s.len(),
{
    broadcast use vstd::seq_lib::group_to_multiset_ensures;
    if s.len() == 0 {
        assert(seq![x] =~= s.push(x));
    } else if event_order(s.last(), x) <= 0 {
    } else {
        let d = s.drop_last();
        lemma_insert_sorted_multiset(d, x);
        assert(d.push(s.last()) =~= s);
        assert(insert_sorted(s, x).to_multiset() =~= d.to_multiset().insert(x).insert(s.last()));
        assert(s.to_multiset() =~= d.to_multiset().insert(s.last()));
    }
}

/// The due events come out as a rearrangement of themselves: sorting loses
/// and adds no event.
pub proof fn lemma_sort_events_permutes(s: Seq<PendingEventV>)
    ensures
        sort_events(s).to_multiset() == s.to_multiset(),
    decreases s.len(),
{
    broadcast use vstd::seq_lib::group_to_multiset_ensures;
    if s.len() > 0 {
        lemma_sort_events_permutes(s.drop_last());
        lemma_insert_sorted_multiset(sort_events(s.drop_last()), s.last());
        assert(s.drop_last().push(s.last()) =~= s);
    }
}

proof fn lemma_keep_events_complete(v: Seq<PendingEventV>, keep: spec_fn(PendingEventV) -> bool)
    ensures
        forall|x: PendingEventV| v.contains(x) && keep(x) ==> #[trigger] keep_events(v, keep).contains(x),
        forall|x: PendingEventV| #[trigger] keep_events(v, keep).contains(x) ==> v.contains(x) && keep(x),
    decreases v.len(),
{
    if v.len() > 0 {
        let d = v.drop_last();
        lemma_keep_events_complete(d, keep);
        let sub = keep_events(d, keep);
        assert forall|x: PendingEventV| v.contains(x) && keep(x) implies keep_events(v, keep).contains(x) by {
            let k = choose|k: int| 0 <= k < v.len() && v[k] == x;
            if k < d.len() {
                assert(d[k] == x);
                assert(d.contains(x));
                assert(sub.contains(x));
                let j = choose|j: int| 0 <= j < sub.len() && sub[j] == x;
                if keep(v.last()) {
                    assert(keep_events(v, keep) == sub.push(v.last()));
                    assert(keep_events(v, keep)[j] == x);
                } else {
                    assert(keep_events(v, keep) == sub);
                }
            } else {
                assert(keep_events(v, keep) == sub.push(v.last()));
                assert(keep_events(v, keep)[sub.len() as int] == x);
            }
        }
        assert forall|x: PendingEventV| keep_events(v, keep).contains(x) implies v.contains(x) && keep(x) by {
            let j = choose|j: int| 0 <= j < keep_events(v, keep).len() && keep_events(v, keep)[j] == x;
            if j < sub.len() {
                assert(keep_events(v, keep)[j] == sub[j]);
                assert(sub.contains(x));
                assert(d.contains(x) && keep(x));
                let k = choose|k: int| 0 <= k < d.len() && d[k] == x;
                assert(d[k] == v[k]);
                assert(v[k] == x);
            } else {
                assert(keep(v.last()));
                assert(keep_events(v, keep) == sub.push(v.last()));
                assert(x == v.last());
                assert(v[v.len() - 1] == x);
            }
        }
    }
}

/// Taking the due events: an event is taken exactly where all are taken
/// or its last change is at least `interval` ms before `now` (a change
/// after `now` counts as made at `now`); the others stay pending. Sorting
/// the taken events loses and adds none.
pub proof fn lemma_take_due(v: Seq<PendingEventV>, all: bool, now: u64, interval: u64)
    ensures
        forall|x: PendingEventV|
            keep_events(v, |e: PendingEventV| is_due(e, all, now, interval)).contains(x) <==> v.contains(x) && (all
                || (if now >= x.last_change { now - x.last_change } else { 0int }) >= interval),
        forall|x: PendingEventV|
            keep_events(v, |e: PendingEventV| !is_due(e, all, now, interval)).contains(x) <==> v.contains(x) && !all
                && (if now >= x.last_change { now - x.last_change } else { 0int }) < interval,
        sort_events(keep_events(v, |e: PendingEventV| is_due(e, all, now, interval))).to_multiset()
            == keep_events(v, |e: PendingEventV| is_due(e, all, now, interval)).to_multiset(),
{
    lemma_keep_events_complete(v, |e: PendingEventV| is_due(e, all, now, interval));
    lemma_keep_events_complete(v, |e: PendingEventV| !is_due(e, all, now, interval));
    lemma_sort_events_permutes(keep_events(v, |e: PendingEventV| is_due(e, all, now, interval)));
}

/// Taking all events leaves none pending.
pub proof fn lemma_take_all_leaves_none(v: Seq<PendingEventV>, now: u64, interval: u64)
    ensures
        keep_events(v, |e: PendingEventV| !is_due(e, true, now, interval)).len() == 0,
    decreases v.len(),
{
    if v.len() > 0 {
        lemma_take_all_leaves_none(v.drop_last(), now, interval);
    }
}

/// The actions for an event of the watcher as the cache itself takes it,
/// without looking at collapsed CD folders: a created folder is refreshed
/// recursively and its parent refreshed; a modified folder is refreshed; a
/// deleted folder is removed; a folder moved within the collection is
/// renamed, one moved out of it removed; for a file, its folder is refreshed.
pub open spec fn spec_watch_event_actions(change: ModificationV, col_path: Seq<char>, is_dir: bool, dest_in_collection: bool) -> Seq<UpdateActionV> {
    let parent = act(spec_parent_path(col_path), UpdateActionKindV::RefreshFolder);
    if !is_dir {
        seq![parent]
    } else {
        match change {
            ModificationV::Created => seq![act(col_path, UpdateActionKindV::RefreshFolderRecursive), parent],
            ModificationV::Modified => seq![act(col_path, UpdateActionKindV::RefreshFolder)],
            ModificationV::Deleted => seq![act(col_path, UpdateActionKindV::RemoveFolder)],
            ModificationV::MovedTo(dest) => if dest_in_collection {
                seq![act(col_path, UpdateActionKindV::RenameFolder { to: dest })]
            } else {
                seq![act(col_path, UpdateActionKindV::RemoveFolder)]
            },
        }
    }
}

/// The actions for an event of the watcher on `col_path` (relative to the
/// collection root); for a move, `dest_in_collection` tells whether the
/// destination is within the collection, whose relative path the
/// modification then carries.
pub fn watch_event_actions(change: &Modification, col_path: &str, is_dir: bool, dest_in_collection: bool) -> (r: Vec<UpdateAction>)
    ensures
        actions_view(r@) == spec_watch_event_actions(change@, col_path@, is_dir, dest_in_collection),
{
    let parent = UpdateAction::new(parent_path(col_path), UpdateActionKind::RefreshFolder);
    let mut result: Vec<UpdateAction> = Vec::new();
    if !is_dir {
        result.push(parent);
    } else {
        match change {
            Modification::Created => {
                result.push(UpdateAction::new(col_path.to_owned(), UpdateActionKind::RefreshFolderRecursive));
                result.push(parent);
            },
            Modification::Modified => {
                result.push(UpdateAction::new(col_path.to_owned(), UpdateActionKind::RefreshFolder));
            },
            Modification::Deleted => {
                result.push(UpdateAction::new(col_path.to_owned(), UpdateActionKind::RemoveFolder));
            },
            Modification::MovedTo(dest) => {
                if dest_in_collection {
                    result.push(UpdateAction::new(col_path.to_owned(), UpdateActionKind::RenameFolder { to: dest.clone() }));
                } else {
                    result.push(UpdateAction::new(col_path.to_owned(), UpdateActionKind::RemoveFolder));
                }
            },
        }
    }
    proof {
        assert(actions_view(result@) =~= spec_watch_event_actions(change@, col_path@, is_dir, dest_in_collection));
    }
    result
}

} // verus!
