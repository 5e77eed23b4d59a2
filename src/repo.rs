//! The repository: which names are open, and the decisions of each
//! operation. The host performs the file-system and engine work that a
//! decision asks for and reports what it observed.
use vstd::prelude::*;
use crate::autostart::{
    rebased, rebased_entry, renamed_entry, update_auto_start_presets,
    update_auto_start_presets_prefix,
};
use crate::names::{
    base_name, base_of, join_name, join_preset_name, parent_of, parent_preset_path, path_of,
    preset_path, valid_name, is_valid_preset_name, bad_slash_at, json_ext, last_slash,
    lemma_last_slash_bounds, is_first_free, name_set, unique_preset_name, copy_candidate,
    lemma_copy_candidate_valid,
};
use crate::entries::{is_json_file_name, is_json_name, is_listable_path, label_for, listable_path, trimmed};
use crate::patch::{parses_as_patch, patch_json, reserialized};
use modular_agent_core::PatchSpec;
use crate::registry::{has_prefix, NameRegistry};
use crate::text::{concat_text, push_text, same_text, starts_with_text, suffix_text, to_owned_text};

verus! {

/// Why an operation was refused.
#[derive(Debug, Clone, PartialEq, Eq)]
pub enum RepoError {
    /// The name or the target is not a valid logical name.
    InvalidName,
    /// A folder path or a directory path is malformed.
    InvalidPath,
    /// A folder would move into itself.
    SelfMove,
    /// The entity, or one inside the folder, is running.
    EntityRunning,
    /// The file or folder to move does not exist.
    SourceNotFound,
    /// The destination is already occupied.
    TargetExists,
    /// An expected file or entry is absent.
    NotFound,
    /// The path to read is not a regular file.
    NotAFile,
    /// The file to read is not a `.json` file.
    WrongExtension,
    /// The content does not (de)serialize as a patch.
    ParseError(String),
    /// The file system failed.
    IoError(String),
    /// The engine failed.
    EngineError(String),
}

/// What the engine reports of one of its patches.
#[derive(Debug, Clone)]
pub struct PresetInfo {
    pub id: String,
    pub running: bool,
}

/// The engine reports the patch `id` as running.
pub open spec fn running_in(infos: Seq<PresetInfo>, id: Seq<char>) -> bool {
    exists|i: int| 0 <= i < infos.len() && (#[trigger] infos[i]).id@ == id && infos[i].running
}

/// Whether the engine reports the patch `id` as running.
pub fn is_running(infos: &Vec<PresetInfo>, id: &str) -> (r: bool)
    ensures
        r == running_in(infos@, id@),
{
    let mut i: usize = 0;
    while i < infos.len()
        invariant
            i <= infos@.len(),
            forall|j: int| 0 <= j < i ==> !((#[trigger] infos@[j]).id@ == id@ && infos@[j].running),
        decreases infos@.len() - i,
    {
        if infos[i].running && same_text(infos[i].id.as_str(), id) {
            assert(infos@[i as int].id@ == id@);
            return true;
        }
        i = i + 1;
    }
    false
}

/// How `open` proceeds.
#[derive(Debug, Clone, PartialEq, Eq)]
pub enum OpenPlan {
    /// The name is already open under this id.
    Live(String),
    /// The engine is to load this file; then `register_opened`.
    Load(String),
}

/// A file to write: the name it holds, its path and its JSON text.
#[derive(Debug, Clone, PartialEq, Eq)]
pub struct SavePlan {
    pub name: String,
    pub path: String,
    pub json: String,
}

/// What the host does for `delete`: remove the engine's patch, if any, then
/// the file.
#[derive(Debug, Clone, PartialEq, Eq)]
pub struct DeletePlan {
    pub engine_id: Option<String>,
    pub path: String,
    pub parent: String,
}

/// The names and paths of a move that passed its checks. The host renames
/// `from_path` to `to_path` once `confirm_move` accepts what it sees on disk,
/// then reports back through `finish_move_preset` or `finish_move_folder`.
#[derive(Debug, Clone, PartialEq, Eq)]
pub struct MovePlan {
    pub from: String,
    pub to: String,
    pub from_path: String,
    pub to_path: String,
}

/// What follows a completed move: engine renames as `(id, new name)`, the
/// directories whose listing changed, where to start removing emptied
/// directories, and whether the auto-start list changed.
#[derive(Debug, Clone, PartialEq, Eq)]
pub struct MoveEffects {
    pub renamed: Vec<(String, String)>,
    pub changed_dirs: Vec<String>,
    pub cleanup_from: String,
    pub auto_start_changed: bool,
}

/// Where a move of `name` into `target_dir` lands.
pub open spec fn moved_name(name: Seq<char>, target_dir: Seq<char>) -> Seq<char> {
    join_name(target_dir, base_of(name))
}

/// The directory of a folder path under `root`.
pub open spec fn dir_path_of(root: Seq<char>, path: Seq<char>) -> Seq<char> {
    root + seq!['/'] + path
}

/// A target directory: the root (empty) or a valid name.
pub open spec fn valid_target_dir(t: Seq<char>) -> bool {
    t.len() == 0 || valid_name(t)
}

/// The name that `k` had before a folder move from `op` to `np`.
pub open spec fn source_key(k: Seq<char>, op: Seq<char>, np: Seq<char>) -> Seq<char> {
    op + k.subrange(np.len() as int, k.len() as int)
}

/// `k` is where an open name under `op` landed.
pub open spec fn moved_in(m: Map<Seq<char>, Seq<char>>, op: Seq<char>, np: Seq<char>, k: Seq<char>) -> bool {
    has_prefix(k, np) && m.contains_key(source_key(k, op, np))
}

/// The open names after every name under `op` moved under `np`.
pub open spec fn moved_map(m: Map<Seq<char>, Seq<char>>, op: Seq<char>, np: Seq<char>) -> Map<Seq<char>, Seq<char>> {
    Map::new(
        |k: Seq<char>| moved_in(m, op, np, k) || (m.contains_key(k) && !has_prefix(k, op)),
        |k: Seq<char>| if moved_in(m, op, np, k) { m[source_key(k, op, np)] } else { m[k] },
    )
}

/// Some open name lies under `prefix`.
pub open spec fn live_under(m: Map<Seq<char>, Seq<char>>, prefix: Seq<char>) -> bool {
    exists|k: Seq<char>| #[trigger] m.contains_key(k) && has_prefix(k, prefix)
}

/// Some open name under `prefix` belongs to a running patch.
pub open spec fn running_under(m: Map<Seq<char>, Seq<char>>, prefix: Seq<char>, infos: Seq<PresetInfo>) -> bool {
    exists|k: Seq<char>| #[trigger] m.contains_key(k) && has_prefix(k, prefix) && running_in(infos, m[k])
}

/// `renamed` lists, as `(id, new name)`, exactly the open names of `m`
/// under `op`, each moved under `np`, and each once.
pub open spec fn renames_folder(
    renamed: Seq<(String, String)>,
    m: Map<Seq<char>, Seq<char>>,
    op: Seq<char>,
    np: Seq<char>,
) -> bool {
    &&& forall|j: int|
        0 <= j < renamed.len() ==> moved_in(m, op, np, (#[trigger] renamed[j]).1@) && renamed[j].0@
            == m[source_key(renamed[j].1@, op, np)]
    &&& forall|k0: Seq<char>|
        #[trigger] m.contains_key(k0) && has_prefix(k0, op) ==> exists|j: int|
            0 <= j < renamed.len() && #[trigger] renamed[j].1@ == rebased(k0, op, np) && renamed[j].0@
                == m[k0]
    &&& forall|p: int, q: int|
        0 <= p < q < renamed.len() ==> (#[trigger] renamed[p]).1@ != (#[trigger] renamed[q]).1@
}

pub proof fn lemma_rebased_source(k0: Seq<char>, op: Seq<char>, np: Seq<char>)
    requires
        has_prefix(k0, op),
    ensures
        has_prefix(rebased(k0, op, np), np),
        source_key(rebased(k0, op, np), op, np) == k0,
{
    let k = rebased(k0, op, np);
    assert(k.subrange(0, np.len() as int) =~= np);
    assert(k.subrange(np.len() as int, k.len() as int) =~= k0.subrange(op.len() as int, k0.len() as int));
    assert(source_key(k, op, np) =~= k0);
}

pub proof fn lemma_source_rebased(k: Seq<char>, op: Seq<char>, np: Seq<char>)
    requires
        has_prefix(k, np),
    ensures
        has_prefix(source_key(k, op, np), op),
        rebased(source_key(k, op, np), op, np) == k,
{
    let s = source_key(k, op, np);
    assert(s.subrange(0, op.len() as int) =~= op);
    assert(s.subrange(op.len() as int, s.len() as int) =~= k.subrange(np.len() as int, k.len() as int));
    assert(rebased(s, op, np) =~= k);
}

/// Checks what the host found on disk before a move: the source must exist
/// and the destination must not.
pub fn confirm_move(source_exists: bool, target_exists: bool) -> (r: Result<(), RepoError>)
    ensures
        !source_exists ==> r == Err::<(), RepoError>(RepoError::SourceNotFound),
        source_exists && target_exists ==> r == Err::<(), RepoError>(RepoError::TargetExists),
        source_exists && !target_exists ==> r == Ok::<(), RepoError>(()),
{
    if !source_exists {
        Err(RepoError::SourceNotFound)
    } else if target_exists {
        Err(RepoError::TargetExists)
    } else {
        Ok(())
    }
}

/// Checks a file before its content is read as a patch: it must be a regular
/// file, and its name must have a stem and the `.json` extension.
pub fn check_preset_file(path: &str, is_file: bool) -> (r: Result<(), RepoError>)
    ensures
        !is_file ==> r == Err::<(), RepoError>(RepoError::NotAFile),
        is_file && !is_json_name(base_of(path@)) ==> r == Err::<(), RepoError>(RepoError::WrongExtension),
        is_file && is_json_name(base_of(path@)) ==> r == Ok::<(), RepoError>(()),
{
    if !is_file {
        return Err(RepoError::NotAFile);
    }
    let base = base_name(path);
    if !is_json_file_name(base.as_str()) {
        return Err(RepoError::WrongExtension);
    }
    Ok(())
}

fn with_slash(s: &str) -> (r: String)
    ensures
        r@ == s@.push('/'),
{
    let mut r = to_owned_text(s);
    r.push('/');
    r
}

fn two_dirs(a: String, b: String) -> (r: Vec<String>)
    ensures
        r@.len() == 2,
        r@[0] == a,
        r@[1] == b,
{
    let mut r = Vec::new();
    r.push(a);
    r.push(b);
    r
}

/// The repository's state: its root directory and the open names.
pub struct ModularAgentApp {
    root: String,
    presets: NameRegistry,
}

impl ModularAgentApp {
    pub closed spec fn wf(&self) -> bool {
        self.presets.wf()
    }

    /// The directory that holds the files.
    pub closed spec fn root(&self) -> Seq<char> {
        self.root@
    }

    /// The open names, with their ids.
    pub closed spec fn live(&self) -> Map<Seq<char>, Seq<char>> {
        self.presets@
    }

    /// A repository rooted at `root`, with nothing open.
    pub fn new(root: String) -> (r: ModularAgentApp)
        ensures
            r.wf(),
            r.root() == root@,
            r.live() == Map::<Seq<char>, Seq<char>>::empty(),
    {
        ModularAgentApp { root, presets: NameRegistry::new() }
    }

    /// The file of the name `name`.
    pub fn path_of_name(&self, name: &str) -> (r: String)
        ensures
            r@ == path_of(self.root(), name@),
    {
        preset_path(self.root.as_str(), name)
    }

    /// The id under which `name` is open.
    pub fn get_preset_id(&self, name: &str) -> (r: Option<String>)
        requires
            self.wf(),
        ensures
            match r {
                Some(id) => self.live().contains_key(name@) && self.live()[name@] == id@,
                None => !self.live().contains_key(name@),
            },
    {
        self.presets.lookup(name)
    }

    /// Records the patch `id` that the engine created under `name`.
    pub fn new_preset_with_name(&mut self, name: String, id: String) -> (r: Result<String, RepoError>)
        requires
            old(self).wf(),
        ensures
            final(self).wf(),
            final(self).root() == old(self).root(),
            valid_name(name@) ==> r == Ok::<String, RepoError>(id) && final(self).live() == old(
                self,
            ).live().insert(name@, id@),
            !valid_name(name@) ==> r == Err::<String, RepoError>(RepoError::InvalidName)
                && final(self).live() == old(self).live(),
    {
        if !is_valid_preset_name(name.as_str()) {
            return Err(RepoError::InvalidName);
        }
        self.presets.insert(name, id.clone());
        Ok(id)
    }

    /// How to open `name`: the id it is open under, or the file to load.
    pub fn open_preset(&self, name: &str) -> (r: Result<OpenPlan, RepoError>)
        requires
            self.wf(),
        ensures
            !valid_name(name@) ==> r == Err::<OpenPlan, RepoError>(RepoError::InvalidName),
            valid_name(name@) && self.live().contains_key(name@) ==> (r matches Ok(OpenPlan::Live(id))
                && id@ == self.live()[name@]),
            valid_name(name@) && !self.live().contains_key(name@) ==> (r matches Ok(OpenPlan::Load(p))
                && p@ == path_of(self.root(), name@)),
    {
        if !is_valid_preset_name(name) {
            return Err(RepoError::InvalidName);
        }
        match self.presets.lookup(name) {
            Some(id) => Ok(OpenPlan::Live(id)),
            None => Ok(OpenPlan::Load(self.path_of_name(name))),
        }
    }

    /// Records that the engine opened `name` as `id`.
    pub fn register_opened(&mut self, name: String, id: String)
        requires
            old(self).wf(),
        ensures
            final(self).wf(),
            final(self).root() == old(self).root(),
            final(self).live() == old(self).live().insert(name@, id@),
    {
        self.presets.insert(name, id);
    }

    /// What deleting `name` involves: the engine's patch if it is open, and
    /// its file, which goes whether or not it was ever open.
    pub fn delete_preset(&self, name: &str) -> (r: Result<DeletePlan, RepoError>)
        requires
            self.wf(),
        ensures
            !valid_name(name@) ==> r == Err::<DeletePlan, RepoError>(RepoError::InvalidName),
            valid_name(name@) ==> (r matches Ok(plan) && plan.path@ == path_of(self.root(), name@)
                && plan.parent@ == parent_of(name@) && match plan.engine_id {
                Some(id) => self.live().contains_key(name@) && self.live()[name@] == id@,
                None => !self.live().contains_key(name@),
            }),
    {
        if !is_valid_preset_name(name) {
            return Err(RepoError::InvalidName);
        }
        Ok(DeletePlan {
            engine_id: self.presets.lookup(name),
            path: self.path_of_name(name),
            parent: parent_preset_path(name),
        })
    }

    /// Forgets `name` once it is gone from the engine; gives back its id.
    pub fn forget_preset(&mut self, name: &str) -> (r: Option<String>)
        requires
            old(self).wf(),
        ensures
            final(self).wf(),
            final(self).root() == old(self).root(),
            final(self).live() == old(self).live().remove(name@),
            match r {
                Some(id) => old(self).live().contains_key(name@) && old(self).live()[name@] == id@,
                None => !old(self).live().contains_key(name@),
            },
    {
        self.presets.remove_by_name(name)
    }

    /// Checks a move of the entity `name` into `target_dir`. `Ok(None)` when
    /// it lands where it is; `infos` is what the engine reports. A name that
    /// is already open at the destination counts as the destination existing;
    /// the host then checks the files with `confirm_move`.
    pub fn move_preset(&self, name: &str, target_dir: &str, infos: &Vec<PresetInfo>) -> (r: Result<
        Option<MovePlan>,
        RepoError,
    >)
        requires
            self.wf(),
        ensures
            ({
                let to = moved_name(name@, target_dir@);
                &&& !valid_name(name@) ==> r == Err::<Option<MovePlan>, RepoError>(RepoError::InvalidName)
                &&& valid_name(name@) && to == name@ ==> r == Ok::<Option<MovePlan>, RepoError>(None)
                &&& valid_name(name@) && to != name@ && !valid_name(to) ==> r == Err::<
                    Option<MovePlan>,
                    RepoError,
                >(RepoError::InvalidName)
                &&& valid_name(name@) && to != name@ && valid_name(to) && self.live().contains_key(name@)
                    && running_in(infos@, self.live()[name@]) ==> r == Err::<Option<MovePlan>, RepoError>(
                    RepoError::EntityRunning,
                )
                &&& valid_name(name@) && to != name@ && valid_name(to) && !(self.live().contains_key(name@)
                    && running_in(infos@, self.live()[name@])) && self.live().contains_key(to) ==> r == Err::<
                    Option<MovePlan>,
                    RepoError,
                >(RepoError::TargetExists)
                &&& valid_name(name@) && to != name@ && valid_name(to) && !(self.live().contains_key(name@)
                    && running_in(infos@, self.live()[name@])) && !self.live().contains_key(to) ==> (r matches Ok(Some(plan))
                    && plan.from@ == name@ && plan.to@ == to && plan.from_path@ == path_of(self.root(), name@)
                    && plan.to_path@ == path_of(self.root(), to))
            }),
    {
        if !is_valid_preset_name(name) {
            return Err(RepoError::InvalidName);
        }
        let base = base_name(name);
        let to = join_preset_name(target_dir, base.as_str());
        if same_text(name, to.as_str()) {
            return Ok(None);
        }
        if !is_valid_preset_name(to.as_str()) {
            return Err(RepoError::InvalidName);
        }
        if let Some(id) = self.presets.lookup(name) {
            if is_running(infos, id.as_str()) {
                return Err(RepoError::EntityRunning);
            }
        }
        if self.presets.lookup(to.as_str()).is_some() {
            return Err(RepoError::TargetExists);
        }
        let from_path = self.path_of_name(name);
        let to_path = self.path_of_name(to.as_str());
        Ok(Some(MovePlan { from: to_owned_text(name), to, from_path, to_path }))
    }

    /// Records a completed move of the entity `from` to `to`: its registry
    /// entry follows it, and so do the auto-start entries equal to `from`.
    pub fn finish_move_preset(&mut self, from: &str, to: &str, auto_start: &mut Vec<String>) -> (r: MoveEffects)
        requires
            old(self).wf(),
        ensures
            final(self).wf(),
            final(self).root() == old(self).root(),
            old(self).live().contains_key(from@) ==> final(self).live() == old(self).live().remove(
                from@,
            ).insert(to@, old(self).live()[from@]) && r.renamed@.len() == 1 && r.renamed@[0].0@ == old(
                self,
            ).live()[from@] && r.renamed@[0].1@ == to@,
            !old(self).live().contains_key(from@) ==> final(self).live() == old(self).live()
                && r.renamed@.len() == 0,
            final(auto_start)@.len() == old(auto_start)@.len(),
            forall|i: int|
                0 <= i < old(auto_start)@.len() ==> #[trigger] final(auto_start)@[i]@ == renamed_entry(
                    old(auto_start)@[i]@,
                    from@,
                    to@,
                ),
            r.auto_start_changed == exists|i: int|
                0 <= i < old(auto_start)@.len() && #[trigger] old(auto_start)@[i]@ == from@,
            r.changed_dirs@.len() == 2,
            r.changed_dirs@[0]@ == parent_of(from@),
            r.changed_dirs@[1]@ == parent_of(to@),
            r.cleanup_from@ == parent_of(from@),
    {
        let mut renamed: Vec<(String, String)> = Vec::new();
        if let Some(id) = self.presets.remove_by_name(from) {
            self.presets.insert(to_owned_text(to), id.clone());
            renamed.push((id, to_owned_text(to)));
        } else {
            assert(self.presets@ =~= old(self).presets@);
        }
        let auto_start_changed = update_auto_start_presets(auto_start, from, to);
        let changed_dirs = two_dirs(parent_preset_path(from), parent_preset_path(to));
        MoveEffects { renamed, changed_dirs, cleanup_from: parent_preset_path(from), auto_start_changed }
    }

    /// Where a move of the folder `path` into `target_dir` (empty: the root)
    /// lands, checked before anything on disk is looked at. `Ok(None)` when
    /// it lands where it is.
    pub fn folder_move_paths(&self, path: &str, target_dir: &str) -> (r: Result<Option<MovePlan>, RepoError>)
        ensures
            ({
                let to = moved_name(path@, target_dir@);
                let ok_paths = valid_name(path@) && valid_target_dir(target_dir@);
                let into_self = target_dir@ == path@ || has_prefix(target_dir@, path@.push('/'));
                &&& !ok_paths ==> r == Err::<Option<MovePlan>, RepoError>(RepoError::InvalidPath)
                &&& ok_paths && to == path@ ==> r == Ok::<Option<MovePlan>, RepoError>(None)
                &&& ok_paths && to != path@ && into_self ==> r == Err::<Option<MovePlan>, RepoError>(
                    RepoError::SelfMove,
                )
                &&& ok_paths && to != path@ && !into_self ==> (r matches Ok(Some(plan)) && plan.from@ == path@
                    && plan.to@ == to && plan.from_path@ == dir_path_of(self.root(), path@) && plan.to_path@
                    == dir_path_of(self.root(), to))
            }),
    {
        let root_target = target_dir.unicode_len() == 0;
        if !is_valid_preset_name(path) || !(root_target || is_valid_preset_name(target_dir)) {
            return Err(RepoError::InvalidPath);
        }
        let base = base_name(path);
        let to = join_preset_name(target_dir, base.as_str());
        if same_text(path, to.as_str()) {
            return Ok(None);
        }
        let inside = with_slash(path);
        if same_text(target_dir, path) || starts_with_text(target_dir, inside.as_str()) {
            return Err(RepoError::SelfMove);
        }
        let from_path = self.dir_of(path);
        let to_path = self.dir_of(to.as_str());
        Ok(Some(MovePlan { from: to_owned_text(path), to, from_path, to_path }))
    }

    /// Checks a move of the folder `path` into `target_dir` (empty: the
    /// root). `Ok(None)` when it lands where it is. The host reports whether
    /// the folder is a directory on disk and whether the destination exists
    /// (at the paths that `folder_move_paths` gives); `infos` is what the
    /// engine reports. An open name already under the destination also
    /// counts as the destination existing.
    #[verifier::loop_isolation(false)]
    pub fn move_folder(
        &self,
        path: &str,
        target_dir: &str,
        source_is_dir: bool,
        target_exists: bool,
        infos: &Vec<PresetInfo>,
    ) -> (r: Result<Option<MovePlan>, RepoError>)
        requires
            self.wf(),
        ensures
            ({
                let to = moved_name(path@, target_dir@);
                let inside = path@.push('/');
                let ok_paths = valid_name(path@) && valid_target_dir(target_dir@);
                let into_self = target_dir@ == path@ || has_prefix(target_dir@, inside);
                let checked = ok_paths && to != path@ && !into_self;
                let occupied = target_exists || live_under(self.live(), to.push('/'));
                &&& !ok_paths ==> r == Err::<Option<MovePlan>, RepoError>(RepoError::InvalidPath)
                &&& ok_paths && to == path@ ==> r == Ok::<Option<MovePlan>, RepoError>(None)
                &&& ok_paths && to != path@ && into_self ==> r == Err::<Option<MovePlan>, RepoError>(
                    RepoError::SelfMove,
                )
                &&& checked && !source_is_dir ==> r == Err::<Option<MovePlan>, RepoError>(
                    RepoError::SourceNotFound,
                )
                &&& checked && source_is_dir && occupied ==> r == Err::<Option<MovePlan>, RepoError>(
                    RepoError::TargetExists,
                )
                &&& checked && source_is_dir && !occupied && running_under(self.live(), inside, infos@)
                    ==> r == Err::<Option<MovePlan>, RepoError>(RepoError::EntityRunning)
                &&& checked && source_is_dir && !occupied && !running_under(self.live(), inside, infos@)
                    ==> (r matches Ok(Some(plan)) && plan.from@ == path@ && plan.to@ == to
                    && plan.from_path@ == dir_path_of(self.root(), path@) && plan.to_path@ == dir_path_of(
                    self.root(),
                    to,
                ))
            }),
    {
        let plan = match self.folder_move_paths(path, target_dir) {
            Err(e) => {
                return Err(e);
            },
            Ok(None) => {
                return Ok(None);
            },
            Ok(Some(plan)) => plan,
        };
        if !source_is_dir {
            return Err(RepoError::SourceNotFound);
        }
        let landing = with_slash(plan.to.as_str());
        let there = self.presets.entries_with_prefix(landing.as_str());
        if target_exists || there.len() > 0 {
            proof {
                if !target_exists {
                    assert(self.live().contains_key(there@[0].0@));
                    assert(live_under(self.live(), plan.to@.push('/')));
                }
            }
            return Err(RepoError::TargetExists);
        }
        assert(!live_under(self.live(), plan.to@.push('/'))) by {
            if live_under(self.live(), plan.to@.push('/')) {
                let k = choose|k: Seq<char>| #[trigger] self.live().contains_key(k) && has_prefix(k, landing@);
                let j = choose|j: int| 0 <= j < there@.len() && #[trigger] there@[j].0@ == k;
            }
        }
        let inside = with_slash(path);
        let affected = self.presets.entries_with_prefix(inside.as_str());
        let mut i: usize = 0;
        while i < affected.len()
            invariant
                self.wf(),
                i <= affected@.len(),
                forall|j: int|
                    0 <= j < affected@.len() ==> has_prefix(#[trigger] affected@[j].0@, inside@)
                        && self.live().contains_key(affected@[j].0@) && self.live()[affected@[j].0@]
                        == affected@[j].1@,
                forall|k: Seq<char>|
                    #[trigger] self.live().contains_key(k) && has_prefix(k, inside@) ==> exists|j: int|
                        0 <= j < affected@.len() && #[trigger] affected@[j].0@ == k,
                forall|j: int| 0 <= j < i ==> !running_in(infos@, (#[trigger] affected@[j]).1@),
            decreases affected@.len() - i,
        {
            if is_running(infos, affected[i].1.as_str()) {
                assert(self.live().contains_key(affected@[i as int].0@));
                assert(running_in(infos@, self.live()[affected@[i as int].0@]));
                assert(running_under(self.live(), inside@, infos@));
                return Err(RepoError::EntityRunning);
            }
            i = i + 1;
        }
        assert(!running_under(self.live(), inside@, infos@)) by {
            if running_under(self.live(), inside@, infos@) {
                let k = choose|k: Seq<char>| #[trigger] self.live().contains_key(k) && has_prefix(k, inside@)
                    && running_in(infos@, self.live()[k]);
                let j = choose|j: int| 0 <= j < affected@.len() && #[trigger] affected@[j].0@ == k;
                assert(!running_in(infos@, affected@[j].1@));
            }
        }
        Ok(Some(plan))
    }

    /// The directory of the folder path `path`.
    pub fn dir_of(&self, path: &str) -> (r: String)
        ensures
            r@ == dir_path_of(self.root(), path@),
    {
        let mut r = with_slash(self.root.as_str());
        push_text(&mut r, path);
        r
    }

    /// Drops the open names listed in `names`.
    fn remove_entries(&mut self, names: &Vec<(String, String)>)
        requires
            old(self).wf(),
        ensures
            final(self).wf(),
            final(self).root() == old(self).root(),
            forall|k: Seq<char>|
                #[trigger] final(self).presets@.contains_key(k) <==> old(self).presets@.contains_key(k) && !(
                exists|j: int| 0 <= j < names@.len() && #[trigger] names@[j].0@ == k),
            forall|k: Seq<char>|
                #[trigger] final(self).presets@.contains_key(k) ==> final(self).presets@[k] == old(
                    self,
                ).live()[k],
    {
        let ghost m = self.presets@;
        let mut i: usize = 0;
        while i < names.len()
            invariant
                self.wf(),
                self.root() == old(self).root(),
                m == old(self).presets@,
                i <= names@.len(),
                forall|k: Seq<char>|
                    #[trigger] self.presets@.contains_key(k) <==> m.contains_key(k) && !(exists|j: int|
                        0 <= j < i && #[trigger] names@[j].0@ == k),
                forall|k: Seq<char>| #[trigger] self.presets@.contains_key(k) ==> self.presets@[k] == m[k],
            decreases names@.len() - i,
        {
            let ghost before = self.presets@;
            self.presets.remove_by_name(names[i].0.as_str());
            proof {
                let ki = names@[i as int].0@;
                assert(self.presets@ == before.remove(ki));
                assert forall|k: Seq<char>| #[trigger] self.presets@.contains_key(k) implies self.presets@[k] == m[k] by {
                    assert(before.contains_key(k));
                    assert(self.presets@[k] == before[k]);
                }
                assert forall|k: Seq<char>| #[trigger] self.presets@.contains_key(k) <==> m.contains_key(k)
                    && !(exists|j: int| 0 <= j < i + 1 && #[trigger] names@[j].0@ == k) by {
                    assert(self.presets@.contains_key(k) == (before.contains_key(k) && k != ki));
                    if k == ki {
                        assert(names@[i as int].0@ == k);
                    } else if exists|j: int| 0 <= j < i + 1 && #[trigger] names@[j].0@ == k {
                        let j = choose|j: int| 0 <= j < i + 1 && #[trigger] names@[j].0@ == k;
                        assert(j < i);
                    }
                }
            }
            i = i + 1;
        }
    }

    /// Registers each listed entry under its name rebased from `op` to `np`;
    /// gives back `(id, new name)` for each, in order.
    fn insert_rebased(&mut self, affected: &Vec<(String, String)>, op: &str, np: &str) -> (r: Vec<(String, String)>)
        requires
            old(self).wf(),
            forall|j: int| 0 <= j < affected@.len() ==> has_prefix(#[trigger] affected@[j].0@, op@),
            forall|p: int, q: int|
                0 <= p < q < affected@.len() ==> #[trigger] affected@[p].0@ != #[trigger] affected@[q].0@,
        ensures
            final(self).wf(),
            final(self).root() == old(self).root(),
            r@.len() == affected@.len(),
            forall|j: int|
                0 <= j < r@.len() ==> (#[trigger] r@[j]).0@ == affected@[j].1@ && r@[j].1@ == rebased(
                    affected@[j].0@,
                    op@,
                    np@,
                ),
            forall|k: Seq<char>|
                #[trigger] final(self).presets@.contains_key(k) <==> old(self).presets@.contains_key(k)
                    || exists|j: int| 0 <= j < affected@.len() && k == rebased(#[trigger] affected@[j].0@, op@, np@),
            forall|j: int|
                0 <= j < affected@.len() ==> final(self).presets@[rebased(#[trigger] affected@[j].0@, op@, np@)]
                    == affected@[j].1@,
            forall|k: Seq<char>|
                #[trigger] old(self).presets@.contains_key(k) && !(exists|j: int|
                    0 <= j < affected@.len() && k == rebased(#[trigger] affected@[j].0@, op@, np@))
                    ==> final(self).presets@[k] == old(self).presets@[k],
    {
        let ghost base = self.presets@;
        let n = affected.len();
        let plen = op.unicode_len();
        let mut renamed: Vec<(String, String)> = Vec::new();
        let mut i: usize = 0;
        while i < n
            invariant
                n == affected@.len(),
                plen == op@.len(),
                self.wf(),
                self.root() == old(self).root(),
                base == old(self).presets@,
                i <= n,
                renamed@.len() == i,
                forall|j: int| 0 <= j < n ==> has_prefix(#[trigger] affected@[j].0@, op@),
                forall|p: int, q: int|
                    0 <= p < q < n ==> #[trigger] affected@[p].0@ != #[trigger] affected@[q].0@,
                forall|j: int|
                    0 <= j < i ==> (#[trigger] renamed@[j]).0@ == affected@[j].1@ && renamed@[j].1@
                        == rebased(affected@[j].0@, op@, np@),
                forall|k: Seq<char>|
                    #[trigger] self.presets@.contains_key(k) <==> base.contains_key(k) || exists|j: int|
                        0 <= j < i && k == rebased(#[trigger] affected@[j].0@, op@, np@),
                forall|j: int|
                    0 <= j < i ==> self.presets@[rebased(#[trigger] affected@[j].0@, op@, np@)]
                        == affected@[j].1@,
                forall|k: Seq<char>|
                    #[trigger] base.contains_key(k) && !(exists|j: int|
                        0 <= j < i && k == rebased(#[trigger] affected@[j].0@, op@, np@)) ==> self.presets@[k]
                        == base[k],
            decreases n - i,
        {
            let rest = suffix_text(affected[i].0.as_str(), plen);
            let new_name = concat_text(np, rest.as_str());
            let id = affected[i].1.clone();
            let ghost before = self.presets@;
            self.presets.insert(to_owned_text(new_name.as_str()), id.clone());
            renamed.push((id, new_name));
            proof {
                let ki = affected@[i as int].0@;
                let nk = rebased(ki, op@, np@);
                assert(new_name@ == nk);
                assert(self.presets@ == before.insert(nk, affected@[i as int].1@));
                assert forall|k: Seq<char>| #[trigger] self.presets@.contains_key(k) <==> base.contains_key(k)
                    || exists|j: int| 0 <= j < i + 1 && k == rebased(#[trigger] affected@[j].0@, op@, np@) by {
                    assert(self.presets@.contains_key(k) == (before.contains_key(k) || k == nk));
                    if k == nk {
                        assert(k == rebased(affected@[i as int].0@, op@, np@));
                    } else if exists|j: int| 0 <= j < i + 1 && k == rebased(#[trigger] affected@[j].0@, op@, np@) {
                        let j = choose|j: int| 0 <= j < i + 1 && k == rebased(#[trigger] affected@[j].0@, op@, np@);
                        assert(j < i);
                    }
                }
                assert forall|j: int| 0 <= j < i + 1 implies self.presets@[rebased(#[trigger] affected@[j].0@, op@, np@)]
                    == affected@[j].1@ by {
                    if j < i {
                        let kj = rebased(affected@[j].0@, op@, np@);
                        lemma_rebased_source(affected@[j].0@, op@, np@);
                        lemma_rebased_source(ki, op@, np@);
                        assert(affected@[j].0@ != ki);
                        assert(kj != nk);
                        assert(self.presets@[kj] == before[kj]);
                    }
                }
                assert forall|k: Seq<char>|
                    #[trigger] base.contains_key(k) && !(exists|j: int|
                        0 <= j < i + 1 && k == rebased(#[trigger] affected@[j].0@, op@, np@)) implies self.presets@[k]
                        == base[k] by {
                    assert(k != rebased(affected@[i as int].0@, op@, np@));
                    assert(self.presets@[k] == before[k]);
                }
            }
            i = i + 1;
        }
        renamed
    }

    /// Records a completed move of the folder `from` to `to`: every open name
    /// under `from/` moves under `to/`, each moved patch is to be renamed in
    /// the engine, and the auto-start entries under `from/` follow.
    pub fn finish_move_folder(&mut self, from: &str, to: &str, auto_start: &mut Vec<String>) -> (r: MoveEffects)
        requires
            old(self).wf(),
        ensures
            ({
                let op = from@.push('/');
                let np = to@.push('/');
                let m = old(self).live();
                &&& final(self).wf()
                &&& final(self).root() == old(self).root()
                &&& final(self).live() == moved_map(m, op, np)
                &&& !live_under(m, np) ==> (forall|k: Seq<char>|
                    #[trigger] m.contains_key(k) && !has_prefix(k, op) ==> final(self).live().contains_key(k)
                        && final(self).live()[k] == m[k])
                &&& !live_under(m, np) ==> (forall|k: Seq<char>|
                    #[trigger] m.contains_key(k) && has_prefix(k, op) ==> !final(self).live().contains_key(k))
                &&& renames_folder(r.renamed@, m, op, np)
                &&& final(auto_start)@.len() == old(auto_start)@.len()
                &&& (forall|i: int|
                    0 <= i < old(auto_start)@.len() ==> #[trigger] final(auto_start)@[i]@ == rebased_entry(
                        old(auto_start)@[i]@,
                        op,
                        np,
                    ))
                &&& r.auto_start_changed == (exists|i: int|
                    0 <= i < old(auto_start)@.len() && has_prefix(#[trigger] old(auto_start)@[i]@, op))
                &&& r.changed_dirs@.len() == 2
                &&& r.changed_dirs@[0]@ == parent_of(from@)
                &&& r.changed_dirs@[1]@ == parent_of(to@)
                &&& r.cleanup_from@ == parent_of(from@)
            }),
    {
        let op = with_slash(from);
        let np = with_slash(to);
        let ghost m = self.presets@;
        let affected = self.presets.entries_with_prefix(op.as_str());
        self.remove_entries(&affected);
        let ghost base = self.presets@;
        proof {
            assert forall|k: Seq<char>| #[trigger] base.contains_key(k) implies m.contains_key(k)
                && !has_prefix(k, op@) && base[k] == m[k] by {
                if has_prefix(k, op@) {
                    let j = choose|j: int| 0 <= j < affected@.len() && #[trigger] affected@[j].0@ == k;
                }
            }
        }
        let renamed = self.insert_rebased(&affected, op.as_str(), np.as_str());
        proof {
            let mm = moved_map(m, op@, np@);
            let n = affected@.len();
            assert forall|k: Seq<char>| #[trigger] self.presets@.contains_key(k) <==> mm.contains_key(k) by {
                if has_prefix(k, np@) && m.contains_key(source_key(k, op@, np@)) {
                    lemma_source_rebased(k, op@, np@);
                    let j = choose|j: int| 0 <= j < affected@.len() && #[trigger] affected@[j].0@ == source_key(k, op@, np@);
                    assert(k == rebased(affected@[j].0@, op@, np@));
                }
                if exists|j: int| 0 <= j < n && k == rebased(#[trigger] affected@[j].0@, op@, np@) {
                    let j = choose|j: int| 0 <= j < n && k == rebased(#[trigger] affected@[j].0@, op@, np@);
                    lemma_rebased_source(affected@[j].0@, op@, np@);
                }
                if m.contains_key(k) && !has_prefix(k, op@) {
                    assert(base.contains_key(k));
                }
            }
            assert forall|k: Seq<char>| #[trigger] mm.contains_key(k) implies self.presets@[k] == mm[k] by {
                if moved_in(m, op@, np@, k) {
                    lemma_source_rebased(k, op@, np@);
                    let j = choose|j: int| 0 <= j < affected@.len() && #[trigger] affected@[j].0@ == source_key(k, op@, np@);
                    assert(k == rebased(affected@[j].0@, op@, np@));
                } else {
                    assert(base.contains_key(k));
                    if exists|j: int| 0 <= j < n && k == rebased(#[trigger] affected@[j].0@, op@, np@) {
                        let j = choose|j: int| 0 <= j < n && k == rebased(#[trigger] affected@[j].0@, op@, np@);
                        lemma_rebased_source(affected@[j].0@, op@, np@);
                    }
                }
            }
            assert(self.presets@ =~= mm);
            assert forall|k0: Seq<char>| #[trigger] m.contains_key(k0) && has_prefix(k0, op@) implies exists|j: int|
                0 <= j < renamed@.len() && #[trigger] renamed@[j].1@ == rebased(k0, op@, np@) && renamed@[j].0@
                    == m[k0] by {
                let j = choose|j: int| 0 <= j < affected@.len() && #[trigger] affected@[j].0@ == k0;
                assert(renamed@[j].1@ == rebased(k0, op@, np@));
            }
            assert forall|j: int| 0 <= j < renamed@.len() implies moved_in(m, op@, np@, (#[trigger] renamed@[j]).1@)
                && renamed@[j].0@ == m[source_key(renamed@[j].1@, op@, np@)] by {
                lemma_rebased_source(affected@[j].0@, op@, np@);
            }
            assert forall|p: int, q: int| 0 <= p < q < renamed@.len() implies (#[trigger] renamed@[p]).1@
                != (#[trigger] renamed@[q]).1@ by {
                lemma_rebased_source(affected@[p].0@, op@, np@);
                lemma_rebased_source(affected@[q].0@, op@, np@);
            }
            assert(renames_folder(renamed@, m, op@, np@));
            if !live_under(m, np@) {
                assert forall|k: Seq<char>| #[trigger] m.contains_key(k) && !has_prefix(k, op@) implies
                    self.presets@.contains_key(k) && self.presets@[k] == m[k] by {
                    assert(!moved_in(m, op@, np@, k));
                }
                assert forall|k: Seq<char>| #[trigger] m.contains_key(k) && has_prefix(k, op@) implies
                    !self.presets@.contains_key(k) by {
                    assert(!moved_in(m, op@, np@, k));
                }
            }
        }
        let auto_start_changed = update_auto_start_presets_prefix(auto_start, op.as_str(), np.as_str());
        let changed_dirs = two_dirs(parent_preset_path(from), parent_preset_path(to));
        MoveEffects { renamed, changed_dirs, cleanup_from: parent_preset_path(from), auto_start_changed }
    }

    /// Serializes `spec` for the file of `name`; the host writes `json` to
    /// `path`, creating directories as needed.
    pub fn save_preset(&self, name: &str, spec: &PatchSpec) -> (r: Result<SavePlan, RepoError>)
        ensures
            !valid_name(name@) ==> r == Err::<SavePlan, RepoError>(RepoError::InvalidName),
            valid_name(name@) && patch_json(*spec) is None ==> r is Err && r->Err_0 is ParseError,
            valid_name(name@) && patch_json(*spec) is Some ==> (r matches Ok(plan) && plan.name@ == name@
                && plan.path@ == path_of(self.root(), name@) && Some(plan.json@) == patch_json(*spec)),
    {
        if !is_valid_preset_name(name) {
            return Err(RepoError::InvalidName);
        }
        match spec.to_json() {
            Ok(json) => Ok(SavePlan { name: to_owned_text(name), path: self.path_of_name(name), json }),
            Err(e) => Err(RepoError::ParseError(e.to_string())),
        }
    }

    /// The name an import of a file with stem `stem` into `target_dir` starts
    /// from, before it is made unique.
    pub fn import_base_name(stem: &str, target_dir: &str) -> (r: Result<String, RepoError>)
        ensures
            valid_name(join_name(target_dir@, stem@)) ==> (r matches Ok(b) && b@ == join_name(
                target_dir@,
                stem@,
            )),
            !valid_name(join_name(target_dir@, stem@)) ==> r == Err::<String, RepoError>(
                RepoError::InvalidName,
            ),
    {
        let base = join_preset_name(target_dir, stem);
        if !is_valid_preset_name(base.as_str()) {
            return Err(RepoError::InvalidName);
        }
        Ok(base)
    }

    /// Imports the document `content` under the first free name of the
    /// sequence `base`, `base copy`, `base copy 2`, ...; `taken` lists the
    /// names whose files exist. The host writes the file, opens it, and
    /// deletes it again if opening fails.
    pub fn import_preset(&self, base: &str, taken: &Vec<String>, content: &str) -> (r: Result<
        SavePlan,
        RepoError,
    >)
        ensures
            !valid_name(base@) ==> r == Err::<SavePlan, RepoError>(RepoError::InvalidName),
            valid_name(base@) && !parses_as_patch(content@) ==> r is Err && r->Err_0 is ParseError,
            valid_name(base@) && parses_as_patch(content@) && reserialized(content@) is None ==> r is Err
                && r->Err_0 is ParseError,
            valid_name(base@) && parses_as_patch(content@) && reserialized(content@) is Some ==> (r matches Ok(
                plan,
            ) && is_first_free(base@, name_set(taken@), plan.name@) && valid_name(plan.name@) && plan.path@
                == path_of(self.root(), plan.name@) && Some(plan.json@) == reserialized(content@)),
    {
        if !is_valid_preset_name(base) {
            return Err(RepoError::InvalidName);
        }
        let spec = match PatchSpec::from_json(content) {
            Ok(spec) => spec,
            Err(e) => {
                return Err(RepoError::ParseError(e.to_string()));
            },
        };
        let name = unique_preset_name(base, taken);
        proof {
            let k = choose|k: nat|
                {
                    &&& name@ == copy_candidate(base@, k)
                    &&& !name_set(taken@).contains(name@)
                    &&& forall|j: nat| j < k ==> name_set(taken@).contains(#[trigger] copy_candidate(base@, j))
                };
            lemma_copy_candidate_valid(base@, k);
        }
        match spec.to_json() {
            Ok(json) => {
                let path = self.path_of_name(name.as_str());
                Ok(SavePlan { name, path, json })
            },
            Err(e) => Err(RepoError::ParseError(e.to_string())),
        }
    }

    /// The directory to list for the tree-view path `path` (empty: the root).
    pub fn dir_listing_path(&self, path: &str) -> (r: Result<String, RepoError>)
        ensures
            listable_path(path@) ==> (r matches Ok(d) && d@ == dir_path_of(self.root(), path@)),
            !listable_path(path@) ==> r == Err::<String, RepoError>(RepoError::InvalidPath),
    {
        if !is_listable_path(path) {
            return Err(RepoError::InvalidPath);
        }
        Ok(self.dir_of(path))
    }

    /// Closes the patch `id` unless the engine reports it running: then
    /// nothing changes and the result is `false`. Otherwise every name open
    /// under `id` is dropped, the result is `true`, and the host asks the
    /// engine to remove the patch.
    pub fn close_preset(&mut self, id: &str, infos: &Vec<PresetInfo>) -> (r: bool)
        requires
            old(self).wf(),
        ensures
            final(self).wf(),
            final(self).root() == old(self).root(),
            r == !running_in(infos@, id@),
            r ==> final(self).live() == old(self).live().restrict(
                old(self).live().dom().filter(|k: Seq<char>| old(self).live()[k] != id@),
            ),
            !r ==> final(self).live() == old(self).live(),
    {
        if is_running(infos, id) {
            return false;
        }
        self.presets.remove_by_id(id);
        true
    }
}

/// The directories whose listing changed after a save of `name`: none for an
/// existing file; for a new one its parent, and the parent's parent as well
/// when the parent directory was created by the save.
pub open spec fn saved_dirs(name: Seq<char>, is_new: bool, parent_dir_existed: bool) -> Seq<Seq<char>> {
    if !is_new {
        Seq::empty()
    } else if parent_of(name).len() == 0 || parent_dir_existed {
        seq![parent_of(name)]
    } else {
        seq![parent_of(name), parent_of(parent_of(name))]
    }
}

/// The directories to announce after saving `name`; `is_new` says the file
/// did not exist before, `parent_dir_existed` that its directory did.
pub fn save_notifications(name: &str, is_new: bool, parent_dir_existed: bool) -> (r: Vec<String>)
    ensures
        r@.map_values(|s: String| s@) == saved_dirs(name@, is_new, parent_dir_existed),
{
    let mut r: Vec<String> = Vec::new();
    if !is_new {
        assert(r@.map_values(|s: String| s@) =~= saved_dirs(name@, is_new, parent_dir_existed));
        return r;
    }
    let parent = parent_preset_path(name);
    let top = parent.unicode_len() == 0 || parent_dir_existed;
    let grand = parent_preset_path(parent.as_str());
    r.push(parent);
    if !top {
        r.push(grand);
    }
    assert(r@.map_values(|s: String| s@) =~= saved_dirs(name@, is_new, parent_dir_existed));
    r
}


/// After the folder `from` moved to `to`, an open name `from/x` is open as
/// `to/x` under the same id, the engine is asked to rename that id to
/// `to/x`, and an auto-start entry `from/x` reads `to/x`. When nothing was
/// open under `to/` (which `move_folder` requires), `from/x` is no longer open.
pub proof fn lemma_folder_move_follows(
    m: Map<Seq<char>, Seq<char>>,
    renamed: Seq<(String, String)>,
    from: Seq<char>,
    to: Seq<char>,
    x: Seq<char>,
)
    requires
        m.contains_key(from.push('/') + x),
        renames_folder(renamed, m, from.push('/'), to.push('/')),
    ensures
        moved_map(m, from.push('/'), to.push('/')).contains_key(to.push('/') + x),
        moved_map(m, from.push('/'), to.push('/'))[to.push('/') + x] == m[from.push('/') + x],
        exists|j: int|
            0 <= j < renamed.len() && (#[trigger] renamed[j]).0@ == m[from.push('/') + x] && renamed[j].1@
                == to.push('/') + x,
        rebased_entry(from.push('/') + x, from.push('/'), to.push('/')) == to.push('/') + x,
        !live_under(m, to.push('/')) ==> !moved_map(m, from.push('/'), to.push('/')).contains_key(
            from.push('/') + x,
        ),
{
    let op = from.push('/');
    let np = to.push('/');
    let k0 = op + x;
    assert(k0.subrange(0, op.len() as int) =~= op);
    assert(k0.subrange(op.len() as int, k0.len() as int) =~= x);
    assert(rebased(k0, op, np) =~= np + x);
    lemma_rebased_source(k0, op, np);
    let j = choose|j: int|
        0 <= j < renamed.len() && #[trigger] renamed[j].1@ == rebased(k0, op, np) && renamed[j].0@ == m[k0];
    assert(renamed[j].0@ == m[k0] && renamed[j].1@ == np + x);
    if moved_in(m, op, np, k0) {
        assert(live_under(m, np));
    }
}

/// A saved file shows in the listing of its directory under its own last
/// segment, when that segment has no surrounding whitespace: the path that
/// `save_preset` plans is the directory of the name's parent, a `/`, and the
/// last segment with `.json`; a file of that name lists as the segment.
pub proof fn lemma_saved_file_listed(root: Seq<char>, n: Seq<char>)
    requires
        valid_name(n),
        trimmed(base_of(n)) == base_of(n),
    ensures
        parent_of(n).len() == 0 ==> path_of(root, n) == dir_path_of(root, parent_of(n)) + base_of(n)
            + json_ext(),
        parent_of(n).len() > 0 ==> path_of(root, n) == dir_path_of(root, parent_of(n)) + seq!['/']
            + base_of(n) + json_ext(),
        label_for(base_of(n) + json_ext(), false, true) == seq![base_of(n)],
{
    lemma_last_slash_bounds(n);
    let k = last_slash(n);
    let f = base_of(n) + json_ext();
    assert(!bad_slash_at(n, n.len() - 1));
    assert(base_of(n).len() > 0);
    assert(f.subrange(f.len() - json_ext().len(), f.len() as int) =~= json_ext());
    assert(f.subrange(0, f.len() - json_ext().len()) =~= base_of(n));
    if k < 0 {
        assert(base_of(n) =~= n);
        assert(path_of(root, n) =~= dir_path_of(root, parent_of(n)) + base_of(n) + json_ext());
    } else {
        assert(!bad_slash_at(n, 0));
        assert(parent_of(n).len() == k);
        assert(n =~= parent_of(n) + seq!['/'] + base_of(n));
        assert(path_of(root, n) =~= dir_path_of(root, parent_of(n)) + seq!['/'] + base_of(n) + json_ext());
    }
}

} // verus!
