//! The guard of a rebuild: the store that was there is moved aside before the
//! build and put back if the build does not come to its end.
//!
//! The guard decides what is to be done to the file system; to do it is left
//! to the caller. What the guard's steps achieve is shown on a model of the
//! file system in which each path holds some tree.

use vstd::prelude::*;
use vstd::string::StringExecFns;

verus! {

/// Something to do to the file system.
#[derive(Debug)]
pub enum FsAction {
    /// Move what is at `from` to `to`.
    Rename { from: String, to: String },
    /// Delete the directory and all in it.
    RemoveDirAll(String),
}

/// The guard of a rebuild.
#[derive(Debug)]
pub struct Restorer {
    canonical_path: String,
    backup_path: String,
    disabled: bool,
}

/// The path of `filename` in the directory `dir`.
pub open spec fn path_in(dir: Seq<char>, filename: Seq<char>) -> Seq<char> {
    dir + "/"@ + filename
}

/// An action, as texts.
pub enum ActionView {
    Rename { from: Seq<char>, to: Seq<char> },
    RemoveDirAll(Seq<char>),
}

impl View for FsAction {
    type V = ActionView;

    open spec fn view(&self) -> ActionView {
        match self {
            FsAction::Rename { from, to } => ActionView::Rename { from: from@, to: to@ },
            FsAction::RemoveDirAll(path) => ActionView::RemoveDirAll(path@),
        }
    }
}

impl Restorer {
    /// The path of the store.
    pub closed spec fn store(&self) -> Seq<char> {
        self.canonical_path@
    }

    /// Where the store that was there is kept.
    pub closed spec fn backup(&self) -> Seq<char> {
        self.backup_path@
    }

    /// Whether the build came to its end.
    pub closed spec fn is_disabled(&self) -> bool {
        self.disabled
    }

    /// Arms a guard for the store at `canonical_path`, and says how to move the
    /// store aside: into the temporary directory `tempdir`, which lies beside
    /// it, under its own name `filename`.
    pub fn new(canonical_path: String, tempdir: &str, filename: &str) -> (r: (Restorer, FsAction))
        ensures
            r.0.store() == canonical_path@,
            r.0.backup() == path_in(tempdir@, filename@),
            !r.0.is_disabled(),
            r.1@ == (ActionView::Rename { from: canonical_path@, to: path_in(tempdir@, filename@) }),
    {
        let mut backup = String::from_str(tempdir);
        backup.append("/");
        backup.append(filename);
        assert(backup@ =~= path_in(tempdir@, filename@));
        let action = FsAction::Rename { from: canonical_path.clone(), to: backup.clone() };
        (Restorer { canonical_path, backup_path: backup, disabled: false }, action)
    }

    /// Disarms the guard: the build came to its end, and what was kept is not
    /// put back.
    pub fn disable(&mut self)
        ensures
            final(self).is_disabled(),
            final(self).store() == old(self).store(),
            final(self).backup() == old(self).backup(),
    {
        self.disabled = true;
    }

    /// What is to be done when the guard goes away. Disarmed, nothing. Armed,
    /// what was built so far is deleted and what was kept is moved back; each of
    /// the two is tried whether or not the other succeeds.
    pub fn release(&self) -> (r: Vec<FsAction>)
        ensures
            self.is_disabled() ==> r@.len() == 0,
            !self.is_disabled() ==> r@.len() == 2 && r@[0]@ == ActionView::RemoveDirAll(self.store())
                && r@[1]@ == (ActionView::Rename { from: self.backup(), to: self.store() }),
    {
        let mut actions: Vec<FsAction> = Vec::new();
        if !self.disabled {
            actions.push(FsAction::RemoveDirAll(self.canonical_path.clone()));
            actions.push(
                FsAction::Rename { from: self.backup_path.clone(), to: self.canonical_path.clone() },
            );
        }
        actions
    }
}

/// The file system after `action`, where each path of `fs` holds a tree. To move
/// what is not there fails and changes nothing.
pub open spec fn after(fs: Map<Seq<char>, int>, action: ActionView) -> Map<Seq<char>, int> {
    match action {
        ActionView::Rename { from, to } => if fs.dom().contains(from) {
            fs.remove(from).insert(to, fs[from])
        } else {
            fs
        },
        ActionView::RemoveDirAll(path) => fs.remove(path),
    }
}

/// Crash safety. Let a store be there, and nothing where it is to be kept. The
/// guard is armed and the store moved aside; then the build does to the store's
/// path whatever it does, and to no other path; then the guard goes away armed.
/// The file system is then what it was before: the store holds what it held,
/// and nothing is left where it was kept.
pub proof fn lemma_crash_safety(
    guard: Restorer,
    before: Map<Seq<char>, int>,
    built: Map<Seq<char>, int>,
    release: Seq<FsAction>,
)
    requires
        before.dom().contains(guard.store()),
        !before.dom().contains(guard.backup()),
        guard.store() != guard.backup(),
        built.remove(guard.store()) == after(
            before,
            ActionView::Rename { from: guard.store(), to: guard.backup() },
        ).remove(guard.store()),
        !guard.is_disabled(),
        release.len() == 2,
        release[0]@ == ActionView::RemoveDirAll(guard.store()),
        release[1]@ == (ActionView::Rename { from: guard.backup(), to: guard.store() }),
    ensures
        after(after(built, release[0]@), release[1]@) == before,
{
    let moved = after(before, ActionView::Rename { from: guard.store(), to: guard.backup() });
    let cleared = after(built, release[0]@);
    assert(cleared == moved.remove(guard.store()));
    assert(moved.dom().contains(guard.backup()));
    assert(cleared.dom().contains(guard.backup()));
    assert(after(cleared, release[1]@) =~= before);
}

} // verus!
