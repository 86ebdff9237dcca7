use vstd::prelude::*;
use vstd::string::*;
use crate::registry::{check_or_insert_spec, Registry};

verus! {

/// What a directory entry is, as the file system reports it.
#[derive(Clone, Copy, Debug, PartialEq, Eq, Structural)]
pub enum EntryKind {
    /// Anything that is not a directory nor a symbolic link: read as a file.
    File,
    Directory,
    /// A symbolic link whose target is not a directory (or is missing).
    LinkToFile,
    /// A symbolic link whose target is a directory.
    LinkToDirectory,
}

/// What the walk does with an entry.
#[derive(Clone, Copy, Debug, PartialEq, Eq, Structural)]
pub enum Action {
    /// List the directory and visit its entries.
    Descend,
    /// Submit one hashing task for the file.
    Hash,
    /// Leave the entry, and everything under it, alone.
    Skip,
}

/// A directory listing as paths and kinds.
pub open spec fn listing_view(entries: Seq<(String, EntryKind)>) -> Seq<(Seq<char>, EntryKind)> {
    entries.map_values(|e: (String, EntryKind)| (e.0@, e.1))
}

pub open spec fn is_link(kind: EntryKind) -> bool {
    kind == EntryKind::LinkToFile || kind == EntryKind::LinkToDirectory
}

/// Directories (followed links included, unless links are ignored) are
/// descended into; every other entry is hashed, unless it is a link and links
/// are ignored.
pub open spec fn entry_action_spec(kind: EntryKind, ignore_symlinks: bool) -> Action {
    if ignore_symlinks && is_link(kind) {
        Action::Skip
    } else if kind == EntryKind::Directory || kind == EntryKind::LinkToDirectory {
        Action::Descend
    } else {
        Action::Hash
    }
}

pub fn entry_action(kind: EntryKind, ignore_symlinks: bool) -> (r: Action)
    ensures
        r == entry_action_spec(kind, ignore_symlinks),
{
    match kind {
        EntryKind::File => Action::Hash,
        EntryKind::Directory => Action::Descend,
        EntryKind::LinkToFile => if ignore_symlinks {
            Action::Skip
        } else {
            Action::Hash
        },
        EntryKind::LinkToDirectory => if ignore_symlinks {
            Action::Skip
        } else {
            Action::Descend
        },
    }
}

/// The root is always listed when it is a directory (the caller named it);
/// a root that is a file is treated as any other entry.
pub open spec fn root_action_spec(kind: EntryKind, ignore_symlinks: bool) -> Action {
    if kind == EntryKind::Directory || kind == EntryKind::LinkToDirectory {
        Action::Descend
    } else {
        entry_action_spec(kind, ignore_symlinks)
    }
}

/// The paths of a listing that get a hashing task, in listing order.
pub open spec fn tasks_of(entries: Seq<(Seq<char>, EntryKind)>, ignore_symlinks: bool) -> Seq<Seq<char>>
    decreases entries.len(),
{
    if entries.len() == 0 {
        Seq::empty()
    } else {
        let rest = tasks_of(entries.drop_last(), ignore_symlinks);
        if entry_action_spec(entries.last().1, ignore_symlinks) == Action::Hash {
            rest.push(entries.last().0)
        } else {
            rest
        }
    }
}

/// The paths of a listing that are descended into, in listing order.
pub open spec fn dirs_of(entries: Seq<(Seq<char>, EntryKind)>, ignore_symlinks: bool) -> Seq<Seq<char>>
    decreases entries.len(),
{
    if entries.len() == 0 {
        Seq::empty()
    } else {
        let rest = dirs_of(entries.drop_last(), ignore_symlinks);
        if entry_action_spec(entries.last().1, ignore_symlinks) == Action::Descend {
            rest.push(entries.last().0)
        } else {
            rest
        }
    }
}

/// Regular files of a listing, and (when links are followed) links to files.
pub open spec fn is_hashed_file(kind: EntryKind, ignore_symlinks: bool) -> bool {
    kind == EntryKind::File || (!ignore_symlinks && kind == EntryKind::LinkToFile)
}

/// How many entries of a listing are files to hash under the symlink policy.
pub open spec fn file_count(entries: Seq<(Seq<char>, EntryKind)>, ignore_symlinks: bool) -> nat
    decreases entries.len(),
{
    if entries.len() == 0 {
        0
    } else {
        file_count(entries.drop_last(), ignore_symlinks)
            + if is_hashed_file(entries.last().1, ignore_symlinks) { 1nat } else { 0nat }
    }
}

/// A listing with K files to hash (after symlink filtering) yields exactly K
/// tasks, one per such file, each for its own entry.
pub proof fn law_one_task_per_file(entries: Seq<(Seq<char>, EntryKind)>, ignore_symlinks: bool)
    ensures
        tasks_of(entries, ignore_symlinks).len() == file_count(entries, ignore_symlinks),
        forall|t: Seq<char>| #[trigger] tasks_of(entries, ignore_symlinks).contains(t) ==>
            exists|i: int| 0 <= i < entries.len() && entries[i].0 == t
                && is_hashed_file(entries[i].1, ignore_symlinks),
    decreases entries.len(),
{
    if entries.len() > 0 {
        let rest = entries.drop_last();
        law_one_task_per_file(rest, ignore_symlinks);
        assert forall|t: Seq<char>| #[trigger] tasks_of(entries, ignore_symlinks).contains(t) implies
            exists|i: int| 0 <= i < entries.len() && entries[i].0 == t
                && is_hashed_file(entries[i].1, ignore_symlinks) by {
            if tasks_of(rest, ignore_symlinks).contains(t) {
                let i = choose|i: int| 0 <= i < rest.len() && rest[i].0 == t
                    && is_hashed_file(rest[i].1, ignore_symlinks);
                assert(entries[i] == rest[i]);
            } else {
                assert(entries[entries.len() - 1] == entries.last());
            }
        }
    }
}

/// With links ignored, no link gets a task, and no link is descended into,
/// so nothing reached only through a linked directory is ever listed.
pub proof fn law_links_ignored(entries: Seq<(Seq<char>, EntryKind)>)
    ensures
        forall|i: int| 0 <= i < entries.len() && is_link(entries[i].1) ==>
            entry_action_spec(#[trigger] entries[i].1, true) == Action::Skip,
        file_count(entries, true) == file_count(entries.filter(|e: (Seq<char>, EntryKind)| !is_link(e.1)), true),
    decreases entries.len(),
{
    if entries.len() > 0 {
        let rest = entries.drop_last();
        let keep = |e: (Seq<char>, EntryKind)| !is_link(e.1);
        law_links_ignored(rest);
        reveal(Seq::filter);
        assert(entries.filter(keep) == {
            let r = rest.filter(keep);
            if keep(entries.last()) { r.push(entries.last()) } else { r }
        }) by {
            assert(entries.drop_last() == rest);
        }
        if keep(entries.last()) {
            let r = rest.filter(keep);
            assert(r.push(entries.last()).drop_last() =~= r);
        }
    }
}

/// The controller of a scan: it decides, entry by entry, what to descend
/// into and what to hash, and keeps the directories still to be listed.
/// Directory descent stays with the controller; only hashing is handed out.
pub struct Walker {
    ignore_symlinks: bool,
    pending: Vec<String>,
}

impl Walker {
    pub closed spec fn ignores_symlinks(&self) -> bool {
        self.ignore_symlinks
    }

    /// Directories found but not listed yet.
    pub closed spec fn pending(&self) -> Seq<Seq<char>> {
        self.pending@.map_values(|s: String| s@)
    }

    /// Starts a scan at `root`. Returns the root itself when it is a file to hash.
    pub fn start(root: String, kind: EntryKind, ignore_symlinks: bool) -> (r: (Walker, Option<String>))
        ensures
            r.0.ignores_symlinks() == ignore_symlinks,
            root_action_spec(kind, ignore_symlinks) == Action::Descend ==> r.0.pending() == seq![root@]
                && r.1 is None,
            root_action_spec(kind, ignore_symlinks) == Action::Hash ==> r.0.pending() == Seq::<Seq<char>>::empty()
                && r.1 == Some(root),
            root_action_spec(kind, ignore_symlinks) == Action::Skip ==> r.0.pending() == Seq::<Seq<char>>::empty()
                && r.1 is None,
    {
        let mut w = Walker { ignore_symlinks, pending: Vec::new() };
        if kind == EntryKind::Directory || kind == EntryKind::LinkToDirectory {
            w.pending.push(root);
            proof {
                assert(w.pending() =~= seq![root@]);
            }
            (w, None)
        } else {
            proof {
                assert(w.pending() =~= Seq::<Seq<char>>::empty());
            }
            match entry_action(kind, ignore_symlinks) {
                Action::Hash => (w, Some(root)),
                _ => (w, None),
            }
        }
    }

    /// Takes the next directory to list, if any is left.
    pub fn next_directory(&mut self) -> (r: Option<String>)
        ensures
            final(self).ignores_symlinks() == old(self).ignores_symlinks(),
            old(self).pending().len() == 0 ==> r is None && final(self).pending() == old(self).pending(),
            old(self).pending().len() > 0 ==> r is Some
                && r->0@ == old(self).pending().last()
                && final(self).pending() == old(self).pending().drop_last(),
    {
        let r = self.pending.pop();
        proof {
            if old(self).pending@.len() > 0 {
                assert(self.pending() =~= old(self).pending().drop_last());
            }
        }
        r
    }

    /// Whether every directory found has been listed.
    pub fn is_finished(&self) -> (r: bool)
        ensures
            r == (self.pending().len() == 0),
    {
        self.pending.len() == 0
    }

    /// Visits one entry of a listed directory. Returns the path when one
    /// hashing task must be submitted for it; a directory to descend into is
    /// kept for later listing.
    pub fn visit(&mut self, path: String, kind: EntryKind) -> (r: Option<String>)
        ensures
            final(self).ignores_symlinks() == old(self).ignores_symlinks(),
            entry_action_spec(kind, old(self).ignores_symlinks()) == Action::Descend ==> r is None
                && final(self).pending() == old(self).pending().push(path@),
            entry_action_spec(kind, old(self).ignores_symlinks()) == Action::Hash ==> r == Some(path)
                && final(self).pending() == old(self).pending(),
            entry_action_spec(kind, old(self).ignores_symlinks()) == Action::Skip ==> r is None
                && final(self).pending() == old(self).pending(),
    {
        match entry_action(kind, self.ignore_symlinks) {
            Action::Descend => {
                let ghost p = path@;
                self.pending.push(path);
                proof {
                    assert(self.pending() =~= old(self).pending().push(p));
                }
                None
            },
            Action::Hash => Some(path),
            Action::Skip => None,
        }
    }

    /// Visits every entry of one directory listing, in order. Returns the
    /// paths to submit hashing tasks for; directories go to the pending list.
    pub fn visit_all(&mut self, entries: &Vec<(String, EntryKind)>) -> (r: Vec<String>)
        ensures
            final(self).ignores_symlinks() == old(self).ignores_symlinks(),
            r@.map_values(|s: String| s@) == tasks_of(listing_view(entries@), old(self).ignores_symlinks()),
            final(self).pending() == old(self).pending() + dirs_of(listing_view(entries@), old(self).ignores_symlinks()),
    {
        let ghost ignore = self.ignore_symlinks;
        let ghost listing = listing_view(entries@);
        let mut tasks: Vec<String> = Vec::new();
        proof {
            assert(listing.take(0) =~= Seq::<(Seq<char>, EntryKind)>::empty());
            assert(old(self).pending() + dirs_of(listing.take(0), ignore) =~= old(self).pending());
            assert(tasks@.map_values(|s: String| s@) =~= Seq::<Seq<char>>::empty());
        }
        let mut i: usize = 0;
        while i < entries.len()
            invariant
                self.ignores_symlinks() == ignore,
                listing == listing_view(entries@),
                0 <= i <= entries@.len(),
                tasks@.map_values(|s: String| s@) == tasks_of(listing.take(i as int), ignore),
                self.pending() == old(self).pending() + dirs_of(listing.take(i as int), ignore),
            decreases entries@.len() - i,
        {
            let path = entries[i].0.clone();
            let kind = entries[i].1;
            let ghost p = path@;
            proof {
                assert(listing.take(i + 1).drop_last() =~= listing.take(i as int));
                assert(listing.take(i + 1).last() == (p, kind));
            }
            match self.visit(path, kind) {
                Some(t) => {
                    let ghost old_tasks = tasks@;
                    tasks.push(t);
                    assert(tasks@.map_values(|s: String| s@) =~= old_tasks.map_values(|s: String| s@).push(p));
                },
                None => {},
            }
            proof {
                if entry_action_spec(kind, ignore) == Action::Descend {
                    assert(self.pending() =~= old(self).pending() + dirs_of(listing.take(i + 1), ignore));
                }
            }
            i = i + 1;
        }
        proof {
            assert(listing.take(entries@.len() as int) =~= listing);
        }
        tasks
    }
}

/// How one hashing task ended.
#[derive(Debug)]
pub enum TaskOutcome {
    /// The file's digest was already stored for `original`.
    Reported { duplicate: String, original: String },
    /// The file was the first one seen with its digest.
    Recorded,
    /// The file could not be read.
    Failed { path: String },
}

/// `<duplicate> = <original>`
pub open spec fn report_line_spec(duplicate: Seq<char>, original: Seq<char>) -> Seq<char> {
    duplicate + " = "@ + original
}

/// The output line for a duplicate pair.
pub fn report_line(duplicate: &str, original: &str) -> (r: String)
    ensures
        r@ == report_line_spec(duplicate@, original@),
{
    let sep = String::from_str(" = ");
    proof {
        reveal_strlit(" = ");
    }
    let r = String::from_str(duplicate).concat(sep.as_str()).concat(original);
    r
}

impl TaskOutcome {
    /// The output line of this outcome: one for a duplicate, none otherwise.
    pub fn report(&self) -> (r: Option<String>)
        ensures
            match self {
                TaskOutcome::Reported { duplicate, original } => r is Some
                    && r->0@ == report_line_spec(duplicate@, original@),
                _ => r is None,
            },
    {
        match self {
            TaskOutcome::Reported { duplicate, original } => Some(report_line(duplicate.as_str(), original.as_str())),
            _ => None,
        }
    }
}

/// Ends the task for `path` whose file hashed to `digest` (`None` when it
/// could not be read): records the digest, or reports the file as a duplicate
/// of the path already stored. A failed read leaves the registry alone.
pub fn settle(registry: &mut Registry, path: String, digest: Option<Vec<u8>>) -> (r: TaskOutcome)
    requires
        old(registry).wf(),
    ensures
        final(registry).wf(),
        match digest {
            None => final(registry)@ == old(registry)@ && r == (TaskOutcome::Failed { path }),
            Some(d) => final(registry)@ == check_or_insert_spec(old(registry)@, d@, path@).0
                && match check_or_insert_spec(old(registry)@, d@, path@).1 {
                    None => r == TaskOutcome::Recorded,
                    Some(o) => r matches TaskOutcome::Reported { duplicate, original }
                        && duplicate == path && original@ == o,
                },
        },
{
    match digest {
        None => TaskOutcome::Failed { path },
        Some(d) => {
            let dup = path.clone();
            match registry.check_or_insert(d, path) {
                None => TaskOutcome::Recorded,
                Some(original) => TaskOutcome::Reported { duplicate: dup, original },
            }
        },
    }
}

} // verus!
