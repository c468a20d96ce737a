//! A mathematical model of directory trees and of what the planned actions
//! do to them. The laws of the crate are stated over it.
//!
//! The model knows names and timestamps, not paths or contents: a copy
//! leaves the backup file with the timestamp of the source file. Every
//! action succeeds unless the tree itself stands in its way: a file is not
//! copied over a directory, and a directory is not created where its name is
//! taken.

use vstd::prelude::*;
use crate::backup::{level_plan, LevelPlanView};
use crate::dirs::{delete_dir, descends, DirActionView};
use crate::entry::{distinct_names, has_name, EntryView, Timestamp};
use crate::exclusion::retained;
use crate::files::FileActionView;
use crate::scan::DirItemsView;

verus! {

/// A directory: its own timestamp, its files by name with their timestamps,
/// and its subdirectories by name.
#[verifier::ext_equal]
pub ghost struct Tree {
    pub modified: Timestamp,
    pub files: Map<Seq<char>, Timestamp>,
    pub dirs: Map<Seq<char>, Tree>,
}

impl Tree {
    /// A directory as a filesystem can hold it: finitely many children, no
    /// name used for both a file and a subdirectory, and the same all the
    /// way down.
    pub open spec fn valid(self) -> bool
        decreases self,
    {
        &&& self.files.dom().finite()
        &&& self.dirs.dom().finite()
        &&& self.files.dom().disjoint(self.dirs.dom())
        &&& forall|n: Seq<char>| #[trigger] self.dirs.contains_key(n) ==> self.dirs[n].valid()
    }

    /// A directory that was just created. Nothing is known of its timestamp.
    pub open spec fn fresh() -> Tree {
        Tree { modified: arbitrary(), files: Map::empty(), dirs: Map::empty() }
    }

    /// The directory reached from this one by going down `path`, one name
    /// after the other, if there is one.
    pub open spec fn subdir(self, path: Seq<Seq<char>>) -> Option<Tree>
        decreases path.len(),
    {
        if path.len() == 0 {
            Some(self)
        } else if self.dirs.contains_key(path[0]) {
            self.dirs[path[0]].subdir(path.drop_first())
        } else {
            None
        }
    }

    /// The timestamp of the file at `path`, if there is one. The last name
    /// of the path is that of the file, the names before it are those of the
    /// directories that lead to it.
    pub open spec fn file(self, path: Seq<Seq<char>>) -> Option<Timestamp> {
        if path.len() == 0 {
            None
        } else {
            match self.subdir(path.drop_last()) {
                Some(dir) => if dir.files.contains_key(path.last()) {
                    Some(dir.files[path.last()])
                } else {
                    None
                },
                None => None,
            }
        }
    }
}

/// `entries` is a listing of the files of `dir`: each file once, under its
/// name and with its timestamp, in any order and with any paths.
pub open spec fn lists_files(entries: Seq<EntryView>, dir: Tree) -> bool {
    &&& distinct_names(entries)
    &&& forall|i: int|
        0 <= i < entries.len() ==> dir.files.contains_key(#[trigger] entries[i].name)
            && dir.files[entries[i].name] == entries[i].modified
    &&& forall|n: Seq<char>| #[trigger] dir.files.contains_key(n) ==> has_name(entries, n)
}

/// `entries` is a listing of the subdirectories of `dir`: each one once,
/// under its name and with its timestamp, in any order and with any paths.
pub open spec fn lists_dirs(entries: Seq<EntryView>, dir: Tree) -> bool {
    &&& distinct_names(entries)
    &&& forall|i: int|
        0 <= i < entries.len() ==> dir.dirs.contains_key(#[trigger] entries[i].name)
            && dir.dirs[entries[i].name].modified == entries[i].modified
    &&& forall|n: Seq<char>| #[trigger] dir.dirs.contains_key(n) ==> has_name(entries, n)
}

/// The backup directory after one file action.
pub open spec fn after_file_action(dir: Tree, action: FileActionView) -> Tree {
    match action {
        FileActionView::Delete { target } => Tree { files: dir.files.remove(target.name), ..dir },
        FileActionView::Copy { source, dest } => if dir.dirs.contains_key(source.name) {
            dir
        } else {
            Tree { files: dir.files.insert(source.name, source.modified), ..dir }
        },
        FileActionView::Refresh { source, target } => if dir.dirs.contains_key(source.name) {
            Tree { files: dir.files.remove(target.name), ..dir }
        } else {
            Tree {
                files: dir.files.remove(target.name).insert(source.name, source.modified),
                ..dir
            }
        },
    }
}

/// The backup directory after a sequence of file actions, first to last.
pub open spec fn after_file_actions(dir: Tree, actions: Seq<FileActionView>) -> Tree
    decreases actions.len(),
{
    if actions.len() == 0 {
        dir
    } else {
        after_file_action(after_file_actions(dir, actions.drop_last()), actions.last())
    }
}

/// The backup directory after one directory action.
pub open spec fn after_dir_action(dir: Tree, action: DirActionView) -> Tree {
    match action {
        DirActionView::Create { source, dest } => if dir.files.contains_key(source.name)
            || dir.dirs.contains_key(source.name) {
            dir
        } else {
            Tree { dirs: dir.dirs.insert(source.name, Tree::fresh()), ..dir }
        },
        DirActionView::Delete { target } => Tree { dirs: dir.dirs.remove(target.name), ..dir },
    }
}

/// The backup directory after a sequence of directory actions, first to
/// last.
pub open spec fn after_dir_actions(dir: Tree, actions: Seq<DirActionView>) -> Tree
    decreases actions.len(),
{
    if actions.len() == 0 {
        dir
    } else {
        after_dir_action(after_dir_actions(dir, actions.drop_last()), actions.last())
    }
}

/// The backup directory after a whole level plan: the purge, then the file
/// actions, then the directory actions.
pub open spec fn after_level(dir: Tree, plan: LevelPlanView) -> Tree {
    after_dir_actions(
        after_file_actions(
            after_dir_actions(dir, plan.purge.map_values(delete_dir())),
            plan.files,
        ),
        plan.dirs,
    )
}

/// Whether the copy of the source file called `name` is bound to fail at
/// this level: the backup holds a directory of that name that the purge
/// leaves in place.
pub open spec fn blocked(bak: Tree, excluded: Seq<Seq<char>>, name: Seq<char>) -> bool {
    bak.dirs.contains_key(name) && !excluded.contains(name)
}

/// What one level of reconciliation makes of the backup directory `bak`
/// that goes with the source directory `src`. Subdirectories that stay are
/// as they were; those that are new are empty. The directory keeps its own
/// timestamp here, whatever a filesystem would do to it: no law rests on
/// the timestamps of the backup directories after a run.
pub open spec fn level_result(src: Tree, bak: Tree, excluded: Seq<Seq<char>>) -> Tree {
    Tree {
        modified: bak.modified,
        files: Map::new(
            |n: Seq<char>| src.files.contains_key(n) && !blocked(bak, excluded, n),
            |n: Seq<char>| src.files[n],
        ),
        dirs: Map::new(
            |n: Seq<char>| src.dirs.contains_key(n) && !excluded.contains(n),
            |n: Seq<char>|
                if bak.dirs.contains_key(n) {
                    bak.dirs[n]
                } else {
                    Tree::fresh()
                },
        ),
    }
}

/// Whether the run goes down into the subdirectory called `name` after the
/// level of `src` and `bak`: it is a source directory that is not excluded,
/// and the backup either lacked it or holds it with another timestamp.
pub open spec fn visits(src: Tree, bak: Tree, excluded: Seq<Seq<char>>, name: Seq<char>) -> bool {
    &&& src.dirs.contains_key(name)
    &&& !excluded.contains(name)
    &&& bak.dirs.contains_key(name) ==> bak.dirs[name].modified != src.dirs[name].modified
}

/// The backup tree after a whole run from the pair of `src` and `bak`: the
/// level is reconciled, and then every subdirectory that the level says to
/// visit, in the same way.
pub open spec fn run(src: Tree, bak: Tree, excluded: Seq<Seq<char>>) -> Tree
    decreases src,
{
    let level = level_result(src, bak, excluded);
    Tree {
        modified: level.modified,
        files: level.files,
        dirs: Map::new(
            |n: Seq<char>| level.dirs.contains_key(n),
            |n: Seq<char>|
                if visits(src, bak, excluded, n) {
                    run(src.dirs[n], level.dirs[n], excluded)
                } else {
                    level.dirs[n]
                },
        ),
    }
}

/// No name along `path` is excluded.
pub open spec fn clear_of(path: Seq<Seq<char>>, excluded: Seq<Seq<char>>) -> bool {
    forall|i: int| 0 <= i < path.len() ==> !excluded.contains(#[trigger] path[i])
}

/// A scanner that tells the truth: for every valid directory it gives a
/// listing of the files and a listing of the subdirectories, in whatever
/// order and with whatever paths.
pub open spec fn faithful(scan: spec_fn(Tree) -> DirItemsView) -> bool {
    forall|dir: Tree|
        dir.valid() ==> lists_files((#[trigger] scan(dir)).files, dir) && lists_dirs(
            scan(dir).dirs,
            dir,
        )
}

/// The backup tree after a whole run from the pair of `src` and `bak`,
/// played step by step as a caller plays it: scan both directories, make
/// the level plan, carry it out, and do the same for every pending pair.
/// `bfolder` stands for the paths of the backup directories, which have no
/// part in what happens.
pub open spec fn replay(
    src: Tree,
    bak: Tree,
    excluded: Seq<Seq<char>>,
    scan: spec_fn(Tree) -> DirItemsView,
    bfolder: Seq<char>,
) -> Tree
    decreases src,
{
    let plan = level_plan(scan(src), scan(bak), bfolder, excluded);
    let level = after_level(bak, plan);
    let mdirs = retained(scan(src).dirs, excluded);
    let bdirs = retained(scan(bak).dirs, excluded);
    Tree {
        modified: level.modified,
        files: level.files,
        dirs: Map::new(
            |n: Seq<char>| level.dirs.contains_key(n),
            |n: Seq<char>|
                if descends(mdirs, bdirs, n) && src.dirs.contains_key(n) {
                    replay(src.dirs[n], level.dirs[n], excluded, scan, bfolder)
                } else {
                    level.dirs[n]
                },
        ),
    }
}

/// The backup tree `bak` follows the source tree `src`: the same files with
/// the same timestamps, a subdirectory for each source subdirectory that is
/// not excluded and no other, and the same all the way down.
pub open spec fn in_step(src: Tree, bak: Tree, excluded: Seq<Seq<char>>) -> bool
    decreases src,
{
    &&& bak.files =~= src.files
    &&& forall|n: Seq<char>| #[trigger]
        bak.dirs.contains_key(n) <==> src.dirs.contains_key(n) && !excluded.contains(n)
    &&& forall|n: Seq<char>|
        src.dirs.contains_key(n) && #[trigger] bak.dirs.contains_key(n) ==> in_step(
            src.dirs[n],
            bak.dirs[n],
            excluded,
        )
}

/// Two trees hold the same files with the same timestamps and the same
/// directories all the way down, whatever the timestamps of the
/// directories.
pub open spec fn alike(a: Tree, b: Tree) -> bool
    decreases a,
{
    &&& a.files =~= b.files
    &&& forall|n: Seq<char>| #[trigger] a.dirs.contains_key(n) <==> b.dirs.contains_key(n)
    &&& forall|n: Seq<char>|
        #[trigger] a.dirs.contains_key(n) && b.dirs.contains_key(n) ==> alike(
            a.dirs[n],
            b.dirs[n],
        )
}

/// A run from the pair of `src` and `bak` can bring the backup in step: no
/// copy is blocked at a level it reaches, and every shared subdirectory it
/// passes over, because the two timestamps are equal, is in step already.
pub open spec fn reconcilable(src: Tree, bak: Tree, excluded: Seq<Seq<char>>) -> bool
    decreases src,
{
    &&& forall|n: Seq<char>| #[trigger] src.files.contains_key(n) ==> !blocked(bak, excluded, n)
    &&& forall|n: Seq<char>|
        src.dirs.contains_key(n) && #[trigger] bak.dirs.contains_key(n) && !excluded.contains(n)
            ==> if bak.dirs[n].modified == src.dirs[n].modified {
            in_step(src.dirs[n], bak.dirs[n], excluded)
        } else {
            reconcilable(src.dirs[n], bak.dirs[n], excluded)
        }
}

} // verus!
