//! The tree scanner's pure half: turns what a caller read of one directory
//! into a listing of its files and its subdirectories.

use vstd::prelude::*;
use crate::entry::{child_path, child_path_spec, listing, Entry, EntryView, Timestamp};
use crate::report::{failures, Failure, FailureView, Operation};

verus! {

/// What a caller read of one child of a directory.
#[derive(Clone, Debug, PartialEq, Eq)]
pub enum Scanned {
    /// A child that could be read: its name, whether it is a directory, and
    /// when it was last modified.
    Child { name: String, is_dir: bool, modified: Timestamp },
    /// A child that could not be read, with what the system said.
    Unreadable { error: String },
}

/// The mathematical value of a [`Scanned`].
pub ghost enum ScannedView {
    Child { name: Seq<char>, is_dir: bool, modified: Timestamp },
    Unreadable { error: Seq<char> },
}

impl View for Scanned {
    type V = ScannedView;

    open spec fn view(&self) -> ScannedView {
        match *self {
            Scanned::Child { name, is_dir, modified } => ScannedView::Child {
                name: name@,
                is_dir,
                modified,
            },
            Scanned::Unreadable { error } => ScannedView::Unreadable { error: error@ },
        }
    }
}

/// The immediate children of one directory, by kind.
#[derive(Clone, Debug, PartialEq, Eq)]
pub struct DirItems {
    /// The children that are not directories.
    pub files: Vec<Entry>,
    /// The children that are directories.
    pub dirs: Vec<Entry>,
    /// One warning for each child that could not be read and was left out.
    pub skipped: Vec<Failure>,
}

/// The mathematical value of a [`DirItems`].
pub ghost struct DirItemsView {
    pub files: Seq<EntryView>,
    pub dirs: Seq<EntryView>,
    pub skipped: Seq<FailureView>,
}

impl View for DirItems {
    type V = DirItemsView;

    open spec fn view(&self) -> DirItemsView {
        DirItemsView {
            files: listing(self.files@),
            dirs: listing(self.dirs@),
            skipped: failures(self.skipped@),
        }
    }
}

/// The children of a scan, each taken by its view.
pub open spec fn scanned(children: Seq<Scanned>) -> Seq<ScannedView> {
    children.map_values(|c: Scanned| c@)
}

/// The test "a readable child that is no directory".
pub open spec fn is_file() -> spec_fn(ScannedView) -> bool {
    |c: ScannedView| c matches ScannedView::Child { is_dir, .. } && !is_dir
}

/// The test "a readable child that is a directory".
pub open spec fn is_dir() -> spec_fn(ScannedView) -> bool {
    |c: ScannedView| c matches ScannedView::Child { is_dir, .. } && is_dir
}

/// The test "a child that could not be read".
pub open spec fn is_unreadable() -> spec_fn(ScannedView) -> bool {
    |c: ScannedView| c is Unreadable
}

/// The entry that stands for a readable child of the directory at `dir`.
pub open spec fn entry_in(dir: Seq<char>) -> spec_fn(ScannedView) -> EntryView {
    |c: ScannedView|
        EntryView {
            path: child_path_spec(dir, c->name),
            name: c->name,
            modified: c->modified,
        }
}

/// The warning that stands for an unreadable child of the directory at `dir`.
pub open spec fn warning_in(dir: Seq<char>) -> spec_fn(ScannedView) -> FailureView {
    |c: ScannedView| FailureView { path: dir, operation: Operation::Scan, error: c->error }
}

/// The listing of the directory at `dir` of which `children` were read:
/// files and directories apart, each in the order read, and a warning for
/// every child that could not be read.
pub open spec fn dir_items(dir: Seq<char>, children: Seq<ScannedView>) -> DirItemsView {
    DirItemsView {
        files: children.filter(is_file()).map_values(entry_in(dir)),
        dirs: children.filter(is_dir()).map_values(entry_in(dir)),
        skipped: children.filter(is_unreadable()).map_values(warning_in(dir)),
    }
}

/// The failure to list the directory at `dir` at all.
pub open spec fn scan_failure(dir: Seq<char>, error: Seq<char>) -> FailureView {
    FailureView { path: dir, operation: Operation::Scan, error }
}

/// Builds the listing of the directory at `dir` from what was read of it.
///
/// `scan` is `Err` with the system's message where the directory itself
/// could not be listed (it does not exist, is no directory, or may not be
/// read); that is the one way to fail. A child that could not be read is
/// left out of the listing and leaves a warning in it.
pub fn fetch_files(dir: &String, scan: Result<Vec<Scanned>, String>) -> (found: Result<
    DirItems,
    Failure,
>)
    ensures
        match scan {
            Ok(children) => found is Ok && found->Ok_0@ == dir_items(dir@, scanned(children@)),
            Err(error) => found is Err && found->Err_0@ == scan_failure(dir@, error@),
        },
{
    let children = match scan {
        Ok(children) => children,
        Err(error) => {
            return Err(Failure { path: dir.clone(), operation: Operation::Scan, error });
        },
    };
    let ghost all = scanned(children@);
    let mut items = DirItems { files: Vec::new(), dirs: Vec::new(), skipped: Vec::new() };
    let mut i: usize = 0;
    proof {
        assert(all.take(0) =~= Seq::empty());
        all.take(0).lemma_filter_len(is_file());
        all.take(0).lemma_filter_len(is_dir());
        all.take(0).lemma_filter_len(is_unreadable());
        assert(items@.files =~= all.take(0).filter(is_file()).map_values(entry_in(dir@)));
        assert(items@.dirs =~= all.take(0).filter(is_dir()).map_values(entry_in(dir@)));
        assert(items@.skipped =~= all.take(0).filter(is_unreadable()).map_values(
            warning_in(dir@),
        ));
    }
    while i < children.len()
        invariant
            i <= children.len(),
            all == scanned(children@),
            items@ == dir_items(dir@, all.take(i as int)),
        decreases children.len() - i,
    {
        let ghost before = items@;
        let ghost seen = all.take(i as int);
        let ghost child = all[i as int];
        proof {
            assert(all.take(i + 1) =~= seen.push(child));
            seen.lemma_filter_push(child, is_file());
            seen.lemma_filter_push(child, is_dir());
            seen.lemma_filter_push(child, is_unreadable());
        }
        match &children[i] {
            Scanned::Child { name, is_dir: directory, modified } => {
                let entry = Entry {
                    path: child_path(dir, name),
                    name: name.clone(),
                    modified: *modified,
                };
                if *directory {
                    items.dirs.push(entry);
                    proof {
                        assert(items@.dirs =~= before.dirs.push(entry_in(dir@)(child)));
                        assert(seen.filter(is_dir()).push(child).map_values(
                            entry_in(dir@),
                        ) =~= before.dirs.push(entry_in(dir@)(child)));
                    }
                } else {
                    items.files.push(entry);
                    proof {
                        assert(items@.files =~= before.files.push(entry_in(dir@)(child)));
                        assert(seen.filter(is_file()).push(child).map_values(entry_in(dir@))
                            =~= before.files.push(entry_in(dir@)(child)));
                    }
                }
            },
            Scanned::Unreadable { error } => {
                items.skipped.push(
                    Failure { path: dir.clone(), operation: Operation::Scan, error: error.clone() },
                );
                proof {
                    assert(items@.skipped =~= before.skipped.push(warning_in(dir@)(child)));
                    assert(seen.filter(is_unreadable()).push(child).map_values(warning_in(dir@))
                        =~= before.skipped.push(warning_in(dir@)(child)));
                }
            },
        }
        i += 1;
    }
    assert(all.take(children.len() as int) =~= all);
    Ok(items)
}

} // verus!
