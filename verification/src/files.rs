//! The file reconciler: what to do to the files of one backup directory so
//! that they follow the files of the source directory.

use vstd::prelude::*;
use crate::differ::{diff_names, is_stale, only_in, pairs, stale_pairs};
use crate::entry::{child_path, child_path_spec, listing, Entry, EntryView};

verus! {

/// One step to carry out on the files of a backup directory.
#[derive(Clone, Debug, PartialEq, Eq)]
pub enum FileAction {
    /// Delete the backup file `target`: the source has no file of that name.
    Delete { target: Entry },
    /// Copy the source file `source` to the new backup path `dest`: the
    /// backup has no file of that name.
    Copy { source: Entry, dest: String },
    /// Delete the backup file `target` and copy `source` in its place: the
    /// two were last modified at different times.
    Refresh { source: Entry, target: Entry },
}

/// The mathematical value of a [`FileAction`].
pub ghost enum FileActionView {
    Delete { target: EntryView },
    Copy { source: EntryView, dest: Seq<char> },
    Refresh { source: EntryView, target: EntryView },
}

impl View for FileAction {
    type V = FileActionView;

    open spec fn view(&self) -> FileActionView {
        match *self {
            FileAction::Delete { target } => FileActionView::Delete { target: target@ },
            FileAction::Copy { source, dest } => FileActionView::Copy {
                source: source@,
                dest: dest@,
            },
            FileAction::Refresh { source, target } => FileActionView::Refresh {
                source: source@,
                target: target@,
            },
        }
    }
}

impl FileActionView {
    /// The name of the backup file that the action works on.
    pub open spec fn name(self) -> Seq<char> {
        match self {
            FileActionView::Delete { target } => target.name,
            FileActionView::Copy { source, dest } => source.name,
            FileActionView::Refresh { source, target } => target.name,
        }
    }
}

/// The actions of a list, each taken by its view.
pub open spec fn file_actions(list: Seq<FileAction>) -> Seq<FileActionView> {
    list.map_values(|a: FileAction| a@)
}

/// Turns a backup entry into its deletion.
pub open spec fn delete_file() -> spec_fn(EntryView) -> FileActionView {
    |e: EntryView| FileActionView::Delete { target: e }
}

/// Turns a source entry into its copy under the backup directory `bpath`.
pub open spec fn copy_into(bpath: Seq<char>) -> spec_fn(EntryView) -> FileActionView {
    |e: EntryView| FileActionView::Copy { source: e, dest: child_path_spec(bpath, e.name) }
}

/// Turns a pair of source and backup entry into the refresh of the latter.
pub open spec fn refresh_file() -> spec_fn((EntryView, EntryView)) -> FileActionView {
    |p: (EntryView, EntryView)| FileActionView::Refresh { source: p.0, target: p.1 }
}

/// The file actions of one level, in the order in which they are to be
/// carried out: the deletions of the files only the backup has, the copies
/// of the files only the source has, and the refreshes of the shared files
/// whose timestamps differ.
pub open spec fn file_plan(
    mfiles: Seq<EntryView>,
    bfiles: Seq<EntryView>,
    bpath: Seq<char>,
) -> Seq<FileActionView> {
    only_in(bfiles, mfiles).map_values(delete_file())
        + only_in(mfiles, bfiles).map_values(copy_into(bpath))
        + stale_pairs(mfiles, bfiles).map_values(refresh_file())
}

/// Plans the file actions of one level.
///
/// `mfiles` are the files of the source directory, `bfiles` those of the
/// backup directory at `bpath`.
pub fn clear_inconsistencies_files(
    mfiles: Vec<Entry>,
    bfiles: Vec<Entry>,
    bpath: &String,
) -> (actions: Vec<FileAction>)
    ensures
        file_actions(actions@) == file_plan(listing(mfiles@), listing(bfiles@), bpath@),
{
    let diff = diff_names(&mfiles, &bfiles);
    let ghost gone = listing(diff.only_in_b@);
    let ghost fresh = listing(diff.only_in_a@);
    let ghost shared = pairs(diff.in_both@);
    let mut actions: Vec<FileAction> = Vec::new();

    let mut i: usize = 0;
    assert(file_actions(actions@) =~= gone.take(0).map_values(delete_file()));
    while i < diff.only_in_b.len()
        invariant
            i <= diff.only_in_b.len(),
            gone == listing(diff.only_in_b@),
            file_actions(actions@) == gone.take(i as int).map_values(delete_file()),
        decreases diff.only_in_b.len() - i,
    {
        let ghost before = file_actions(actions@);
        actions.push(FileAction::Delete { target: diff.only_in_b[i].duplicate() });
        proof {
            assert(file_actions(actions@) =~= before.push(delete_file()(gone[i as int])));
            assert(gone.take(i + 1).map_values(delete_file()) =~= before.push(
                delete_file()(gone[i as int]),
            ));
        }
        i += 1;
    }
    assert(gone.take(diff.only_in_b.len() as int) =~= gone);
    let ghost deletions = file_actions(actions@);

    let mut i: usize = 0;
    assert(file_actions(actions@) =~= deletions + fresh.take(0).map_values(copy_into(bpath@)));
    while i < diff.only_in_a.len()
        invariant
            i <= diff.only_in_a.len(),
            fresh == listing(diff.only_in_a@),
            file_actions(actions@) == deletions + fresh.take(i as int).map_values(
                copy_into(bpath@),
            ),
        decreases diff.only_in_a.len() - i,
    {
        let ghost before = file_actions(actions@);
        let source = diff.only_in_a[i].duplicate();
        let dest = child_path(bpath, &source.name);
        actions.push(FileAction::Copy { source, dest });
        proof {
            assert(file_actions(actions@) =~= before.push(copy_into(bpath@)(fresh[i as int])));
            assert(deletions + fresh.take(i + 1).map_values(copy_into(bpath@)) =~= before.push(
                copy_into(bpath@)(fresh[i as int]),
            ));
        }
        i += 1;
    }
    assert(fresh.take(diff.only_in_a.len() as int) =~= fresh);
    let ghost copies = file_actions(actions@);

    let mut i: usize = 0;
    proof {
        assert(shared.take(0) =~= Seq::empty());
        shared.take(0).lemma_filter_len(is_stale());
        assert(file_actions(actions@) =~= copies + shared.take(0).filter(is_stale()).map_values(
            refresh_file(),
        ));
    }
    while i < diff.in_both.len()
        invariant
            i <= diff.in_both.len(),
            shared == pairs(diff.in_both@),
            file_actions(actions@) == copies + shared.take(i as int).filter(
                is_stale(),
            ).map_values(refresh_file()),
        decreases diff.in_both.len() - i,
    {
        let ghost before = file_actions(actions@);
        let ghost kept = shared.take(i as int).filter(is_stale());
        proof {
            assert(shared.take(i + 1) =~= shared.take(i as int).push(shared[i as int]));
            shared.take(i as int).lemma_filter_push(shared[i as int], is_stale());
        }
        if diff.in_both[i].0.modified != diff.in_both[i].1.modified {
            actions.push(
                FileAction::Refresh {
                    source: diff.in_both[i].0.duplicate(),
                    target: diff.in_both[i].1.duplicate(),
                },
            );
            proof {
                assert(file_actions(actions@) =~= before.push(refresh_file()(shared[i as int])));
                assert(copies + kept.push(shared[i as int]).map_values(refresh_file())
                    =~= before.push(refresh_file()(shared[i as int])));
            }
        }
        i += 1;
    }
    assert(shared.take(diff.in_both.len() as int) =~= shared);
    actions
}

} // verus!
