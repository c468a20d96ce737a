//! The directory reconciler: what to do to the subdirectories of one backup
//! directory, and which pairs of subdirectories to visit next.

use vstd::prelude::*;
use crate::differ::{diff_names, is_stale, only_in, pair_named, pairs, stale_pairs};
use crate::entry::{child_path, child_path_spec, has_name, listing, Entry, EntryView};

verus! {

/// One step to carry out on the subdirectories of a backup directory.
#[derive(Clone, Debug, PartialEq, Eq)]
pub enum DirAction {
    /// Create the empty directory `dest` for the source directory `source`:
    /// the backup has no directory of that name.
    Create { source: Entry, dest: String },
    /// Delete the backup directory `target` with all it holds: the source
    /// has no directory of that name.
    Delete { target: Entry },
}

/// The mathematical value of a [`DirAction`].
pub ghost enum DirActionView {
    Create { source: EntryView, dest: Seq<char> },
    Delete { target: EntryView },
}

impl View for DirAction {
    type V = DirActionView;

    open spec fn view(&self) -> DirActionView {
        match *self {
            DirAction::Create { source, dest } => DirActionView::Create {
                source: source@,
                dest: dest@,
            },
            DirAction::Delete { target } => DirActionView::Delete { target: target@ },
        }
    }
}

/// What the directory reconciler decides for one level.
#[derive(Clone, Debug, PartialEq, Eq)]
pub struct DirPlan {
    /// The creations and deletions, in the order in which they are to be
    /// carried out.
    pub actions: Vec<DirAction>,
    /// The pairs of source and backup directory to reconcile next.
    pub pending: Vec<(String, String)>,
}

/// The actions of a list, each taken by its view.
pub open spec fn dir_actions(list: Seq<DirAction>) -> Seq<DirActionView> {
    list.map_values(|a: DirAction| a@)
}

/// The pairs of paths of a list, each path taken by its view.
pub open spec fn path_pairs(list: Seq<(String, String)>) -> Seq<(Seq<char>, Seq<char>)> {
    list.map_values(|p: (String, String)| (p.0@, p.1@))
}

/// Turns a source directory into its creation under the backup directory
/// `bpath`.
pub open spec fn create_in(bpath: Seq<char>) -> spec_fn(EntryView) -> DirActionView {
    |e: EntryView| DirActionView::Create { source: e, dest: child_path_spec(bpath, e.name) }
}

/// Turns a backup directory into its deletion.
pub open spec fn delete_dir() -> spec_fn(EntryView) -> DirActionView {
    |e: EntryView| DirActionView::Delete { target: e }
}

/// Pairs a source directory with the directory created for it under `bpath`.
pub open spec fn created_pair(bpath: Seq<char>) -> spec_fn(EntryView) -> (Seq<char>, Seq<char>) {
    |e: EntryView| (e.path, child_path_spec(bpath, e.name))
}

/// The paths of a pair of source and backup directory.
pub open spec fn shared_pair() -> spec_fn((EntryView, EntryView)) -> (Seq<char>, Seq<char>) {
    |p: (EntryView, EntryView)| (p.0.path, p.1.path)
}

/// The directory actions of one level, in the order in which they are to be
/// carried out: the creations for the directories only the source has, then
/// the deletions of the directories only the backup has.
pub open spec fn dir_plan(
    mdirs: Seq<EntryView>,
    bdirs: Seq<EntryView>,
    bpath: Seq<char>,
) -> Seq<DirActionView> {
    only_in(mdirs, bdirs).map_values(create_in(bpath)) + only_in(bdirs, mdirs).map_values(
        delete_dir(),
    )
}

/// The pairs to visit after one level: every directory only the source has,
/// with the directory created for it, then every shared directory whose two
/// timestamps differ. A shared directory with equal timestamps is taken to
/// be in step already and is not visited.
pub open spec fn pending_pairs(
    mdirs: Seq<EntryView>,
    bdirs: Seq<EntryView>,
    bpath: Seq<char>,
) -> Seq<(Seq<char>, Seq<char>)> {
    only_in(mdirs, bdirs).map_values(created_pair(bpath)) + stale_pairs(mdirs, bdirs).map_values(
        shared_pair(),
    )
}

/// The names of the directories of `pending_pairs`, pair by pair.
pub open spec fn pending_names(mdirs: Seq<EntryView>, bdirs: Seq<EntryView>) -> Seq<Seq<char>> {
    only_in(mdirs, bdirs).map_values(|e: EntryView| e.name) + stale_pairs(
        mdirs,
        bdirs,
    ).map_values(|p: (EntryView, EntryView)| p.1.name)
}

/// Whether `pending_pairs` holds a pair for the source directory called
/// `name`.
pub open spec fn descends(mdirs: Seq<EntryView>, bdirs: Seq<EntryView>, name: Seq<char>) -> bool {
    has_name(only_in(mdirs, bdirs), name) || pair_named(stale_pairs(mdirs, bdirs), name)
}

/// Plans the directory actions of one level and the pairs to visit next.
///
/// `mdirs` are the subdirectories of the source directory, `bdirs` those of
/// the backup directory at `bpath`.
pub fn clear_inconsistencies_dirs(
    mdirs: Vec<Entry>,
    bdirs: Vec<Entry>,
    bpath: &String,
) -> (plan: DirPlan)
    ensures
        dir_actions(plan.actions@) == dir_plan(listing(mdirs@), listing(bdirs@), bpath@),
        path_pairs(plan.pending@) == pending_pairs(listing(mdirs@), listing(bdirs@), bpath@),
{
    let diff = diff_names(&mdirs, &bdirs);
    let ghost fresh = listing(diff.only_in_a@);
    let ghost gone = listing(diff.only_in_b@);
    let ghost shared = pairs(diff.in_both@);
    let mut actions: Vec<DirAction> = Vec::new();
    let mut pending: Vec<(String, String)> = Vec::new();

    let mut i: usize = 0;
    assert(dir_actions(actions@) =~= fresh.take(0).map_values(create_in(bpath@)));
    assert(path_pairs(pending@) =~= fresh.take(0).map_values(created_pair(bpath@)));
    while i < diff.only_in_a.len()
        invariant
            i <= diff.only_in_a.len(),
            fresh == listing(diff.only_in_a@),
            dir_actions(actions@) == fresh.take(i as int).map_values(create_in(bpath@)),
            path_pairs(pending@) == fresh.take(i as int).map_values(created_pair(bpath@)),
        decreases diff.only_in_a.len() - i,
    {
        let ghost actions_before = dir_actions(actions@);
        let ghost pending_before = path_pairs(pending@);
        let source = diff.only_in_a[i].duplicate();
        let dest = child_path(bpath, &source.name);
        pending.push((source.path.clone(), dest.clone()));
        actions.push(DirAction::Create { source, dest });
        proof {
            assert(dir_actions(actions@) =~= actions_before.push(
                create_in(bpath@)(fresh[i as int]),
            ));
            assert(fresh.take(i + 1).map_values(create_in(bpath@)) =~= actions_before.push(
                create_in(bpath@)(fresh[i as int]),
            ));
            assert(path_pairs(pending@) =~= pending_before.push(
                created_pair(bpath@)(fresh[i as int]),
            ));
            assert(fresh.take(i + 1).map_values(created_pair(bpath@)) =~= pending_before.push(
                created_pair(bpath@)(fresh[i as int]),
            ));
        }
        i += 1;
    }
    assert(fresh.take(diff.only_in_a.len() as int) =~= fresh);
    let ghost creations = dir_actions(actions@);
    let ghost created = path_pairs(pending@);

    let mut i: usize = 0;
    assert(dir_actions(actions@) =~= creations + gone.take(0).map_values(delete_dir()));
    while i < diff.only_in_b.len()
        invariant
            i <= diff.only_in_b.len(),
            gone == listing(diff.only_in_b@),
            dir_actions(actions@) == creations + gone.take(i as int).map_values(delete_dir()),
        decreases diff.only_in_b.len() - i,
    {
        let ghost before = dir_actions(actions@);
        actions.push(DirAction::Delete { target: diff.only_in_b[i].duplicate() });
        proof {
            assert(dir_actions(actions@) =~= before.push(delete_dir()(gone[i as int])));
            assert(creations + gone.take(i + 1).map_values(delete_dir()) =~= before.push(
                delete_dir()(gone[i as int]),
            ));
        }
        i += 1;
    }
    assert(gone.take(diff.only_in_b.len() as int) =~= gone);

    let mut i: usize = 0;
    proof {
        assert(shared.take(0) =~= Seq::empty());
        shared.take(0).lemma_filter_len(is_stale());
        assert(path_pairs(pending@) =~= created + shared.take(0).filter(is_stale()).map_values(
            shared_pair(),
        ));
    }
    while i < diff.in_both.len()
        invariant
            i <= diff.in_both.len(),
            shared == pairs(diff.in_both@),
            path_pairs(pending@) == created + shared.take(i as int).filter(
                is_stale(),
            ).map_values(shared_pair()),
        decreases diff.in_both.len() - i,
    {
        let ghost before = path_pairs(pending@);
        let ghost kept = shared.take(i as int).filter(is_stale());
        proof {
            assert(shared.take(i + 1) =~= shared.take(i as int).push(shared[i as int]));
            shared.take(i as int).lemma_filter_push(shared[i as int], is_stale());
        }
        if diff.in_both[i].0.modified != diff.in_both[i].1.modified {
            pending.push((diff.in_both[i].0.path.clone(), diff.in_both[i].1.path.clone()));
            proof {
                assert(path_pairs(pending@) =~= before.push(shared_pair()(shared[i as int])));
                assert(created + kept.push(shared[i as int]).map_values(shared_pair())
                    =~= before.push(shared_pair()(shared[i as int])));
            }
        }
        i += 1;
    }
    assert(shared.take(diff.in_both.len() as int) =~= shared);
    DirPlan { actions, pending }
}

} // verus!
