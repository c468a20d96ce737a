//! What holds of whole runs, stated over the model and proved from what the
//! plans do level by level.
//!
//! A run is `replay`: scan, plan, carry out, and on to the pending pairs.
//! The laws hold for every scanner that tells the truth, so for every order
//! in which entries may be listed.

use vstd::prelude::*;
use vstd::set_lib::lemma_set_subset_finite;
use crate::backup::level_plan;
use crate::effects::{law_in_step_level_is_idle, law_level_effect};
use crate::entry::{distinct_names, has_name, EntryView, Timestamp};
use crate::model::{
    alike, blocked, clear_of, faithful, in_step, level_result, lists_dirs, lists_files,
    reconcilable, replay, run, visits, Tree,
};
use crate::scan::DirItemsView;

verus! {

/// A directory that was just created is a valid tree.
pub proof fn lemma_fresh_valid()
    ensures
        Tree::fresh().valid(),
{
    assert(Tree::fresh().files.dom() =~= Set::empty());
    assert(Tree::fresh().dirs.dom() =~= Set::empty());
}

/// Against a backup directory that was just created, every source tree can
/// be reconciled.
pub proof fn lemma_fresh_reconcilable(src: Tree, excluded: Seq<Seq<char>>)
    ensures
        reconcilable(src, Tree::fresh(), excluded),
{
}

/// A run played step by step from plans ends as `run` says, whatever the
/// order in which the scanner lists entries and whatever the paths.
pub proof fn law_replay_is_run(
    src: Tree,
    bak: Tree,
    excluded: Seq<Seq<char>>,
    scan: spec_fn(Tree) -> DirItemsView,
    bfolder: Seq<char>,
)
    requires
        src.valid(),
        bak.valid(),
        faithful(scan),
    ensures
        replay(src, bak, excluded, scan, bfolder) == run(src, bak, excluded),
    decreases src,
{
    let played = replay(src, bak, excluded, scan, bfolder);
    let after = run(src, bak, excluded);
    let level = level_result(src, bak, excluded);
    law_level_effect(src, bak, scan(src), scan(bak), bfolder, excluded);
    lemma_fresh_valid();
    assert forall|n: Seq<char>| #[trigger] after.dirs.contains_key(n) implies played.dirs[n]
        == after.dirs[n] by {
        assert(src.dirs.contains_key(n));
        if bak.dirs.contains_key(n) {
            assert(bak.dirs[n].valid());
        }
        if visits(src, bak, excluded, n) {
            law_replay_is_run(src.dirs[n], level.dirs[n], excluded, scan, bfolder);
        }
    }
    assert(played.dirs =~= after.dirs);
    assert(played =~= after);
}

/// A run leaves a valid backup tree.
pub proof fn lemma_run_valid(src: Tree, bak: Tree, excluded: Seq<Seq<char>>)
    requires
        src.valid(),
        bak.valid(),
    ensures
        run(src, bak, excluded).valid(),
    decreases src,
{
    let level = level_result(src, bak, excluded);
    let after = run(src, bak, excluded);
    assert(after.files.dom().subset_of(src.files.dom()));
    assert(after.dirs.dom().subset_of(src.dirs.dom()));
    lemma_set_subset_finite(src.files.dom(), after.files.dom());
    lemma_set_subset_finite(src.dirs.dom(), after.dirs.dom());
    lemma_fresh_valid();
    assert forall|n: Seq<char>| #[trigger] after.dirs.contains_key(n) implies after.dirs[n].valid() by {
        assert(src.dirs.contains_key(n));
        if bak.dirs.contains_key(n) {
            assert(bak.dirs[n].valid());
        }
        if visits(src, bak, excluded, n) {
            lemma_run_valid(src.dirs[n], level.dirs[n], excluded);
        }
    }
}

/// A run brings the backup in step with the source if the pair of trees can
/// be reconciled.
pub proof fn lemma_run_in_step(src: Tree, bak: Tree, excluded: Seq<Seq<char>>)
    requires
        src.valid(),
        bak.valid(),
        reconcilable(src, bak, excluded),
    ensures
        in_step(src, run(src, bak, excluded), excluded),
    decreases src,
{
    let level = level_result(src, bak, excluded);
    let after = run(src, bak, excluded);
    assert forall|n: Seq<char>| src.files.contains_key(n) implies !blocked(bak, excluded, n) by {}
    assert(after.files =~= src.files);
    lemma_fresh_valid();
    assert forall|n: Seq<char>|
        src.dirs.contains_key(n) && #[trigger] after.dirs.contains_key(n) implies in_step(
        src.dirs[n],
        after.dirs[n],
        excluded,
    ) by {
        if bak.dirs.contains_key(n) {
            assert(bak.dirs[n].valid());
        } else {
            lemma_fresh_reconcilable(src.dirs[n], excluded);
        }
        if visits(src, bak, excluded, n) {
            lemma_run_in_step(src.dirs[n], level.dirs[n], excluded);
        }
    }
}

/// A run brings the backup in step with the source only if the pair of
/// trees can be reconciled.
pub proof fn lemma_in_step_only_if_reconcilable(src: Tree, bak: Tree, excluded: Seq<Seq<char>>)
    requires
        in_step(src, run(src, bak, excluded), excluded),
    ensures
        reconcilable(src, bak, excluded),
    decreases src,
{
    let after = run(src, bak, excluded);
    assert forall|n: Seq<char>| #[trigger] src.files.contains_key(n) implies !blocked(
        bak,
        excluded,
        n,
    ) by {
        assert(after.files.contains_key(n));
    }
    assert forall|n: Seq<char>|
        src.dirs.contains_key(n) && #[trigger] bak.dirs.contains_key(n) && !excluded.contains(
            n,
        ) implies if bak.dirs[n].modified == src.dirs[n].modified {
        in_step(src.dirs[n], bak.dirs[n], excluded)
    } else {
        reconcilable(src.dirs[n], bak.dirs[n], excluded)
    } by {
        assert(after.dirs.contains_key(n));
        if bak.dirs[n].modified != src.dirs[n].modified {
            lemma_in_step_only_if_reconcilable(src.dirs[n], bak.dirs[n], excluded);
        }
    }
}

/// Where a backup is in step with its source, the directories of the backup
/// are the source directories that no excluded name leads to, and each is in
/// step with the source directory at the same path.
pub proof fn lemma_in_step_down(
    src: Tree,
    bak: Tree,
    excluded: Seq<Seq<char>>,
    path: Seq<Seq<char>>,
)
    requires
        in_step(src, bak, excluded),
    ensures
        bak.subdir(path) is Some <==> src.subdir(path) is Some && clear_of(path, excluded),
        bak.subdir(path) is Some ==> in_step(
            src.subdir(path)->Some_0,
            bak.subdir(path)->Some_0,
            excluded,
        ),
    decreases path.len(),
{
    if path.len() > 0 {
        let rest = path.drop_first();
        assert(clear_of(path, excluded) <==> !excluded.contains(path[0]) && clear_of(
            rest,
            excluded,
        )) by {
            if clear_of(path, excluded) {
                assert forall|i: int| 0 <= i < rest.len() implies !excluded.contains(
                    #[trigger] rest[i],
                ) by {
                    assert(rest[i] == path[i + 1]);
                }
            }
            if !excluded.contains(path[0]) && clear_of(rest, excluded) {
                assert forall|i: int| 0 <= i < path.len() implies !excluded.contains(
                    #[trigger] path[i],
                ) by {
                    if i > 0 {
                        assert(path[i] == rest[i - 1]);
                    }
                }
            }
        }
        if bak.dirs.contains_key(path[0]) {
            lemma_in_step_down(src.dirs[path[0]], bak.dirs[path[0]], excluded, rest);
        }
    }
}

/// A run on a backup that is in step with its source changes nothing.
pub proof fn lemma_in_step_is_fixed(src: Tree, bak: Tree, excluded: Seq<Seq<char>>)
    requires
        src.valid(),
        in_step(src, bak, excluded),
    ensures
        run(src, bak, excluded) == bak,
    decreases src,
{
    let after = run(src, bak, excluded);
    assert forall|n: Seq<char>| src.files.contains_key(n) implies !blocked(bak, excluded, n) by {
        if bak.dirs.contains_key(n) {
            assert(src.dirs.contains_key(n));
        }
    }
    assert(after.files =~= bak.files);
    assert forall|n: Seq<char>| #[trigger] after.dirs.contains_key(n) implies after.dirs[n]
        == bak.dirs[n] by {
        assert(bak.dirs.contains_key(n));
        if visits(src, bak, excluded, n) {
            lemma_in_step_is_fixed(src.dirs[n], bak.dirs[n], excluded);
        }
    }
    assert(after.dirs =~= bak.dirs);
    assert(after =~= bak);
}

/// The run brings the backup in step with the source on exactly the pairs
/// of trees that can be reconciled. It does not where a copy is blocked by
/// a directory of the same name, nor where a shared subdirectory is passed
/// over, its two timestamps being equal, though its contents differ.
pub proof fn law_in_step_after_run(
    src: Tree,
    bak: Tree,
    excluded: Seq<Seq<char>>,
    scan: spec_fn(Tree) -> DirItemsView,
    bfolder: Seq<char>,
)
    requires
        src.valid(),
        bak.valid(),
        faithful(scan),
    ensures
        replay(src, bak, excluded, scan, bfolder).valid(),
        in_step(src, replay(src, bak, excluded, scan, bfolder), excluded) <==> reconcilable(
            src,
            bak,
            excluded,
        ),
{
    law_replay_is_run(src, bak, excluded, scan, bfolder);
    lemma_run_valid(src, bak, excluded);
    if reconcilable(src, bak, excluded) {
        lemma_run_in_step(src, bak, excluded);
    }
    if in_step(src, run(src, bak, excluded), excluded) {
        lemma_in_step_only_if_reconcilable(src, bak, excluded);
    }
}

/// Mirror completeness: after a run, every file of the source tree that no
/// excluded directory leads to is in the backup tree at the same path, with
/// the same timestamp.
pub proof fn law_mirror_completeness(
    src: Tree,
    bak: Tree,
    excluded: Seq<Seq<char>>,
    scan: spec_fn(Tree) -> DirItemsView,
    bfolder: Seq<char>,
    path: Seq<Seq<char>>,
)
    requires
        src.valid(),
        bak.valid(),
        faithful(scan),
        reconcilable(src, bak, excluded),
        src.file(path) is Some,
        clear_of(path.drop_last(), excluded),
    ensures
        replay(src, bak, excluded, scan, bfolder).file(path) == src.file(path),
{
    law_in_step_after_run(src, bak, excluded, scan, bfolder);
    lemma_in_step_down(
        src,
        replay(src, bak, excluded, scan, bfolder),
        excluded,
        path.drop_last(),
    );
}

/// No orphans: after a run, every file of the backup tree is a file of the
/// source tree at the same path, with the same timestamp, and every
/// directory of the backup tree is a directory of the source tree at the
/// same path whose name is not excluded.
pub proof fn law_no_orphans(
    src: Tree,
    bak: Tree,
    excluded: Seq<Seq<char>>,
    scan: spec_fn(Tree) -> DirItemsView,
    bfolder: Seq<char>,
    path: Seq<Seq<char>>,
)
    requires
        src.valid(),
        bak.valid(),
        faithful(scan),
        reconcilable(src, bak, excluded),
    ensures
        ({
            let after = replay(src, bak, excluded, scan, bfolder);
            &&& after.file(path) is Some ==> src.file(path) == after.file(path)
            &&& path.len() > 0 && after.subdir(path) is Some ==> src.subdir(path) is Some
                && !excluded.contains(path.last())
        }),
{
    let after = replay(src, bak, excluded, scan, bfolder);
    law_in_step_after_run(src, bak, excluded, scan, bfolder);
    lemma_in_step_down(src, after, excluded, path);
    if path.len() > 0 {
        lemma_in_step_down(src, after, excluded, path.drop_last());
    }
}

/// Exclusion enforcement: after a run, no directory of the backup tree has
/// an excluded name, and none leads to a directory or a file of the backup
/// tree, whatever the backup tree held before. Only directories are
/// excluded: a file may bear an excluded name.
pub proof fn law_exclusion_enforced(
    src: Tree,
    bak: Tree,
    excluded: Seq<Seq<char>>,
    scan: spec_fn(Tree) -> DirItemsView,
    bfolder: Seq<char>,
    path: Seq<Seq<char>>,
)
    requires
        src.valid(),
        bak.valid(),
        faithful(scan),
        reconcilable(src, bak, excluded),
    ensures
        ({
            let after = replay(src, bak, excluded, scan, bfolder);
            &&& after.subdir(path) is Some ==> clear_of(path, excluded)
            &&& after.file(path) is Some ==> clear_of(path.drop_last(), excluded)
        }),
{
    let after = replay(src, bak, excluded, scan, bfolder);
    law_in_step_after_run(src, bak, excluded, scan, bfolder);
    lemma_in_step_down(src, after, excluded, path);
    if path.len() > 0 {
        lemma_in_step_down(src, after, excluded, path.drop_last());
    }
}

/// A tree that is like one in step is in step.
pub proof fn lemma_alike_in_step(src: Tree, bak: Tree, other: Tree, excluded: Seq<Seq<char>>)
    requires
        in_step(src, bak, excluded),
        alike(bak, other),
    ensures
        in_step(src, other, excluded),
    decreases src,
{
    assert forall|n: Seq<char>| #[trigger]
        other.dirs.contains_key(n) <==> src.dirs.contains_key(n) && !excluded.contains(n) by {
        assert(bak.dirs.contains_key(n) <==> other.dirs.contains_key(n));
    }
    assert forall|n: Seq<char>|
        src.dirs.contains_key(n) && #[trigger] other.dirs.contains_key(n) implies in_step(
        src.dirs[n],
        other.dirs[n],
        excluded,
    ) by {
        assert(bak.dirs.contains_key(n));
        lemma_alike_in_step(src.dirs[n], bak.dirs[n], other.dirs[n], excluded);
    }
}

/// Idempotence: a second run right after the first, the source unchanged,
/// changes nothing.
///
/// `again` is the backup tree as the second run finds it: what the first
/// run left, but for the timestamps of its directories, which a filesystem
/// sets as it likes. At every level that the second run may come to, the
/// plan is idle, whatever the listings it is made from, and the backup tree
/// after the second run is `again`.
pub proof fn law_idempotence(
    src: Tree,
    bak: Tree,
    excluded: Seq<Seq<char>>,
    scan: spec_fn(Tree) -> DirItemsView,
    bfolder: Seq<char>,
    again: Tree,
    path: Seq<Seq<char>>,
    source: DirItemsView,
    backup: DirItemsView,
    at: Seq<char>,
)
    requires
        src.valid(),
        bak.valid(),
        faithful(scan),
        reconcilable(src, bak, excluded),
        again.valid(),
        alike(replay(src, bak, excluded, scan, bfolder), again),
    ensures
        replay(src, again, excluded, scan, bfolder) == again,
        src.subdir(path) is Some && again.subdir(path) is Some && lists_files(
            source.files,
            src.subdir(path)->Some_0,
        ) && lists_dirs(source.dirs, src.subdir(path)->Some_0) && lists_files(
            backup.files,
            again.subdir(path)->Some_0,
        ) && lists_dirs(backup.dirs, again.subdir(path)->Some_0) ==> level_plan(
            source,
            backup,
            at,
            excluded,
        ).is_idle(),
{
    let first = replay(src, bak, excluded, scan, bfolder);
    law_in_step_after_run(src, bak, excluded, scan, bfolder);
    lemma_alike_in_step(src, first, again, excluded);
    law_replay_is_run(src, again, excluded, scan, bfolder);
    lemma_in_step_is_fixed(src, again, excluded);
    lemma_in_step_down(src, again, excluded, path);
    if src.subdir(path) is Some && again.subdir(path) is Some && lists_files(
        source.files,
        src.subdir(path)->Some_0,
    ) && lists_dirs(source.dirs, src.subdir(path)->Some_0) && lists_files(
        backup.files,
        again.subdir(path)->Some_0,
    ) && lists_dirs(backup.dirs, again.subdir(path)->Some_0) {
        law_in_step_level_is_idle(
            src.subdir(path)->Some_0,
            again.subdir(path)->Some_0,
            source,
            backup,
            at,
            excluded,
        );
    }
}

/// Whether `entries` lists the names of `stamps`, each once and with its
/// timestamp.
pub open spec fn lists(entries: Seq<EntryView>, stamps: Map<Seq<char>, Timestamp>) -> bool {
    &&& distinct_names(entries)
    &&& forall|i: int|
        0 <= i < entries.len() ==> stamps.contains_key(#[trigger] entries[i].name)
            && stamps[entries[i].name] == entries[i].modified
    &&& forall|n: Seq<char>| #[trigger] stamps.contains_key(n) ==> has_name(entries, n)
}

/// Finitely many names with their timestamps can be listed.
pub proof fn lemma_listing_exists(stamps: Map<Seq<char>, Timestamp>)
    requires
        stamps.dom().finite(),
    ensures
        exists|entries: Seq<EntryView>| lists(entries, stamps),
    decreases stamps.dom().len(),
{
    if stamps.dom().len() == 0 {
        assert(stamps.dom() =~= Set::empty());
        assert(lists(Seq::<EntryView>::empty(), stamps));
    } else {
        let name = stamps.dom().choose();
        let rest = stamps.remove(name);
        lemma_listing_exists(rest);
        let listed = choose|entries: Seq<EntryView>| lists(entries, rest);
        let entry = EntryView { path: Seq::empty(), name, modified: stamps[name] };
        let entries = listed.push(entry);
        assert forall|i: int, j: int| 0 <= i < j < entries.len() implies #[trigger] entries[i].name
            != #[trigger] entries[j].name by {
            if j == listed.len() {
                assert(rest.contains_key(listed[i].name));
            }
        }
        assert forall|n: Seq<char>| #[trigger] stamps.contains_key(n) implies has_name(
            entries,
            n,
        ) by {
            if n == name {
                assert(entries[listed.len() as int].name == n);
            } else {
                assert(rest.contains_key(n));
                let i = choose|i: int| 0 <= i < listed.len() && #[trigger] listed[i].name == n;
                assert(entries[i].name == n);
            }
        }
        assert forall|i: int| 0 <= i < entries.len() implies stamps.contains_key(
            #[trigger] entries[i].name,
        ) && stamps[entries[i].name] == entries[i].modified by {
            if i < listed.len() {
                assert(rest.contains_key(listed[i].name));
            }
        }
        assert(lists(entries, stamps));
    }
}

/// There is a scanner that tells the truth, so the laws above speak of
/// something.
pub proof fn law_faithful_scanner_exists()
    ensures
        exists|scan: spec_fn(Tree) -> DirItemsView| faithful(scan),
{
    let scan = |dir: Tree|
        DirItemsView {
            files: choose|entries: Seq<EntryView>| lists_files(entries, dir),
            dirs: choose|entries: Seq<EntryView>| lists_dirs(entries, dir),
            skipped: Seq::empty(),
        };
    assert forall|dir: Tree| dir.valid() implies lists_files((#[trigger] scan(dir)).files, dir)
        && lists_dirs(scan(dir).dirs, dir) by {
        lemma_listing_exists(dir.files);
        let files = choose|entries: Seq<EntryView>| lists(entries, dir.files);
        assert(lists_files(files, dir));
        let stamps = dir.dirs.map_values(|sub: Tree| sub.modified);
        assert(stamps.dom() =~= dir.dirs.dom());
        lemma_listing_exists(stamps);
        let dirs = choose|entries: Seq<EntryView>| lists(entries, stamps);
        assert(lists_dirs(dirs, dir)) by {
            assert forall|i: int| 0 <= i < dirs.len() implies dir.dirs.contains_key(
                #[trigger] dirs[i].name,
            ) && dir.dirs[dirs[i].name].modified == dirs[i].modified by {
                assert(stamps.contains_key(dirs[i].name));
            }
            assert forall|n: Seq<char>| #[trigger] dir.dirs.contains_key(n) implies has_name(
                dirs,
                n,
            ) by {
                assert(stamps.contains_key(n));
            }
        }
    }
    assert(faithful(scan));
}

} // verus!
