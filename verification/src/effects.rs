//! What a level plan does to the model: the proof that the actions planned
//! for one level, carried out in order, leave the backup directory as
//! `level_result` describes it, whatever the order and the paths of the
//! listings the plan was made from.

use vstd::prelude::*;
use crate::backup::level_plan;
use crate::differ::{
    absent_from, lemma_pair_named_last, lemma_stale_distinct, lemma_stale_names, lemma_stale_pair,
    only_in, pair_named, stale_pairs,
};
use crate::dirs::{create_in, delete_dir, descends, dir_plan, DirActionView};
use crate::entry::{
    has_name, lemma_distinct_filter, lemma_filter_entry, lemma_filter_names, lemma_filter_none,
    lemma_has_name_last, EntryView, Timestamp,
};
use crate::exclusion::{is_excluded, is_retained, purged, retained};
use crate::files::{copy_into, delete_file, file_plan, refresh_file, FileActionView};
use crate::model::{
    after_dir_actions, after_file_actions, after_level, blocked, in_step, level_result,
    lists_dirs, lists_files, visits, Tree,
};
use crate::scan::DirItemsView;

verus! {

/// Carrying out two sequences of file actions one after the other is
/// carrying out their concatenation.
pub proof fn lemma_file_actions_concat(
    dir: Tree,
    first: Seq<FileActionView>,
    second: Seq<FileActionView>,
)
    ensures
        after_file_actions(dir, first + second) == after_file_actions(
            after_file_actions(dir, first),
            second,
        ),
    decreases second.len(),
{
    if second.len() == 0 {
        assert(first + second =~= first);
    } else {
        assert((first + second).drop_last() =~= first + second.drop_last());
        lemma_file_actions_concat(dir, first, second.drop_last());
    }
}

/// The same for directory actions.
pub proof fn lemma_dir_actions_concat(
    dir: Tree,
    first: Seq<DirActionView>,
    second: Seq<DirActionView>,
)
    ensures
        after_dir_actions(dir, first + second) == after_dir_actions(
            after_dir_actions(dir, first),
            second,
        ),
    decreases second.len(),
{
    if second.len() == 0 {
        assert(first + second =~= first);
    } else {
        assert((first + second).drop_last() =~= first + second.drop_last());
        lemma_dir_actions_concat(dir, first, second.drop_last());
    }
}

/// Deleting the files `gone` takes exactly their names out of the
/// directory.
pub proof fn lemma_after_file_deletions(dir: Tree, gone: Seq<EntryView>)
    ensures
        ({
            let after = after_file_actions(dir, gone.map_values(delete_file()));
            &&& after.modified == dir.modified
            &&& after.dirs == dir.dirs
            &&& forall|n: Seq<char>| #[trigger]
                after.files.contains_key(n) <==> dir.files.contains_key(n) && !has_name(gone, n)
            &&& forall|n: Seq<char>| #[trigger]
                after.files.contains_key(n) ==> after.files[n] == dir.files[n]
        }),
    decreases gone.len(),
{
    if gone.len() > 0 {
        let rest = gone.drop_last();
        lemma_after_file_deletions(dir, rest);
        assert(gone.map_values(delete_file()).drop_last() =~= rest.map_values(delete_file()));
        assert forall|n: Seq<char>|
            has_name(gone, n) <==> has_name(rest, n) || gone.last().name == n by {
            lemma_has_name_last(gone, n);
        }
    }
}

/// Copying the files `fresh`, each of which carries the timestamp that
/// `wanted` gives for its name, puts each under its name with that
/// timestamp, unless a directory of that name stands in the way, and
/// leaves the rest alone.
pub proof fn lemma_after_file_copies(
    dir: Tree,
    fresh: Seq<EntryView>,
    bpath: Seq<char>,
    wanted: Map<Seq<char>, Timestamp>,
)
    requires
        forall|i: int|
            0 <= i < fresh.len() ==> wanted[#[trigger] fresh[i].name] == fresh[i].modified,
    ensures
        ({
            let after = after_file_actions(dir, fresh.map_values(copy_into(bpath)));
            &&& after.modified == dir.modified
            &&& after.dirs == dir.dirs
            &&& forall|n: Seq<char>| #[trigger]
                after.files.contains_key(n) <==> dir.files.contains_key(n) || (has_name(fresh, n)
                    && !dir.dirs.contains_key(n))
            &&& forall|n: Seq<char>| #[trigger]
                after.files.contains_key(n) ==> after.files[n] == if has_name(fresh, n)
                    && !dir.dirs.contains_key(n) {
                    wanted[n]
                } else {
                    dir.files[n]
                }
        }),
    decreases fresh.len(),
{
    if fresh.len() > 0 {
        let rest = fresh.drop_last();
        assert forall|i: int| 0 <= i < rest.len() implies wanted[#[trigger] rest[i].name]
            == rest[i].modified by {
            assert(rest[i] == fresh[i]);
        }
        lemma_after_file_copies(dir, rest, bpath, wanted);
        assert(fresh.map_values(copy_into(bpath)).drop_last() =~= rest.map_values(
            copy_into(bpath),
        ));
        assert(wanted[fresh[fresh.len() - 1].name] == fresh.last().modified);
        assert forall|n: Seq<char>|
            has_name(fresh, n) <==> has_name(rest, n) || fresh.last().name == n by {
            lemma_has_name_last(fresh, n);
        }
    }
}

/// Refreshing the pairs `stale`, each of which names one file and carries
/// the timestamp that `wanted` gives for that name, leaves each under its
/// name with that timestamp and the rest alone. No directory of the
/// directory bears one of the names.
pub proof fn lemma_after_file_refreshes(
    dir: Tree,
    stale: Seq<(EntryView, EntryView)>,
    wanted: Map<Seq<char>, Timestamp>,
)
    requires
        forall|i: int|
            0 <= i < stale.len() ==> (#[trigger] stale[i]).0.name == stale[i].1.name
                && wanted[stale[i].1.name] == stale[i].0.modified && !dir.dirs.contains_key(
                stale[i].1.name,
            ),
    ensures
        ({
            let after = after_file_actions(dir, stale.map_values(refresh_file()));
            &&& after.modified == dir.modified
            &&& after.dirs == dir.dirs
            &&& forall|n: Seq<char>| #[trigger]
                after.files.contains_key(n) <==> dir.files.contains_key(n) || pair_named(stale, n)
            &&& forall|n: Seq<char>| #[trigger]
                after.files.contains_key(n) ==> after.files[n] == if pair_named(stale, n) {
                    wanted[n]
                } else {
                    dir.files[n]
                }
        }),
    decreases stale.len(),
{
    if stale.len() > 0 {
        let rest = stale.drop_last();
        assert forall|i: int| 0 <= i < rest.len() implies (#[trigger] rest[i]).0.name
            == rest[i].1.name && wanted[rest[i].1.name] == rest[i].0.modified
            && !dir.dirs.contains_key(rest[i].1.name) by {
            assert(rest[i] == stale[i]);
        }
        lemma_after_file_refreshes(dir, rest, wanted);
        assert(stale.map_values(refresh_file()).drop_last() =~= rest.map_values(refresh_file()));
        let last = stale[stale.len() - 1];
        assert(last.0.name == last.1.name && wanted[last.1.name] == last.0.modified
            && !dir.dirs.contains_key(last.1.name));
        assert forall|n: Seq<char>|
            pair_named(stale, n) <==> pair_named(rest, n) || stale.last().1.name == n by {
            lemma_pair_named_last(stale, n);
        }
    }
}

/// Deleting the directories `gone` takes exactly their names out of the
/// directory.
pub proof fn lemma_after_dir_deletions(dir: Tree, gone: Seq<EntryView>)
    ensures
        ({
            let after = after_dir_actions(dir, gone.map_values(delete_dir()));
            &&& after.modified == dir.modified
            &&& after.files == dir.files
            &&& forall|n: Seq<char>| #[trigger]
                after.dirs.contains_key(n) <==> dir.dirs.contains_key(n) && !has_name(gone, n)
            &&& forall|n: Seq<char>| #[trigger]
                after.dirs.contains_key(n) ==> after.dirs[n] == dir.dirs[n]
        }),
    decreases gone.len(),
{
    if gone.len() > 0 {
        let rest = gone.drop_last();
        lemma_after_dir_deletions(dir, rest);
        assert(gone.map_values(delete_dir()).drop_last() =~= rest.map_values(delete_dir()));
        assert forall|n: Seq<char>|
            has_name(gone, n) <==> has_name(rest, n) || gone.last().name == n by {
            lemma_has_name_last(gone, n);
        }
    }
}

/// Creating directories for `fresh`, none of whose names is taken, adds an
/// empty directory under each name and leaves the rest alone.
pub proof fn lemma_after_dir_creations(dir: Tree, fresh: Seq<EntryView>, bpath: Seq<char>)
    requires
        forall|i: int|
            0 <= i < fresh.len() ==> !dir.files.contains_key(#[trigger] fresh[i].name)
                && !dir.dirs.contains_key(fresh[i].name),
    ensures
        ({
            let after = after_dir_actions(dir, fresh.map_values(create_in(bpath)));
            &&& after.modified == dir.modified
            &&& after.files == dir.files
            &&& forall|n: Seq<char>| #[trigger]
                after.dirs.contains_key(n) <==> dir.dirs.contains_key(n) || has_name(fresh, n)
            &&& forall|n: Seq<char>| #[trigger]
                after.dirs.contains_key(n) ==> after.dirs[n] == if dir.dirs.contains_key(n) {
                    dir.dirs[n]
                } else {
                    Tree::fresh()
                }
        }),
    decreases fresh.len(),
{
    if fresh.len() > 0 {
        let rest = fresh.drop_last();
        assert forall|i: int| 0 <= i < rest.len() implies !dir.files.contains_key(
            #[trigger] rest[i].name,
        ) && !dir.dirs.contains_key(rest[i].name) by {
            assert(rest[i] == fresh[i]);
        }
        lemma_after_dir_creations(dir, rest, bpath);
        assert(fresh.map_values(create_in(bpath)).drop_last() =~= rest.map_values(
            create_in(bpath),
        ));
        let last = fresh[fresh.len() - 1];
        assert(!dir.files.contains_key(last.name) && !dir.dirs.contains_key(last.name));
        assert forall|n: Seq<char>|
            has_name(fresh, n) <==> has_name(rest, n) || fresh.last().name == n by {
            lemma_has_name_last(fresh, n);
        }
    }
}

/// What the file plan of a level does.
///
/// `dir` is the backup directory after the purge: it has the files of `bak`
/// and those of its subdirectories that are not excluded.
proof fn lemma_file_plan_effect(
    src: Tree,
    bak: Tree,
    dir: Tree,
    mfiles: Seq<EntryView>,
    bfiles: Seq<EntryView>,
    bfolder: Seq<char>,
    excluded: Seq<Seq<char>>,
)
    requires
        bak.files.dom().disjoint(bak.dirs.dom()),
        lists_files(mfiles, src),
        lists_files(bfiles, bak),
        dir.files == bak.files,
        forall|n: Seq<char>| #[trigger]
            dir.dirs.contains_key(n) <==> bak.dirs.contains_key(n) && !excluded.contains(n),
    ensures
        ({
            let after = after_file_actions(dir, file_plan(mfiles, bfiles, bfolder));
            &&& after.modified == dir.modified
            &&& after.dirs == dir.dirs
            &&& after.files =~= level_result(src, bak, excluded).files
        }),
{
    let gone = only_in(bfiles, mfiles);
    let fresh = only_in(mfiles, bfiles);
    let stale = stale_pairs(mfiles, bfiles);
    let deletions = gone.map_values(delete_file());
    let copies = fresh.map_values(copy_into(bfolder));
    let refreshes = stale.map_values(refresh_file());
    let first = after_file_actions(dir, deletions);
    let second = after_file_actions(first, copies);
    let third = after_file_actions(second, refreshes);
    lemma_file_actions_concat(dir, deletions, copies);
    lemma_file_actions_concat(dir, deletions + copies, refreshes);
    assert(after_file_actions(dir, file_plan(mfiles, bfiles, bfolder)) == third);

    assert forall|n: Seq<char>| has_name(mfiles, n) <==> src.files.contains_key(n) by {
        if has_name(mfiles, n) {
            let i = choose|i: int| 0 <= i < mfiles.len() && #[trigger] mfiles[i].name == n;
            assert(src.files.contains_key(mfiles[i].name));
        }
    }
    assert forall|n: Seq<char>| has_name(bfiles, n) <==> bak.files.contains_key(n) by {
        if has_name(bfiles, n) {
            let i = choose|i: int| 0 <= i < bfiles.len() && #[trigger] bfiles[i].name == n;
            assert(bak.files.contains_key(bfiles[i].name));
        }
    }

    lemma_after_file_deletions(dir, gone);
    assert forall|n: Seq<char>|
        has_name(gone, n) <==> bak.files.contains_key(n) && !src.files.contains_key(n) by {
        lemma_filter_names(bfiles, absent_from(mfiles), n);
    }

    assert forall|i: int| 0 <= i < fresh.len() implies src.files[#[trigger] fresh[i].name]
        == fresh[i].modified by {
        lemma_filter_entry(mfiles, absent_from(bfiles), i);
        let k = choose|k: int| 0 <= k < mfiles.len() && #[trigger] mfiles[k] == fresh[i];
        assert(src.files[mfiles[k].name] == mfiles[k].modified);
    }
    lemma_after_file_copies(first, fresh, bfolder, src.files);
    assert forall|n: Seq<char>|
        has_name(fresh, n) <==> src.files.contains_key(n) && !bak.files.contains_key(n) by {
        lemma_filter_names(mfiles, absent_from(bfiles), n);
    }

    assert forall|k: int| 0 <= k < stale.len() implies (#[trigger] stale[k]).0.name
        == stale[k].1.name && src.files[stale[k].1.name] == stale[k].0.modified
        && !second.dirs.contains_key(stale[k].1.name) by {
        lemma_stale_pair(mfiles, bfiles, k);
        let (i, j) = choose|i: int, j: int|
            0 <= i < mfiles.len() && 0 <= j < bfiles.len() && stale[k] == (
                #[trigger] mfiles[i],
                #[trigger] bfiles[j],
            ) && mfiles[i].name == bfiles[j].name && mfiles[i].modified != bfiles[j].modified;
        assert(src.files[mfiles[i].name] == mfiles[i].modified);
        assert(bak.files.contains_key(bfiles[j].name));
        assert(!bak.dirs.contains_key(bfiles[j].name));
    }
    lemma_after_file_refreshes(second, stale, src.files);
    assert forall|n: Seq<char>|
        pair_named(stale, n) <==> src.files.contains_key(n) && bak.files.contains_key(n)
            && src.files[n] != bak.files[n] by {
        lemma_stale_names(mfiles, bfiles, n);
        if src.files.contains_key(n) && bak.files.contains_key(n) && src.files[n] != bak.files[n] {
            let i = choose|i: int| 0 <= i < mfiles.len() && #[trigger] mfiles[i].name == n;
            let j = choose|j: int| 0 <= j < bfiles.len() && #[trigger] bfiles[j].name == n;
            assert(src.files[mfiles[i].name] == mfiles[i].modified);
            assert(bak.files[bfiles[j].name] == bfiles[j].modified);
        }
        if pair_named(stale, n) {
            let (i, j) = choose|i: int, j: int|
                0 <= i < mfiles.len() && 0 <= j < bfiles.len() && (#[trigger] mfiles[i]).name == n
                    && (#[trigger] bfiles[j]).name == n && mfiles[i].modified
                    != bfiles[j].modified;
            assert(src.files[mfiles[i].name] == mfiles[i].modified);
            assert(bak.files[bfiles[j].name] == bfiles[j].modified);
        }
    }

    let wanted = level_result(src, bak, excluded).files;
    assert forall|n: Seq<char>| third.files.contains_key(n) <==> wanted.contains_key(n) by {
        assert(first.files.contains_key(n) <==> dir.files.contains_key(n) && !has_name(gone, n));
        assert(second.files.contains_key(n) <==> first.files.contains_key(n) || (has_name(
            fresh,
            n,
        ) && !first.dirs.contains_key(n)));
        assert(third.files.contains_key(n) <==> second.files.contains_key(n) || pair_named(
            stale,
            n,
        ));
        assert(dir.dirs.contains_key(n) <==> blocked(bak, excluded, n));
        if bak.files.contains_key(n) {
            assert(!bak.dirs.contains_key(n));
        }
    }
    assert forall|n: Seq<char>| third.files.contains_key(n) implies third.files[n]
        == wanted[n] by {
        assert(first.files.contains_key(n) ==> first.files[n] == dir.files[n]);
        assert(second.files.contains_key(n) ==> second.files[n] == if has_name(fresh, n)
            && !first.dirs.contains_key(n) {
            src.files[n]
        } else {
            first.files[n]
        });
        assert(first.files.contains_key(n) <==> dir.files.contains_key(n) && !has_name(gone, n));
        assert(second.files.contains_key(n) <==> first.files.contains_key(n) || (has_name(
            fresh,
            n,
        ) && !first.dirs.contains_key(n)));
    }
}

/// What the purge and the directory plan of a level do.
///
/// `dir` is the backup directory after the purge and the file plan.
proof fn lemma_dir_plan_effect(
    src: Tree,
    bak: Tree,
    dir: Tree,
    mdirs: Seq<EntryView>,
    bdirs: Seq<EntryView>,
    bfolder: Seq<char>,
    excluded: Seq<Seq<char>>,
)
    requires
        src.files.dom().disjoint(src.dirs.dom()),
        lists_dirs(mdirs, src),
        lists_dirs(bdirs, bak),
        forall|n: Seq<char>| #[trigger] dir.files.contains_key(n) ==> src.files.contains_key(n),
        forall|n: Seq<char>| #[trigger]
            dir.dirs.contains_key(n) <==> bak.dirs.contains_key(n) && !excluded.contains(n),
        forall|n: Seq<char>| #[trigger] dir.dirs.contains_key(n) ==> dir.dirs[n] == bak.dirs[n],
    ensures
        ({
            let after = after_dir_actions(
                dir,
                dir_plan(retained(mdirs, excluded), retained(bdirs, excluded), bfolder),
            );
            &&& after.modified == dir.modified
            &&& after.files == dir.files
            &&& after.dirs =~= level_result(src, bak, excluded).dirs
        }),
        forall|n: Seq<char>|
            descends(retained(mdirs, excluded), retained(bdirs, excluded), n) <==> visits(
                src,
                bak,
                excluded,
                n,
            ),
{
    let kept_m = retained(mdirs, excluded);
    let kept_b = retained(bdirs, excluded);
    let fresh = only_in(kept_m, kept_b);
    let gone = only_in(kept_b, kept_m);
    let creations = fresh.map_values(create_in(bfolder));
    let deletions = gone.map_values(delete_dir());
    let first = after_dir_actions(dir, creations);
    let second = after_dir_actions(first, deletions);
    lemma_dir_actions_concat(dir, creations, deletions);

    assert forall|n: Seq<char>|
        has_name(kept_m, n) <==> src.dirs.contains_key(n) && !excluded.contains(n) by {
        lemma_filter_names(mdirs, is_retained(excluded), n);
        if src.dirs.contains_key(n) && !excluded.contains(n) {
            let i = choose|i: int| 0 <= i < mdirs.len() && #[trigger] mdirs[i].name == n;
            assert(is_retained(excluded)(mdirs[i]));
        }
        if has_name(kept_m, n) {
            let i = choose|i: int|
                0 <= i < mdirs.len() && #[trigger] mdirs[i].name == n && is_retained(excluded)(
                    mdirs[i],
                );
            assert(src.dirs.contains_key(mdirs[i].name));
        }
    }
    assert forall|n: Seq<char>|
        has_name(kept_b, n) <==> bak.dirs.contains_key(n) && !excluded.contains(n) by {
        lemma_filter_names(bdirs, is_retained(excluded), n);
        if bak.dirs.contains_key(n) && !excluded.contains(n) {
            let i = choose|i: int| 0 <= i < bdirs.len() && #[trigger] bdirs[i].name == n;
            assert(is_retained(excluded)(bdirs[i]));
        }
        if has_name(kept_b, n) {
            let i = choose|i: int|
                0 <= i < bdirs.len() && #[trigger] bdirs[i].name == n && is_retained(excluded)(
                    bdirs[i],
                );
            assert(bak.dirs.contains_key(bdirs[i].name));
        }
    }
    assert forall|n: Seq<char>| has_name(fresh, n) <==> has_name(kept_m, n) && !has_name(
        kept_b,
        n,
    ) by {
        lemma_filter_names(kept_m, absent_from(kept_b), n);
    }
    assert forall|n: Seq<char>| has_name(gone, n) <==> has_name(kept_b, n) && !has_name(
        kept_m,
        n,
    ) by {
        lemma_filter_names(kept_b, absent_from(kept_m), n);
    }

    assert forall|i: int| 0 <= i < fresh.len() implies !dir.files.contains_key(
        #[trigger] fresh[i].name,
    ) && !dir.dirs.contains_key(fresh[i].name) by {
        let n = fresh[i].name;
        assert(has_name(fresh, n));
        assert(src.dirs.contains_key(n));
        assert(!src.files.contains_key(n));
    }
    lemma_after_dir_creations(dir, fresh, bfolder);
    lemma_after_dir_deletions(first, gone);

    let wanted = level_result(src, bak, excluded).dirs;
    assert forall|n: Seq<char>| second.dirs.contains_key(n) <==> wanted.contains_key(n) by {
        assert(first.dirs.contains_key(n) <==> dir.dirs.contains_key(n) || has_name(fresh, n));
        assert(second.dirs.contains_key(n) <==> first.dirs.contains_key(n) && !has_name(gone, n));
    }
    assert forall|n: Seq<char>| second.dirs.contains_key(n) implies second.dirs[n]
        == wanted[n] by {
        assert(first.dirs.contains_key(n) <==> dir.dirs.contains_key(n) || has_name(fresh, n));
        assert(second.dirs.contains_key(n) <==> first.dirs.contains_key(n) && !has_name(gone, n));
        assert(first.dirs.contains_key(n));
    }

    lemma_distinct_filter(mdirs, is_retained(excluded));
    assert forall|n: Seq<char>| descends(kept_m, kept_b, n) <==> visits(src, bak, excluded, n) by {
        lemma_stale_names(kept_m, kept_b, n);
        if pair_named(stale_pairs(kept_m, kept_b), n) {
            let (i, j) = choose|i: int, j: int|
                0 <= i < kept_m.len() && 0 <= j < kept_b.len() && (#[trigger] kept_m[i]).name == n
                    && (#[trigger] kept_b[j]).name == n && kept_m[i].modified
                    != kept_b[j].modified;
            lemma_filter_entry(mdirs, is_retained(excluded), i);
            lemma_filter_entry(bdirs, is_retained(excluded), j);
            let x = choose|x: int| 0 <= x < mdirs.len() && #[trigger] mdirs[x] == kept_m[i];
            let y = choose|y: int| 0 <= y < bdirs.len() && #[trigger] bdirs[y] == kept_b[j];
            assert(src.dirs[mdirs[x].name].modified == mdirs[x].modified);
            assert(bak.dirs[bdirs[y].name].modified == bdirs[y].modified);
            assert(has_name(kept_m, n));
        }
        if visits(src, bak, excluded, n) && bak.dirs.contains_key(n) {
            assert(has_name(kept_m, n));
            assert(has_name(kept_b, n));
            let i = choose|i: int| 0 <= i < kept_m.len() && #[trigger] kept_m[i].name == n;
            let j = choose|j: int| 0 <= j < kept_b.len() && #[trigger] kept_b[j].name == n;
            lemma_filter_entry(mdirs, is_retained(excluded), i);
            lemma_filter_entry(bdirs, is_retained(excluded), j);
            let x = choose|x: int| 0 <= x < mdirs.len() && #[trigger] mdirs[x] == kept_m[i];
            let y = choose|y: int| 0 <= y < bdirs.len() && #[trigger] bdirs[y] == kept_b[j];
            assert(src.dirs[mdirs[x].name].modified == mdirs[x].modified);
            assert(bak.dirs[bdirs[y].name].modified == bdirs[y].modified);
        }
    }
}

/// What a level plan does to the backup directory.
///
/// Take a source directory and the backup directory that goes with it, and
/// any listings of the two, in any order and with any paths. The plan made
/// from the listings, carried out in order, leaves the backup directory as
/// `level_result` says, and holds a pending pair for exactly the
/// subdirectories that `visits` names.
pub proof fn law_level_effect(
    src: Tree,
    bak: Tree,
    source: DirItemsView,
    backup: DirItemsView,
    bfolder: Seq<char>,
    excluded: Seq<Seq<char>>,
)
    requires
        src.valid(),
        bak.valid(),
        lists_files(source.files, src),
        lists_dirs(source.dirs, src),
        lists_files(backup.files, bak),
        lists_dirs(backup.dirs, bak),
    ensures
        after_level(bak, level_plan(source, backup, bfolder, excluded)) == level_result(
            src,
            bak,
            excluded,
        ),
        forall|n: Seq<char>|
            descends(retained(source.dirs, excluded), retained(backup.dirs, excluded), n)
                <==> visits(src, bak, excluded, n),
{
    let plan = level_plan(source, backup, bfolder, excluded);
    let doomed = purged(backup.dirs, excluded);
    let first = after_dir_actions(bak, doomed.map_values(delete_dir()));
    let second = after_file_actions(first, plan.files);
    let third = after_dir_actions(second, plan.dirs);
    lemma_after_dir_deletions(bak, doomed);
    assert forall|n: Seq<char>|
        has_name(doomed, n) <==> bak.dirs.contains_key(n) && excluded.contains(n) by {
        lemma_filter_names(backup.dirs, is_excluded(excluded), n);
        if bak.dirs.contains_key(n) && excluded.contains(n) {
            let i = choose|i: int| 0 <= i < backup.dirs.len() && #[trigger] backup.dirs[i].name
                == n;
            assert(is_excluded(excluded)(backup.dirs[i]));
        }
        if has_name(doomed, n) {
            let i = choose|i: int|
                0 <= i < backup.dirs.len() && #[trigger] backup.dirs[i].name == n && is_excluded(
                    excluded,
                )(backup.dirs[i]);
            assert(bak.dirs.contains_key(backup.dirs[i].name));
        }
    }
    assert forall|n: Seq<char>| #[trigger]
        first.dirs.contains_key(n) <==> bak.dirs.contains_key(n) && !excluded.contains(n) by {
        assert(first.dirs.contains_key(n) <==> bak.dirs.contains_key(n) && !has_name(doomed, n));
    }
    lemma_file_plan_effect(src, bak, first, source.files, backup.files, bfolder, excluded);
    lemma_dir_plan_effect(src, bak, second, source.dirs, backup.dirs, bfolder, excluded);
    assert(third =~= level_result(src, bak, excluded));
}

/// Where the backup directory is in step with the source directory, the
/// plan for the level is idle, whatever the order and the paths of the
/// listings.
pub proof fn law_in_step_level_is_idle(
    src: Tree,
    bak: Tree,
    source: DirItemsView,
    backup: DirItemsView,
    bfolder: Seq<char>,
    excluded: Seq<Seq<char>>,
)
    requires
        in_step(src, bak, excluded),
        lists_files(source.files, src),
        lists_dirs(source.dirs, src),
        lists_files(backup.files, bak),
        lists_dirs(backup.dirs, bak),
    ensures
        level_plan(source, backup, bfolder, excluded).is_idle(),
{
    let kept_m = retained(source.dirs, excluded);
    let kept_b = retained(backup.dirs, excluded);
    lemma_filter_none(backup.dirs, is_excluded(excluded));

    assert forall|i: int| 0 <= i < backup.files.len() implies !absent_from(source.files)(
        #[trigger] backup.files[i],
    ) by {
        assert(src.files.contains_key(backup.files[i].name));
    }
    lemma_filter_none(backup.files, absent_from(source.files));
    assert forall|i: int| 0 <= i < source.files.len() implies !absent_from(backup.files)(
        #[trigger] source.files[i],
    ) by {
        assert(bak.files.contains_key(source.files[i].name));
    }
    lemma_filter_none(source.files, absent_from(backup.files));
    if stale_pairs(source.files, backup.files).len() > 0 {
        lemma_stale_pair(source.files, backup.files, 0);
        let (i, j) = choose|i: int, j: int|
            0 <= i < source.files.len() && 0 <= j < backup.files.len() && stale_pairs(
                source.files,
                backup.files,
            )[0] == (#[trigger] source.files[i], #[trigger] backup.files[j]) && source.files[i].name
                == backup.files[j].name && source.files[i].modified != backup.files[j].modified;
        assert(src.files[source.files[i].name] == source.files[i].modified);
        assert(bak.files[backup.files[j].name] == backup.files[j].modified);
    }

    assert forall|i: int| 0 <= i < kept_m.len() implies !absent_from(kept_b)(
        #[trigger] kept_m[i],
    ) by {
        lemma_filter_entry(source.dirs, is_retained(excluded), i);
        let x = choose|x: int| 0 <= x < source.dirs.len() && #[trigger] source.dirs[x] == kept_m[i];
        assert(src.dirs.contains_key(source.dirs[x].name));
        assert(bak.dirs.contains_key(kept_m[i].name));
        let y = choose|y: int| 0 <= y < backup.dirs.len() && #[trigger] backup.dirs[y].name
            == kept_m[i].name;
        lemma_filter_names(backup.dirs, is_retained(excluded), kept_m[i].name);
    }
    lemma_filter_none(kept_m, absent_from(kept_b));
    assert forall|i: int| 0 <= i < kept_b.len() implies !absent_from(kept_m)(
        #[trigger] kept_b[i],
    ) by {
        lemma_filter_entry(backup.dirs, is_retained(excluded), i);
        let y = choose|y: int| 0 <= y < backup.dirs.len() && #[trigger] backup.dirs[y] == kept_b[i];
        assert(bak.dirs.contains_key(backup.dirs[y].name));
        assert(src.dirs.contains_key(kept_b[i].name));
        let x = choose|x: int| 0 <= x < source.dirs.len() && #[trigger] source.dirs[x].name
            == kept_b[i].name;
        lemma_filter_names(source.dirs, is_retained(excluded), kept_b[i].name);
    }
    lemma_filter_none(kept_b, absent_from(kept_m));
}

/// Staleness refresh: where source and backup both hold a file called
/// `name` and the two timestamps differ, the plan for the level holds
/// exactly one action on that file, which is the refresh of the backup file
/// from the source file, and carrying the plan out leaves the backup file
/// with the timestamp of the source file.
pub proof fn law_stale_file_refreshed_once(
    src: Tree,
    bak: Tree,
    source: DirItemsView,
    backup: DirItemsView,
    bfolder: Seq<char>,
    excluded: Seq<Seq<char>>,
    name: Seq<char>,
)
    requires
        src.valid(),
        bak.valid(),
        lists_files(source.files, src),
        lists_dirs(source.dirs, src),
        lists_files(backup.files, bak),
        lists_dirs(backup.dirs, bak),
        src.files.contains_key(name),
        bak.files.contains_key(name),
        src.files[name] != bak.files[name],
    ensures
        ({
            let plan = level_plan(source, backup, bfolder, excluded);
            &&& exists|k: int|
                0 <= k < plan.files.len() && (#[trigger] plan.files[k]
                    matches FileActionView::Refresh { source: from, target: to } && from.name
                    == name && to.name == name && from.modified == src.files[name] && to.modified
                    == bak.files[name]) && forall|i: int|
                    0 <= i < plan.files.len() && i != k ==> (#[trigger] plan.files[i]).name()
                        != name
            &&& after_level(bak, plan).files.contains_key(name)
            &&& after_level(bak, plan).files[name] == src.files[name]
        }),
{
    let mfiles = source.files;
    let bfiles = backup.files;
    let plan = level_plan(source, backup, bfolder, excluded);
    let gone = only_in(bfiles, mfiles);
    let fresh = only_in(mfiles, bfiles);
    let stale = stale_pairs(mfiles, bfiles);
    law_level_effect(src, bak, source, backup, bfolder, excluded);
    assert(!bak.dirs.contains_key(name));

    let i = choose|i: int| 0 <= i < mfiles.len() && #[trigger] mfiles[i].name == name;
    let j = choose|j: int| 0 <= j < bfiles.len() && #[trigger] bfiles[j].name == name;
    assert(src.files[mfiles[i].name] == mfiles[i].modified);
    assert(bak.files[bfiles[j].name] == bfiles[j].modified);
    lemma_stale_names(mfiles, bfiles, name);
    let s = choose|s: int| 0 <= s < stale.len() && (#[trigger] stale[s]).1.name == name;
    lemma_stale_pair(mfiles, bfiles, s);
    let (x, y) = choose|x: int, y: int|
        0 <= x < mfiles.len() && 0 <= y < bfiles.len() && stale[s] == (
            #[trigger] mfiles[x],
            #[trigger] bfiles[y],
        ) && mfiles[x].name == bfiles[y].name && mfiles[x].modified != bfiles[y].modified;
    assert(x == i && y == j);
    lemma_stale_distinct(mfiles, bfiles);
    lemma_filter_names(bfiles, absent_from(mfiles), name);
    lemma_filter_names(mfiles, absent_from(bfiles), name);
    assert(has_name(mfiles, name) && has_name(bfiles, name));

    let k = gone.len() + fresh.len() + s;
    assert(plan.files[k] == refresh_file()(stale[s]));
    assert forall|q: int| 0 <= q < plan.files.len() && q != k implies (
    #[trigger] plan.files[q]).name() != name by {
        if q < gone.len() {
            assert(plan.files[q] == delete_file()(gone[q]));
            assert(gone[q].name != name);
        } else if q < gone.len() + fresh.len() {
            assert(plan.files[q] == copy_into(bfolder)(fresh[q - gone.len()]));
            assert(fresh[q - gone.len()].name != name);
        } else {
            let r = q - gone.len() - fresh.len();
            assert(plan.files[q] == refresh_file()(stale[r]));
            if r < s {
                assert(stale[r].1.name != stale[s].1.name);
            } else {
                assert(stale[s].1.name != stale[r].1.name);
            }
        }
    }
}

} // verus!
