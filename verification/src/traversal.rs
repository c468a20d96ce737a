//! The order of a run: levels wait in a queue and are reconciled one at a
//! time, and the backup tree ends as `run` says whichever level is taken
//! when.

use vstd::prelude::*;
use crate::backup::level_plan;
use crate::differ::{
    absent_from, lemma_stale_distinct, lemma_stale_pair, only_in, pair_named, stale_pairs,
};
use crate::dirs::{descends, pending_names, pending_pairs};
use crate::effects::law_level_effect;
use crate::entry::{
    child_path_spec, distinct_names, has_name, lemma_distinct_filter, lemma_filter_entry,
    EntryView,
};
use crate::exclusion::{is_retained, retained};
use crate::laws::lemma_fresh_valid;
use crate::model::{after_level, level_result, lists_dirs, lists_files, run, visits, Tree};
use crate::orchestrator::{initial, reconciled, OrchestratorView};
use crate::scan::{dir_items, ScannedView};

verus! {

/// The tree `tree` with the directory at `path` replaced by `sub`.
pub open spec fn put(tree: Tree, path: Seq<Seq<char>>, sub: Tree) -> Tree
    decreases path.len(),
{
    if path.len() == 0 {
        sub
    } else if tree.dirs.contains_key(path[0]) {
        Tree {
            dirs: tree.dirs.insert(path[0], put(tree.dirs[path[0]], path.drop_first(), sub)),
            ..tree
        }
    } else {
        tree
    }
}

/// The backup tree in the middle of a run from the pair of `src` and `bak`,
/// which stand at the path `at` below the roots: every level is reconciled
/// but those at the paths of `waiting` and the levels below them.
pub open spec fn so_far(
    src: Tree,
    bak: Tree,
    excluded: Seq<Seq<char>>,
    waiting: Set<Seq<Seq<char>>>,
    at: Seq<Seq<char>>,
) -> Tree
    decreases src,
{
    if waiting.contains(at) {
        bak
    } else {
        let level = level_result(src, bak, excluded);
        Tree {
            modified: level.modified,
            files: level.files,
            dirs: Map::new(
                |n: Seq<char>| level.dirs.contains_key(n),
                |n: Seq<char>|
                    if visits(src, bak, excluded, n) {
                        so_far(src.dirs[n], level.dirs[n], excluded, waiting, at.push(n))
                    } else {
                        level.dirs[n]
                    },
            ),
        }
    }
}

/// The pair of directories that the run comes to by going down `rest` from
/// the pair of `src` and `bak`, which stand at the path `at`, if the run
/// goes there and the level there is waiting: no level on the way is
/// waiting, and each step is one that the level before says to visit.
pub open spec fn comes_to(
    src: Tree,
    bak: Tree,
    excluded: Seq<Seq<char>>,
    waiting: Set<Seq<Seq<char>>>,
    at: Seq<Seq<char>>,
    rest: Seq<Seq<char>>,
) -> Option<(Tree, Tree)>
    decreases rest.len(),
{
    if rest.len() == 0 {
        if waiting.contains(at) {
            Some((src, bak))
        } else {
            None
        }
    } else if !waiting.contains(at) && visits(src, bak, excluded, rest[0]) {
        comes_to(
            src.dirs[rest[0]],
            level_result(src, bak, excluded).dirs[rest[0]],
            excluded,
            waiting,
            at.push(rest[0]),
            rest.drop_first(),
        )
    } else {
        None
    }
}

/// With no level waiting, the run is over.
pub proof fn lemma_nothing_waiting(src: Tree, bak: Tree, excluded: Seq<Seq<char>>, at: Seq<Seq<char>>)
    ensures
        so_far(src, bak, excluded, Set::empty(), at) == run(src, bak, excluded),
    decreases src,
{
    let level = level_result(src, bak, excluded);
    let held = so_far(src, bak, excluded, Set::empty(), at);
    let after = run(src, bak, excluded);
    assert forall|n: Seq<char>| #[trigger] after.dirs.contains_key(n) implies held.dirs[n]
        == after.dirs[n] by {
        if visits(src, bak, excluded, n) {
            lemma_nothing_waiting(src.dirs[n], level.dirs[n], excluded, at.push(n));
        }
    }
    assert(held.dirs =~= after.dirs);
    assert(held =~= after);
}

/// What stands below a path depends only on which of the paths below it
/// are waiting.
pub proof fn lemma_so_far_local(
    src: Tree,
    bak: Tree,
    excluded: Seq<Seq<char>>,
    one: Set<Seq<Seq<char>>>,
    other: Set<Seq<Seq<char>>>,
    at: Seq<Seq<char>>,
)
    requires
        forall|path: Seq<Seq<char>>|
            at.is_prefix_of(path) ==> (one.contains(path) <==> other.contains(path)),
    ensures
        so_far(src, bak, excluded, one, at) == so_far(src, bak, excluded, other, at),
    decreases src,
{
    assert(at.is_prefix_of(at));
    if !one.contains(at) {
        let level = level_result(src, bak, excluded);
        let a = so_far(src, bak, excluded, one, at);
        let b = so_far(src, bak, excluded, other, at);
        assert forall|n: Seq<char>| #[trigger] a.dirs.contains_key(n) implies a.dirs[n]
            == b.dirs[n] by {
            if visits(src, bak, excluded, n) {
                assert forall|path: Seq<Seq<char>>| at.push(n).is_prefix_of(path) implies (
                one.contains(path) <==> other.contains(path)) by {
                    lemma_prefix_of_push(at, n, path);
                }
                lemma_so_far_local(src.dirs[n], level.dirs[n], excluded, one, other, at.push(n));
            }
        }
        assert(a.dirs =~= b.dirs);
        assert(a =~= b);
    }
}

/// A path that starts with `at` and one more name starts with `at`, and
/// has that name next.
pub proof fn lemma_prefix_of_push(at: Seq<Seq<char>>, name: Seq<char>, path: Seq<Seq<char>>)
    requires
        at.push(name).is_prefix_of(path),
    ensures
        at.is_prefix_of(path),
        path.len() > at.len(),
        path[at.len() as int] == name,
{
    let longer = at.push(name);
    assert(path.subrange(0, longer.len() as int) == longer);
    assert(at =~= path.subrange(0, at.len() as int)) by {
        assert forall|i: int| 0 <= i < at.len() implies at[i] == path[i] by {
            assert(longer[i] == path.subrange(0, longer.len() as int)[i]);
        }
    }
    assert(longer[at.len() as int] == path.subrange(0, longer.len() as int)[at.len() as int]);
}

/// The paths that wait after the level at `turn` has been reconciled, where
/// the pair of `src` and `bak` stood: `turn` has left, and the path of each
/// subdirectory that the level says to visit has come.
pub open spec fn after_turn(
    waiting: Set<Seq<Seq<char>>>,
    turn: Seq<Seq<char>>,
    src: Tree,
    bak: Tree,
    excluded: Seq<Seq<char>>,
) -> Set<Seq<Seq<char>>> {
    Set::new(
        |path: Seq<Seq<char>>|
            (waiting.contains(path) && path != turn) || (path.len() == turn.len() + 1
                && path.drop_last() == turn && visits(src, bak, excluded, path.last())),
    )
}

/// Reconciling a waiting level changes the backup tree at that level and
/// nowhere else.
///
/// The pair of `src` and `bak` stands at the path `at`, and `rest` leads
/// from there to a waiting level. The backup directory that the tree holds
/// there is the one that the run comes to, and once the level is
/// reconciled the tree is as before but for that directory, which is as
/// `level_result` says.
pub proof fn lemma_turn(
    src: Tree,
    bak: Tree,
    excluded: Seq<Seq<char>>,
    waiting: Set<Seq<Seq<char>>>,
    at: Seq<Seq<char>>,
    rest: Seq<Seq<char>>,
)
    requires
        comes_to(src, bak, excluded, waiting, at, rest) is Some,
    ensures
        ({
            let (s, b) = comes_to(src, bak, excluded, waiting, at, rest)->Some_0;
            let next = after_turn(waiting, at + rest, s, b, excluded);
            &&& src.subdir(rest) == Some(s)
            &&& so_far(src, bak, excluded, waiting, at).subdir(rest) == Some(b)
            &&& so_far(src, bak, excluded, next, at) == put(
                so_far(src, bak, excluded, waiting, at),
                rest,
                level_result(s, b, excluded),
            )
        }),
    decreases rest.len(),
{
    let (s, b) = comes_to(src, bak, excluded, waiting, at, rest)->Some_0;
    let turn = at + rest;
    let next = after_turn(waiting, turn, s, b, excluded);
    let level = level_result(src, bak, excluded);
    let before = so_far(src, bak, excluded, waiting, at);
    let after = so_far(src, bak, excluded, next, at);
    if rest.len() == 0 {
        assert(turn =~= at);
        assert(!next.contains(at));
        assert forall|n: Seq<char>| #[trigger] level.dirs.contains_key(n) implies after.dirs[n]
            == level.dirs[n] by {
            if visits(src, bak, excluded, n) {
                assert(s == src && b == bak);
                assert(at.push(n).drop_last() =~= at);
                assert(at.push(n).last() == n);
                assert(next.contains(at.push(n)));
                assert(so_far(src.dirs[n], level.dirs[n], excluded, next, at.push(n))
                    == level.dirs[n]);
            }
        }
        assert(after.dirs =~= level.dirs);
        assert(after =~= level);
    } else {
        let name = rest[0];
        let tail = rest.drop_first();
        assert(at.push(name) + tail =~= turn);
        lemma_turn(src.dirs[name], level.dirs[name], excluded, waiting, at.push(name), tail);
        assert(!next.contains(at)) by {
            if next.contains(at) {
                assert(at.len() == turn.len() + 1);
            }
        }
        let changed = put(
            so_far(src.dirs[name], level.dirs[name], excluded, waiting, at.push(name)),
            tail,
            level_result(s, b, excluded),
        );
        assert forall|n: Seq<char>| #[trigger] level.dirs.contains_key(n) implies after.dirs[n]
            == before.dirs.insert(name, changed)[n] by {
            if n != name && visits(src, bak, excluded, n) {
                assert forall|path: Seq<Seq<char>>| at.push(n).is_prefix_of(path) implies (
                waiting.contains(path) <==> next.contains(path)) by {
                    lemma_prefix_of_push(at, n, path);
                    assert(turn[at.len() as int] == name);
                    if path.len() == turn.len() + 1 && path.drop_last() == turn {
                        assert(path.drop_last()[at.len() as int] == path[at.len() as int]);
                    }
                }
                lemma_so_far_local(src.dirs[n], level.dirs[n], excluded, waiting, next, at.push(n));
            }
        }
        assert(after.dirs =~= before.dirs.insert(name, changed));
        assert(after =~= put(before, rest, level_result(s, b, excluded)));
    }
}

/// No level on the way to a waiting level is waiting.
pub proof fn lemma_on_the_way(
    src: Tree,
    bak: Tree,
    excluded: Seq<Seq<char>>,
    waiting: Set<Seq<Seq<char>>>,
    at: Seq<Seq<char>>,
    rest: Seq<Seq<char>>,
    k: int,
)
    requires
        comes_to(src, bak, excluded, waiting, at, rest) is Some,
        0 <= k <= rest.len(),
    ensures
        waiting.contains(at + rest.take(k)) <==> k == rest.len(),
    decreases rest.len(),
{
    if rest.len() == 0 {
        assert(at + rest.take(k) =~= at);
    } else if k == 0 {
        assert(at + rest.take(k) =~= at);
    } else {
        let level = level_result(src, bak, excluded);
        lemma_on_the_way(
            src.dirs[rest[0]],
            level.dirs[rest[0]],
            excluded,
            waiting,
            at.push(rest[0]),
            rest.drop_first(),
            k - 1,
        );
        assert(at.push(rest[0]) + rest.drop_first().take(k - 1) =~= at + rest.take(k));
    }
}

/// Where the run comes to by a path depends only on which of the levels
/// along the path are waiting.
pub proof fn lemma_comes_to_same(
    src: Tree,
    bak: Tree,
    excluded: Seq<Seq<char>>,
    one: Set<Seq<Seq<char>>>,
    other: Set<Seq<Seq<char>>>,
    at: Seq<Seq<char>>,
    rest: Seq<Seq<char>>,
)
    requires
        forall|k: int|
            0 <= k <= rest.len() ==> (one.contains(#[trigger] (at + rest.take(k)))
                <==> other.contains(at + rest.take(k))),
    ensures
        comes_to(src, bak, excluded, one, at, rest) == comes_to(
            src,
            bak,
            excluded,
            other,
            at,
            rest,
        ),
    decreases rest.len(),
{
    assert(at + rest.take(0) =~= at);
    if rest.len() > 0 {
        let level = level_result(src, bak, excluded);
        let tail = rest.drop_first();
        assert forall|k: int| 0 <= k <= tail.len() implies (one.contains(
            #[trigger] (at.push(rest[0]) + tail.take(k)),
        ) <==> other.contains(at.push(rest[0]) + tail.take(k))) by {
            assert(at.push(rest[0]) + tail.take(k) =~= at + rest.take(k + 1));
        }
        lemma_comes_to_same(
            src.dirs[rest[0]],
            level.dirs[rest[0]],
            excluded,
            one,
            other,
            at.push(rest[0]),
            tail,
        );
    }
}

/// From a level that the run comes to and that has had its turn, the run
/// comes to each subdirectory that the level says to visit.
pub proof fn lemma_comes_to_child(
    src: Tree,
    bak: Tree,
    excluded: Seq<Seq<char>>,
    waiting: Set<Seq<Seq<char>>>,
    next: Set<Seq<Seq<char>>>,
    at: Seq<Seq<char>>,
    rest: Seq<Seq<char>>,
    name: Seq<char>,
)
    requires
        comes_to(src, bak, excluded, waiting, at, rest) is Some,
        visits(
            comes_to(src, bak, excluded, waiting, at, rest)->Some_0.0,
            comes_to(src, bak, excluded, waiting, at, rest)->Some_0.1,
            excluded,
            name,
        ),
        forall|k: int| 0 <= k <= rest.len() ==> !next.contains(#[trigger] (at + rest.take(k))),
        next.contains(at + rest.push(name)),
    ensures
        ({
            let (s, b) = comes_to(src, bak, excluded, waiting, at, rest)->Some_0;
            comes_to(src, bak, excluded, next, at, rest.push(name)) == Some(
                (s.dirs[name], level_result(s, b, excluded).dirs[name]),
            )
        }),
    decreases rest.len(),
{
    let level = level_result(src, bak, excluded);
    let longer = rest.push(name);
    assert(at + rest.take(0) =~= at);
    if rest.len() == 0 {
        assert(longer.drop_first() =~= Seq::empty());
        assert(at.push(name) =~= at + longer);
        assert(longer[0] == name);
        assert(comes_to(
            src.dirs[name],
            level.dirs[name],
            excluded,
            next,
            at.push(name),
            longer.drop_first(),
        ) == Some((src.dirs[name], level.dirs[name])));
    } else {
        let tail = rest.drop_first();
        assert(longer.drop_first() =~= tail.push(name));
        assert(longer[0] == rest[0]);
        assert forall|k: int| 0 <= k <= tail.len() implies !next.contains(
            #[trigger] (at.push(rest[0]) + tail.take(k)),
        ) by {
            assert(at.push(rest[0]) + tail.take(k) =~= at + rest.take(k + 1));
        }
        assert(at.push(rest[0]) + tail.push(name) =~= at + longer);
        lemma_comes_to_child(
            src.dirs[rest[0]],
            level.dirs[rest[0]],
            excluded,
            waiting,
            next,
            at.push(rest[0]),
            tail,
            name,
        );
    }
}

/// The paths of the subdirectories called `names` of the directory at
/// `turn`.
pub open spec fn below(turn: Seq<Seq<char>>, names: Seq<Seq<char>>) -> Seq<Seq<Seq<char>>> {
    names.map_values(|name: Seq<char>| turn.push(name))
}

/// The levels of a queue are in order: none is there twice, and the run
/// comes to each.
pub open spec fn orderly(
    src: Tree,
    bak: Tree,
    excluded: Seq<Seq<char>>,
    queue: Seq<Seq<Seq<char>>>,
) -> bool {
    &&& queue.no_duplicates()
    &&& forall|i: int|
        0 <= i < queue.len() ==> comes_to(
            src,
            bak,
            excluded,
            queue.to_set(),
            Seq::empty(),
            #[trigger] queue[i],
        ) is Some
}

/// A queue in order stays in order over a turn: the last level leaves, and
/// the subdirectories that it says to visit, each once, come in its place.
pub proof fn lemma_queue_turn(
    src: Tree,
    bak: Tree,
    excluded: Seq<Seq<char>>,
    queue: Seq<Seq<Seq<char>>>,
    names: Seq<Seq<char>>,
)
    requires
        orderly(src, bak, excluded, queue),
        queue.len() > 0,
        names.no_duplicates(),
        forall|n: Seq<char>|
            names.contains(n) <==> visits(
                comes_to(src, bak, excluded, queue.to_set(), Seq::empty(), queue.last())->Some_0.0,
                comes_to(src, bak, excluded, queue.to_set(), Seq::empty(), queue.last())->Some_0.1,
                excluded,
                n,
            ),
    ensures
        ({
            let turn = queue.last();
            let (s, b) = comes_to(src, bak, excluded, queue.to_set(), Seq::empty(), turn)->Some_0;
            let next = queue.drop_last() + below(turn, names);
            &&& next.to_set() == after_turn(queue.to_set(), turn, s, b, excluded)
            &&& orderly(src, bak, excluded, next)
        }),
{
    let root = Seq::<Seq<char>>::empty();
    let waiting = queue.to_set();
    let turn = queue.last();
    assert(turn == queue[queue.len() - 1]);
    let (s, b) = comes_to(src, bak, excluded, waiting, root, turn)->Some_0;
    let kept = queue.drop_last();
    let added = below(turn, names);
    let next = kept + added;
    let then = after_turn(waiting, turn, s, b, excluded);

    assert forall|path: Seq<Seq<char>>| next.to_set().contains(path) <==> then.contains(path) by {
        if next.to_set().contains(path) {
            let i = choose|i: int| 0 <= i < next.len() && next[i] == path;
            if i < kept.len() {
                assert(queue[i] == path);
                assert(waiting.contains(path));
                assert(path != turn);
            } else {
                let n = names[i - kept.len()];
                assert(path == turn.push(n));
                assert(path.drop_last() =~= turn);
                assert(names.contains(n));
            }
        }
        if then.contains(path) {
            if waiting.contains(path) && path != turn {
                let i = choose|i: int| 0 <= i < queue.len() && queue[i] == path;
                assert(next[i] == path);
            } else {
                let n = path.last();
                assert(names.contains(n));
                let j = choose|j: int| 0 <= j < names.len() && names[j] == n;
                assert(path =~= turn.push(n));
                assert(next[kept.len() + j] == path);
            }
        }
    }
    assert(next.to_set() =~= then);

    assert forall|k: int| 0 <= k <= turn.len() implies !then.contains(
        #[trigger] (root + turn.take(k)),
    ) by {
        lemma_on_the_way(src, bak, excluded, waiting, root, turn, k);
        assert(root + turn.take(turn.len() as int) =~= turn);
    }

    assert forall|i: int| 0 <= i < next.len() implies comes_to(
        src,
        bak,
        excluded,
        then,
        root,
        #[trigger] next[i],
    ) is Some by {
        let path = next[i];
        if i < kept.len() {
            assert(queue[i] == path);
            assert forall|k: int| 0 <= k <= path.len() implies (waiting.contains(
                #[trigger] (root + path.take(k)),
            ) <==> then.contains(root + path.take(k))) by {
                let part = root + path.take(k);
                lemma_on_the_way(src, bak, excluded, waiting, root, path, k);
                assert(root + path.take(path.len() as int) =~= path);
                if k < path.len() {
                    if then.contains(part) {
                        assert(part.drop_last() == turn);
                        assert(turn =~= root + path.take(k - 1));
                        lemma_on_the_way(src, bak, excluded, waiting, root, path, k - 1);
                    }
                }
            }
            lemma_comes_to_same(src, bak, excluded, waiting, then, root, path);
        } else {
            let n = names[i - kept.len()];
            assert(names.contains(n));
            assert(path == turn.push(n));
            assert(root + turn.push(n) =~= path);
            assert(path.drop_last() =~= turn);
            lemma_comes_to_child(src, bak, excluded, waiting, then, root, turn, n);
        }
    }

    assert forall|i: int, j: int| 0 <= i < j < next.len() implies next[i] != next[j] by {
        if j < kept.len() {
            assert(queue[i] != queue[j]);
        } else if i >= kept.len() {
            assert(names[i - kept.len()] != names[j - kept.len()]);
            assert(next[i].last() == names[i - kept.len()]);
            assert(next[j].last() == names[j - kept.len()]);
        } else {
            let path = queue[i];
            if path == next[j] {
                assert(path.drop_last() =~= turn);
                assert(root + path.take(path.len() - 1) =~= turn);
                lemma_on_the_way(src, bak, excluded, waiting, root, path, path.len() - 1);
            }
        }
    }
}

/// A run in the order of a queue.
///
/// While the levels of `queue` wait, in order, the backup tree `so_far`
/// holds at the last of them the very directory that the run comes to
/// there. When that level has had its turn, the tree is as before but for
/// this directory, which is as `level_result` says, and the queue that
/// holds the subdirectories to visit in place of the level is in order
/// again. With the queue empty the tree is what `run` says. So the levels
/// may be taken in any order that a queue gives them.
pub proof fn law_turn_by_turn(
    src: Tree,
    bak: Tree,
    excluded: Seq<Seq<char>>,
    queue: Seq<Seq<Seq<char>>>,
    names: Seq<Seq<char>>,
)
    requires
        orderly(src, bak, excluded, queue),
        queue.len() > 0 ==> names.no_duplicates() && forall|n: Seq<char>|
            names.contains(n) <==> visits(
                comes_to(src, bak, excluded, queue.to_set(), Seq::empty(), queue.last())->Some_0.0,
                comes_to(src, bak, excluded, queue.to_set(), Seq::empty(), queue.last())->Some_0.1,
                excluded,
                n,
            ),
    ensures
        queue.len() == 0 ==> so_far(src, bak, excluded, queue.to_set(), Seq::empty()) == run(
            src,
            bak,
            excluded,
        ),
        queue.len() > 0 ==> ({
            let turn = queue.last();
            let held = so_far(src, bak, excluded, queue.to_set(), Seq::empty());
            let (s, b) = comes_to(src, bak, excluded, queue.to_set(), Seq::empty(), turn)->Some_0;
            let next = queue.drop_last() + below(turn, names);
            &&& src.subdir(turn) == Some(s)
            &&& held.subdir(turn) == Some(b)
            &&& orderly(src, bak, excluded, next)
            &&& so_far(src, bak, excluded, next.to_set(), Seq::empty()) == put(
                held,
                turn,
                level_result(s, b, excluded),
            )
        }),
{
    let root = Seq::<Seq<char>>::empty();
    if queue.len() == 0 {
        assert(queue.to_set() =~= Set::empty());
        lemma_nothing_waiting(src, bak, excluded, root);
    } else {
        let turn = queue.last();
        assert(turn == queue[queue.len() - 1]);
        assert(root + turn =~= turn);
        lemma_turn(src, bak, excluded, queue.to_set(), root, turn);
        lemma_queue_turn(src, bak, excluded, queue, names);
    }
}

/// The path of the directory reached from the directory at `root` by going
/// down `path`.
pub open spec fn path_under(root: Seq<char>, path: Seq<Seq<char>>) -> Seq<char>
    decreases path.len(),
{
    if path.len() == 0 {
        root
    } else {
        child_path_spec(path_under(root, path.drop_last()), path.last())
    }
}

/// The queue of an orchestrator whose levels are those of `queue`: for each
/// level the path under the source root and the path under the backup
/// root.
pub open spec fn pairs_under(
    source_root: Seq<char>,
    backup_root: Seq<char>,
    queue: Seq<Seq<Seq<char>>>,
) -> Seq<(Seq<char>, Seq<char>)> {
    queue.map_values(
        |path: Seq<Seq<char>>| (path_under(source_root, path), path_under(backup_root, path)),
    )
}

/// What was read of the directory at `folder` is the truth about `dir`:
/// every child could be read, and the listing made of them lists the files
/// and the subdirectories of `dir`.
pub open spec fn truthful(children: Seq<ScannedView>, dir: Tree, folder: Seq<char>) -> bool {
    &&& dir_items(folder, children).skipped.len() == 0
    &&& lists_files(dir_items(folder, children).files, dir)
    &&& lists_dirs(dir_items(folder, children).dirs, dir)
}

/// The run comes to valid directories only.
pub proof fn lemma_comes_to_valid(
    src: Tree,
    bak: Tree,
    excluded: Seq<Seq<char>>,
    waiting: Set<Seq<Seq<char>>>,
    at: Seq<Seq<char>>,
    rest: Seq<Seq<char>>,
)
    requires
        src.valid(),
        bak.valid(),
        comes_to(src, bak, excluded, waiting, at, rest) is Some,
    ensures
        comes_to(src, bak, excluded, waiting, at, rest)->Some_0.0.valid(),
        comes_to(src, bak, excluded, waiting, at, rest)->Some_0.1.valid(),
    decreases rest.len(),
{
    if rest.len() > 0 {
        let level = level_result(src, bak, excluded);
        lemma_fresh_valid();
        assert(src.dirs.contains_key(rest[0]));
        if bak.dirs.contains_key(rest[0]) {
            assert(bak.dirs[rest[0]].valid());
        }
        lemma_comes_to_valid(
            src.dirs[rest[0]],
            level.dirs[rest[0]],
            excluded,
            waiting,
            at.push(rest[0]),
            rest.drop_first(),
        );
    }
}

/// The pending pairs of a level are the paths, under the two folders of the
/// level, of the subdirectories named by `pending_names`, and no name is
/// there twice.
///
/// `mdirs` and `bdirs` are the subdirectories of the source folder and of
/// the backup folder, each with its path under its folder and no name
/// twice.
pub proof fn lemma_pending_paths(
    mdirs: Seq<EntryView>,
    bdirs: Seq<EntryView>,
    mfolder: Seq<char>,
    bfolder: Seq<char>,
)
    requires
        distinct_names(mdirs),
        distinct_names(bdirs),
        forall|i: int|
            0 <= i < mdirs.len() ==> (#[trigger] mdirs[i]).path == child_path_spec(
                mfolder,
                mdirs[i].name,
            ),
        forall|i: int|
            0 <= i < bdirs.len() ==> (#[trigger] bdirs[i]).path == child_path_spec(
                bfolder,
                bdirs[i].name,
            ),
    ensures
        pending_pairs(mdirs, bdirs, bfolder) == pending_names(mdirs, bdirs).map_values(
            |n: Seq<char>| (child_path_spec(mfolder, n), child_path_spec(bfolder, n)),
        ),
        pending_names(mdirs, bdirs).no_duplicates(),
        forall|n: Seq<char>| pending_names(mdirs, bdirs).contains(n) <==> descends(mdirs, bdirs, n),
{
    let fresh = only_in(mdirs, bdirs);
    let stale = stale_pairs(mdirs, bdirs);
    let names = pending_names(mdirs, bdirs);
    let pending = pending_pairs(mdirs, bdirs, bfolder);
    let wanted = names.map_values(
        |n: Seq<char>| (child_path_spec(mfolder, n), child_path_spec(bfolder, n)),
    );
    assert forall|k: int| 0 <= k < fresh.len() implies (#[trigger] fresh[k]).path
        == child_path_spec(mfolder, fresh[k].name) by {
        lemma_filter_entry(mdirs, absent_from(bdirs), k);
    }
    assert forall|k: int| 0 <= k < stale.len() implies (#[trigger] stale[k]).0.path
        == child_path_spec(mfolder, stale[k].1.name) && stale[k].1.path == child_path_spec(
        bfolder,
        stale[k].1.name,
    ) by {
        lemma_stale_pair(mdirs, bdirs, k);
    }
    assert forall|k: int| 0 <= k < pending.len() implies pending[k] == wanted[k] by {
        if k < fresh.len() {
            assert(names[k] == fresh[k].name);
        } else {
            assert(names[k] == stale[k - fresh.len()].1.name);
        }
    }
    assert(pending =~= wanted);

    lemma_distinct_filter(mdirs, absent_from(bdirs));
    lemma_stale_distinct(mdirs, bdirs);
    assert forall|i: int, j: int| 0 <= i < j < names.len() implies names[i] != names[j] by {
        if j < fresh.len() {
            assert(fresh[i].name != fresh[j].name);
        } else if i >= fresh.len() {
            assert(stale[i - fresh.len()].1.name != stale[j - fresh.len()].1.name);
        } else {
            lemma_filter_entry(mdirs, absent_from(bdirs), i);
            lemma_stale_pair(mdirs, bdirs, j - fresh.len());
            assert(names[i] == fresh[i].name);
            assert(names[j] == stale[j - fresh.len()].1.name);
            if names[i] == names[j] {
                assert(has_name(bdirs, fresh[i].name));
            }
        }
    }
    assert forall|n: Seq<char>| names.contains(n) <==> descends(mdirs, bdirs, n) by {
        if names.contains(n) {
            let k = choose|k: int| 0 <= k < names.len() && names[k] == n;
            if k < fresh.len() {
                assert(fresh[k].name == n);
            } else {
                assert(stale[k - fresh.len()].1.name == n);
            }
        }
        if has_name(fresh, n) {
            let k = choose|k: int| 0 <= k < fresh.len() && #[trigger] fresh[k].name == n;
            assert(names[k] == n);
        }
        if pair_named(stale, n) {
            let k = choose|k: int| 0 <= k < stale.len() && (#[trigger] stale[k]).1.name == n;
            assert(names[fresh.len() + k] == n);
        }
    }
}

/// One turn of an orchestrator that a truthful caller drives.
///
/// The orchestrator's queue holds the levels of `queue`, which are in
/// order, and the backup tree stands as `so_far` says. The caller hands in
/// the truth about the two directories of the level on turn. The
/// orchestrator then has a plan; carrying it out leaves the backup
/// directory of the level as `level_result` says; and the orchestrator's
/// queue holds the levels of a queue that is in order again, with the
/// subdirectories to visit in place of the level. Nothing has failed.
pub proof fn law_orchestrator_turn(
    src: Tree,
    bak: Tree,
    source_root: Seq<char>,
    backup_root: Seq<char>,
    state: OrchestratorView,
    queue: Seq<Seq<Seq<char>>>,
    mchildren: Seq<ScannedView>,
    bchildren: Seq<ScannedView>,
)
    requires
        src.valid(),
        bak.valid(),
        orderly(src, bak, state.excluded, queue),
        queue.len() > 0,
        state.queue == pairs_under(source_root, backup_root, queue),
        truthful(
            mchildren,
            comes_to(src, bak, state.excluded, queue.to_set(), Seq::empty(), queue.last())->Some_0.0,
            path_under(source_root, queue.last()),
        ),
        truthful(
            bchildren,
            comes_to(src, bak, state.excluded, queue.to_set(), Seq::empty(), queue.last())->Some_0.1,
            path_under(backup_root, queue.last()),
        ),
    ensures
        ({
            let turn = queue.last();
            let held = so_far(src, bak, state.excluded, queue.to_set(), Seq::empty());
            let (s, b) = comes_to(
                src,
                bak,
                state.excluded,
                queue.to_set(),
                Seq::empty(),
                turn,
            )->Some_0;
            let (after, plan) = reconciled(state, Ok(mchildren), Ok(bchildren));
            let names = pending_names(
                retained(dir_items(path_under(source_root, turn), mchildren).dirs, state.excluded),
                retained(dir_items(path_under(backup_root, turn), bchildren).dirs, state.excluded),
            );
            let next = queue.drop_last() + below(turn, names);
            &&& src.subdir(turn) == Some(s)
            &&& held.subdir(turn) == Some(b)
            &&& plan is Some
            &&& after_level(b, plan->Some_0) == level_result(s, b, state.excluded)
            &&& after.queue == pairs_under(source_root, backup_root, next)
            &&& after.failures == state.failures
            &&& after.fatal == state.fatal
            &&& after.excluded == state.excluded
            &&& orderly(src, bak, state.excluded, next)
            &&& so_far(src, bak, state.excluded, next.to_set(), Seq::empty()) == put(
                held,
                turn,
                level_result(s, b, state.excluded),
            )
        }),
{
    let excluded = state.excluded;
    let root = Seq::<Seq<char>>::empty();
    let turn = queue.last();
    assert(turn == queue[queue.len() - 1]);
    let (s, b) = comes_to(src, bak, excluded, queue.to_set(), root, turn)->Some_0;
    let mfolder = path_under(source_root, turn);
    let bfolder = path_under(backup_root, turn);
    let source = dir_items(mfolder, mchildren);
    let backup = dir_items(bfolder, bchildren);
    let mdirs = retained(source.dirs, excluded);
    let bdirs = retained(backup.dirs, excluded);
    let names = pending_names(mdirs, bdirs);
    let next = queue.drop_last() + below(turn, names);
    let (after, plan) = reconciled(state, Ok(mchildren), Ok(bchildren));

    assert(state.queue.last() == (mfolder, bfolder));
    lemma_comes_to_valid(src, bak, excluded, queue.to_set(), root, turn);
    law_level_effect(s, b, source, backup, bfolder, excluded);

    lemma_distinct_filter(source.dirs, is_retained(excluded));
    lemma_distinct_filter(backup.dirs, is_retained(excluded));
    assert forall|i: int| 0 <= i < mdirs.len() implies (#[trigger] mdirs[i]).path
        == child_path_spec(mfolder, mdirs[i].name) by {
        lemma_filter_entry(source.dirs, is_retained(excluded), i);
    }
    assert forall|i: int| 0 <= i < bdirs.len() implies (#[trigger] bdirs[i]).path
        == child_path_spec(bfolder, bdirs[i].name) by {
        lemma_filter_entry(backup.dirs, is_retained(excluded), i);
    }
    lemma_pending_paths(mdirs, bdirs, mfolder, bfolder);

    assert(plan->Some_0 == level_plan(source, backup, bfolder, excluded));
    assert(after.queue =~= pairs_under(source_root, backup_root, next)) by {
        let wanted = pairs_under(source_root, backup_root, next);
        assert(after.queue == state.queue.drop_last() + pending_pairs(mdirs, bdirs, bfolder));
        assert forall|k: int| 0 <= k < wanted.len() implies after.queue[k] == wanted[k] by {
            if k >= queue.len() - 1 {
                let n = names[k - (queue.len() - 1)];
                assert(next[k] == turn.push(n));
                assert(turn.push(n).drop_last() =~= turn);
            } else {
                assert(next[k] == queue[k]);
            }
        }
    }
    assert(after.failures =~= state.failures);
    law_turn_by_turn(src, bak, excluded, queue, names);
}

/// The start of a run: the queue of a new orchestrator holds the level of
/// the roots and no other, which is a queue in order, and the backup tree
/// is untouched.
pub proof fn law_orchestrator_start(
    src: Tree,
    bak: Tree,
    source_root: Seq<char>,
    backup_root: Seq<char>,
    excluded: Seq<Seq<char>>,
)
    ensures
        initial(source_root, backup_root, excluded).queue == pairs_under(
            source_root,
            backup_root,
            seq![Seq::empty()],
        ),
        orderly(src, bak, excluded, seq![Seq::empty()]),
        so_far(src, bak, excluded, seq![Seq::<Seq<char>>::empty()].to_set(), Seq::empty()) == bak,
{
    let root = Seq::<Seq<char>>::empty();
    let queue = seq![root];
    assert(queue[0] == root);
    assert(queue.to_set().contains(root));
    assert(initial(source_root, backup_root, excluded).queue =~= pairs_under(
        source_root,
        backup_root,
        seq![Seq::empty()],
    ));
}

/// The end of a run: once the orchestrator's queue is empty, the backup
/// tree is what `run` says.
pub proof fn law_orchestrator_end(
    src: Tree,
    bak: Tree,
    source_root: Seq<char>,
    backup_root: Seq<char>,
    state: OrchestratorView,
    queue: Seq<Seq<Seq<char>>>,
)
    requires
        orderly(src, bak, state.excluded, queue),
        state.queue == pairs_under(source_root, backup_root, queue),
        state.queue.len() == 0,
    ensures
        so_far(src, bak, state.excluded, queue.to_set(), Seq::empty()) == run(
            src,
            bak,
            state.excluded,
        ),
{
    law_turn_by_turn(src, bak, state.excluded, queue, Seq::empty());
}

} // verus!
