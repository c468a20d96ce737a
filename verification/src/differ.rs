//! The name-set differencer: splits two listings by name into the entries
//! only the first has, the entries only the second has, and the pairs that
//! share a name.

use vstd::prelude::*;
use crate::entry::{
    distinct_names, find_name, first_named_at, has_name, lemma_distinct_filter, lemma_filter_entry,
    lemma_filter_names, listing, Entry, EntryView,
};

verus! {

/// The test "no entry of `other` has this entry's name".
pub open spec fn absent_from(other: Seq<EntryView>) -> spec_fn(EntryView) -> bool {
    |e: EntryView| !has_name(other, e.name)
}

/// The test "some entry of `other` has this entry's name".
pub open spec fn present_in(other: Seq<EntryView>) -> spec_fn(EntryView) -> bool {
    |e: EntryView| has_name(other, e.name)
}

/// The entries of `a`, in order, whose name no entry of `b` has.
pub open spec fn only_in(a: Seq<EntryView>, b: Seq<EntryView>) -> Seq<EntryView> {
    a.filter(absent_from(b))
}

/// The first entry of `entries` called `name`.
pub open spec fn first_named(entries: Seq<EntryView>, name: Seq<char>) -> EntryView {
    entries[choose|i: int| first_named_at(entries, name, i)]
}

/// Pairs an entry with the first entry of `a` that has its name.
pub open spec fn paired_with(a: Seq<EntryView>) -> spec_fn(EntryView) -> (EntryView, EntryView) {
    |e: EntryView| (first_named(a, e.name), e)
}

/// The entries of `b`, in order, whose name `a` has too, each paired with
/// the first entry of `a` of that name. The entry of `a` comes first in the
/// pair.
pub open spec fn in_both(a: Seq<EntryView>, b: Seq<EntryView>) -> Seq<(EntryView, EntryView)> {
    b.filter(present_in(a)).map_values(paired_with(a))
}

/// The pairs of a list, each entry taken by its view.
pub open spec fn pairs(list: Seq<(Entry, Entry)>) -> Seq<(EntryView, EntryView)> {
    list.map_values(|p: (Entry, Entry)| (p.0@, p.1@))
}

/// The test "the two entries of the pair were last modified at different
/// times", whichever is the later.
pub open spec fn is_stale() -> spec_fn((EntryView, EntryView)) -> bool {
    |p: (EntryView, EntryView)| p.0.modified != p.1.modified
}

/// The pairs of `in_both` whose two timestamps differ.
pub open spec fn stale_pairs(a: Seq<EntryView>, b: Seq<EntryView>) -> Seq<(EntryView, EntryView)> {
    in_both(a, b).filter(is_stale())
}

/// Whether the second entry of some pair of `list` is called `name`.
pub open spec fn pair_named(list: Seq<(EntryView, EntryView)>, name: Seq<char>) -> bool {
    exists|i: int| 0 <= i < list.len() && (#[trigger] list[i]).1.name == name
}

/// The three groups into which two listings fall by name.
#[derive(Clone, Debug, PartialEq, Eq)]
pub struct NameDiff {
    /// Entries whose name only the first listing has.
    pub only_in_a: Vec<Entry>,
    /// Entries whose name only the second listing has.
    pub only_in_b: Vec<Entry>,
    /// For each shared name, the entry of the first listing and that of the
    /// second.
    pub in_both: Vec<(Entry, Entry)>,
}

/// The first position of a name is the position `first_named` reads.
pub proof fn lemma_first_named(entries: Seq<EntryView>, name: Seq<char>, i: int)
    requires
        first_named_at(entries, name, i),
    ensures
        first_named(entries, name) == entries[i],
{
    let k = choose|k: int| first_named_at(entries, name, k);
    assert(first_named_at(entries, name, k));
    if k < i {
        assert(entries[k].name != name);
    } else if i < k {
        assert(entries[i].name != name);
    }
}

/// The entries of `a` whose name does not occur in `b`, in the order of `a`.
pub fn entries_only_in(a: &Vec<Entry>, b: &Vec<Entry>) -> (only: Vec<Entry>)
    ensures
        listing(only@) == only_in(listing(a@), listing(b@)),
{
    let ghost la = listing(a@);
    let ghost lb = listing(b@);
    let mut only: Vec<Entry> = Vec::new();
    let mut i: usize = 0;
    assert(la.take(0) =~= Seq::empty());
    assert(listing(only@) =~= la.take(0).filter(absent_from(lb))) by {
        la.take(0).lemma_filter_len(absent_from(lb));
    }
    while i < a.len()
        invariant
            i <= a.len(),
            la == listing(a@),
            lb == listing(b@),
            listing(only@) == la.take(i as int).filter(absent_from(lb)),
        decreases a.len() - i,
    {
        let ghost before = listing(only@);
        proof {
            assert(la.take(i + 1) =~= la.take(i as int).push(la[i as int]));
            la.take(i as int).lemma_filter_push(la[i as int], absent_from(lb));
        }
        if find_name(b, &a[i].name).is_none() {
            only.push(a[i].duplicate());
            assert(listing(only@) =~= before.push(la[i as int]));
        }
        i += 1;
    }
    assert(la.take(a.len() as int) =~= la);
    only
}

/// The entries of `b` whose name occurs in `a`, each behind the first entry
/// of `a` of that name, in the order of `b`.
pub fn entries_in_both(a: &Vec<Entry>, b: &Vec<Entry>) -> (both: Vec<(Entry, Entry)>)
    ensures
        pairs(both@) == in_both(listing(a@), listing(b@)),
{
    let ghost la = listing(a@);
    let ghost lb = listing(b@);
    let mut both: Vec<(Entry, Entry)> = Vec::new();
    let mut i: usize = 0;
    assert(lb.take(0) =~= Seq::empty());
    assert(pairs(both@) =~= lb.take(0).filter(present_in(la)).map_values(paired_with(la))) by {
        lb.take(0).lemma_filter_len(present_in(la));
    }
    while i < b.len()
        invariant
            i <= b.len(),
            la == listing(a@),
            lb == listing(b@),
            pairs(both@) == lb.take(i as int).filter(present_in(la)).map_values(paired_with(la)),
        decreases b.len() - i,
    {
        let ghost before = pairs(both@);
        let ghost kept = lb.take(i as int).filter(present_in(la));
        proof {
            assert(lb.take(i + 1) =~= lb.take(i as int).push(lb[i as int]));
            lb.take(i as int).lemma_filter_push(lb[i as int], present_in(la));
        }
        match find_name(a, &b[i].name) {
            Some(k) => {
                both.push((a[k].duplicate(), b[i].duplicate()));
                proof {
                    lemma_first_named(la, lb[i as int].name, k as int);
                    assert(pairs(both@) =~= before.push((la[k as int], lb[i as int])));
                    assert(kept.push(lb[i as int]).map_values(paired_with(la)) =~= before.push(
                        (la[k as int], lb[i as int]),
                    ));
                }
            },
            None => {},
        }
        i += 1;
    }
    assert(lb.take(b.len() as int) =~= lb);
    both
}

/// Splits two listings by name.
pub fn diff_names(a: &Vec<Entry>, b: &Vec<Entry>) -> (diff: NameDiff)
    ensures
        listing(diff.only_in_a@) == only_in(listing(a@), listing(b@)),
        listing(diff.only_in_b@) == only_in(listing(b@), listing(a@)),
        pairs(diff.in_both@) == in_both(listing(a@), listing(b@)),
{
    NameDiff {
        only_in_a: entries_only_in(a, b),
        only_in_b: entries_only_in(b, a),
        in_both: entries_in_both(a, b),
    }
}

/// The same for the pairs of a list.
pub proof fn lemma_pair_named_last(pairs: Seq<(EntryView, EntryView)>, name: Seq<char>)
    requires
        pairs.len() > 0,
    ensures
        pair_named(pairs, name) <==> pair_named(pairs.drop_last(), name) || pairs.last().1.name
            == name,
{
    let rest = pairs.drop_last();
    if pair_named(pairs, name) {
        let i = choose|i: int| 0 <= i < pairs.len() && (#[trigger] pairs[i]).1.name == name;
        if i < pairs.len() - 1 {
            assert(rest[i].1.name == name);
        }
    }
    if pair_named(rest, name) {
        let i = choose|i: int| 0 <= i < rest.len() && (#[trigger] rest[i]).1.name == name;
        assert(pairs[i].1.name == name);
    }
    if pairs.last().1.name == name {
        assert(pairs[pairs.len() - 1].1.name == name);
    }
}

/// In a listing without repeated names, the entry of a name is the first of
/// that name.
pub proof fn lemma_only_named(entries: Seq<EntryView>, i: int)
    requires
        distinct_names(entries),
        0 <= i < entries.len(),
    ensures
        first_named(entries, entries[i].name) == entries[i],
{
    assert(first_named_at(entries, entries[i].name, i));
    lemma_first_named(entries, entries[i].name, i);
}

/// Every stale pair joins an entry of the first listing with an entry of
/// the second that has the same name and another timestamp.
pub proof fn lemma_stale_pair(a: Seq<EntryView>, b: Seq<EntryView>, k: int)
    requires
        distinct_names(a),
        0 <= k < stale_pairs(a, b).len(),
    ensures
        exists|i: int, j: int|
            0 <= i < a.len() && 0 <= j < b.len() && stale_pairs(a, b)[k] == (
                #[trigger] a[i],
                #[trigger] b[j],
            ) && a[i].name == b[j].name && a[i].modified != b[j].modified,
{
    let both = in_both(a, b);
    let shared = b.filter(present_in(a));
    let p = stale_pairs(a, b)[k];
    both.lemma_filter_pred(is_stale(), k);
    assert(stale_pairs(a, b).contains(p));
    both.lemma_filter_contains_rev(is_stale(), p);
    let q = choose|q: int| 0 <= q < both.len() && both[q] == p;
    assert(p == paired_with(a)(shared[q]));
    lemma_filter_entry(b, present_in(a), q);
    let j = choose|j: int| 0 <= j < b.len() && #[trigger] b[j] == shared[q];
    assert(has_name(a, b[j].name));
    let i = choose|i: int| 0 <= i < a.len() && #[trigger] a[i].name == b[j].name;
    lemma_only_named(a, i);
    assert(p == (a[i], b[j]));
}

/// A name is that of a stale pair exactly if both listings have an entry of
/// that name and the two timestamps differ.
pub proof fn lemma_stale_names(a: Seq<EntryView>, b: Seq<EntryView>, name: Seq<char>)
    requires
        distinct_names(a),
    ensures
        pair_named(stale_pairs(a, b), name) <==> exists|i: int, j: int|
            0 <= i < a.len() && 0 <= j < b.len() && (#[trigger] a[i]).name == name && (
            #[trigger] b[j]).name == name && a[i].modified != b[j].modified,
{
    let stale = stale_pairs(a, b);
    let both = in_both(a, b);
    let shared = b.filter(present_in(a));
    if pair_named(stale, name) {
        let k = choose|k: int| 0 <= k < stale.len() && (#[trigger] stale[k]).1.name == name;
        lemma_stale_pair(a, b, k);
        let (i, j) = choose|i: int, j: int|
            0 <= i < a.len() && 0 <= j < b.len() && stale[k] == (#[trigger] a[i], #[trigger] b[j])
                && a[i].name == b[j].name && a[i].modified != b[j].modified;
        assert(a[i].name == name && b[j].name == name && a[i].modified != b[j].modified);
    }
    if exists|i: int, j: int|
        0 <= i < a.len() && 0 <= j < b.len() && (#[trigger] a[i]).name == name && (
        #[trigger] b[j]).name == name && a[i].modified != b[j].modified {
        let (i, j) = choose|i: int, j: int|
            0 <= i < a.len() && 0 <= j < b.len() && (#[trigger] a[i]).name == name && (
            #[trigger] b[j]).name == name && a[i].modified != b[j].modified;
        assert(has_name(a, b[j].name));
        b.lemma_filter_contains(present_in(a), j);
        let q = choose|q: int| 0 <= q < shared.len() && shared[q] == b[j];
        lemma_only_named(a, i);
        assert(both[q] == (a[i], b[j]));
        both.lemma_filter_contains(is_stale(), q);
        let k = choose|k: int| 0 <= k < stale.len() && stale[k] == both[q];
        assert(stale[k].1.name == name);
    }
}

/// No two pairs of the list have second entries of the same name.
pub open spec fn distinct_pairs(list: Seq<(EntryView, EntryView)>) -> bool {
    forall|i: int, j: int|
        0 <= i < j < list.len() ==> (#[trigger] list[i]).1.name != (#[trigger] list[j]).1.name
}

/// The pairs of a list without repeated names that pass a test have no
/// repeated names either.
pub proof fn lemma_distinct_pairs_filter(
    list: Seq<(EntryView, EntryView)>,
    pred: spec_fn((EntryView, EntryView)) -> bool,
)
    requires
        distinct_pairs(list),
    ensures
        distinct_pairs(list.filter(pred)),
    decreases list.len(),
{
    reveal(Seq::filter);
    if list.len() > 0 {
        let rest = list.drop_last();
        lemma_distinct_pairs_filter(rest, pred);
        let kept = rest.filter(pred);
        if pred(list.last()) {
            assert forall|i: int, j: int| 0 <= i < j < kept.len() + 1 implies (
            #[trigger] kept.push(list.last())[i]).1.name != (#[trigger] kept.push(
                list.last(),
            )[j]).1.name by {
                if j == kept.len() {
                    assert(kept.contains(kept[i]));
                    rest.lemma_filter_contains_rev(pred, kept[i]);
                    let k = choose|k: int| 0 <= k < rest.len() && rest[k] == kept[i];
                    assert(list[k].1.name != list[list.len() - 1].1.name);
                }
            }
        }
    }
}

/// The stale pairs of two listings without repeated names have no repeated
/// names either.
pub proof fn lemma_stale_distinct(a: Seq<EntryView>, b: Seq<EntryView>)
    requires
        distinct_names(b),
    ensures
        distinct_pairs(stale_pairs(a, b)),
{
    let shared = b.filter(present_in(a));
    lemma_distinct_filter(b, present_in(a));
    assert forall|i: int, j: int| 0 <= i < j < in_both(a, b).len() implies (#[trigger] in_both(
        a,
        b,
    )[i]).1.name != (#[trigger] in_both(a, b)[j]).1.name by {
        assert(in_both(a, b)[i].1 == shared[i]);
        assert(in_both(a, b)[j].1 == shared[j]);
    }
    lemma_distinct_pairs_filter(in_both(a, b), is_stale());
}

/// A name that occurs in a listing has a first position there.
pub proof fn lemma_first_exists(entries: Seq<EntryView>, name: Seq<char>, i: int)
    requires
        0 <= i < entries.len(),
        entries[i].name == name,
    ensures
        exists|k: int| first_named_at(entries, name, k),
    decreases i,
{
    if exists|j: int| 0 <= j < i && #[trigger] entries[j].name == name {
        let j = choose|j: int| 0 <= j < i && #[trigger] entries[j].name == name;
        lemma_first_exists(entries, name, j);
    } else {
        assert(first_named_at(entries, name, i));
    }
}

/// The differencer parts the names of two listings: a name of either falls
/// into exactly one of the three groups, by where it occurs.
pub proof fn law_diff_partitions(a: Seq<EntryView>, b: Seq<EntryView>, name: Seq<char>)
    ensures
        has_name(only_in(a, b), name) <==> has_name(a, name) && !has_name(b, name),
        has_name(only_in(b, a), name) <==> has_name(b, name) && !has_name(a, name),
        pair_named(in_both(a, b), name) <==> has_name(a, name) && has_name(b, name),
{
    lemma_filter_names(a, absent_from(b), name);
    lemma_filter_names(b, absent_from(a), name);
    lemma_filter_names(b, present_in(a), name);
    let shared = b.filter(present_in(a));
    if pair_named(in_both(a, b), name) {
        let k = choose|k: int| 0 <= k < in_both(a, b).len() && (#[trigger] in_both(a, b)[k]).1.name
            == name;
        assert(shared[k].name == name);
    }
    if has_name(shared, name) {
        let k = choose|k: int| 0 <= k < shared.len() && #[trigger] shared[k].name == name;
        assert(in_both(a, b)[k].1.name == name);
    }
}

/// The two entries of a shared pair have the same name, and the first is an
/// entry of the first listing, the second an entry of the second.
pub proof fn law_pairs_share_a_name(a: Seq<EntryView>, b: Seq<EntryView>, k: int)
    requires
        0 <= k < in_both(a, b).len(),
    ensures
        in_both(a, b)[k].0.name == in_both(a, b)[k].1.name,
        a.contains(in_both(a, b)[k].0),
        b.contains(in_both(a, b)[k].1),
{
    let shared = b.filter(present_in(a));
    lemma_filter_entry(b, present_in(a), k);
    let name = shared[k].name;
    let i = choose|i: int| 0 <= i < a.len() && #[trigger] a[i].name == name;
    lemma_first_exists(a, name, i);
    let first = choose|first: int| first_named_at(a, name, first);
    lemma_first_named(a, name, first);
    assert(in_both(a, b)[k] == (a[first], shared[k]));
    let j = choose|j: int| 0 <= j < b.len() && #[trigger] b[j] == shared[k];
    assert(b[j] == in_both(a, b)[k].1);
}

} // verus!
