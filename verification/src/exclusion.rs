//! The exclusion filter: takes the directories with an excluded name out of
//! both listings of a level, and names the backup directories among them for
//! deletion.

use vstd::prelude::*;
use crate::entry::{lemma_filter_entry, listing, names, Entry, EntryView};

verus! {

/// The test "the entry's name is none of `excluded`".
pub open spec fn is_retained(excluded: Seq<Seq<char>>) -> spec_fn(EntryView) -> bool {
    |e: EntryView| !excluded.contains(e.name)
}

/// The test "the entry's name is one of `excluded`".
pub open spec fn is_excluded(excluded: Seq<Seq<char>>) -> spec_fn(EntryView) -> bool {
    |e: EntryView| excluded.contains(e.name)
}

/// The directories of a listing, in order, whose name is not excluded.
pub open spec fn retained(dirs: Seq<EntryView>, excluded: Seq<Seq<char>>) -> Seq<EntryView> {
    dirs.filter(is_retained(excluded))
}

/// The directories of a listing, in order, whose name is excluded.
pub open spec fn purged(dirs: Seq<EntryView>, excluded: Seq<Seq<char>>) -> Seq<EntryView> {
    dirs.filter(is_excluded(excluded))
}

/// Whether `name` is one of the excluded names.
pub fn name_excluded(name: &String, to_filter: &Vec<String>) -> (found: bool)
    ensures
        found == names(to_filter@).contains(name@),
{
    let mut i: usize = 0;
    while i < to_filter.len()
        invariant
            i <= to_filter.len(),
            forall|j: int| 0 <= j < i ==> names(to_filter@)[j] != name@,
        decreases to_filter.len() - i,
    {
        if to_filter[i] == *name {
            assert(names(to_filter@)[i as int] == name@);
            return true;
        }
        i += 1;
    }
    false
}

/// Splits a listing of directories into those that stay and those with an
/// excluded name, each in the order of the listing.
pub fn split_excluded(dirs: &Vec<Entry>, to_filter: &Vec<String>) -> (parts: (Vec<Entry>, Vec<Entry>))
    ensures
        listing(parts.0@) == retained(listing(dirs@), names(to_filter@)),
        listing(parts.1@) == purged(listing(dirs@), names(to_filter@)),
{
    let ghost all = listing(dirs@);
    let ghost excluded = names(to_filter@);
    let mut kept: Vec<Entry> = Vec::new();
    let mut dropped: Vec<Entry> = Vec::new();
    let mut i: usize = 0;
    proof {
        assert(all.take(0) =~= Seq::empty());
        all.take(0).lemma_filter_len(is_retained(excluded));
        all.take(0).lemma_filter_len(is_excluded(excluded));
        assert(listing(kept@) =~= all.take(0).filter(is_retained(excluded)));
        assert(listing(dropped@) =~= all.take(0).filter(is_excluded(excluded)));
    }
    while i < dirs.len()
        invariant
            i <= dirs.len(),
            all == listing(dirs@),
            excluded == names(to_filter@),
            listing(kept@) == all.take(i as int).filter(is_retained(excluded)),
            listing(dropped@) == all.take(i as int).filter(is_excluded(excluded)),
        decreases dirs.len() - i,
    {
        let ghost kept_before = listing(kept@);
        let ghost dropped_before = listing(dropped@);
        proof {
            assert(all.take(i + 1) =~= all.take(i as int).push(all[i as int]));
            all.take(i as int).lemma_filter_push(all[i as int], is_retained(excluded));
            all.take(i as int).lemma_filter_push(all[i as int], is_excluded(excluded));
        }
        if name_excluded(&dirs[i].name, to_filter) {
            dropped.push(dirs[i].duplicate());
            assert(listing(dropped@) =~= dropped_before.push(all[i as int]));
        } else {
            kept.push(dirs[i].duplicate());
            assert(listing(kept@) =~= kept_before.push(all[i as int]));
        }
        i += 1;
    }
    assert(all.take(dirs.len() as int) =~= all);
    (kept, dropped)
}

/// Applies the exclusion list to the directories of one level.
///
/// Every directory with an excluded name leaves both listings, so that no
/// later step copies it, deletes it or descends into it. The backup
/// directories that left are returned: they are to be deleted with all they
/// hold before anything else is done at this level. The source directories
/// that left are not touched.
pub fn filter_files(
    main_dirs: &mut Vec<Entry>,
    backup_dirs: &mut Vec<Entry>,
    to_filter: &Vec<String>,
) -> (doomed: Vec<Entry>)
    ensures
        listing(final(main_dirs)@) == retained(listing(old(main_dirs)@), names(to_filter@)),
        listing(final(backup_dirs)@) == retained(listing(old(backup_dirs)@), names(to_filter@)),
        listing(doomed@) == purged(listing(old(backup_dirs)@), names(to_filter@)),
        forall|i: int|
            0 <= i < final(main_dirs)@.len() ==> !names(to_filter@).contains(
                #[trigger] listing(final(main_dirs)@)[i].name,
            ),
        forall|i: int|
            0 <= i < final(backup_dirs)@.len() ==> !names(to_filter@).contains(
                #[trigger] listing(final(backup_dirs)@)[i].name,
            ),
        forall|i: int|
            0 <= i < doomed@.len() ==> names(to_filter@).contains(
                #[trigger] listing(doomed@)[i].name,
            ),
{
    let ghost excluded = names(to_filter@);
    let ghost main_before = listing(main_dirs@);
    let ghost backup_before = listing(backup_dirs@);
    let (main_kept, _) = split_excluded(main_dirs, to_filter);
    let (backup_kept, doomed) = split_excluded(backup_dirs, to_filter);
    *main_dirs = main_kept;
    *backup_dirs = backup_kept;
    proof {
        assert forall|i: int| 0 <= i < main_dirs@.len() implies !excluded.contains(
            #[trigger] listing(main_dirs@)[i].name,
        ) by {
            lemma_filter_entry(main_before, is_retained(excluded), i);
        }
        assert forall|i: int| 0 <= i < backup_dirs@.len() implies !excluded.contains(
            #[trigger] listing(backup_dirs@)[i].name,
        ) by {
            lemma_filter_entry(backup_before, is_retained(excluded), i);
        }
        assert forall|i: int| 0 <= i < doomed@.len() implies excluded.contains(
            #[trigger] listing(doomed@)[i].name,
        ) by {
            lemma_filter_entry(backup_before, is_excluded(excluded), i);
        }
    }
    doomed
}

} // verus!
