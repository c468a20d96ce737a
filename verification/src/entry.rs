//! Directory entries as the planner sees them: a path, the name that is the
//! join key of every comparison, and the last-modified time.

use vstd::prelude::*;
use vstd::string::*;

verus! {

/// A last-modified time, as a signed offset from the Unix epoch.
///
/// The planner only ever asks whether two timestamps are equal.
#[derive(Clone, Copy, Debug, PartialEq, Eq, Structural)]
pub struct Timestamp {
    pub secs: i64,
    pub nanos: u32,
}

/// One child of a scanned directory.
#[derive(Clone, Debug, PartialEq, Eq)]
pub struct Entry {
    /// Where the entry lives.
    pub path: String,
    /// The name under which the entry is compared: the last component of
    /// `path`.
    pub name: String,
    /// When the entry was last modified.
    pub modified: Timestamp,
}

/// The mathematical value of an [`Entry`].
pub ghost struct EntryView {
    pub path: Seq<char>,
    pub name: Seq<char>,
    pub modified: Timestamp,
}

impl View for Entry {
    type V = EntryView;

    open spec fn view(&self) -> EntryView {
        EntryView { path: self.path@, name: self.name@, modified: self.modified }
    }
}

impl Entry {
    /// An independent copy of the entry.
    pub fn duplicate(&self) -> (copy: Entry)
        ensures
            copy@ == self@,
    {
        Entry { path: self.path.clone(), name: self.name.clone(), modified: self.modified }
    }
}

/// The entries of a listing, each taken by its view.
pub open spec fn listing(entries: Seq<Entry>) -> Seq<EntryView> {
    entries.map_values(|e: Entry| e@)
}

/// The strings of a list, each taken by its view.
pub open spec fn names(list: Seq<String>) -> Seq<Seq<char>> {
    list.map_values(|s: String| s@)
}

/// Whether some entry of `entries` is called `name`.
pub open spec fn has_name(entries: Seq<EntryView>, name: Seq<char>) -> bool {
    exists|i: int| 0 <= i < entries.len() && #[trigger] entries[i].name == name
}

/// Whether `i` is the position of the first entry of `entries` called `name`.
pub open spec fn first_named_at(entries: Seq<EntryView>, name: Seq<char>, i: int) -> bool {
    &&& 0 <= i < entries.len()
    &&& entries[i].name == name
    &&& forall|j: int| 0 <= j < i ==> #[trigger] entries[j].name != name
}

/// No two entries of the listing share a name.
pub open spec fn distinct_names(entries: Seq<EntryView>) -> bool {
    forall|i: int, j: int|
        0 <= i < j < entries.len() ==> #[trigger] entries[i].name != #[trigger] entries[j].name
}

/// The path of the child called `name` of the directory at `dir`.
///
/// A separator is put between the two unless `dir` is empty or already ends
/// with one.
pub open spec fn child_path_spec(dir: Seq<char>, name: Seq<char>) -> Seq<char> {
    if dir.len() == 0 || dir.last() == '/' {
        dir + name
    } else {
        dir + seq!['/'] + name
    }
}

/// Forms the path of the child called `name` of the directory at `dir`.
pub fn child_path(dir: &String, name: &String) -> (path: String)
    ensures
        path@ == child_path_spec(dir@, name@),
{
    let len: usize = dir.as_str().unicode_len();
    let mut path = dir.clone();
    if len > 0 && dir.as_str().get_char(len - 1) != '/' {
        proof {
            reveal_strlit("/");
        }
        path.append("/");
        assert(path@ == dir@ + seq!['/']);
    }
    path.append(name.as_str());
    path
}

/// Finds the first entry called `name`.
pub fn find_name(entries: &Vec<Entry>, name: &String) -> (found: Option<usize>)
    ensures
        match found {
            Some(i) => first_named_at(listing(entries@), name@, i as int),
            None => !has_name(listing(entries@), name@),
        },
{
    let mut i: usize = 0;
    while i < entries.len()
        invariant
            i <= entries.len(),
            forall|j: int| 0 <= j < i ==> #[trigger] listing(entries@)[j].name != name@,
        decreases entries.len() - i,
    {
        if entries[i].name == *name {
            return Some(i);
        }
        i += 1;
    }
    None
}

/// A name occurs in a listing if it is the name of the last entry or occurs
/// before it.
pub proof fn lemma_has_name_last(entries: Seq<EntryView>, name: Seq<char>)
    requires
        entries.len() > 0,
    ensures
        has_name(entries, name) <==> has_name(entries.drop_last(), name) || entries.last().name
            == name,
{
    let rest = entries.drop_last();
    if has_name(entries, name) {
        let i = choose|i: int| 0 <= i < entries.len() && #[trigger] entries[i].name == name;
        if i < entries.len() - 1 {
            assert(rest[i].name == name);
        }
    }
    if has_name(rest, name) {
        let i = choose|i: int| 0 <= i < rest.len() && #[trigger] rest[i].name == name;
        assert(entries[i].name == name);
    }
    if entries.last().name == name {
        assert(entries[entries.len() - 1].name == name);
    }
}

/// A name occurs among the entries that pass a test exactly if an entry of
/// that name passes it.
pub proof fn lemma_filter_names(
    entries: Seq<EntryView>,
    pred: spec_fn(EntryView) -> bool,
    name: Seq<char>,
)
    ensures
        has_name(entries.filter(pred), name) <==> exists|i: int|
            0 <= i < entries.len() && #[trigger] entries[i].name == name && pred(entries[i]),
{
    let kept = entries.filter(pred);
    if has_name(kept, name) {
        let j = choose|j: int| 0 <= j < kept.len() && #[trigger] kept[j].name == name;
        entries.lemma_filter_pred(pred, j);
        assert(kept.contains(kept[j]));
        entries.lemma_filter_contains_rev(pred, kept[j]);
        let i = choose|i: int| 0 <= i < entries.len() && entries[i] == kept[j];
        assert(entries[i].name == name && pred(entries[i]));
    }
    if exists|i: int| 0 <= i < entries.len() && #[trigger] entries[i].name == name && pred(entries[i]) {
        let i = choose|i: int|
            0 <= i < entries.len() && #[trigger] entries[i].name == name && pred(entries[i]);
        entries.lemma_filter_contains(pred, i);
        let j = choose|j: int| 0 <= j < kept.len() && kept[j] == entries[i];
        assert(kept[j].name == name);
    }
}

/// Every entry that passes a test is an entry of the listing and passes the
/// test.
pub proof fn lemma_filter_entry(entries: Seq<EntryView>, pred: spec_fn(EntryView) -> bool, j: int)
    requires
        0 <= j < entries.filter(pred).len(),
    ensures
        pred(entries.filter(pred)[j]),
        exists|i: int| 0 <= i < entries.len() && #[trigger] entries[i] == entries.filter(pred)[j],
{
    let kept = entries.filter(pred);
    entries.lemma_filter_pred(pred, j);
    assert(kept.contains(kept[j]));
    entries.lemma_filter_contains_rev(pred, kept[j]);
    let i = choose|i: int| 0 <= i < entries.len() && entries[i] == kept[j];
    assert(entries[i] == kept[j]);
}

/// No entry passes a test that every entry of the listing fails.
pub proof fn lemma_filter_none(entries: Seq<EntryView>, pred: spec_fn(EntryView) -> bool)
    requires
        forall|i: int| 0 <= i < entries.len() ==> !pred(#[trigger] entries[i]),
    ensures
        entries.filter(pred).len() == 0,
{
    if entries.filter(pred).len() > 0 {
        lemma_filter_entry(entries, pred, 0);
    }
}

/// The entries of a listing without repeated names that pass a test have no
/// repeated names either.
pub proof fn lemma_distinct_filter(entries: Seq<EntryView>, pred: spec_fn(EntryView) -> bool)
    requires
        distinct_names(entries),
    ensures
        distinct_names(entries.filter(pred)),
    decreases entries.len(),
{
    reveal(Seq::filter);
    if entries.len() > 0 {
        let rest = entries.drop_last();
        lemma_distinct_filter(rest, pred);
        let kept = rest.filter(pred);
        if pred(entries.last()) {
            assert forall|i: int, j: int| 0 <= i < j < kept.len() + 1 implies #[trigger] kept.push(
                entries.last(),
            )[i].name != #[trigger] kept.push(entries.last())[j].name by {
                if j == kept.len() {
                    lemma_filter_entry(rest, pred, i);
                    let k = choose|k: int| 0 <= k < rest.len() && #[trigger] rest[k] == kept[i];
                    assert(entries[k].name != entries[entries.len() - 1].name);
                }
            }
        }
    }
}

} // verus!
