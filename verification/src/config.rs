//! The three inputs of a run, as they come out of key-value settings: the
//! source folder, the backup folder, and the list of excluded names.

use vstd::prelude::*;
use vstd::string::*;
use crate::entry::names;

verus! {

/// Whether `c` has the Unicode property `White_Space`.
pub uninterp spec fn is_whitespace(c: char) -> bool;

/// Calls `char::is_whitespace` of the standard library, which tells whether
/// a character has the Unicode property `White_Space`. The contract gives
/// that answer the name `is_whitespace` and claims nothing else of it.
#[verifier::external_body]
fn whitespace(c: char) -> (white: bool)
    ensures
        white == is_whitespace(c),
{
    c.is_whitespace()
}

/// `s` without the white space it starts with.
pub open spec fn trim_front(s: Seq<char>) -> Seq<char>
    decreases s.len(),
{
    if s.len() > 0 && is_whitespace(s.first()) {
        trim_front(s.drop_first())
    } else {
        s
    }
}

/// `s` without the white space it ends with.
pub open spec fn trim_back(s: Seq<char>) -> Seq<char>
    decreases s.len(),
{
    if s.len() > 0 && is_whitespace(s.last()) {
        trim_back(s.drop_last())
    } else {
        s
    }
}

/// `s` without the white space around it.
pub open spec fn trimmed(s: Seq<char>) -> Seq<char> {
    trim_back(trim_front(s))
}

/// Whether `i` is the position of the first comma of `s`.
pub open spec fn first_comma_at(s: Seq<char>, i: int) -> bool {
    &&& 0 <= i < s.len()
    &&& s[i] == ','
    &&& forall|j: int| 0 <= j < i ==> s[j] != ','
}

/// The pieces into which the commas of `s` cut it, in order. There is one
/// piece more than there are commas; a piece may be empty.
pub open spec fn pieces(s: Seq<char>) -> Seq<Seq<char>>
    decreases s.len(),
{
    if exists|i: int| first_comma_at(s, i) {
        let i = choose|i: int| first_comma_at(s, i);
        seq![s.take(i)] + pieces(s.skip(i + 1))
    } else {
        seq![s]
    }
}

/// Takes a piece to what is left of it without the white space around it.
pub open spec fn trim() -> spec_fn(Seq<char>) -> Seq<char> {
    |piece: Seq<char>| trimmed(piece)
}

/// The excluded names that a setting's value stands for: none where the
/// value is empty, else its pieces between commas, each without the white
/// space around it.
pub open spec fn excluded_names(value: Seq<char>) -> Seq<Seq<char>> {
    if value.len() == 0 {
        Seq::empty()
    } else {
        pieces(value).map_values(trim())
    }
}

/// Takes the white space off both ends of `piece`.
pub fn trim_piece(piece: &str) -> (name: String)
    ensures
        name@ == trimmed(piece@),
{
    let n: usize = piece.unicode_len();
    let mut start: usize = 0;
    assert(piece@.skip(0) =~= piece@);
    while start < n && whitespace(piece.get_char(start))
        invariant
            n == piece@.len(),
            start <= n,
            trim_front(piece@) == trim_front(piece@.skip(start as int)),
        decreases n - start,
    {
        assert(piece@.skip(start as int).drop_first() =~= piece@.skip(start + 1));
        start += 1;
    }
    let ghost front = piece@.skip(start as int);
    assert(trim_front(piece@) == front);
    let mut end: usize = n;
    assert(front.take(n - start) =~= front);
    while end > start && whitespace(piece.get_char(end - 1))
        invariant
            n == piece@.len(),
            start <= end <= n,
            front == piece@.skip(start as int),
            trim_back(front) == trim_back(front.take(end - start)),
        decreases end - start,
    {
        assert(front.take(end - start).drop_last() =~= front.take(end - start - 1));
        end -= 1;
    }
    assert(front.take(end - start) =~= piece@.subrange(start as int, end as int));
    String::from_str(piece.substring_char(start, end))
}

/// Reads the list of excluded names out of the value of a setting.
///
/// The value is a list with commas between its items. White space around an
/// item does not count. An empty value stands for the empty list.
pub fn parse_filter_dirs(value: &str) -> (list: Vec<String>)
    ensures
        names(list@) == excluded_names(value@),
{
    let n: usize = value.unicode_len();
    let mut list: Vec<String> = Vec::new();
    if n == 0 {
        assert(names(list@) =~= Seq::empty());
        return list;
    }
    let ghost all = value@;
    let mut start: usize = 0;
    let mut i: usize = 0;
    assert(all.skip(0) =~= all);
    assert(names(list@).map_values(trim()) =~= names(list@));
    let ghost mut done: Seq<Seq<char>> = Seq::empty();
    assert(names(list@) =~= done.map_values(trim()));
    assert(done + pieces(all.skip(0)) =~= pieces(all));
    while i < n
        invariant
            n == all.len(),
            all == value@,
            start <= i <= n,
            names(list@) == done.map_values(trim()),
            pieces(all) == done + pieces(all.skip(start as int)),
            forall|j: int| start <= j < i ==> all[j] != ',',
        decreases n - i,
    {
        if value.get_char(i) == ',' {
            let ghost tail = all.skip(start as int);
            let name = trim_piece(value.substring_char(start, i));
            proof {
                assert(first_comma_at(tail, i - start));
                let k = choose|k: int| first_comma_at(tail, k);
                assert(k == i - start) by {
                    if k < i - start {
                        assert(tail[k] == all[start + k]);
                    }
                }
                assert(tail.take(i - start) =~= all.subrange(start as int, i as int));
                assert(tail.skip(i - start + 1) =~= all.skip(i + 1));
                assert(done + pieces(tail) =~= done.push(all.subrange(start as int, i as int))
                    + pieces(all.skip(i + 1)));
            }
            let ghost named = names(list@);
            list.push(name);
            proof {
                assert(names(list@) =~= named.push(trimmed(all.subrange(start as int, i as int))));
                done = done.push(all.subrange(start as int, i as int));
                assert(names(list@) =~= done.map_values(trim()));
            }
            start = i + 1;
        }
        i += 1;
    }
    let ghost tail = all.skip(start as int);
    let name = trim_piece(value.substring_char(start, n));
    proof {
        assert(!exists|k: int| first_comma_at(tail, k)) by {
            if exists|k: int| first_comma_at(tail, k) {
                let k = choose|k: int| first_comma_at(tail, k);
                assert(tail[k] == all[start + k]);
            }
        }
        assert(tail =~= all.subrange(start as int, n as int));
        assert(pieces(all) =~= done.push(tail));
    }
    let ghost named = names(list@);
    list.push(name);
    proof {
        assert(names(list@) =~= named.push(trimmed(tail)));
        assert(done.push(tail).map_values(trim()) =~= named.push(trimmed(tail)));
    }
    list
}

/// The three inputs of a run.
#[derive(Clone, Debug, PartialEq, Eq)]
pub struct Config {
    /// The root of the source tree.
    pub main_folder: String,
    /// The root of the backup tree.
    pub backup_folder: String,
    /// The names of the directories that are never mirrored.
    pub filter_dirs: Vec<String>,
}

/// A required setting that is missing.
#[derive(Clone, Copy, Debug, PartialEq, Eq, Structural)]
pub enum ConfigError {
    /// There is no source folder.
    MissingMainFolder,
    /// There is no backup folder.
    MissingBackupFolder,
}

/// The value of the setting for the excluded names, empty where the setting
/// is absent.
pub open spec fn filter_value(filter_dirs: Option<String>) -> Seq<char> {
    match filter_dirs {
        Some(value) => value@,
        None => Seq::empty(),
    }
}

/// Puts the inputs of a run together from the values of the three settings,
/// each `None` where the setting is absent.
///
/// The two folders are required; the source folder is looked at first. The
/// list of excluded names may be absent, which stands for the empty list.
pub fn configure(
    main_folder: Option<String>,
    backup_folder: Option<String>,
    filter_dirs: Option<String>,
) -> (config: Result<Config, ConfigError>)
    ensures
        main_folder is None ==> config == Err::<Config, ConfigError>(
            ConfigError::MissingMainFolder,
        ),
        main_folder is Some && backup_folder is None ==> config == Err::<Config, ConfigError>(
            ConfigError::MissingBackupFolder,
        ),
        main_folder is Some && backup_folder is Some ==> config is Ok && config->Ok_0.main_folder
            == main_folder->Some_0 && config->Ok_0.backup_folder == backup_folder->Some_0 && names(
            config->Ok_0.filter_dirs@,
        ) == excluded_names(filter_value(filter_dirs)),
{
    let main_folder = match main_folder {
        Some(folder) => folder,
        None => {
            return Err(ConfigError::MissingMainFolder);
        },
    };
    let backup_folder = match backup_folder {
        Some(folder) => folder,
        None => {
            return Err(ConfigError::MissingBackupFolder);
        },
    };
    let list = match filter_dirs {
        Some(value) => parse_filter_dirs(value.as_str()),
        None => {
            let list: Vec<String> = Vec::new();
            assert(names(list@) =~= Seq::empty());
            list
        },
    };
    Ok(Config { main_folder, backup_folder, filter_dirs: list })
}

} // verus!
