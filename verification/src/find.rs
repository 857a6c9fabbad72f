//! The decision rule of directory-walk filtering: which walked entries
//! are kept, given their entry type and which name patterns matched.

use vstd::prelude::*;

verus! {

/// The kinds of directory entry the walker can filter by.
#[derive(Debug, Eq, PartialEq)]
pub enum EntryType {
    Dir,
    File,
    Link,
}

/// Filter `t` accepts an entry with the given type flags.
pub open spec fn type_matches(t: EntryType, is_dir: bool, is_file: bool, is_link: bool) -> bool {
    match t {
        EntryType::Dir => is_dir,
        EntryType::File => is_file,
        EntryType::Link => is_link,
    }
}

/// No type filter was given, or some filter accepts the entry.
pub open spec fn types_pass(
    ts: Seq<EntryType>,
    is_dir: bool,
    is_file: bool,
    is_link: bool,
) -> bool {
    ts.len() == 0 || exists|i: int|
        0 <= i < ts.len() && type_matches(#[trigger] ts[i], is_dir, is_file, is_link)
}

/// No name pattern was given, or some pattern matched.
pub open spec fn names_pass(ms: Seq<bool>) -> bool {
    ms.len() == 0 || exists|i: int| 0 <= i < ms.len() && #[trigger] ms[i]
}

fn type_matches_exec(t: &EntryType, is_dir: bool, is_file: bool, is_link: bool) -> (r: bool)
    ensures
        r == type_matches(*t, is_dir, is_file, is_link),
{
    match t {
        EntryType::Dir => is_dir,
        EntryType::File => is_file,
        EntryType::Link => is_link,
    }
}

/// Keep a walked entry exactly when its type passes the type filters and
/// its name matched some pattern; an absent filter always passes.
/// `name_matches[i]` says whether the i-th name pattern matched the
/// entry's file name.
pub fn entry_selected(
    entry_types: &Vec<EntryType>,
    is_dir: bool,
    is_file: bool,
    is_link: bool,
    name_matches: &Vec<bool>,
) -> (r: bool)
    ensures
        r == (types_pass(entry_types@, is_dir, is_file, is_link) && names_pass(name_matches@)),
{
    let mut type_ok = entry_types.len() == 0;
    let mut i: usize = 0;
    while i < entry_types.len()
        invariant
            i <= entry_types@.len(),
            type_ok == (entry_types@.len() == 0 || exists|k: int|
                0 <= k < i && type_matches(#[trigger] entry_types@[k], is_dir, is_file, is_link)),
        decreases entry_types@.len() - i,
    {
        if type_matches_exec(&entry_types[i], is_dir, is_file, is_link) {
            proof {
                assert(type_matches(entry_types@[i as int], is_dir, is_file, is_link));
            }
            type_ok = true;
        }
        i += 1;
    }
    let mut name_ok = name_matches.len() == 0;
    let mut j: usize = 0;
    while j < name_matches.len()
        invariant
            j <= name_matches@.len(),
            name_ok == (name_matches@.len() == 0 || exists|k: int|
                0 <= k < j && #[trigger] name_matches@[k]),
        decreases name_matches@.len() - j,
    {
        if name_matches[j] {
            name_ok = true;
        }
        j += 1;
    }
    type_ok && name_ok
}

} // verus!
