//! What the library decides about a file tree from the names in it: whether
//! the root will do, which directory holds the dictionaries, and which files
//! are dictionaries or source files.

use crate::error::SyncError;
use crate::flavor::Flavor;
use crate::order::same_text;
use vstd::prelude::*;

verus! {

/// How far below the root the tree is searched; the root is at depth 0.
pub const MAX_DEPTH: usize = 10;

/// The name of the directory that holds the dictionaries.
pub const LANG_DIR: &'static str = "lang";

/// The extension of a dictionary file.
pub const DICTIONARY_EXTENSION: &'static str = "json";

/// Why a root will not do, if it will not: it must be there, and be a
/// directory.
pub open spec fn root_refusal(present: bool, is_dir: bool) -> Option<SyncError> {
    if !present {
        Some(SyncError::MissingRoot)
    } else if !is_dir {
        Some(SyncError::NotADirectory)
    } else {
        None
    }
}

/// What is found of a root.
pub open spec fn root_verdict(present: bool, is_dir: bool) -> Result<(), SyncError> {
    match root_refusal(present, is_dir) {
        Some(refusal) => Err(refusal),
        None => Ok(()),
    }
}

/// Accepts a root that is there and is a directory.
pub fn check_root(present: bool, is_dir: bool) -> (verdict: Result<(), SyncError>)
    ensures
        verdict == root_verdict(present, is_dir),
{
    if !present {
        Err(SyncError::MissingRoot)
    } else if !is_dir {
        Err(SyncError::NotADirectory)
    } else {
        Ok(())
    }
}

/// One entry met on a walk through the tree.
#[derive(Debug)]
pub struct TreeEntry {
    /// The entry's file name, without the directories that lead to it.
    pub name: String,
    /// Whether the entry is a directory.
    pub is_dir: bool,
    /// How many levels below the root the entry lies.
    pub depth: usize,
}

/// The last dot of `name` is at position `at`.
pub open spec fn is_last_dot(name: Seq<char>, at: int) -> bool {
    &&& 0 <= at < name.len()
    &&& name[at] == '.'
    &&& forall|j: int| at < j < name.len() ==> name[j] != '.'
}

/// The extension of a file name: what follows its last dot. A name without
/// a dot has none, nor has one whose only dot comes first, nor has `..`.
pub open spec fn extension_of(name: Seq<char>) -> Option<Seq<char>> {
    if name == seq!['.', '.'] {
        None
    } else if exists|at: int| is_last_dot(name, at) {
        let at = choose|at: int| is_last_dot(name, at);
        if at == 0 {
            None
        } else {
            Some(name.skip(at + 1))
        }
    } else {
        None
    }
}

/// The entry is a directory that may hold the dictionaries.
pub open spec fn is_lang_dir(entry: TreeEntry) -> bool {
    entry.is_dir && entry.depth <= MAX_DEPTH && entry.name@ == LANG_DIR@
}

/// `found` is the first directory among `entries` that may hold the
/// dictionaries, or `None` where there is none.
pub open spec fn is_first_lang_dir(entries: Seq<TreeEntry>, found: Option<usize>) -> bool {
    match found {
        Some(i) => {
            &&& i < entries.len()
            &&& is_lang_dir(entries[i as int])
            &&& forall|j: int| 0 <= j < i ==> !is_lang_dir(#[trigger] entries[j])
        },
        None => forall|j: int| 0 <= j < entries.len() ==> !is_lang_dir(#[trigger] entries[j]),
    }
}

/// A file of that name in the dictionaries' directory is a dictionary.
pub open spec fn names_dictionary(name: Seq<char>, is_dir: bool) -> bool {
    !is_dir && extension_of(name) == Some(DICTIONARY_EXTENSION@)
}

/// The entry is a source file of the flavor.
pub open spec fn is_source(flavor: Flavor, entry: TreeEntry) -> bool {
    !entry.is_dir && entry.depth <= MAX_DEPTH && extension_of(entry.name@) == Some(
        flavor.spec_extension(),
    )
}

/// The characters of a text, one by one.
fn chars_of(text: &str) -> (chars: Vec<char>)
    ensures
        chars@ == text@,
{
    let mut chars: Vec<char> = Vec::new();
    for c in it: text.chars()
        invariant
            it.seq() == text@,
            chars@ == text@.take(it.index() as int),
    {
        chars.push(c);
        assert(text@.take(it.index() + 1) =~= text@.take(it.index() as int).push(c));
    }
    assert(text@.take(text@.len() as int) =~= text@);
    chars
}

/// Whether the file name `name` has the extension `extension`.
pub fn has_extension(name: &str, extension: &str) -> (has: bool)
    ensures
        has == (extension_of(name@) == Some(extension@)),
{
    let chars = chars_of(name);
    let wanted = chars_of(extension);
    let mut end: usize = chars.len();
    while end > 0 && chars[end - 1] != '.'
        invariant
            end <= chars.len(),
            forall|j: int| end <= j < chars.len() ==> chars[j] != '.',
        decreases end,
    {
        end -= 1;
    }
    if end == 0 {
        assert(forall|at: int| !is_last_dot(name@, at));
        assert(name@ != seq!['.', '.']) by {
            if name@ == seq!['.', '.'] {
                assert(name@[0] == '.');
            }
        }
        return false;
    }
    let dot: usize = end - 1;
    proof {
        assert(is_last_dot(name@, dot as int));
        let at = choose|at: int| is_last_dot(name@, at);
        assert(at == dot) by {
            if at < dot {
                assert(name@[dot as int] != '.');
            } else if dot < at {
                assert(name@[at] != '.');
            }
        }
    }
    if dot == 0 {
        assert(name@ != seq!['.', '.']) by {
            if name@ == seq!['.', '.'] {
                assert(name@[1] == '.');
            }
        }
        return false;
    }
    if chars.len() == 2 && chars[0] == '.' {
        assert(name@ =~= seq!['.', '.']);
        return false;
    }
    assert(name@ != seq!['.', '.']) by {
        if name@ == seq!['.', '.'] {
            assert(name@.len() == 2 && name@[0] == '.');
        }
    }
    let ghost tail = name@.skip(dot + 1);
    if chars.len() - end != wanted.len() {
        assert(tail.len() != extension@.len());
        return false;
    }
    let mut i: usize = 0;
    while i < wanted.len()
        invariant
            i <= wanted.len(),
            end <= chars.len(),
            chars.len() - end == wanted.len(),
            chars@ == name@,
            wanted@ == extension@,
            tail == name@.skip(end as int),
            forall|j: int| 0 <= j < i ==> tail[j] == extension@[j],
        decreases wanted.len() - i,
    {
        if chars[end + i] != wanted[i] {
            assert(tail[i as int] != extension@[i as int]);
            return false;
        }
        i += 1;
    }
    assert(tail =~= extension@);
    true
}

/// Whether the entry is a directory that may hold the dictionaries: one
/// named `lang`, no deeper than the search goes.
pub fn is_localization_dir(entry: &TreeEntry) -> (accepted: bool)
    ensures
        accepted == is_lang_dir(*entry),
{
    entry.is_dir && entry.depth <= MAX_DEPTH && same_text(entry.name.as_str(), LANG_DIR)
}

/// Picks the directory that holds the dictionaries: the first one named
/// `lang` in the order of the walk.
pub fn find_localization_dir(entries: &Vec<TreeEntry>) -> (found: Option<usize>)
    ensures
        is_first_lang_dir(entries@, found),
{
    let mut i: usize = 0;
    while i < entries.len()
        invariant
            i <= entries.len(),
            forall|j: int| 0 <= j < i ==> !is_lang_dir(#[trigger] entries[j]),
        decreases entries.len() - i,
    {
        if is_localization_dir(&entries[i]) {
            return Some(i);
        }
        i += 1;
    }
    None
}

/// Whether a child of the dictionaries' directory is a dictionary: a file
/// with the extension `json`.
pub fn is_dictionary_file(name: &str, is_dir: bool) -> (accepted: bool)
    ensures
        accepted == names_dictionary(name@, is_dir),
{
    !is_dir && has_extension(name, DICTIONARY_EXTENSION)
}

/// Whether the entry is a source file of the flavor: a file with the
/// flavor's extension, no deeper than the search goes.
pub fn is_source_file(flavor: Flavor, entry: &TreeEntry) -> (accepted: bool)
    ensures
        accepted == is_source(flavor, *entry),
{
    !entry.is_dir && entry.depth <= MAX_DEPTH && has_extension(
        entry.name.as_str(),
        flavor.extension(),
    )
}

} // verus!
