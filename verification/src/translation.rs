//! The whole operation on values in memory: accepting the root, loading the
//! dictionaries, finding the keys in use, and bringing each dictionary in
//! step with them.

use crate::dictionary::{collected, lemma_reconcile_is_idempotent, reconciled, Dictionary};
use crate::error::SyncError;
use crate::extractor::{keys_in, KeyExtractor};
use crate::flavor::Flavor;
use crate::json::json_object;
use crate::keys::KeySet;
use crate::tree::{check_root, root_refusal};
use serde_json::Value;
use vstd::prelude::*;

verus! {

/// The keys that any of the source texts uses.
pub open spec fn used_keys(flavor: Flavor, sources: Seq<String>) -> Set<Seq<char>> {
    Set::new(
        |key: Seq<char>|
            exists|i: int|
                0 <= i < sources.len() && keys_in(flavor, #[trigger] sources[i]@).contains(key),
    )
}

/// `text` spells a dictionary.
pub open spec fn spells_dictionary(text: Vec<u8>) -> bool {
    json_object(text@) is Some
}

/// Some text does not spell a dictionary.
pub open spec fn some_text_is_no_dictionary(texts: Seq<Vec<u8>>) -> bool {
    exists|i: int| 0 <= i < texts.len() && !spells_dictionary(#[trigger] texts[i])
}

/// Loads the dictionaries of a project from the contents of its dictionary
/// files, one dictionary for each text and in the same order.
///
/// The root comes first: where it does not exist or is no directory,
/// nothing is loaded and the loading ends with that error. Else the first
/// text that does not spell one JSON object ends it.
pub fn get_translations(present: bool, is_dir: bool, texts: &Vec<Vec<u8>>) -> (r: Result<
    Vec<Dictionary>,
    SyncError,
>)
    ensures
        match r {
            Ok(dictionaries) => {
                &&& root_refusal(present, is_dir) is None
                &&& dictionaries.len() == texts.len()
                &&& forall|i: int|
                    0 <= i < texts.len() ==> spells_dictionary(#[trigger] texts[i])
                        && dictionaries[i]@ == collected(json_object(texts[i]@)->0)
            },
            Err(error) => match root_refusal(present, is_dir) {
                Some(refusal) => error == refusal,
                None => error is InvalidDictionary && some_text_is_no_dictionary(texts@),
            },
        },
{
    match check_root(present, is_dir) {
        Ok(()) => {},
        Err(error) => {
            return Err(error);
        },
    }
    let mut dictionaries: Vec<Dictionary> = Vec::new();
    let mut i: usize = 0;
    while i < texts.len()
        invariant
            i <= texts.len(),
            dictionaries.len() == i,
            root_refusal(present, is_dir) is None,
            forall|j: int|
                0 <= j < i ==> spells_dictionary(#[trigger] texts[j])
                    && dictionaries[j]@ == collected(json_object(texts[j]@)->0),
        decreases texts.len() - i,
    {
        match Dictionary::parse(texts[i].as_slice()) {
            Ok(dictionary) => {
                dictionaries.push(dictionary);
            },
            Err(error) => {
                assert(!spells_dictionary(texts[i as int]));
                return Err(error);
            },
        }
        i += 1;
    }
    Ok(dictionaries)
}

/// Finds the keys that the source texts use.
pub fn collect_keys(extractor: &KeyExtractor, sources: &Vec<String>) -> (keys: KeySet)
    ensures
        keys@ == used_keys(extractor.flavor(), sources@),
{
    let mut keys = KeySet::new();
    let mut i: usize = 0;
    assert(keys@ =~= used_keys(extractor.flavor(), sources@.take(0)));
    while i < sources.len()
        invariant
            i <= sources.len(),
            keys@ == used_keys(extractor.flavor(), sources@.take(i as int)),
        decreases sources.len() - i,
    {
        extractor.scan(sources[i].as_str(), &mut keys);
        proof {
            lemma_used_keys_grow(extractor.flavor(), sources@, i as int);
        }
        i += 1;
    }
    assert(sources@.take(sources.len() as int) =~= sources@);
    keys
}

/// One more source text adds the keys that it uses.
proof fn lemma_used_keys_grow(flavor: Flavor, sources: Seq<String>, n: int)
    requires
        0 <= n < sources.len(),
    ensures
        used_keys(flavor, sources.take(n + 1)) == used_keys(flavor, sources.take(n)).union(
            keys_in(flavor, sources[n]@),
        ),
{
    let shorter = sources.take(n);
    let longer = sources.take(n + 1);
    let grown = used_keys(flavor, shorter).union(keys_in(flavor, sources[n]@));
    assert forall|key: Seq<char>|
        used_keys(flavor, longer).contains(key) <==> grown.contains(key) by {
        if used_keys(flavor, longer).contains(key) {
            let i = choose|i: int|
                0 <= i < longer.len() && keys_in(flavor, #[trigger] longer[i]@).contains(key);
            if i < n {
                assert(keys_in(flavor, shorter[i]@).contains(key));
            }
        }
        if used_keys(flavor, shorter).contains(key) {
            let i = choose|i: int|
                0 <= i < shorter.len() && keys_in(flavor, #[trigger] shorter[i]@).contains(key);
            assert(keys_in(flavor, longer[i]@).contains(key));
        }
        if keys_in(flavor, sources[n]@).contains(key) {
            assert(keys_in(flavor, longer[n]@).contains(key));
        }
    }
    assert(used_keys(flavor, longer) =~= grown);
}

/// Synchronizing a dictionary once more with the same source texts changes
/// nothing: after the first run it holds every key that they use.
pub proof fn lemma_second_run_changes_nothing(
    flavor: Flavor,
    sources: Seq<String>,
    dictionary: Map<Seq<char>, Value>,
)
    ensures
        reconciled(reconciled(dictionary, used_keys(flavor, sources)), used_keys(flavor, sources))
            == reconciled(dictionary, used_keys(flavor, sources)),
{
    lemma_reconcile_is_idempotent(dictionary, used_keys(flavor, sources));
}

/// Brings every dictionary in step with the keys in use.
pub fn reconcile_all(dictionaries: Vec<Dictionary>, used: &KeySet) -> (done: Vec<Dictionary>)
    ensures
        done.len() == dictionaries.len(),
        forall|i: int|
            0 <= i < dictionaries.len() ==> (#[trigger] done[i])@ == reconciled(
                dictionaries[i]@,
                used@,
            ),
{
    let mut result: Vec<Dictionary> = Vec::new();
    for dictionary in items: dictionaries
        invariant
            items.seq() == dictionaries@,
            result.len() == items.index(),
            forall|i: int|
                0 <= i < result.len() ==> (#[trigger] result[i])@ == reconciled(
                    dictionaries[i]@,
                    used@,
                ),
    {
        let mut dictionary = dictionary;
        dictionary.reconcile(used);
        result.push(dictionary);
    }
    result
}

/// Synchronizes the dictionaries of a project with its source texts.
///
/// The root comes first: where it does not exist or is no directory, the
/// operation ends with that error, whatever else it was given, and hands
/// back nothing that could be written. Else it finds every key that a
/// source text uses and gives each dictionary that lacks one the placeholder
/// value under it. The dictionaries come back in the order in which they
/// were given, none added and none left out; with no dictionaries there is
/// nothing to write.
pub fn extract_translations(
    present: bool,
    is_dir: bool,
    extractor: &KeyExtractor,
    sources: &Vec<String>,
    dictionaries: Vec<Dictionary>,
) -> (r: Result<Vec<Dictionary>, SyncError>)
    ensures
        match r {
            Ok(synchronized) => {
                &&& root_refusal(present, is_dir) is None
                &&& synchronized.len() == dictionaries.len()
                &&& forall|i: int|
                    0 <= i < dictionaries.len() ==> (#[trigger] synchronized[i])@ == reconciled(
                        dictionaries[i]@,
                        used_keys(extractor.flavor(), sources@),
                    )
            },
            Err(error) => root_refusal(present, is_dir) == Some(error),
        },
{
    match check_root(present, is_dir) {
        Ok(()) => {},
        Err(error) => {
            return Err(error);
        },
    }
    let keys = collect_keys(extractor, sources);
    Ok(reconcile_all(dictionaries, &keys))
}

} // verus!
