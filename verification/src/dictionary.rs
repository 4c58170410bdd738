//! A localization dictionary: the members of one flat JSON object, kept in
//! key order.

use crate::error::SyncError;
use crate::json::{
    json_object, json_string, members_of, pretty_object, read_object, string_value, write_object,
};
use crate::keys::KeySet;
use crate::order::{key_before, lemma_key_before_asymmetric, lemma_key_before_irreflexive};
use crate::sorted::{
    held_keys, holds_key, is_place_of, keys_ascend, lemma_held_keys_count, lemma_insert_adds_key,
    lemma_insert_keeps_order, lemma_key_index_is_unique, locate, Keyed,
};
use serde_json::Value;
use vstd::prelude::*;

verus! {

/// The text of the value that stands in for a translation not yet made.
pub const PLACEHOLDER: &'static str = "@@@TODO@@@";

/// The value given to a key that a dictionary lacks.
pub open spec fn placeholder() -> Value {
    json_string(PLACEHOLDER@)
}

/// A dictionary after it has been brought in step with the keys in use:
/// every key it held keeps its value, and every used key it lacked holds
/// the placeholder.
pub open spec fn reconciled(dictionary: Map<Seq<char>, Value>, used: Set<Seq<char>>) -> Map<
    Seq<char>,
    Value,
> {
    Map::new(
        |key: Seq<char>| dictionary.contains_key(key) || used.contains(key),
        |key: Seq<char>|
            if dictionary.contains_key(key) {
                dictionary[key]
            } else {
                placeholder()
            },
    )
}

/// The mapping that a sequence of members spells; of two members with one
/// key the later counts.
pub open spec fn collected(members: Seq<(Seq<char>, Value)>) -> Map<Seq<char>, Value>
    decreases members.len(),
{
    if members.len() == 0 {
        Map::empty()
    } else {
        collected(members.drop_last()).insert(members.last().0, members.last().1)
    }
}

/// `members` lists `mapping`: it holds each key of the mapping once, beside
/// the value that the mapping gives it, and the keys ascend.
pub open spec fn lists(members: Seq<(Seq<char>, Value)>, mapping: Map<Seq<char>, Value>) -> bool {
    &&& forall|i: int, j: int|
        0 <= i < j < members.len() ==> key_before(
            (#[trigger] members[i]).0,
            (#[trigger] members[j]).0,
        )
    &&& forall|i: int|
        0 <= i < members.len() ==> mapping.contains_key((#[trigger] members[i]).0)
            && mapping[members[i].0] == members[i].1
    &&& forall|key: Seq<char>| #[trigger]
        mapping.contains_key(key) ==> exists|i: int|
            0 <= i < members.len() && (#[trigger] members[i]).0 == key
}

/// Reconciling a second time with the same keys changes nothing.
pub proof fn lemma_reconcile_is_idempotent(dictionary: Map<Seq<char>, Value>, used: Set<Seq<char>>)
    ensures
        reconciled(reconciled(dictionary, used), used) == reconciled(dictionary, used),
{
    assert(reconciled(reconciled(dictionary, used), used) =~= reconciled(dictionary, used));
}

/// Reconciling neither removes nor changes what a dictionary holds, be the
/// key in use or not.
pub proof fn lemma_reconcile_keeps_members(
    dictionary: Map<Seq<char>, Value>,
    used: Set<Seq<char>>,
    key: Seq<char>,
)
    requires
        dictionary.contains_key(key),
    ensures
        reconciled(dictionary, used).contains_key(key),
        reconciled(dictionary, used)[key] == dictionary[key],
{
}

/// After reconciling, a dictionary holds every key in use: with the value
/// it had, where it had one, and else with the placeholder.
pub proof fn lemma_reconcile_is_complete(
    dictionary: Map<Seq<char>, Value>,
    used: Set<Seq<char>>,
    key: Seq<char>,
)
    requires
        used.contains(key),
    ensures
        reconciled(dictionary, used).contains_key(key),
        reconciled(dictionary, used)[key] == if dictionary.contains_key(key) {
            dictionary[key]
        } else {
            placeholder()
        },
{
}

/// Reconciling adds keys in use and no others.
pub proof fn lemma_reconcile_adds_used_keys_only(
    dictionary: Map<Seq<char>, Value>,
    used: Set<Seq<char>>,
)
    ensures
        reconciled(dictionary, used).dom() == dictionary.dom().union(used),
{
    assert(reconciled(dictionary, used).dom() =~= dictionary.dom().union(used));
}

/// A mapping has one listing only, so how a dictionary is written depends
/// on what it holds and not on the order in which that came in.
pub proof fn lemma_listing_is_unique(
    first: Seq<(Seq<char>, Value)>,
    second: Seq<(Seq<char>, Value)>,
    mapping: Map<Seq<char>, Value>,
)
    requires
        lists(first, mapping),
        lists(second, mapping),
    ensures
        first == second,
    decreases first.len(),
{
    if first.len() == 0 {
        if second.len() > 0 {
            assert(mapping.contains_key(second[0].0));
        }
        assert(first =~= second);
    } else {
        assert(mapping.contains_key(first[0].0));
        let a = first.last();
        let b = second.last();
        assert(mapping.contains_key(a.0));
        assert(mapping.contains_key(b.0));
        let i = choose|i: int| 0 <= i < second.len() && (#[trigger] second[i]).0 == a.0;
        let j = choose|j: int| 0 <= j < first.len() && (#[trigger] first[j]).0 == b.0;
        if a.0 != b.0 {
            assert(key_before(second[i].0, b.0));
            assert(key_before(first[j].0, a.0));
            lemma_key_before_asymmetric(a.0, b.0);
        }
        assert(a == b);
        let rest = mapping.remove(a.0);
        lemma_listing_drops_last(first, mapping);
        lemma_listing_drops_last(second, mapping);
        lemma_listing_is_unique(first.drop_last(), second.drop_last(), rest);
        assert(first =~= first.drop_last().push(a));
        assert(second =~= second.drop_last().push(b));
    }
}

/// Read as members that came in one by one, a listing spells the mapping
/// that it lists.
pub proof fn lemma_listing_spells_its_mapping(
    members: Seq<(Seq<char>, Value)>,
    mapping: Map<Seq<char>, Value>,
)
    requires
        lists(members, mapping),
    ensures
        collected(members) == mapping,
    decreases members.len(),
{
    if members.len() == 0 {
        assert(mapping =~= Map::empty());
    } else {
        let last = members.last();
        lemma_listing_drops_last(members, mapping);
        lemma_listing_spells_its_mapping(members.drop_last(), mapping.remove(last.0));
        assert(mapping.contains_key(members[members.len() - 1].0));
        assert(mapping.remove(last.0).insert(last.0, last.1) =~= mapping);
    }
}

/// Without its last member a listing lists the mapping without that key.
proof fn lemma_listing_drops_last(members: Seq<(Seq<char>, Value)>, mapping: Map<Seq<char>, Value>)
    requires
        lists(members, mapping),
        members.len() > 0,
    ensures
        lists(members.drop_last(), mapping.remove(members.last().0)),
{
    let shorter = members.drop_last();
    let last = members.last();
    let rest = mapping.remove(last.0);
    assert forall|i: int| 0 <= i < shorter.len() implies rest.contains_key(
        (#[trigger] shorter[i]).0,
    ) && rest[shorter[i].0] == shorter[i].1 by {
        assert(shorter[i] == members[i]);
        assert(key_before(members[i].0, members[members.len() - 1].0));
        lemma_key_before_irreflexive(last.0);
    }
    assert forall|key: Seq<char>| #[trigger] rest.contains_key(key) implies exists|i: int|
        0 <= i < shorter.len() && (#[trigger] shorter[i]).0 == key by {
        assert(mapping.contains_key(key));
        let i = choose|i: int| 0 <= i < members.len() && (#[trigger] members[i]).0 == key;
        assert(shorter[i].0 == key);
    }
    assert forall|i: int, j: int| 0 <= i < j < shorter.len() implies key_before(
        (#[trigger] shorter[i]).0,
        (#[trigger] shorter[j]).0,
    ) by {
        assert(shorter[i] == members[i] && shorter[j] == members[j]);
    }
}

/// Ascending entries list the mapping that they spell.
proof fn lemma_entries_list_their_map(entries: Seq<(String, Value)>)
    requires
        keys_ascend(entries),
    ensures
        lists(members_of(entries), entry_map(entries)),
{
    let members = members_of(entries);
    let mapping = entry_map(entries);
    assert forall|i: int, j: int| 0 <= i < j < members.len() implies key_before(
        (#[trigger] members[i]).0,
        (#[trigger] members[j]).0,
    ) by {
        assert(key_before(entries[i].key(), entries[j].key()));
    }
    assert forall|i: int| 0 <= i < members.len() implies mapping.contains_key(
        (#[trigger] members[i]).0,
    ) && mapping[members[i].0] == members[i].1 by {
        lemma_entry_map_at(entries, i);
    }
    assert forall|key: Seq<char>| #[trigger] mapping.contains_key(key) implies exists|i: int|
        0 <= i < members.len() && (#[trigger] members[i]).0 == key by {
        let i = index_of(entries, key);
        assert(members[i].0 == key);
    }
}

impl Keyed for (String, Value) {
    open spec fn key(&self) -> Seq<char> {
        self.0@
    }

    fn key_text(&self) -> (text: &str) {
        self.0.as_str()
    }
}

/// The index of the entry filed under `key`.
spec fn index_of(entries: Seq<(String, Value)>, key: Seq<char>) -> int {
    choose|i: int| 0 <= i < entries.len() && #[trigger] entries[i].key() == key
}

/// The mapping from each entry's key to its value.
spec fn entry_map(entries: Seq<(String, Value)>) -> Map<Seq<char>, Value> {
    Map::new(
        |key: Seq<char>| holds_key(entries, key),
        |key: Seq<char>| entries[index_of(entries, key)].1,
    )
}

/// In ascending entries each key is mapped to the value beside it.
proof fn lemma_entry_map_at(entries: Seq<(String, Value)>, i: int)
    requires
        keys_ascend(entries),
        0 <= i < entries.len(),
    ensures
        entry_map(entries).contains_key(entries[i].key()),
        entry_map(entries)[entries[i].key()] == entries[i].1,
{
    lemma_key_index_is_unique(entries, i, index_of(entries, entries[i].key()));
}

/// A new entry at the place found for its key extends the mapping by it.
proof fn lemma_entry_map_insert(entries: Seq<(String, Value)>, at: usize, entry: (String, Value))
    requires
        keys_ascend(entries),
        is_place_of(entries, entry.key(), Err(at)),
    ensures
        keys_ascend(entries.insert(at as int, entry)),
        entry_map(entries.insert(at as int, entry)) == entry_map(entries).insert(entry.0@, entry.1),
{
    let after = entries.insert(at as int, entry);
    lemma_insert_keeps_order(entries, at, entry);
    lemma_insert_adds_key(entries, at as int, entry);
    assert forall|key: Seq<char>| holds_key(after, key) implies entry_map(after)[key] == entry_map(
        entries,
    ).insert(entry.0@, entry.1)[key] by {
        assert(held_keys(after).contains(key));
        if key == entry.0@ {
            lemma_entry_map_at(after, at as int);
        } else {
            assert(held_keys(entries).contains(key));
            let i = index_of(entries, key);
            lemma_entry_map_at(entries, i);
            if i < at {
                lemma_entry_map_at(after, i);
            } else {
                lemma_entry_map_at(after, i + 1);
            }
        }
    }
    assert forall|key: Seq<char>| holds_key(after, key) <==> entry_map(entries).insert(
        entry.0@,
        entry.1,
    ).contains_key(key) by {
        assert(held_keys(after).contains(key) <==> held_keys(entries).insert(
            entry.key(),
        ).contains(key));
    }
    assert(entry_map(after) =~= entry_map(entries).insert(entry.0@, entry.1));
}

/// A new value beside a key that is held replaces the old one.
proof fn lemma_entry_map_update(entries: Seq<(String, Value)>, i: int, entry: (String, Value))
    requires
        keys_ascend(entries),
        0 <= i < entries.len(),
        entries[i].key() == entry.key(),
    ensures
        keys_ascend(entries.update(i, entry)),
        entry_map(entries.update(i, entry)) == entry_map(entries).insert(entry.0@, entry.1),
{
    let after = entries.update(i, entry);
    assert forall|a: int, b: int| 0 <= a < b < after.len() implies key_before(
        #[trigger] after[a].key(),
        #[trigger] after[b].key(),
    ) by {
        assert(after[a].key() == entries[a].key());
        assert(after[b].key() == entries[b].key());
    }
    assert forall|key: Seq<char>| holds_key(after, key) <==> holds_key(entries, key) by {
        if holds_key(after, key) {
            let j = choose|j: int| 0 <= j < after.len() && #[trigger] after[j].key() == key;
            assert(entries[j].key() == key);
        }
        if holds_key(entries, key) {
            let j = choose|j: int| 0 <= j < entries.len() && #[trigger] entries[j].key() == key;
            assert(after[j].key() == key);
        }
    }
    assert(holds_key(entries, entry.key()));
    assert forall|key: Seq<char>| holds_key(after, key) implies entry_map(after)[key] == entry_map(
        entries,
    ).insert(entry.0@, entry.1)[key] by {
        let j = index_of(after, key);
        lemma_entry_map_at(after, j);
        if key != entry.0@ {
            assert(entries[j].key() == key);
            lemma_entry_map_at(entries, j);
        } else {
            lemma_key_index_is_unique(after, i, j);
        }
    }
    assert(entry_map(after) =~= entry_map(entries).insert(entry.0@, entry.1));
}

/// A localization dictionary: a mapping from translation key to JSON value.
/// No key is held twice, and the members are kept in key order, so that a
/// dictionary is written the same way whatever order it was read in.
#[derive(Debug)]
pub struct Dictionary {
    entries: Vec<(String, Value)>,
}

impl View for Dictionary {
    type V = Map<Seq<char>, Value>;

    closed spec fn view(&self) -> Map<Seq<char>, Value> {
        entry_map(self.entries@)
    }
}

impl Dictionary {
    #[verifier::type_invariant]
    spec fn ascends(self) -> bool {
        keys_ascend(self.entries@)
    }

    /// The members in the order in which they are written: key order.
    pub closed spec fn members(&self) -> Seq<(Seq<char>, Value)> {
        members_of(self.entries@)
    }

    /// The dictionary without members.
    pub fn new() -> (dictionary: Dictionary)
        ensures
            dictionary@ == Map::<Seq<char>, Value>::empty(),
    {
        let dictionary = Dictionary { entries: Vec::new() };
        assert(dictionary@ =~= Map::<Seq<char>, Value>::empty());
        dictionary
    }

    /// How many keys the dictionary holds.
    pub fn len(&self) -> (count: usize)
        ensures
            self@.dom().finite(),
            count == self@.len(),
    {
        proof {
            use_type_invariant(self);
            lemma_held_keys_count(self.entries@);
            assert(self@.dom() =~= held_keys(self.entries@));
        }
        self.entries.len()
    }

    /// Whether the dictionary holds `key`.
    pub fn contains_key(&self, key: &str) -> (held: bool)
        ensures
            held == self@.contains_key(key@),
    {
        proof {
            use_type_invariant(self);
        }
        match locate(&self.entries, key) {
            Ok(_) => true,
            Err(_) => false,
        }
    }

    /// The value held under `key`, if any.
    pub fn get(&self, key: &str) -> (value: Option<&Value>)
        ensures
            match value {
                Some(held) => self@.contains_key(key@) && *held == self@[key@],
                None => !self@.contains_key(key@),
            },
    {
        proof {
            use_type_invariant(self);
        }
        match locate(&self.entries, key) {
            Ok(i) => {
                proof {
                    lemma_entry_map_at(self.entries@, i as int);
                }
                Some(&self.entries[i].1)
            },
            Err(_) => None,
        }
    }

    /// Files `value` under `key`, in place of the value held there, if any.
    pub fn insert(&mut self, key: String, value: Value)
        ensures
            final(self)@ == old(self)@.insert(key@, value),
    {
        proof {
            use_type_invariant(&*self);
        }
        let place = locate(&self.entries, key.as_str());
        let mut entries: Vec<(String, Value)> = Vec::new();
        core::mem::swap(&mut entries, &mut self.entries);
        match place {
            Ok(i) => {
                proof {
                    lemma_entry_map_update(entries@, i as int, (key, value));
                }
                entries.set(i, (key, value));
            },
            Err(at) => {
                proof {
                    lemma_entry_map_insert(entries@, at, (key, value));
                }
                entries.insert(at, (key, value));
            },
        }
        self.entries = entries;
    }

    /// Gives `key` the placeholder value unless the dictionary holds the key
    /// already, and says whether it was added.
    pub fn insert_placeholder(&mut self, key: &str) -> (added: bool)
        ensures
            added == !old(self)@.contains_key(key@),
            final(self)@ == if added {
                old(self)@.insert(key@, placeholder())
            } else {
                old(self)@
            },
    {
        proof {
            use_type_invariant(&*self);
        }
        match locate(&self.entries, key) {
            Ok(_) => false,
            Err(at) => {
                let entry = (String::from_str(key), string_value(PLACEHOLDER));
                let mut entries: Vec<(String, Value)> = Vec::new();
                core::mem::swap(&mut entries, &mut self.entries);
                proof {
                    lemma_entry_map_insert(entries@, at, entry);
                }
                entries.insert(at, entry);
                self.entries = entries;
                true
            },
        }
    }

    /// Brings the dictionary in step with the keys in use: each used key
    /// that it lacks is added with the placeholder value. What it holds
    /// already stays as it is, whether in use or not.
    pub fn reconcile(&mut self, used: &KeySet)
        ensures
            final(self)@ == reconciled(old(self)@, used@),
    {
        let ghost before = self@;
        let ghost keys = used.ordered();
        let count = used.len();
        proof {
            used.lemma_ordered_holds_the_keys();
            assert(self@ =~= reconciled(before, keys.take(0).to_set()));
        }
        let mut i: usize = 0;
        while i < count
            invariant
                i <= count == keys.len(),
                keys == used.ordered(),
                self@ == reconciled(before, keys.take(i as int).to_set()),
            decreases count - i,
        {
            match used.get(i) {
                Some(key) => {
                    self.insert_placeholder(key);
                },
                None => {},
            }
            proof {
                assert(keys.take(i + 1) =~= keys.take(i as int).push(keys[i as int]));
                keys.take(i as int).lemma_push_to_set_commute(keys[i as int]);
                assert(self@ =~= reconciled(before, keys.take(i + 1).to_set()));
            }
            i += 1;
        }
        proof {
            assert(keys.take(keys.len() as int) =~= keys);
        }
    }

    /// Makes a dictionary of the given members; of two with one key the
    /// later counts.
    pub fn from_members(pairs: Vec<(String, Value)>) -> (dictionary: Dictionary)
        ensures
            dictionary@ == collected(members_of(pairs@)),
    {
        let ghost all = members_of(pairs@);
        let mut dictionary = Dictionary::new();
        for pair in items: pairs
            invariant
                all == members_of(pairs@),
                items.seq() == pairs@,
                dictionary@ == collected(all.take(items.index() as int)),
        {
            proof {
                let n = items.index() as int;
                assert(all.take(n + 1).drop_last() =~= all.take(n));
            }
            let (key, value) = pair;
            dictionary.insert(key, value);
        }
        proof {
            assert(all.take(all.len() as int) =~= all);
        }
        dictionary
    }

    /// Reads a dictionary from the bytes of a JSON text, which must spell one
    /// JSON object.
    pub fn parse(text: &[u8]) -> (r: Result<Dictionary, SyncError>)
        ensures
            r is Ok <==> json_object(text@) is Some,
            r matches Ok(dictionary) ==> dictionary@ == collected(json_object(text@)->0),
            r matches Err(error) ==> error is InvalidDictionary,
    {
        match read_object(text) {
            Ok(pairs) => Ok(Dictionary::from_members(pairs)),
            Err(cause) => Err(SyncError::InvalidDictionary(cause)),
        }
    }

    /// The member at position `index` in key order, if there are that many.
    pub fn member_at(&self, index: usize) -> (member: Option<(&str, &Value)>)
        ensures
            lists(self.members(), self@),
            match member {
                Some(found) => index < self.members().len() && (found.0@, *found.1)
                    == self.members()[index as int],
                None => index >= self.members().len(),
            },
    {
        proof {
            use_type_invariant(self);
            lemma_entries_list_their_map(self.entries@);
        }
        if index < self.entries.len() {
            Some((self.entries[index].0.as_str(), &self.entries[index].1))
        } else {
            None
        }
    }

    /// Writes the dictionary as pretty-printed JSON: one object with the
    /// dictionary's members in key order.
    pub fn to_pretty_json(&self) -> (r: Result<String, SyncError>)
        ensures
            lists(self.members(), self@),
            r is Ok <==> pretty_object(self.members()) is Some,
            r matches Ok(text) ==> Some(text@) == pretty_object(self.members()),
            r matches Err(error) ==> error is UnwritableDictionary,
    {
        proof {
            use_type_invariant(self);
            lemma_entries_list_their_map(self.entries@);
        }
        match write_object(&self.entries) {
            Ok(text) => Ok(text),
            Err(cause) => Err(SyncError::UnwritableDictionary(cause)),
        }
    }
}

} // verus!
