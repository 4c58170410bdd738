//! The set of translation keys that the source files use.

use crate::order::{key_before, strings_ascend};
use crate::sorted::{
    held_keys, holds_key, keys_ascend, keys_of, lemma_held_keys_count, lemma_insert_adds_key,
    lemma_insert_keeps_order, locate, Keyed,
};
use vstd::prelude::*;

verus! {

/// The keys among what a pattern's group captured, match by match.
pub open spec fn captured_keys(found: Seq<Option<Seq<char>>>) -> Set<Seq<char>> {
    Set::new(
        |key: Seq<char>| exists|i: int| 0 <= i < found.len() && #[trigger] found[i] == Some(key),
    )
}

impl Keyed for String {
    open spec fn key(&self) -> Seq<char> {
        self@
    }

    fn key_text(&self) -> (text: &str) {
        self.as_str()
    }
}

/// A set of translation keys. However often a key is put in, it is held
/// once; the keys are kept in key order.
#[derive(Debug)]
pub struct KeySet {
    keys: Vec<String>,
}

impl View for KeySet {
    type V = Set<Seq<char>>;

    closed spec fn view(&self) -> Set<Seq<char>> {
        held_keys(self.keys@)
    }
}

impl KeySet {
    #[verifier::type_invariant]
    spec fn ascends(self) -> bool {
        keys_ascend(self.keys@)
    }

    /// The keys in key order.
    pub closed spec fn ordered(&self) -> Seq<Seq<char>> {
        keys_of(self.keys@)
    }

    /// The keys in key order are the keys of the set.
    pub proof fn lemma_ordered_holds_the_keys(&self)
        ensures
            self.ordered().to_set() == self@,
    {
        let keys = self.ordered();
        assert forall|key: Seq<char>| holds_key(self.keys@, key) <==> keys.contains(key) by {
            if holds_key(self.keys@, key) {
                let i = choose|i: int|
                    0 <= i < self.keys@.len() && #[trigger] self.keys@[i].key() == key;
                assert(keys[i] == key);
            }
            if keys.contains(key) {
                let i = choose|i: int| 0 <= i < keys.len() && keys[i] == key;
                assert(self.keys@[i].key() == key);
            }
        }
        assert(keys.to_set() =~= self@);
    }

    /// The empty set.
    pub fn new() -> (set: KeySet)
        ensures
            set@ == Set::<Seq<char>>::empty(),
    {
        let set = KeySet { keys: Vec::new() };
        assert(set@ =~= Set::<Seq<char>>::empty());
        set
    }

    /// How many keys the set holds.
    pub fn len(&self) -> (count: usize)
        ensures
            self@.finite(),
            count == self@.len(),
            count == self.ordered().len(),
            strings_ascend(self.ordered()),
    {
        proof {
            use_type_invariant(self);
            lemma_held_keys_count(self.keys@);
            assert forall|i: int, j: int| 0 <= i < j < self.ordered().len() implies key_before(
                #[trigger] self.ordered()[i],
                #[trigger] self.ordered()[j],
            ) by {
                assert(key_before(self.keys@[i].key(), self.keys@[j].key()));
            }
        }
        self.keys.len()
    }

    /// Whether the set holds `key`.
    pub fn contains(&self, key: &str) -> (held: bool)
        ensures
            held == self@.contains(key@),
    {
        proof {
            use_type_invariant(self);
        }
        match locate(&self.keys, key) {
            Ok(_) => true,
            Err(_) => false,
        }
    }

    /// The key at position `index` in key order, if there are that many.
    pub fn get(&self, index: usize) -> (key: Option<&str>)
        ensures
            match key {
                Some(text) => index < self.ordered().len() && text@ == self.ordered()[index as int],
                None => index >= self.ordered().len(),
            },
    {
        if index < self.keys.len() {
            Some(self.keys[index].as_str())
        } else {
            None
        }
    }

    /// Puts `key` into the set and says whether it was new.
    pub fn insert(&mut self, key: String) -> (added: bool)
        ensures
            final(self)@ == old(self)@.insert(key@),
            added == !old(self)@.contains(key@),
    {
        proof {
            use_type_invariant(&*self);
        }
        match locate(&self.keys, key.as_str()) {
            Ok(_) => {
                assert(self@ =~= self@.insert(key@));
                false
            },
            Err(at) => {
                proof {
                    lemma_insert_keeps_order(self.keys@, at, key);
                    lemma_insert_adds_key(self.keys@, at as int, key);
                }
                let mut keys: Vec<String> = Vec::new();
                core::mem::swap(&mut keys, &mut self.keys);
                keys.insert(at, key);
                self.keys = keys;
                true
            },
        }
    }

    /// Puts into the set every key among what a pattern's group captured.
    pub fn gather(&mut self, found: Vec<Option<String>>)
        ensures
            final(self)@ == old(self)@.union(captured_keys(found.deep_view())),
    {
        let ghost all = found.deep_view();
        let ghost before = self@;
        assert(self@ =~= before.union(captured_keys(all.take(0))));
        for item in items: found
            invariant
                all == found.deep_view(),
                items.seq() == found@,
                self@ == before.union(captured_keys(all.take(items.index() as int))),
        {
            proof {
                lemma_captured_keys_grow(all, items.index() as int);
            }
            match item {
                Some(key) => {
                    self.insert(key);
                },
                None => {},
            }
            assert(self@ =~= before.union(captured_keys(all.take(items.index() + 1))));
        }
        assert(all.take(all.len() as int) =~= all);
    }
}

/// One more captured item adds its key, if it holds one.
proof fn lemma_captured_keys_grow(found: Seq<Option<Seq<char>>>, n: int)
    requires
        0 <= n < found.len(),
    ensures
        captured_keys(found.take(n + 1)) == match found[n] {
            Some(key) => captured_keys(found.take(n)).insert(key),
            None => captured_keys(found.take(n)),
        },
{
    let shorter = found.take(n);
    let longer = found.take(n + 1);
    let grown = match found[n] {
        Some(key) => captured_keys(shorter).insert(key),
        None => captured_keys(shorter),
    };
    assert forall|key: Seq<char>| captured_keys(longer).contains(key) <==> grown.contains(key) by {
        if captured_keys(longer).contains(key) {
            let i = choose|i: int| 0 <= i < longer.len() && #[trigger] longer[i] == Some(key);
            if i < n {
                assert(shorter[i] == Some(key));
            }
        }
        if captured_keys(shorter).contains(key) {
            let i = choose|i: int| 0 <= i < shorter.len() && #[trigger] shorter[i] == Some(key);
            assert(longer[i] == Some(key));
        }
        if found[n] == Some(key) {
            assert(longer[n] == Some(key));
        }
    }
    assert(captured_keys(longer) =~= grown);
}

} // verus!
