//! Vectors kept in ascending key order, and the search that both the key set
//! and the dictionary rest on.

use crate::order::{
    key_before, lemma_key_before_irreflexive, lemma_key_before_transitive, order_keys, Order,
};
use vstd::prelude::*;

verus! {

/// An item that is filed under a key.
pub trait Keyed {
    /// The key the item is filed under.
    spec fn key(&self) -> Seq<char>;

    /// Reads the key.
    fn key_text(&self) -> (text: &str)
        ensures
            text@ == self.key(),
    ;
}

/// Every item comes before all that follow it, so no key occurs twice.
pub open spec fn keys_ascend<T: Keyed>(items: Seq<T>) -> bool {
    forall|i: int, j: int|
        0 <= i < j < items.len() ==> key_before(
            #[trigger] items[i].key(),
            #[trigger] items[j].key(),
        )
}

/// Some item is filed under `key`.
pub open spec fn holds_key<T: Keyed>(items: Seq<T>, key: Seq<char>) -> bool {
    exists|i: int| 0 <= i < items.len() && #[trigger] items[i].key() == key
}

/// The keys that the items are filed under.
pub open spec fn held_keys<T: Keyed>(items: Seq<T>) -> Set<Seq<char>> {
    Set::new(|key: Seq<char>| holds_key(items, key))
}

/// The keys of the items, in the items' order.
pub open spec fn keys_of<T: Keyed>(items: Seq<T>) -> Seq<Seq<char>> {
    Seq::new(items.len(), |i: int| items[i].key())
}

/// `place` is where `key` stands among `items`: `Ok` with the index of the
/// item filed under it, or `Err` with the index at which an item under
/// `key` would keep the order, where none is.
pub open spec fn is_place_of<T: Keyed>(
    items: Seq<T>,
    key: Seq<char>,
    place: Result<usize, usize>,
) -> bool {
    match place {
        Ok(i) => i < items.len() && items[i as int].key() == key,
        Err(i) => {
            &&& i <= items.len()
            &&& !holds_key(items, key)
            &&& forall|j: int| 0 <= j < i ==> key_before(#[trigger] items[j].key(), key)
            &&& forall|j: int| i <= j < items.len() ==> key_before(key, #[trigger] items[j].key())
        },
    }
}

/// In ascending items a key is held at one index only.
pub proof fn lemma_key_index_is_unique<T: Keyed>(items: Seq<T>, i: int, j: int)
    requires
        keys_ascend(items),
        0 <= i < items.len(),
        0 <= j < items.len(),
        items[i].key() == items[j].key(),
    ensures
        i == j,
{
    lemma_key_before_irreflexive(items[i].key());
}

/// Putting an item at the place found for its key keeps the order.
pub proof fn lemma_insert_keeps_order<T: Keyed>(items: Seq<T>, at: usize, item: T)
    requires
        keys_ascend(items),
        is_place_of(items, item.key(), Err(at)),
    ensures
        keys_ascend(items.insert(at as int, item)),
{
    let after = items.insert(at as int, item);
    assert forall|i: int, j: int| 0 <= i < j < after.len() implies key_before(
        #[trigger] after[i].key(),
        #[trigger] after[j].key(),
    ) by {
        if j < at {
            assert(after[i] == items[i] && after[j] == items[j]);
        } else if j == at {
            assert(after[i] == items[i]);
        } else if i < at {
            assert(after[i] == items[i] && after[j] == items[j - 1]);
        } else if i == at {
            assert(after[j] == items[j - 1]);
        } else {
            assert(after[i] == items[i - 1] && after[j] == items[j - 1]);
        }
    }
}

/// After such an insertion the items hold the keys they held, and the new one.
pub proof fn lemma_insert_adds_key<T: Keyed>(items: Seq<T>, at: int, item: T)
    requires
        0 <= at <= items.len(),
    ensures
        held_keys(items.insert(at, item)) == held_keys(items).insert(item.key()),
{
    let after = items.insert(at, item);
    assert forall|key: Seq<char>| holds_key(after, key) <==> (holds_key(items, key) || key
        == item.key()) by {
        if holds_key(after, key) {
            let i = choose|i: int| 0 <= i < after.len() && #[trigger] after[i].key() == key;
            if i < at {
                assert(items[i].key() == key);
            } else if i > at {
                assert(items[i - 1].key() == key);
            }
        }
        if holds_key(items, key) {
            let i = choose|i: int| 0 <= i < items.len() && #[trigger] items[i].key() == key;
            if i < at {
                assert(after[i].key() == key);
            } else {
                assert(after[i + 1].key() == key);
            }
        }
        if key == item.key() {
            assert(after[at].key() == key);
        }
    }
    assert(held_keys(after) =~= held_keys(items).insert(item.key()));
}

/// Ascending items hold as many keys as there are items.
pub proof fn lemma_held_keys_count<T: Keyed>(items: Seq<T>)
    requires
        keys_ascend(items),
    ensures
        held_keys(items).finite(),
        held_keys(items).len() == items.len(),
{
    let keys = keys_of(items);
    assert(held_keys(items) =~= keys.to_set()) by {
        assert forall|key: Seq<char>| holds_key(items, key) <==> keys.contains(key) by {
            if holds_key(items, key) {
                let i = choose|i: int| 0 <= i < items.len() && #[trigger] items[i].key() == key;
                assert(keys[i] == key);
            }
            if keys.contains(key) {
                let i = choose|i: int| 0 <= i < keys.len() && keys[i] == key;
                assert(items[i].key() == key);
            }
        }
    }
    assert(keys.no_duplicates()) by {
        assert forall|i: int, j: int|
            0 <= i < keys.len() && 0 <= j < keys.len() && i != j implies keys[i] != keys[j] by {
            if keys[i] == keys[j] {
                lemma_key_index_is_unique(items, i, j);
            }
        }
    }
    keys.unique_seq_to_set();
    vstd::seq_lib::seq_to_set_is_finite(keys);
}

/// Finds the place of `key` among ascending items by bisection.
pub(crate) fn locate<T: Keyed>(items: &Vec<T>, key: &str) -> (place: Result<usize, usize>)
    requires
        keys_ascend(items@),
    ensures
        is_place_of(items@, key@, place),
{
    let mut low: usize = 0;
    let mut high: usize = items.len();
    while low < high
        invariant
            low <= high <= items.len(),
            keys_ascend(items@),
            forall|j: int| 0 <= j < low ==> key_before(#[trigger] items[j].key(), key@),
            forall|j: int| high <= j < items.len() ==> key_before(key@, #[trigger] items[j].key()),
        decreases high - low,
    {
        let middle: usize = low + (high - low) / 2;
        match order_keys(items[middle].key_text(), key) {
            Order::Same => {
                return Ok(middle);
            },
            Order::Before => {
                proof {
                    assert forall|j: int| 0 <= j < middle + 1 implies key_before(
                        #[trigger] items[j].key(),
                        key@,
                    ) by {
                        if j < middle {
                            lemma_key_before_transitive(
                                items[j].key(),
                                items[middle as int].key(),
                                key@,
                            );
                        }
                    }
                }
                low = middle + 1;
            },
            Order::After => {
                proof {
                    assert forall|j: int| middle <= j < items.len() implies key_before(
                        key@,
                        #[trigger] items[j].key(),
                    ) by {
                        if middle < j {
                            lemma_key_before_transitive(
                                key@,
                                items[middle as int].key(),
                                items[j].key(),
                            );
                        }
                    }
                }
                high = middle;
            },
        }
    }
    proof {
        assert forall|i: int| 0 <= i < items.len() implies #[trigger] items[i].key() != key@ by {
            lemma_key_before_irreflexive(key@);
        }
    }
    Err(low)
}

} // verus!
