//! Putting items in order by a text key. Items with equal keys keep the order
//! in which they came.

use vstd::prelude::*;
use crate::text::{
    comes_before, lemma_not_before_transitive, lemma_text_before_asymmetric, text_before,
};

verus! {

/// Whether an item with key `new` stays behind an item with key `placed` that
/// is already in order: in ascending order unless `new` comes before `placed`,
/// in descending order unless `placed` comes before `new`.
pub open spec fn stays_behind(placed: Seq<char>, new: Seq<char>, descending: bool) -> bool {
    if descending {
        !text_before(placed, new)
    } else {
        !text_before(new, placed)
    }
}

/// The position that a new key takes among keys already in order: behind the
/// last key that it stays behind, or in front of them all.
pub open spec fn slot(keys: Seq<Seq<char>>, key: Seq<char>, descending: bool) -> int
    decreases keys.len(),
{
    if keys.len() == 0 {
        0
    } else if stays_behind(keys.last(), key, descending) {
        keys.len() as int
    } else {
        slot(keys.drop_last(), key, descending)
    }
}

/// `items` put in order by `keys`, the key of each item standing at the item's
/// position: the items are placed one after the other, each at its slot among
/// those placed before it.
pub open spec fn arranged<T>(items: Seq<T>, keys: Seq<Seq<char>>, descending: bool) -> Seq<T>
    decreases keys.len(),
{
    if keys.len() == 0 || items.len() != keys.len() {
        seq![]
    } else {
        arranged(items.drop_last(), keys.drop_last(), descending).insert(
            slot(
                arranged(keys.drop_last(), keys.drop_last(), descending),
                keys.last(),
                descending,
            ),
            items.last(),
        )
    }
}

/// The texts of a list of keys.
pub open spec fn key_texts(keys: Seq<Vec<char>>) -> Seq<Seq<char>> {
    keys.map_values(|k: Vec<char>| k@)
}

/// A slot lies within the keys or right behind them.
pub proof fn lemma_slot_bounds(keys: Seq<Seq<char>>, key: Seq<char>, descending: bool)
    ensures
        0 <= slot(keys, key, descending) <= keys.len(),
    decreases keys.len(),
{
    if keys.len() > 0 {
        lemma_slot_bounds(keys.drop_last(), key, descending);
    }
}

/// Putting in order keeps the number of items.
pub proof fn lemma_arranged_len<T>(items: Seq<T>, keys: Seq<Seq<char>>, descending: bool)
    requires
        items.len() == keys.len(),
    ensures
        arranged(items, keys, descending).len() == items.len(),
    decreases keys.len(),
{
    if keys.len() > 0 {
        lemma_arranged_len(items.drop_last(), keys.drop_last(), descending);
        lemma_arranged_len(keys.drop_last(), keys.drop_last(), descending);
        lemma_slot_bounds(
            arranged(keys.drop_last(), keys.drop_last(), descending),
            keys.last(),
            descending,
        );
    }
}

/// Putting in order only moves items: the result holds each item as often as
/// the list did.
pub proof fn lemma_arranged_keeps_items<T>(items: Seq<T>, keys: Seq<Seq<char>>, descending: bool)
    requires
        items.len() == keys.len(),
    ensures
        arranged(items, keys, descending).to_multiset() == items.to_multiset(),
    decreases keys.len(),
{
    broadcast use vstd::seq_lib::group_to_multiset_ensures;

    if keys.len() == 0 {
        assert(items =~= Seq::<T>::empty());
    } else {
        let front = arranged(items.drop_last(), keys.drop_last(), descending);
        let at = slot(
            arranged(keys.drop_last(), keys.drop_last(), descending),
            keys.last(),
            descending,
        );
        lemma_arranged_keeps_items(items.drop_last(), keys.drop_last(), descending);
        lemma_arranged_len(items.drop_last(), keys.drop_last(), descending);
        lemma_arranged_len(keys.drop_last(), keys.drop_last(), descending);
        lemma_slot_bounds(
            arranged(keys.drop_last(), keys.drop_last(), descending),
            keys.last(),
            descending,
        );
        vstd::seq_lib::to_multiset_insert(front, at, items.last());
        assert(items =~= items.drop_last().push(items.last()));
    }
}

/// The keys are in order: every key stays behind the keys in front of it.
pub open spec fn in_order(keys: Seq<Seq<char>>, descending: bool) -> bool {
    forall|i: int, j: int|
        0 <= i < j < keys.len() ==> stays_behind(#[trigger] keys[i], #[trigger] keys[j], descending)
}

/// Among keys in order, a new key stays behind every key in front of its slot,
/// and every key from its slot on stays behind the new key.
pub proof fn lemma_slot_divides(keys: Seq<Seq<char>>, key: Seq<char>, descending: bool)
    requires
        in_order(keys, descending),
    ensures
        0 <= slot(keys, key, descending) <= keys.len(),
        forall|i: int|
            0 <= i < slot(keys, key, descending) ==> stays_behind(
                #[trigger] keys[i],
                key,
                descending,
            ),
        forall|i: int|
            slot(keys, key, descending) <= i < keys.len() ==> stays_behind(
                key,
                #[trigger] keys[i],
                descending,
            ),
    decreases keys.len(),
{
    if keys.len() > 0 {
        let front = keys.drop_last();
        let last = keys.last();
        assert forall|i: int, j: int| 0 <= i < j < front.len() implies stays_behind(
            #[trigger] front[i],
            #[trigger] front[j],
            descending,
        ) by {
            assert(front[i] == keys[i]);
            assert(front[j] == keys[j]);
        }
        if stays_behind(last, key, descending) {
            assert forall|i: int| 0 <= i < keys.len() implies stays_behind(
                #[trigger] keys[i],
                key,
                descending,
            ) by {
                if i < keys.len() - 1 {
                    assert(stays_behind(keys[i], keys[keys.len() - 1], descending));
                    if descending {
                        lemma_not_before_transitive(key, last, keys[i]);
                    } else {
                        lemma_not_before_transitive(keys[i], last, key);
                    }
                }
            }
        } else {
            lemma_slot_divides(front, key, descending);
            let at = slot(front, key, descending);
            assert forall|i: int| 0 <= i < at implies stays_behind(
                #[trigger] keys[i],
                key,
                descending,
            ) by {
                assert(front[i] == keys[i]);
            }
            assert forall|i: int| at <= i < keys.len() implies stays_behind(
                key,
                #[trigger] keys[i],
                descending,
            ) by {
                if i < front.len() {
                    assert(front[i] == keys[i]);
                } else {
                    if descending {
                        lemma_text_before_asymmetric(last, key);
                    } else {
                        lemma_text_before_asymmetric(key, last);
                    }
                }
            }
        }
    }
}

/// Keys that are put in order are in order.
pub proof fn lemma_arranged_in_order(keys: Seq<Seq<char>>, descending: bool)
    ensures
        in_order(arranged(keys, keys, descending), descending),
    decreases keys.len(),
{
    if keys.len() > 0 {
        let front = arranged(keys.drop_last(), keys.drop_last(), descending);
        let key = keys.last();
        let at = slot(front, key, descending);
        lemma_arranged_in_order(keys.drop_last(), descending);
        lemma_slot_divides(front, key, descending);
        let after = front.insert(at, key);
        assert forall|i: int, j: int| 0 <= i < j < after.len() implies stays_behind(
            #[trigger] after[i],
            #[trigger] after[j],
            descending,
        ) by {
            if j < at {
                assert(after[i] == front[i]);
                assert(after[j] == front[j]);
            } else if j == at {
                assert(after[i] == front[i]);
            } else if i < at {
                assert(after[i] == front[i]);
                assert(after[j] == front[j - 1]);
            } else if i == at {
                assert(after[j] == front[j - 1]);
            } else {
                assert(after[i] == front[i - 1]);
                assert(after[j] == front[j - 1]);
            }
        }
    }
}

/// Items that are put in order by their keys carry their keys with them: the
/// key of the item at a position of the result is the key at that position of
/// the keys put in order.
pub proof fn lemma_arranged_carries_keys<T>(
    items: Seq<T>,
    keys: Seq<Seq<char>>,
    key_of: spec_fn(T) -> Seq<char>,
    descending: bool,
)
    requires
        items.len() == keys.len(),
        forall|i: int| 0 <= i < items.len() ==> key_of(#[trigger] items[i]) == keys[i],
    ensures
        arranged(items, keys, descending).len() == keys.len(),
        arranged(keys, keys, descending).len() == keys.len(),
        forall|k: int|
            0 <= k < keys.len() ==> key_of(#[trigger] arranged(items, keys, descending)[k])
                == arranged(keys, keys, descending)[k],
    decreases keys.len(),
{
    if keys.len() > 0 {
        let front_items = arranged(items.drop_last(), keys.drop_last(), descending);
        let front_keys = arranged(keys.drop_last(), keys.drop_last(), descending);
        let at = slot(front_keys, keys.last(), descending);
        assert forall|i: int| 0 <= i < items.drop_last().len() implies key_of(
            #[trigger] items.drop_last()[i],
        ) == keys.drop_last()[i] by {
            assert(items.drop_last()[i] == items[i]);
        }
        lemma_arranged_carries_keys(items.drop_last(), keys.drop_last(), key_of, descending);
        lemma_slot_bounds(front_keys, keys.last(), descending);
        let out_items = front_items.insert(at, items.last());
        let out_keys = front_keys.insert(at, keys.last());
        assert forall|k: int| 0 <= k < keys.len() implies key_of(#[trigger] out_items[k])
            == out_keys[k] by {
            if k < at {
                assert(out_items[k] == front_items[k]);
            } else if k == at {
                assert(out_items[k] == items[items.len() - 1]);
            } else {
                assert(out_items[k] == front_items[k - 1]);
            }
        }
    }
}

/// Places `item` with its `key` among `items`, which are in order by `keys`.
pub(crate) fn place<T>(
    items: &mut Vec<T>,
    keys: &mut Vec<Vec<char>>,
    item: T,
    key: Vec<char>,
    descending: bool,
)
    requires
        old(items)@.len() == old(keys)@.len(),
    ensures
        final(items)@.len() == final(keys)@.len(),
        final(items)@ == old(items)@.insert(
            slot(key_texts(old(keys)@), key@, descending),
            item,
        ),
        key_texts(final(keys)@) == key_texts(old(keys)@).insert(
            slot(key_texts(old(keys)@), key@, descending),
            key@,
        ),
{
    let ghost before = key_texts(keys@);
    let mut at: usize = keys.len();
    assert(before.take(at as int) =~= before);
    loop
        invariant
            at <= keys.len(),
            key_texts(keys@) == before,
            items@.len() == keys@.len(),
            slot(before, key@, descending) == slot(before.take(at as int), key@, descending),
        ensures
            at <= keys.len(),
            at == slot(before, key@, descending),
            key_texts(keys@) == before,
            items@.len() == keys@.len(),
        decreases at,
    {
        if at == 0 {
            break ;
        }
        let ghost upto = before.take(at as int);
        proof {
            assert(upto.last() == keys@[at - 1]@);
            assert(upto.drop_last() =~= before.take(at - 1));
        }
        let behind = if descending {
            !comes_before(&keys[at - 1], &key)
        } else {
            !comes_before(&key, &keys[at - 1])
        };
        if behind {
            break ;
        }
        at -= 1;
    }
    let ghost old_items = items@;
    items.insert(at, item);
    keys.insert(at, key);
    assert(key_texts(keys@) =~= before.insert(at as int, key@));
}

} // verus!
