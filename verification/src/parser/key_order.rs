//! The order in which the entries of a dictionary are written: ascending by
//! key, whatever the order in which they are held.

use vstd::prelude::*;
use crate::parser::lexical::{
    bytes_less, lemma_lex_less_irreflexive, lemma_lex_less_total, lemma_lex_less_transitive,
    lex_less,
};

verus! {

/// No key occurs twice.
pub open spec fn keys_distinct(keys: Seq<Seq<u8>>) -> bool {
    forall|i: int, j: int| 0 <= i < j < keys.len() ==> keys[i] != keys[j]
}

/// Each key comes strictly before the next.
pub open spec fn keys_rising(keys: Seq<Seq<u8>>) -> bool {
    forall|i: int| 0 <= i < keys.len() - 1 ==> lex_less(#[trigger] keys[i], keys[i + 1])
}

/// Where `key` goes among the keys that `order` lists by their indices,
/// looking from position `from` on: before the first key that does not come
/// before it, or at the end.
pub open spec fn slot_from(keys: Seq<Seq<u8>>, order: Seq<int>, key: Seq<u8>, from: int) -> int
    decreases order.len() - from,
{
    if from < 0 || from >= order.len() {
        order.len() as int
    } else if lex_less(keys[order[from]], key) {
        slot_from(keys, order, key, from + 1)
    } else {
        from
    }
}

/// The indices of the first `n` keys, arranged so that their keys ascend:
/// each index in turn is put where its key goes among those before it.
pub open spec fn order_of(keys: Seq<Seq<u8>>, n: nat) -> Seq<int>
    decreases n,
{
    if n == 0 {
        Seq::empty()
    } else {
        let before = order_of(keys, (n - 1) as nat);
        before.insert(slot_from(keys, before, keys[n - 1], 0), n - 1)
    }
}

/// The slot lies at or after `from`; every key between `from` and the slot
/// comes before `key`, and the key at the slot does not.
pub proof fn lemma_slot_from(keys: Seq<Seq<u8>>, order: Seq<int>, key: Seq<u8>, from: int)
    requires
        0 <= from <= order.len(),
    ensures
        from <= slot_from(keys, order, key, from) <= order.len(),
        forall|j: int|
            from <= j < slot_from(keys, order, key, from) ==> lex_less(
                keys[#[trigger] order[j]],
                key,
            ),
        slot_from(keys, order, key, from) < order.len() ==> !lex_less(
            keys[order[slot_from(keys, order, key, from)]],
            key,
        ),
    decreases order.len() - from,
{
    if from < order.len() && lex_less(keys[order[from]], key) {
        lemma_slot_from(keys, order, key, from + 1);
    }
}

/// The order of the first `n` keys lists each of their indices: it has `n`
/// places, each holds an index below `n`, and every index below `n` has a
/// place. So no entry is left out and none is added.
pub proof fn lemma_order_of(keys: Seq<Seq<u8>>, n: nat)
    ensures
        order_of(keys, n).len() == n,
        forall|k: int| 0 <= k < n ==> 0 <= #[trigger] order_of(keys, n)[k] < n,
        forall|i: int| 0 <= i < n ==> #[trigger] order_of(keys, n).contains(i),
    decreases n,
{
    if n > 0 {
        let before = order_of(keys, (n - 1) as nat);
        let slot = slot_from(keys, before, keys[n - 1], 0);
        let after = order_of(keys, n);
        lemma_order_of(keys, (n - 1) as nat);
        lemma_slot_from(keys, before, keys[n - 1], 0);
        assert(after == before.insert(slot, n - 1));
        assert forall|k: int| 0 <= k < n implies 0 <= #[trigger] after[k] < n by {
            if k < slot {
                assert(after[k] == before[k]);
            } else if k > slot {
                assert(after[k] == before[k - 1]);
            }
        }
        assert forall|i: int| 0 <= i < n implies #[trigger] after.contains(i) by {
            if i == n - 1 {
                assert(after[slot] == i);
            } else {
                assert(before.contains(i));
                let k = choose|k: int| 0 <= k < before.len() && before[k] == i;
                if k < slot {
                    assert(after[k] == before[k]);
                } else {
                    assert(after[k + 1] == before[k]);
                }
            }
        }
    }
}

/// What stands at each place after an insertion.
proof fn lemma_insert_index(s: Seq<int>, slot: int, x: int, k: int)
    requires
        0 <= slot <= s.len(),
        0 <= k <= s.len(),
    ensures
        s.insert(slot, x).len() == s.len() + 1,
        s.insert(slot, x)[k] == if k < slot {
            s[k]
        } else if k == slot {
            x
        } else {
            s[k - 1]
        },
{
}

/// Where no key occurs twice, the keys ascend strictly along the order.
pub proof fn lemma_order_rises(keys: Seq<Seq<u8>>, n: nat)
    requires
        n <= keys.len(),
        keys_distinct(keys),
    ensures
        forall|j: int, k: int|
            0 <= j && k == j + 1 && k < n ==> lex_less(
                keys[#[trigger] order_of(keys, n)[j]],
                keys[#[trigger] order_of(keys, n)[k]],
            ),
    decreases n,
{
    if n > 0 {
        let before = order_of(keys, (n - 1) as nat);
        let key = keys[n - 1];
        let slot = slot_from(keys, before, key, 0);
        let after = order_of(keys, n);
        lemma_order_rises(keys, (n - 1) as nat);
        lemma_order_of(keys, (n - 1) as nat);
        lemma_slot_from(keys, before, key, 0);
        assert(after == before.insert(slot, n - 1));
        assert forall|j: int, k: int| 0 <= j && k == j + 1 && k < n implies lex_less(
            keys[#[trigger] after[j]],
            keys[#[trigger] after[k]],
        ) by {
            lemma_insert_index(before, slot, n - 1, j);
            lemma_insert_index(before, slot, n - 1, k);
            if k < slot {
                assert(lex_less(keys[before[j]], keys[before[k]]));
            } else if k == slot {
                assert(lex_less(keys[before[j]], key));
            } else if j == slot {
                let index = before[slot];
                assert(0 <= index < n - 1);
                let other = keys[index];
                assert(other != key);
                lemma_lex_less_total(other, key);
            } else {
                assert(lex_less(keys[before[j - 1]], keys[before[k - 1]]));
            }
        }
    }
}

/// Where each key comes before the next, each comes before every later one.
pub proof fn lemma_rising_pairwise(keys: Seq<Seq<u8>>, i: int, j: int)
    requires
        keys_rising(keys),
        0 <= i < j < keys.len(),
    ensures
        lex_less(keys[i], keys[j]),
        keys[i] != keys[j],
    decreases j - i,
{
    if j > i + 1 {
        lemma_rising_pairwise(keys, i, j - 1);
        assert(lex_less(keys[j - 1], keys[j - 1 + 1]));
        lemma_lex_less_transitive(keys[i], keys[j - 1], keys[j]);
    } else {
        assert(lex_less(keys[i], keys[i + 1]));
    }
    lemma_lex_less_irreflexive(keys[i]);
}

/// Keys that ascend are in order already: the order leaves each index in
/// its place.
pub proof fn lemma_order_of_rising(keys: Seq<Seq<u8>>, n: nat)
    requires
        n <= keys.len(),
        keys_rising(keys),
    ensures
        order_of(keys, n) == Seq::new(n, |k: int| k),
    decreases n,
{
    if n > 0 {
        let before = order_of(keys, (n - 1) as nat);
        let key = keys[n - 1];
        lemma_order_of_rising(keys, (n - 1) as nat);
        lemma_slot_from(keys, before, key, 0);
        let slot = slot_from(keys, before, key, 0);
        if slot < before.len() {
            assert(before[slot] == slot);
            lemma_rising_pairwise(keys, slot, n - 1);
        }
        assert(before.insert(slot, n - 1) =~= Seq::new(n, |k: int| k));
    } else {
        assert(order_of(keys, n) =~= Seq::new(n, |k: int| k));
    }
}

/// The keys of `entries`.
pub open spec fn entry_keys<V>(entries: Seq<(Vec<u8>, V)>) -> Seq<Seq<u8>> {
    Seq::new(entries.len(), |i: int| entries[i].0@)
}

/// The indices that `order` holds, as numbers.
pub open spec fn indices(order: Seq<usize>) -> Seq<int> {
    Seq::new(order.len(), |k: int| order[k] as int)
}

/// Arranges the indices of `entries` so that their keys ascend.
pub fn key_order<V>(entries: &Vec<(Vec<u8>, V)>) -> (order: Vec<usize>)
    ensures
        indices(order@) == order_of(entry_keys(entries@), entries@.len()),
{
    let ghost keys = entry_keys(entries@);
    let mut order: Vec<usize> = Vec::new();
    let mut i: usize = 0;
    while i < entries.len()
        invariant
            i <= entries.len(),
            keys == entry_keys(entries@),
            indices(order@) == order_of(keys, i as nat),
        decreases entries.len() - i,
    {
        proof {
            lemma_order_of(keys, i as nat);
            assert forall|k: int| 0 <= k < i implies #[trigger] order@[k] < i by {
                assert(indices(order@)[k] == order@[k]);
            }
        }
        let ghost key = keys[i as int];
        let ghost before = indices(order@);
        let mut slot: usize = 0;
        while slot < order.len() && bytes_less(
            entries[order[slot]].0.as_slice(),
            entries[i].0.as_slice(),
        )
            invariant
                slot <= order@.len(),
                i < entries@.len(),
                keys == entry_keys(entries@),
                key == keys[i as int],
                order@.len() == i,
                before == indices(order@),
                forall|k: int| 0 <= k < i ==> #[trigger] order@[k] < i,
                slot_from(keys, before, key, 0) == slot_from(keys, before, key, slot as int),
            decreases order@.len() - slot,
        {
            assert(before[slot as int] == order@[slot as int]);
            slot = slot + 1;
        }
        proof {
            if slot < order@.len() {
                assert(before[slot as int] == order@[slot as int]);
            }
            assert(indices(order@.insert(slot as int, i)) =~= before.insert(slot as int, i as int));
        }
        order.insert(slot, i);
        i = i + 1;
    }
    order
}

} // verus!
