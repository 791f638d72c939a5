//! Merging ordered item sequences with recency.
//!
//! Two sorted sources are merged into one sorted sequence; on a key
//! collision the item from the newer source is kept and the older one is
//! dropped. A k-way merge folds this pairwise merge over the sources
//! from newest to oldest.

use vstd::prelude::*;

verus! {

use crate::codec::{Item, ItemModel};

/// Keys strictly increase along the sequence; in particular each key
/// appears at most once.
pub open spec fn sorted_strict(items: Seq<ItemModel>) -> bool {
    forall|i: int, j: int| 0 <= i < j < items.len() ==> items[i].key < items[j].key
}

/// The value stored under a key: the first item carrying the key, or
/// `None` when the key is absent.
pub open spec fn items_lookup(items: Seq<ItemModel>, key: i32) -> Option<Option<Seq<u8>>>
    decreases items.len(),
{
    if items.len() == 0 {
        None
    } else if items[0].key == key {
        Some(items[0].value)
    } else {
        items_lookup(items.drop_first(), key)
    }
}

/// Whether some item carries the key.
pub open spec fn items_has_key(items: Seq<ItemModel>, key: i32) -> bool {
    items_lookup(items, key) is Some
}

/// Every key in the sequence is at least `k`.
pub open spec fn keys_at_least(items: Seq<ItemModel>, k: int) -> bool {
    forall|i: int| 0 <= i < items.len() ==> (#[trigger] items[i]).key >= k
}

/// The merge of two sorted sources, `newer` winning on key collisions.
pub open spec fn spec_merge(newer: Seq<ItemModel>, older: Seq<ItemModel>) -> Seq<ItemModel>
    decreases newer.len() + older.len(),
{
    if newer.len() == 0 {
        older
    } else if older.len() == 0 {
        newer
    } else if newer[0].key < older[0].key {
        seq![newer[0]] + spec_merge(newer.drop_first(), older)
    } else if newer[0].key == older[0].key {
        seq![newer[0]] + spec_merge(newer.drop_first(), older.drop_first())
    } else {
        seq![older[0]] + spec_merge(newer, older.drop_first())
    }
}

pub proof fn lemma_lookup_implies_key_present(items: Seq<ItemModel>, key: i32)
    requires
        items_has_key(items, key),
    ensures
        exists|i: int| 0 <= i < items.len() && (#[trigger] items[i]).key == key,
    decreases items.len(),
{
    if items.len() > 0 && items[0].key != key {
        lemma_lookup_implies_key_present(items.drop_first(), key);
        let i = choose|i: int|
            0 <= i < items.drop_first().len() && (#[trigger] items.drop_first()[i]).key == key;
        assert(items[i + 1].key == key);
    }
}

pub proof fn lemma_key_present_implies_lookup(items: Seq<ItemModel>, i: int)
    requires
        0 <= i < items.len(),
    ensures
        items_has_key(items, items[i].key),
    decreases items.len(),
{
    if i > 0 && items[0].key != items[i].key {
        lemma_key_present_implies_lookup(items.drop_first(), i - 1);
    }
}

proof fn lemma_merge_keys_at_least(newer: Seq<ItemModel>, older: Seq<ItemModel>, k: int)
    requires
        keys_at_least(newer, k),
        keys_at_least(older, k),
    ensures
        keys_at_least(spec_merge(newer, older), k),
    decreases newer.len() + older.len(),
{
    if newer.len() == 0 || older.len() == 0 {
    } else if newer[0].key < older[0].key {
        assert(keys_at_least(newer.drop_first(), k));
        lemma_merge_keys_at_least(newer.drop_first(), older, k);
    } else if newer[0].key == older[0].key {
        assert(keys_at_least(newer.drop_first(), k));
        assert(keys_at_least(older.drop_first(), k));
        lemma_merge_keys_at_least(newer.drop_first(), older.drop_first(), k);
    } else {
        assert(keys_at_least(older.drop_first(), k));
        lemma_merge_keys_at_least(newer, older.drop_first(), k);
    }
}

/// The merge of two sorted sources is sorted.
pub proof fn lemma_merge_sorted(newer: Seq<ItemModel>, older: Seq<ItemModel>)
    requires
        sorted_strict(newer),
        sorted_strict(older),
    ensures
        sorted_strict(spec_merge(newer, older)),
    decreases newer.len() + older.len(),
{
    if newer.len() == 0 || older.len() == 0 {
    } else {
        let n0 = newer[0];
        let o0 = older[0];
        assert(sorted_strict(newer.drop_first()));
        assert(sorted_strict(older.drop_first()));
        assert(keys_at_least(newer.drop_first(), n0.key + 1));
        assert(keys_at_least(older.drop_first(), o0.key + 1));
        if n0.key < o0.key {
            lemma_merge_sorted(newer.drop_first(), older);
            assert(keys_at_least(older, o0.key as int));
            lemma_merge_keys_at_least(newer.drop_first(), older, n0.key + 1);
            let m = spec_merge(newer.drop_first(), older);
            assert forall|i: int, j: int|
                0 <= i < j < (seq![n0] + m).len() implies (seq![n0] + m)[i].key < (seq![n0]
                + m)[j].key by {
                if i > 0 {
                    assert(m[i - 1].key < m[j - 1].key);
                } else {
                    assert(m[j - 1].key >= n0.key + 1);
                }
            }
        } else if n0.key == o0.key {
            lemma_merge_sorted(newer.drop_first(), older.drop_first());
            lemma_merge_keys_at_least(newer.drop_first(), older.drop_first(), n0.key + 1);
            let m = spec_merge(newer.drop_first(), older.drop_first());
            assert forall|i: int, j: int|
                0 <= i < j < (seq![n0] + m).len() implies (seq![n0] + m)[i].key < (seq![n0]
                + m)[j].key by {
                if i > 0 {
                    assert(m[i - 1].key < m[j - 1].key);
                } else {
                    assert(m[j - 1].key >= n0.key + 1);
                }
            }
        } else {
            lemma_merge_sorted(newer, older.drop_first());
            assert(keys_at_least(newer, o0.key + 1));
            lemma_merge_keys_at_least(newer, older.drop_first(), o0.key + 1);
            let m = spec_merge(newer, older.drop_first());
            assert forall|i: int, j: int|
                0 <= i < j < (seq![o0] + m).len() implies (seq![o0] + m)[i].key < (seq![o0]
                + m)[j].key by {
                if i > 0 {
                    assert(m[i - 1].key < m[j - 1].key);
                } else {
                    assert(m[j - 1].key >= o0.key + 1);
                }
            }
        }
    }
}

/// Merge recency: for every key, the merge answers with the newer
/// source's entry when it has one, and with the older source's entry
/// otherwise.
pub proof fn lemma_merge_lookup(newer: Seq<ItemModel>, older: Seq<ItemModel>, key: i32)
    requires
        sorted_strict(newer),
        sorted_strict(older),
    ensures
        items_lookup(spec_merge(newer, older), key) == if items_has_key(newer, key) {
            items_lookup(newer, key)
        } else {
            items_lookup(older, key)
        },
    decreases newer.len() + older.len(),
{
    if newer.len() == 0 || older.len() == 0 {
    } else {
        let n0 = newer[0];
        let o0 = older[0];
        assert(sorted_strict(newer.drop_first()));
        assert(sorted_strict(older.drop_first()));
        if n0.key < o0.key {
            let m = spec_merge(newer.drop_first(), older);
            assert(spec_merge(newer, older) == seq![n0] + m);
            assert((seq![n0] + m)[0] == n0);
            if key == n0.key {
            } else {
                lemma_merge_lookup(newer.drop_first(), older, key);
                assert((seq![n0] + m).drop_first() =~= m);
            }
        } else if n0.key == o0.key {
            let m = spec_merge(newer.drop_first(), older.drop_first());
            assert(spec_merge(newer, older) == seq![n0] + m);
            assert((seq![n0] + m)[0] == n0);
            if key == n0.key {
            } else {
                lemma_merge_lookup(newer.drop_first(), older.drop_first(), key);
                assert((seq![n0] + m).drop_first() =~= m);
            }
        } else {
            let m = spec_merge(newer, older.drop_first());
            assert(spec_merge(newer, older) == seq![o0] + m);
            assert((seq![o0] + m)[0] == o0);
            if key == o0.key {
                if items_has_key(newer, key) {
                    lemma_lookup_implies_key_present(newer, key);
                    let i = choose|i: int|
                        0 <= i < newer.len() && (#[trigger] newer[i]).key == key;
                    assert(newer[0].key > key);
                    assert(false);
                }
            } else {
                lemma_merge_lookup(newer, older.drop_first(), key);
                assert((seq![o0] + m).drop_first() =~= m);
            }
        }
    }
}

/// A sequence none of whose items carries the key answers `None`.
pub proof fn lemma_lookup_none(items: Seq<ItemModel>, key: i32)
    requires
        forall|i: int| 0 <= i < items.len() ==> (#[trigger] items[i]).key != key,
    ensures
        items_lookup(items, key) is None,
    decreases items.len(),
{
    if items.len() > 0 {
        lemma_lookup_none(items.drop_first(), key);
    }
}

/// In a sorted sequence, looking up the key of the item at any index
/// answers that item's value.
pub proof fn lemma_sorted_lookup_at(items: Seq<ItemModel>, i: int)
    requires
        sorted_strict(items),
        0 <= i < items.len(),
    ensures
        items_lookup(items, items[i].key) == Some(items[i].value),
    decreases items.len(),
{
    if i > 0 {
        assert(items[0].key < items[i].key);
        assert(sorted_strict(items.drop_first()));
        lemma_sorted_lookup_at(items.drop_first(), i - 1);
    }
}

/// Looking up a key in a concatenation answers from the first part when
/// it has the key, and from the second part otherwise.
pub proof fn lemma_concat_lookup(s1: Seq<ItemModel>, s2: Seq<ItemModel>, key: i32)
    ensures
        items_lookup(s1 + s2, key) == if items_has_key(s1, key) {
            items_lookup(s1, key)
        } else {
            items_lookup(s2, key)
        },
    decreases s1.len(),
{
    if s1.len() == 0 {
        assert(s1 + s2 =~= s2);
    } else {
        assert((s1 + s2)[0] == s1[0]);
        if s1[0].key == key {
        } else {
            assert((s1 + s2).drop_first() =~= s1.drop_first() + s2);
            lemma_concat_lookup(s1.drop_first(), s2, key);
        }
    }
}

/// A sorted, non-empty sequence has no key outside its first-to-last
/// range.
pub proof fn lemma_sorted_out_of_range(items: Seq<ItemModel>, key: i32)
    requires
        sorted_strict(items),
        items.len() >= 1,
        key < items.first().key || key > items.last().key,
    ensures
        !items_has_key(items, key),
{
    assert forall|i: int| 0 <= i < items.len() implies (#[trigger] items[i]).key != key by {
        if i > 0 {
            assert(items[0].key < items[i].key);
        }
        if i < items.len() - 1 {
            assert(items[i].key < items[items.len() - 1].key);
        }
    }
    lemma_lookup_none(items, key);
}

/// Merges the items of two sorted sources, the first being the newer.
pub fn merge_items(newer: &Vec<Item>, older: &Vec<Item>) -> (r: Vec<Item>)
    ensures
        r.deep_view() == spec_merge(newer.deep_view(), older.deep_view()),
{
    let ghost a = newer.deep_view();
    let ghost b = older.deep_view();
    let mut out: Vec<Item> = Vec::new();
    let mut i: usize = 0;
    let mut j: usize = 0;
    proof {
        assert(a.skip(0) =~= a);
        assert(b.skip(0) =~= b);
        assert(out.deep_view() =~= Seq::<ItemModel>::empty());
        assert(out.deep_view() + spec_merge(a.skip(0), b.skip(0)) =~= spec_merge(a, b));
    }
    while i < newer.len() || j < older.len()
        invariant
            i <= newer@.len(),
            j <= older@.len(),
            a == newer.deep_view(),
            b == older.deep_view(),
            out.deep_view() + spec_merge(a.skip(i as int), b.skip(j as int)) == spec_merge(a, b),
        decreases newer@.len() - i + older@.len() - j,
    {
        let ghost prev_out = out.deep_view();
        let take_newer: bool = if i >= newer.len() {
            false
        } else if j >= older.len() {
            true
        } else {
            newer[i].key_ref() <= older[j].key_ref()
        };
        let advance_older: bool = if j >= older.len() {
            false
        } else if i >= newer.len() {
            true
        } else {
            older[j].key_ref() <= newer[i].key_ref()
        };
        if take_newer {
            out.push(newer[i].duplicate());
            i = i + 1;
        }
        if advance_older {
            if !take_newer {
                out.push(older[j].duplicate());
            }
            j = j + 1;
        }
        proof {
            let i0 = i as int - if take_newer { 1int } else { 0int };
            let j0 = j as int - if advance_older { 1int } else { 0int };
            let an = a.skip(i0);
            let bn = b.skip(j0);
            if i0 < a.len() {
                assert(an[0] == a[i0]);
                assert(an.drop_first() =~= a.skip(i0 + 1));
            }
            if j0 < b.len() {
                assert(bn[0] == b[j0]);
                assert(bn.drop_first() =~= b.skip(j0 + 1));
            }
            if take_newer && advance_older {
                assert(spec_merge(an, bn) =~= seq![a[i0]] + spec_merge(
                    a.skip(i0 + 1),
                    b.skip(j0 + 1),
                ));
                assert(out.deep_view() =~= prev_out + seq![a[i0]]);
            } else if take_newer {
                assert(spec_merge(an, bn) =~= seq![a[i0]] + spec_merge(a.skip(i0 + 1), bn));
                assert(out.deep_view() =~= prev_out + seq![a[i0]]);
            } else {
                assert(spec_merge(an, bn) =~= seq![b[j0]] + spec_merge(an, b.skip(j0 + 1)));
                assert(out.deep_view() =~= prev_out + seq![b[j0]]);
            }
            assert(out.deep_view() + spec_merge(a.skip(i as int), b.skip(j as int)) =~= prev_out
                + spec_merge(a.skip(i0), b.skip(j0)));
        }
    }
    proof {
        assert(a.skip(a.len() as int) =~= Seq::<ItemModel>::empty());
        assert(b.skip(b.len() as int) =~= Seq::<ItemModel>::empty());
        assert(out.deep_view() =~= spec_merge(a, b));
    }
    out
}


/// Merge recency: for sources given newest first, a key the newer
/// source holds is answered by the newer source's item, and the merge
/// holds no second item with that key since its keys are unique.
pub proof fn lemma_merge_recency(newer: Seq<ItemModel>, older: Seq<ItemModel>, key: i32)
    requires
        sorted_strict(newer),
        sorted_strict(older),
        items_has_key(newer, key),
    ensures
        items_lookup(spec_merge(newer, older), key) == items_lookup(newer, key),
        sorted_strict(spec_merge(newer, older)),
{
    lemma_merge_lookup(newer, older, key);
    lemma_merge_sorted(newer, older);
}

} // verus!
