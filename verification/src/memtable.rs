//! The in-memory write buffer: an ordered map from key to
//! value-or-tombstone, held in a lock-free skip list.
//!
//! The skip map is modelled by the mathematical map of its entries; each
//! operation the engine uses is stated over that model.

use vstd::prelude::*;

verus! {

use crate::codec::{Item, ItemModel};

#[verifier::external_type_specification]
#[verifier::external_body]
#[verifier::reject_recursive_types(K)]
#[verifier::reject_recursive_types(V)]
pub struct ExSkipMap<K, V>(crossbeam_skiplist::SkipMap<K, V>);

/// The entries a skip map holds, as a map from key to
/// value-or-tombstone.
pub uninterp spec fn skip_map_model(m: crossbeam_skiplist::SkipMap<i32, Option<Vec<u8>>>) -> Map<
    int,
    Option<Seq<u8>>,
>;

/// Relies on `SkipMap::new`: the new map is empty.
#[verifier::external_body]
pub fn skip_map_new() -> (r: crossbeam_skiplist::SkipMap<i32, Option<Vec<u8>>>)
    ensures
        skip_map_model(r) =~= Map::empty(),
{
    crossbeam_skiplist::SkipMap::new()
}

/// Relies on `SkipMap::insert`: the pair is inserted, replacing any
/// existing entry with the same key and keeping the others.
#[verifier::external_body]
pub fn skip_map_insert(
    m: &mut crossbeam_skiplist::SkipMap<i32, Option<Vec<u8>>>,
    key: i32,
    value: Option<Vec<u8>>,
)
    ensures
        skip_map_model(*final(m)) == skip_map_model(*old(m)).insert(
            key as int,
            value.deep_view(),
        ),
{
    m.insert(key, value);
}

/// Relies on `SkipMap::get`: the value stored under the key, if any.
#[verifier::external_body]
pub fn skip_map_get(m: &crossbeam_skiplist::SkipMap<i32, Option<Vec<u8>>>, key: &i32) -> (r:
    Option<Option<Vec<u8>>>)
    ensures
        r is Some <==> skip_map_model(*m).dom().contains(*key as int),
        r matches Some(v) ==> v.deep_view() == skip_map_model(*m)[*key as int],
{
    m.get(key).map(|e| e.value().clone())
}

/// Relies on `SkipMap::len`: the number of entries, which is the size of
/// the model's domain.
#[verifier::external_body]
pub fn skip_map_len(m: &crossbeam_skiplist::SkipMap<i32, Option<Vec<u8>>>) -> (r: usize)
    ensures
        r == skip_map_model(*m).dom().len(),
{
    m.len()
}

/// Relies on `SkipMap::iter`: entries come out in strictly increasing
/// key order, one for every entry of the map and no others.
#[verifier::external_body]
pub fn skip_map_items(m: &crossbeam_skiplist::SkipMap<i32, Option<Vec<u8>>>) -> (r: Vec<Item>)
    ensures
        forall|i: int|
            0 <= i < r@.len() ==> skip_map_model(*m).contains_pair(
                (#[trigger] r@[i])@.key as int,
                r@[i]@.value,
            ),
        forall|i: int, j: int| 0 <= i < j < r@.len() ==> r@[i]@.key < r@[j]@.key,
        forall|k: int|
            skip_map_model(*m).dom().contains(k) ==> exists|i: int|
                0 <= i < r@.len() && (#[trigger] r@[i])@.key == k,
{
    m.iter().map(|e| Item::new(*e.key(), e.value().clone())).collect()
}


/// Failures of the in-memory map.
#[derive(Debug)]
pub enum MemoryMapError {
    Unknown,
}

/// The shape of an in-memory map of pending writes, so that another
/// ordered-map implementation can stand in for the skip list.
pub trait MemoryMap<K: Ord + Send + 'static>: Sized {
    fn new() -> Self;

    fn put(&self, key: K, value: Vec<u8>) -> Result<(), MemoryMapError>;

    fn get(&self, key: K) -> Option<Vec<u8>>;

    fn len(&self) -> usize;
}

/// Whether `s` lists exactly the entries of `m`, in strictly
/// increasing key order: one item per key of the map, carrying the
/// map's value for it.
pub open spec fn spec_entries_match(m: Map<int, Option<Seq<u8>>>, s: Seq<ItemModel>) -> bool {
    &&& crate::merge::sorted_strict(s)
    &&& (forall|i: int|
        0 <= i < s.len() ==> m.contains_pair((#[trigger] s[i]).key as int, s[i].value))
    &&& (forall|k: int|
        #[trigger] m.dom().contains(k) ==> exists|i: int|
            0 <= i < s.len() && (#[trigger] s[i]).key == k)
}

/// The entries of a map of pending writes, as the sorted item sequence
/// a flush walks.
pub open spec fn spec_entries(m: Map<int, Option<Seq<u8>>>) -> Seq<ItemModel> {
    choose|s: Seq<ItemModel>| spec_entries_match(m, s)
}

/// At most one sequence lists a map's entries in sorted order.
pub proof fn lemma_entries_unique(
    m: Map<int, Option<Seq<u8>>>,
    s1: Seq<ItemModel>,
    s2: Seq<ItemModel>,
)
    requires
        spec_entries_match(m, s1),
        spec_entries_match(m, s2),
    ensures
        s1 == s2,
    decreases s1.len(),
{
    if s1.len() == 0 {
        if s2.len() > 0 {
            assert(m.contains_pair(s2[0].key as int, s2[0].value));
            assert(m.dom().contains(s2[0].key as int));
            assert(false);
        }
        assert(s1 =~= s2);
    } else {
        assert(m.contains_pair(s1[0].key as int, s1[0].value));
        assert(m.dom().contains(s1[0].key as int));
        let j2 = choose|i: int| 0 <= i < s2.len() && (#[trigger] s2[i]).key == s1[0].key;
        assert(s2.len() > 0);
        assert(m.contains_pair(s2[0].key as int, s2[0].value));
        assert(m.dom().contains(s2[0].key as int));
        let j1 = choose|i: int| 0 <= i < s1.len() && (#[trigger] s1[i]).key == s2[0].key;
        assert(s2[0].key <= s2[j2].key) by {
            if j2 > 0 {
                assert(s2[0].key < s2[j2].key);
            }
        }
        assert(s1[0].key <= s1[j1].key) by {
            if j1 > 0 {
                assert(s1[0].key < s1[j1].key);
            }
        }
        let k = s1[0].key;
        assert(s2[0].key == k);
        assert(s1[0].value == m[k as int]);
        assert(s2[0].value == m[k as int]);
        assert(s1[0] == s2[0]);
        let m2 = m.remove(k as int);
        assert(spec_entries_match(m2, s1.drop_first())) by {
            lemma_entries_match_tail(m, s1);
        }
        assert(spec_entries_match(m2, s2.drop_first())) by {
            lemma_entries_match_tail(m, s2);
        }
        lemma_entries_unique(m2, s1.drop_first(), s2.drop_first());
        assert(s1.len() == s2.len());
        assert forall|i: int| 0 <= i < s1.len() implies s1[i] == s2[i] by {
            if i > 0 {
                assert(s1.drop_first()[i - 1] == s1[i]);
                assert(s2.drop_first()[i - 1] == s2[i]);
            }
        }
        assert(s1 =~= s2);
    }
}

/// Dropping a sorted listing's first item lists the map without that
/// item's key.
proof fn lemma_entries_match_tail(m: Map<int, Option<Seq<u8>>>, s: Seq<ItemModel>)
    requires
        spec_entries_match(m, s),
        s.len() >= 1,
    ensures
        spec_entries_match(m.remove(s[0].key as int), s.drop_first()),
{
    let k = s[0].key;
    let m2 = m.remove(k as int);
    let t = s.drop_first();
    assert forall|i: int| 0 <= i < t.len() implies m2.contains_pair(
        (#[trigger] t[i]).key as int,
        t[i].value,
    ) by {
        assert(t[i] == s[i + 1]);
        assert(s[0].key < s[i + 1].key);
        assert(m.contains_pair(s[i + 1].key as int, s[i + 1].value));
    }
    assert forall|k2: int| #[trigger] m2.dom().contains(k2) implies exists|i: int|
        0 <= i < t.len() && (#[trigger] t[i]).key == k2 by {
        assert(m.dom().contains(k2));
        let i = choose|i: int| 0 <= i < s.len() && (#[trigger] s[i]).key == k2;
        assert(k2 != k as int);
        assert(i >= 1);
        assert(t[i - 1] == s[i]);
        assert(0 <= i - 1 < t.len() && t[i - 1].key == k2);
    }
}

} // verus!
