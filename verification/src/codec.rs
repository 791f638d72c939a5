//! Byte-level encoding of items.
//!
//! A block of a run holds a sequence of items encoded back to back. Each
//! item is encoded as: the key as four little-endian bytes, one tag byte
//! (`0` marks a tombstone, `1` a live value), and for a live value its
//! length as eight little-endian bytes followed by the value bytes. The
//! encoding is self-describing: a decoder needs no external length table.

use vstd::prelude::*;

verus! {

use vstd::bytes::{
    lemma_auto_spec_u32_to_from_le_bytes, lemma_auto_spec_u64_to_from_le_bytes,
    spec_u32_to_le_bytes, spec_u64_to_le_bytes, u32_from_le_bytes, u32_to_le_bytes,
    u64_from_le_bytes, u64_to_le_bytes,
};
use vstd::slice::slice_subrange;

/// One key/value pair as stored in memtables and runs. A `None` value is
/// the tombstone marker left behind by a delete.
pub struct Item {
    key: i32,
    value: Option<Vec<u8>>,
}

/// The mathematical shape of an item: its key and its value, where the
/// value is either live bytes or the tombstone.
pub struct ItemModel {
    pub key: i32,
    pub value: Option<Seq<u8>>,
}

impl View for Item {
    type V = ItemModel;

    closed spec fn view(&self) -> ItemModel {
        ItemModel { key: self.key, value: self.value.deep_view() }
    }
}

impl DeepView for Item {
    type V = ItemModel;

    open spec fn deep_view(&self) -> ItemModel {
        self.view()
    }
}

impl Item {
    pub fn new(key: i32, value: Option<Vec<u8>>) -> (r: Item)
        ensures
            r@.key == key,
            r@.value == value.deep_view(),
    {
        Item { key, value }
    }

    pub fn key(self) -> (r: i32)
        ensures
            r == self@.key,
    {
        self.key
    }

    pub fn value(self) -> (r: Option<Vec<u8>>)
        ensures
            r.deep_view() == self@.value,
    {
        self.value
    }

    pub fn key_ref(&self) -> (r: i32)
        ensures
            r == self@.key,
    {
        self.key
    }

    /// A fresh item equal to this one.
    pub fn duplicate(&self) -> (r: Item)
        ensures
            r@ == self@,
    {
        let value = match &self.value {
            None => None,
            Some(v) => Some(clone_bytes(v)),
        };
        let r = Item { key: self.key, value };
        proof {
            assert(r@.value == self@.value);
        }
        r
    }

    pub fn clone_value(&self) -> (r: Option<Vec<u8>>)
        ensures
            r.deep_view() == self@.value,
    {
        match &self.value {
            None => None,
            Some(v) => Some(clone_bytes(v)),
        }
    }
}

/// A value no larger than this fits the length field and the address
/// space; every value held by a `Vec<u8>` satisfies it.
pub open spec fn wf_item(item: ItemModel) -> bool {
    item.value matches Some(v) ==> v.len() <= usize::MAX && v.len() <= u64::MAX
}

pub open spec fn wf_items(items: Seq<ItemModel>) -> bool {
    forall|i: int| 0 <= i < items.len() ==> wf_item(#[trigger] items[i])
}

/// The encoding of a value-or-tombstone: a tag byte, then for live values
/// the length and the bytes.
pub open spec fn spec_encode_value(value: Option<Seq<u8>>) -> Seq<u8> {
    match value {
        None => seq![0u8],
        Some(v) => seq![1u8] + spec_u64_to_le_bytes(v.len() as u64) + v,
    }
}

/// The encoding of one item: key bytes, then the encoded value.
pub open spec fn spec_encode_item(item: ItemModel) -> Seq<u8> {
    spec_u32_to_le_bytes(item.key as u32) + spec_encode_value(item.value)
}

/// The encoding of an item sequence, back to back.
pub open spec fn spec_encode_items(items: Seq<ItemModel>) -> Seq<u8>
    decreases items.len(),
{
    if items.len() == 0 {
        Seq::empty()
    } else {
        spec_encode_item(items[0]) + spec_encode_items(items.drop_first())
    }
}

pub proof fn lemma_encode_item_len(item: ItemModel)
    ensures
        spec_encode_item(item).len() == match item.value {
            None => 5,
            Some(v) => 13 + v.len(),
        },
{
    lemma_auto_spec_u32_to_from_le_bytes();
    lemma_auto_spec_u64_to_from_le_bytes();
}

/// A non-empty item sequence encodes to at least one item's framing.
pub proof fn lemma_encode_items_min_len(items: Seq<ItemModel>)
    requires
        items.len() >= 1,
    ensures
        spec_encode_items(items).len() >= 5,
{
    lemma_encode_item_len(items[0]);
}

pub proof fn lemma_encode_items_push(items: Seq<ItemModel>, item: ItemModel)
    ensures
        spec_encode_items(items.push(item)) == spec_encode_items(items) + spec_encode_item(item),
    decreases items.len(),
{
    if items.len() == 0 {
        let p = items.push(item);
        assert(p.len() == 1);
        assert(p[0] == item);
        assert(p.drop_first() =~= Seq::<ItemModel>::empty());
        assert(spec_encode_items(p) == spec_encode_item(item) + spec_encode_items(
            Seq::<ItemModel>::empty(),
        ));
        assert(spec_encode_item(item) + spec_encode_items(Seq::<ItemModel>::empty())
            =~= spec_encode_item(item));
        assert(spec_encode_items(items) + spec_encode_item(item) =~= spec_encode_item(item));
    } else {
        lemma_encode_items_push(items.drop_first(), item);
        assert(items.push(item).drop_first() =~= items.drop_first().push(item));
        assert(spec_encode_items(items.push(item)) =~= spec_encode_items(items)
            + spec_encode_item(item));
    }
}

/// Appends a copy of `src` to `out`.
pub fn append_bytes(out: &mut Vec<u8>, src: &Vec<u8>)
    ensures
        final(out)@ == old(out)@ + src@,
{
    let mut i: usize = 0;
    while i < src.len()
        invariant
            i <= src.len(),
            out@ == old(out)@ + src@.subrange(0, i as int),
        decreases src.len() - i,
    {
        out.push(src[i]);
        i = i + 1;
        assert(src@.subrange(0, i as int) =~= src@.subrange(0, i - 1) + seq![src@[i - 1]]);
        assert(out@ =~= old(out)@ + src@.subrange(0, i as int));
    }
    assert(src@.subrange(0, src.len() as int) =~= src@);
}

/// A fresh copy of a byte vector.
pub fn clone_bytes(src: &Vec<u8>) -> (r: Vec<u8>)
    ensures
        r@ == src@,
{
    let mut out: Vec<u8> = Vec::new();
    append_bytes(&mut out, src);
    out
}

proof fn lemma_i32_u32_roundtrip(k: i32)
    ensures
        ((k as u32) as i32) == k,
{
    assert(((k as u32) as i32) == k) by (bit_vector);
}

/// Every item held in memory satisfies `wf_item`: its value fits the
/// address space and the length field.
pub proof fn lemma_item_wf(item: Item)
    ensures
        wf_item(item@),
{
    if item.value is Some {
        let v = item.value->Some_0;
        assert(vstd::std_specs::vec::spec_vec_len(&v) == v@.len());
        assert(v.deep_view().len() == v@.len());
    }
}

/// Whether an item's encoded size is representable: its value, if any,
/// leaves room for the thirteen framing bytes.
pub open spec fn item_size_ok(item: ItemModel) -> bool {
    item.value matches Some(v) ==> v.len() <= usize::MAX - 13
}

/// The number of bytes `spec_encode_item(item@)` occupies, or `None`
/// when a value is so large that the count cannot be represented.
pub fn checked_encoded_len(item: &Item) -> (r: Option<usize>)
    ensures
        r matches Some(l) ==> l == spec_encode_item(item@).len(),
        r is Some <==> item_size_ok(item@),
{
    proof {
        lemma_encode_item_len(item@);
    }
    match &item.value {
        None => Some(5),
        Some(v) => {
            if v.len() > usize::MAX - 13 {
                None
            } else {
                Some(13 + v.len())
            }
        },
    }
}

/// The number of bytes `spec_encode_item(item@)` occupies.
pub fn encoded_item_len(item: &Item) -> (r: usize)
    requires
        item@.value matches Some(v) ==> v.len() <= usize::MAX - 13,
    ensures
        r == spec_encode_item(item@).len(),
{
    proof {
        lemma_encode_item_len(item@);
    }
    match &item.value {
        None => 5,
        Some(v) => 13 + v.len(),
    }
}

/// Appends the encoding of `item` to `out`.
pub fn encode_item_into(out: &mut Vec<u8>, item: &Item)
    ensures
        final(out)@ == old(out)@ + spec_encode_item(item@),
{
    let mut key_bytes = u32_to_le_bytes(item.key as u32);
    append_bytes(out, &key_bytes);
    match &item.value {
        None => {
            out.push(0u8);
            assert(out@ =~= old(out)@ + spec_encode_item(item@));
        },
        Some(v) => {
            out.push(1u8);
            let mut len_bytes = u64_to_le_bytes(v.len() as u64);
            append_bytes(out, &len_bytes);
            append_bytes(out, v);
            assert(out@ =~= old(out)@ + spec_encode_item(item@));
        },
    }
}

/// Decodes one item starting at `pos`, directed by the ghost knowledge of
/// what the bytes hold.
pub(crate) fn decode_item(bytes: &Vec<u8>, pos: usize, Ghost(item): Ghost<ItemModel>, Ghost(rest): Ghost<
    Seq<u8>,
>) -> (r: (Item, usize))
    requires
        wf_item(item),
        pos <= bytes@.len(),
        bytes@.skip(pos as int) == spec_encode_item(item) + rest,
    ensures
        r.0@ == item,
        pos < r.1 <= bytes@.len(),
        r.1 == pos + spec_encode_item(item).len(),
        bytes@.skip(r.1 as int) == rest,
{
    let ghost enc = spec_encode_item(item);
    proof {
        lemma_encode_item_len(item);
        lemma_auto_spec_u32_to_from_le_bytes();
        lemma_auto_spec_u64_to_from_le_bytes();
        assert(bytes@.len() <= usize::MAX) by {
            assert(bytes.len() == bytes@.len());
        }
        assert(bytes@.skip(pos as int).len() == bytes@.len() - pos);
        assert(bytes@.len() == pos + enc.len() + rest.len());
    }
    let key_slice = slice_subrange(bytes.as_slice(), pos, pos + 4);
    proof {
        assert((enc + rest).take(4) =~= spec_u32_to_le_bytes(item.key as u32));
        assert(bytes@.subrange(pos as int, pos + 4) =~= bytes@.skip(pos as int).take(4));
        assert(key_slice@ == spec_u32_to_le_bytes(item.key as u32));
    }
    let key_u = u32_from_le_bytes(key_slice);
    let key = key_u as i32;
    proof {
        lemma_i32_u32_roundtrip(item.key);
        assert(key == item.key);
    }
    let tag = bytes[pos + 4];
    proof {
        assert(bytes@.skip(pos as int)[4] == bytes@[pos as int + 4]);
        assert((enc + rest)[4] == enc[4]);
        assert(tag == enc[4]);
    }
    if tag == 0 {
        proof {
            if item.value matches Some(v0) {
                assert(enc[4] == 1u8);
                assert(false);
            }
            vstd::seq_lib::lemma_seq_skip_of_skip(bytes@, pos as int, 5);
            assert((enc + rest).skip(5) =~= rest);
            assert(bytes@.skip(pos as int).skip(5) == (enc + rest).skip(5));
            assert(bytes@.skip((pos + 5) as int) == rest);
        }
        (Item { key, value: None }, pos + 5)
    } else {
        proof {
            if item.value is None {
                assert(enc[4] == 0u8);
                assert(false);
            }
            assert(item.value is Some);
        }
        let ghost v = item.value->Some_0;
        proof {
            assert(enc.len() == 13 + v.len());
        }
        let len_slice = slice_subrange(bytes.as_slice(), pos + 5, pos + 13);
    proof {
            assert((enc + rest).subrange(5, 13) =~= spec_u64_to_le_bytes(v.len() as u64));
            assert(bytes@.subrange(pos + 5, pos + 13) =~= bytes@.skip(pos as int).subrange(5, 13));
            assert(len_slice@ == spec_u64_to_le_bytes(v.len() as u64));
        }
        let len = u64_from_le_bytes(len_slice);
        let len_us = len as usize;
        proof {
            assert(len_us == v.len());
            assert forall|j: int| 0 <= j < v.len() implies bytes@[pos + 13 + j] == v[j] by {
                assert(bytes@.skip(pos as int)[13 + j] == bytes@[pos as int + (13 + j)]);
                assert((enc + rest)[13 + j] == enc[13 + j]);
                assert(spec_encode_value(item.value)[9 + j] == v[j]);
                assert(enc[13 + j] == spec_encode_value(item.value)[9 + j]);
            }
        }
        let mut value: Vec<u8> = Vec::new();
        let mut i: usize = 0;
        while i < len_us
            invariant
                i <= len_us,
                len_us == v.len(),
                pos + 13 + len_us <= bytes@.len(),
                bytes@.len() <= usize::MAX,
                value@ == v.subrange(0, i as int),
                forall|j: int| 0 <= j < v.len() ==> bytes@[pos + 13 + j] == v[j],
            decreases len_us - i,
        {
            value.push(bytes[pos + 13 + i]);
            i = i + 1;
            assert(value@ =~= v.subrange(0, i as int));
        }
        proof {
            assert(value@ =~= v);
            vstd::seq_lib::lemma_seq_skip_of_skip(bytes@, pos as int, 13 + v.len() as int);
            assert((enc + rest).skip(13 + v.len() as int) =~= rest);
            assert(bytes@.skip(pos as int).skip(13 + v.len() as int) == (enc + rest).skip(
                13 + v.len() as int,
            ));
            assert(bytes@.skip((pos + 13 + len_us) as int) == rest);
        }
        let ret = Item { key, value: Some(value) };
        proof {
            assert(value.deep_view() =~= v);
            assert(ret@ == item);
        }
        (ret, pos + 13 + len_us)
    }
}

/// Decodes a whole encoded item sequence, directed by the ghost knowledge
/// of what the bytes hold.
pub(crate) fn decode_items(bytes: &Vec<u8>, Ghost(items): Ghost<Seq<ItemModel>>) -> (r: Vec<Item>)
    requires
        wf_items(items),
        bytes@ == spec_encode_items(items),
    ensures
        r.deep_view() == items,
{
    let mut out: Vec<Item> = Vec::new();
    let mut pos: usize = 0;
    proof {
        assert(bytes@.skip(0) =~= bytes@);
        assert(items.skip(0) =~= items);
        assert(out.deep_view() =~= items.subrange(0, 0));
    }
    while pos < bytes.len()
        invariant
            wf_items(items),
            bytes@ == spec_encode_items(items),
            out@.len() <= items.len(),
            out.deep_view() =~= items.subrange(0, out@.len() as int),
            pos <= bytes@.len(),
            bytes@.skip(pos as int) == spec_encode_items(items.skip(out@.len() as int)),
        decreases bytes@.len() - pos,
    {
        let ghost i = out@.len() as int;
        proof {
            if i == items.len() {
                assert(items.skip(i) =~= Seq::<ItemModel>::empty());
                assert(bytes@.skip(pos as int).len() == 0);
                assert(false);
            }
            assert(items.skip(i)[0] == items[i]);
            assert(items.skip(i).drop_first() =~= items.skip(i + 1));
            lemma_encode_item_len(items[i]);
        }
        let (item, next) = decode_item(
            bytes,
            pos,
            Ghost(items[i]),
            Ghost(spec_encode_items(items.skip(i + 1))),
        );
        out.push(item);
        pos = next;
        proof {
            assert(out.deep_view() =~= items.subrange(0, out@.len() as int));
        }
    }
    proof {
        let i = out@.len() as int;
        if i < items.len() {
            assert(items.skip(i)[0] == items[i]);
            lemma_encode_item_len(items[i]);
            assert(spec_encode_items(items.skip(i)).len() > 0);
        }
        assert(out.deep_view() =~= items);
    }
    out
}

} // verus!
