//! How a vector is laid out in a store of keys and values, both of them
//! bytes: the length stands under a key of one byte, and the element of
//! each index under the 16 bytes of the index, lowest first.
//!
//! The functions here say which keys to read and what to write for each
//! operation on the vector; the store itself is not touched here. Numbers
//! are written and read by bincode.

use vstd::bytes::{
    lemma_auto_spec_u128_to_from_le_bytes, spec_u128_from_le_bytes, spec_u128_to_le_bytes,
};
use vstd::prelude::*;

verus! {

/// The key under which the length stands.
pub open spec fn length_key_spec() -> Seq<u8> {
    seq![0u8]
}

/// The key under which the element of index `index` stands.
pub open spec fn index_key_spec(index: u128) -> Seq<u8> {
    spec_u128_to_le_bytes(index)
}

/// Whether `contents` hold a vector: a length, and an element for each
/// index below it.
pub open spec fn holds_vector(contents: Map<Seq<u8>, Seq<u8>>) -> bool {
    &&& contents.contains_key(length_key_spec())
    &&& contents[length_key_spec()].len() == 16
    &&& forall|index: u128|
        index < stored_length(contents) ==> contents.contains_key(#[trigger] index_key_spec(index))
}

/// The length of the vector that `contents` hold.
pub open spec fn stored_length(contents: Map<Seq<u8>, Seq<u8>>) -> u128 {
    spec_u128_from_le_bytes(contents[length_key_spec()])
}

/// The elements of the vector that `contents` hold.
pub open spec fn stored_elements(contents: Map<Seq<u8>, Seq<u8>>) -> Seq<Seq<u8>> {
    Seq::new(stored_length(contents) as nat, |i: int| contents[index_key_spec(i as u128)])
}

/// `contents` after a new, empty vector was set up in them.
pub open spec fn after_new_spec(contents: Map<Seq<u8>, Seq<u8>>) -> Map<Seq<u8>, Seq<u8>> {
    contents.insert(length_key_spec(), spec_u128_to_le_bytes(0))
}

/// `contents` after `value` was pushed.
pub open spec fn after_push_spec(contents: Map<Seq<u8>, Seq<u8>>, value: Seq<u8>) -> Map<
    Seq<u8>,
    Seq<u8>,
> {
    let length = stored_length(contents);
    contents.insert(index_key_spec(length), value).insert(
        length_key_spec(),
        spec_u128_to_le_bytes((length + 1) as u128),
    )
}

/// `contents` after the last element was popped.
pub open spec fn after_pop_spec(contents: Map<Seq<u8>, Seq<u8>>) -> Map<Seq<u8>, Seq<u8>> {
    let last = (stored_length(contents) - 1) as u128;
    contents.remove(index_key_spec(last)).insert(length_key_spec(), spec_u128_to_le_bytes(last))
}

/// `contents` after the element of index `index` was set to `value`.
pub open spec fn after_set_spec(
    contents: Map<Seq<u8>, Seq<u8>>,
    index: u128,
    value: Seq<u8>,
) -> Map<Seq<u8>, Seq<u8>> {
    contents.insert(index_key_spec(index), value)
}

/// The keys of indices are 16 bytes, so none is the key of the length; and
/// the keys of two indices are two keys.
pub proof fn lemma_keys_are_apart(first: u128, second: u128)
    ensures
        index_key_spec(first).len() == 16,
        index_key_spec(first) != length_key_spec(),
        first != second ==> index_key_spec(first) != index_key_spec(second),
        spec_u128_from_le_bytes(spec_u128_to_le_bytes(first)) == first,
{
    lemma_auto_spec_u128_to_from_le_bytes();
}

/// Setting up a new vector gives the empty vector.
pub proof fn lemma_new_is_empty(contents: Map<Seq<u8>, Seq<u8>>)
    ensures
        holds_vector(after_new_spec(contents)),
        stored_elements(after_new_spec(contents)) == Seq::<Seq<u8>>::empty(),
{
    lemma_keys_are_apart(0, 0);
    assert(stored_length(after_new_spec(contents)) == 0);
    assert(stored_elements(after_new_spec(contents)) =~= Seq::<Seq<u8>>::empty());
}

/// Pushing appends: the elements that were there stay, the length key
/// among them, and the new one stands behind them.
pub proof fn lemma_push_appends(contents: Map<Seq<u8>, Seq<u8>>, value: Seq<u8>)
    requires
        holds_vector(contents),
        stored_length(contents) < u128::MAX,
    ensures
        holds_vector(after_push_spec(contents, value)),
        stored_elements(after_push_spec(contents, value)) == stored_elements(contents).push(value),
{
    lemma_auto_spec_u128_to_from_le_bytes();
    let length = stored_length(contents);
    let after = after_push_spec(contents, value);
    lemma_keys_are_apart((length + 1) as u128, length);
    assert(stored_length(after) == length + 1);
    assert forall|index: u128| index < stored_length(after) implies after.contains_key(
        #[trigger] index_key_spec(index),
    ) by {
        lemma_keys_are_apart(index, length);
    }
    assert forall|i: int| 0 <= i < length + 1 implies #[trigger] stored_elements(after)[i]
        == stored_elements(contents).push(value)[i] by {
        lemma_keys_are_apart(i as u128, length);
    }
    assert(stored_elements(after) =~= stored_elements(contents).push(value));
}

/// Popping takes the last element away and leaves the others.
pub proof fn lemma_pop_drops_last(contents: Map<Seq<u8>, Seq<u8>>)
    requires
        holds_vector(contents),
        stored_length(contents) > 0,
    ensures
        holds_vector(after_pop_spec(contents)),
        stored_elements(after_pop_spec(contents)) == stored_elements(contents).drop_last(),
{
    lemma_auto_spec_u128_to_from_le_bytes();
    let last = (stored_length(contents) - 1) as u128;
    let after = after_pop_spec(contents);
    lemma_keys_are_apart(last, last);
    assert(stored_length(after) == last);
    assert forall|index: u128| index < stored_length(after) implies after.contains_key(
        #[trigger] index_key_spec(index),
    ) by {
        lemma_keys_are_apart(index, last);
    }
    assert forall|i: int| 0 <= i < last implies #[trigger] stored_elements(after)[i]
        == stored_elements(contents).drop_last()[i] by {
        lemma_keys_are_apart(i as u128, last);
    }
    assert(stored_elements(after) =~= stored_elements(contents).drop_last());
}

/// Setting an element changes that element and no other, nor the length.
pub proof fn lemma_set_updates(contents: Map<Seq<u8>, Seq<u8>>, index: u128, value: Seq<u8>)
    requires
        holds_vector(contents),
        index < stored_length(contents),
    ensures
        holds_vector(after_set_spec(contents, index, value)),
        stored_elements(after_set_spec(contents, index, value)) == stored_elements(
            contents,
        ).update(index as int, value),
{
    lemma_auto_spec_u128_to_from_le_bytes();
    let after = after_set_spec(contents, index, value);
    lemma_keys_are_apart(index, index);
    assert(stored_length(after) == stored_length(contents));
    assert forall|other: u128| other < stored_length(after) implies after.contains_key(
        #[trigger] index_key_spec(other),
    ) by {
        lemma_keys_are_apart(other, index);
    }
    assert forall|i: int| 0 <= i < stored_length(contents) implies #[trigger] stored_elements(
        after,
    )[i] == stored_elements(contents).update(index as int, value)[i] by {
        lemma_keys_are_apart(i as u128, index);
    }
    assert(stored_elements(after) =~= stored_elements(contents).update(index as int, value));
}

/// `bincode::serialize`, on a 128-bit number. With the settings of that
/// function a number is written whole, lowest byte first, so the result is
/// these 16 bytes; writing a number into a vector does not fail.
#[verifier::external_body]
fn bincode_from_u128(value: u128) -> (bytes: Vec<u8>)
    ensures
        bytes@ == spec_u128_to_le_bytes(value),
{
    bincode::serialize(&value).unwrap_or_default()
}

/// `bincode::deserialize`, to a 128-bit number: the number that the first
/// 16 bytes hold, lowest byte first. Bytes behind them are passed over, and
/// fewer than 16 bytes hold no number.
#[verifier::external_body]
fn bincode_to_u128(bytes: &[u8]) -> (value: Option<u128>)
    ensures
        value == if bytes@.len() >= 16 {
            Some(spec_u128_from_le_bytes(bytes@.subrange(0, 16)))
        } else {
            None
        },
{
    bincode::deserialize(bytes).ok()
}

/// The key under which the length stands.
pub fn length_key() -> (key: Vec<u8>)
    ensures
        key@ == length_key_spec(),
{
    let mut key: Vec<u8> = Vec::new();
    key.push(0u8);
    assert(key@ =~= length_key_spec());
    key
}

/// The key under which the element of index `index` stands.
pub fn index_key(index: u128) -> (key: Vec<u8>)
    ensures
        key@ == index_key_spec(index),
        key@.len() == 16,
{
    proof {
        lemma_keys_are_apart(index, index);
    }
    bincode_from_u128(index)
}

/// The bytes that stand for the length `length`.
pub fn encode_length(length: u128) -> (bytes: Vec<u8>)
    ensures
        bytes@ == spec_u128_to_le_bytes(length),
        bytes@.len() == 16,
{
    proof {
        lemma_keys_are_apart(length, length);
    }
    bincode_from_u128(length)
}

/// The length that the first 16 bytes of `bytes` stand for, if there are
/// as many.
pub fn decode_length(bytes: &[u8]) -> (length: Option<u128>)
    ensures
        length == if bytes@.len() >= 16 {
            Some(spec_u128_from_le_bytes(bytes@.subrange(0, 16)))
        } else {
            None
        },
        bytes@.len() == 16 ==> length == Some(spec_u128_from_le_bytes(bytes@)),
{
    proof {
        if bytes@.len() == 16 {
            assert(bytes@.subrange(0, 16) =~= bytes@);
        }
    }
    bincode_to_u128(bytes)
}

/// The key to read or write for the element of index `index` of a vector
/// of the length `length`, if there is such an element.
pub fn element_key(length: u128, index: u128) -> (key: Option<Vec<u8>>)
    ensures
        match key {
            Some(key) => index < length && key@ == index_key_spec(index),
            None => index >= length,
        },
{
    if index < length {
        Some(index_key(index))
    } else {
        None
    }
}

/// What to write in order to push onto a vector of the length `length`:
/// the key for the new element, and the bytes of the new length for the
/// length key. Nothing, if the length cannot grow.
pub fn push_plan(length: u128) -> (plan: Option<(Vec<u8>, Vec<u8>)>)
    ensures
        match plan {
            Some((key, new_length)) => length < u128::MAX && key@ == index_key_spec(length)
                && new_length@ == spec_u128_to_le_bytes((length + 1) as u128),
            None => length == u128::MAX,
        },
{
    if length == u128::MAX {
        None
    } else {
        Some((index_key(length), encode_length(length + 1)))
    }
}

/// What to do in order to pop from a vector of the length `length`: the
/// key of the last element, to be read and then deleted, and the bytes of
/// the new length for the length key. Nothing, if the vector is empty.
pub fn pop_plan(length: u128) -> (plan: Option<(Vec<u8>, Vec<u8>)>)
    ensures
        match plan {
            Some((key, new_length)) => length > 0 && key@ == index_key_spec((length - 1) as u128)
                && new_length@ == spec_u128_to_le_bytes((length - 1) as u128),
            None => length == 0,
        },
{
    if length == 0 {
        None
    } else {
        Some((index_key(length - 1), encode_length(length - 1)))
    }
}

/// The keys to write for the elements of the indices `indices` of a vector
/// of the length `length`, in order, if all are indices of elements.
pub fn batch_keys(length: u128, indices: &[u128]) -> (keys: Option<Vec<Vec<u8>>>)
    ensures
        match keys {
            Some(keys) => {
                &&& forall|i: int| 0 <= i < indices@.len() ==> indices@[i] < length
                &&& keys@.len() == indices@.len()
                &&& forall|i: int|
                    0 <= i < indices@.len() ==> (#[trigger] keys@[i])@ == index_key_spec(
                        indices@[i],
                    )
            },
            None => exists|i: int| 0 <= i < indices@.len() && indices@[i] >= length,
        },
{
    let mut keys: Vec<Vec<u8>> = Vec::new();
    let mut i: usize = 0;
    while i < indices.len()
        invariant
            i <= indices@.len(),
            keys@.len() == i,
            forall|j: int| 0 <= j < i ==> indices@[j] < length,
            forall|j: int| 0 <= j < i ==> (#[trigger] keys@[j])@ == index_key_spec(indices@[j]),
        decreases indices@.len() - i,
    {
        if indices[i] >= length {
            return None;
        }
        keys.push(index_key(indices[i]));
        i = i + 1;
    }
    Some(keys)
}

} // verus!
