//! What is written in bytes is read back as it was.

use crate::codec::{
    auth_pair_bytes_spec, auth_pairs_body_spec, auth_pairs_bytes_spec, codeword_bytes_spec,
    decode_auth_pairs_spec, decode_codeword_spec, decode_pair_spec, decode_pairs_spec,
    decode_path_spec, entry_bytes_spec, path_bytes_spec, x_bytes_spec, x_from_bytes_spec,
};
use crate::digest::{Digest, element_bytes_spec, lemma_element_bytes_roundtrip};
use crate::domain_laws::x_all_canonical;
use crate::x_field_element::XFieldElement;
use vstd::bytes::{lemma_auto_spec_u64_to_from_le_bytes, spec_u64_to_le_bytes};
use vstd::prelude::*;

verus! {

/// Whether all digests that `path` holds are canonical.
pub open spec fn path_is_canonical(path: Seq<Option<Digest>>) -> bool {
    forall|i: int| 0 <= i < path.len() ==> (#[trigger] path[i] matches Some(d) ==> d.is_canonical())
}

/// Whether an opening with its values can be written: its digests and
/// values are canonical, and eight bytes hold the number of its pairs and
/// of the entries of each path.
pub open spec fn pairs_are_writable(pairs: Seq<(Seq<Option<Digest>>, XFieldElement)>) -> bool {
    &&& pairs.len() <= u64::MAX
    &&& forall|j: int|
        0 <= j < pairs.len() ==> {
            &&& (#[trigger] pairs[j]).0.len() <= u64::MAX
            &&& path_is_canonical(pairs[j].0)
            &&& pairs[j].1.is_canonical()
        }
}

/// The bytes of a canonical element of the extension field are 24, and
/// are read back as the element.
pub proof fn lemma_x_bytes_roundtrip(x: XFieldElement)
    requires
        x.is_canonical(),
    ensures
        x_bytes_spec(x).len() == 24,
        x_from_bytes_spec(x_bytes_spec(x)) == x,
{
    lemma_element_bytes_roundtrip(x.c0);
    lemma_element_bytes_roundtrip(x.c1);
    lemma_element_bytes_roundtrip(x.c2);
    let b = x_bytes_spec(x);
    assert(b.subrange(0, 8) =~= element_bytes_spec(x.c0));
    assert(b.subrange(8, 16) =~= element_bytes_spec(x.c1));
    assert(b.subrange(16, 24) =~= element_bytes_spec(x.c2));
}

/// The number of bytes of a codeword.
pub proof fn lemma_codeword_bytes_len(values: Seq<XFieldElement>)
    ensures
        codeword_bytes_spec(values).len() == 24 * values.len(),
    decreases values.len(),
{
    lemma_auto_spec_u64_to_from_le_bytes();
    if values.len() > 0 {
        lemma_codeword_bytes_len(values.drop_last());
    }
}

/// The bytes of a codeword of canonical values are read back as the
/// codeword.
pub proof fn lemma_codeword_roundtrip(values: Seq<XFieldElement>)
    requires
        x_all_canonical(values),
    ensures
        decode_codeword_spec(codeword_bytes_spec(values)) == Some(values),
    decreases values.len(),
{
    let bytes = codeword_bytes_spec(values);
    lemma_codeword_bytes_len(values);
    if values.len() == 0 {
        assert(decode_codeword_spec(bytes)->0 =~= values);
    } else {
        let head = values.drop_last();
        let head_bytes = codeword_bytes_spec(head);
        lemma_codeword_bytes_len(head);
        lemma_codeword_roundtrip(head);
        lemma_x_bytes_roundtrip(values.last());
        let read = decode_codeword_spec(bytes)->0;
        let read_head = decode_codeword_spec(head_bytes)->0;
        assert forall|i: int| 0 <= i < values.len() implies #[trigger] read[i] == values[i] by {
            if i < head.len() {
                assert(bytes.subrange(24 * i, 24 * i + 24) =~= head_bytes.subrange(
                    24 * i,
                    24 * i + 24,
                ));
                assert(read_head[i] == head[i]);
            } else {
                assert(bytes.subrange(24 * i, 24 * i + 24) =~= x_bytes_spec(values.last()));
            }
        }
        assert(read =~= values);
    }
}

/// The number of bytes of an entry, and of a path: at least one for each
/// entry and at most 33.
pub proof fn lemma_path_bytes_len(path: Seq<Option<Digest>>)
    ensures
        path.len() <= path_bytes_spec(path).len() <= 33 * path.len(),
    decreases path.len(),
{
    lemma_auto_spec_u64_to_from_le_bytes();
    if path.len() > 0 {
        lemma_path_bytes_len(path.drop_last());
    }
}

/// The bytes of a path of canonical digests, wherever they stand, are read
/// back as the path.
pub proof fn lemma_path_roundtrip(before: Seq<u8>, path: Seq<Option<Digest>>, after: Seq<u8>)
    requires
        path_is_canonical(path),
    ensures
        decode_path_spec(before + path_bytes_spec(path) + after, before.len(), path.len()) == Some(
            (path, before.len() + path_bytes_spec(path).len()),
        ),
    decreases path.len(),
{
    let bytes = before + path_bytes_spec(path) + after;
    if path.len() == 0 {
        assert(path =~= Seq::empty());
    } else {
        let head = path.drop_last();
        let last = path.last();
        let tail = entry_bytes_spec(last) + after;
        assert(bytes =~= before + path_bytes_spec(head) + tail);
        lemma_path_roundtrip(before, head, tail);
        let pos = before.len() + path_bytes_spec(head).len();
        match last {
            None => {
                assert(bytes[pos as int] == 0);
                assert(head.push(None) =~= path);
            },
            Some(digest) => {
                assert(path[path.len() - 1] == last);
                Digest::lemma_bytes_roundtrip(digest);
                assert(bytes[pos as int] == 1);
                assert(bytes.subrange(pos as int + 1, pos as int + 33) =~= digest.bytes_spec());
                assert(head.push(Some(digest)) =~= path);
            },
        }
    }
}

/// The bytes of a pair, wherever they stand, are read back as the pair.
pub proof fn lemma_pair_roundtrip(
    before: Seq<u8>,
    pair: (Seq<Option<Digest>>, XFieldElement),
    after: Seq<u8>,
)
    requires
        pair.0.len() <= u64::MAX,
        path_is_canonical(pair.0),
        pair.1.is_canonical(),
    ensures
        decode_pair_spec(before + auth_pair_bytes_spec(pair) + after, before.len()) == Some(
            (pair, before.len() + auth_pair_bytes_spec(pair).len()),
        ),
{
    lemma_auto_spec_u64_to_from_le_bytes();
    let count = spec_u64_to_le_bytes(pair.0.len() as u64);
    let path = path_bytes_spec(pair.0);
    let value = x_bytes_spec(pair.1);
    let bytes = before + auth_pair_bytes_spec(pair) + after;
    let at = before.len() as int;
    lemma_x_bytes_roundtrip(pair.1);
    assert(bytes.subrange(at, at + 8) =~= count);
    assert(bytes =~= (before + count) + path + (value + after));
    lemma_path_roundtrip(before + count, pair.0, value + after);
    let pos = at + 8 + path.len();
    assert(bytes.subrange(pos, pos + 24) =~= value);
}

/// The bytes of pairs, wherever they stand, are read back as the pairs.
pub proof fn lemma_pairs_roundtrip(
    before: Seq<u8>,
    pairs: Seq<(Seq<Option<Digest>>, XFieldElement)>,
    after: Seq<u8>,
)
    requires
        pairs_are_writable(pairs),
    ensures
        decode_pairs_spec(before + auth_pairs_body_spec(pairs) + after, before.len(), pairs.len())
            == Some((pairs, before.len() + auth_pairs_body_spec(pairs).len())),
    decreases pairs.len(),
{
    let bytes = before + auth_pairs_body_spec(pairs) + after;
    if pairs.len() == 0 {
        assert(pairs =~= Seq::empty());
    } else {
        let head = pairs.drop_last();
        let last = pairs.last();
        let head_bytes = auth_pairs_body_spec(head);
        let tail = auth_pair_bytes_spec(last) + after;
        assert(bytes =~= before + head_bytes + tail);
        assert(pairs_are_writable(head));
        lemma_pairs_roundtrip(before, head, tail);
        assert(bytes =~= (before + head_bytes) + auth_pair_bytes_spec(last) + after);
        lemma_pair_roundtrip(before + head_bytes, last, after);
        assert(head.push(last) =~= pairs);
    }
}

/// The bytes of an opening with its values are read back as they were.
pub proof fn lemma_auth_pairs_roundtrip(pairs: Seq<(Seq<Option<Digest>>, XFieldElement)>)
    requires
        pairs_are_writable(pairs),
    ensures
        decode_auth_pairs_spec(auth_pairs_bytes_spec(pairs)) == Some(pairs),
{
    lemma_auto_spec_u64_to_from_le_bytes();
    let count = spec_u64_to_le_bytes(pairs.len() as u64);
    let bytes = auth_pairs_bytes_spec(pairs);
    assert(bytes.subrange(0, 8) =~= count);
    assert(bytes =~= count + auth_pairs_body_spec(pairs) + Seq::<u8>::empty());
    lemma_pairs_roundtrip(count, pairs, Seq::empty());
}

} // verus!
