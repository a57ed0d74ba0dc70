//! The byte forms of what a proof holds: codewords, and openings with the
//! values that they open.
//!
//! An element of the prime field is eight bytes, lowest first; a number is
//! eight bytes too. An element of the extension field is its three
//! coefficients. An entry of a path is one byte, 0 for `None` and 1 for
//! `Some`, and then for `Some` the 32 bytes of the digest.

use crate::digest::{
    Digest, element_bytes_spec, element_from_bytes, element_from_bytes_spec, element_to_bytes,
};
use crate::merkle_tree::PartialAuthenticationPath;
use crate::x_field_element::XFieldElement;
use vstd::bytes::{spec_u64_from_le_bytes, spec_u64_to_le_bytes, u64_from_le_bytes, u64_to_le_bytes};
use vstd::slice::slice_subrange;
use vstd::prelude::*;

verus! {

/// The number of bytes in the byte form of an element of the extension
/// field.
pub const X_BYTES: usize = 24;

/// The 24 bytes of `x`.
pub open spec fn x_bytes_spec(x: XFieldElement) -> Seq<u8> {
    element_bytes_spec(x.c0) + element_bytes_spec(x.c1) + element_bytes_spec(x.c2)
}

/// The element that 24 bytes hold.
pub open spec fn x_from_bytes_spec(bytes: Seq<u8>) -> XFieldElement {
    XFieldElement {
        c0: element_from_bytes_spec(bytes.subrange(0, 8)),
        c1: element_from_bytes_spec(bytes.subrange(8, 16)),
        c2: element_from_bytes_spec(bytes.subrange(16, 24)),
    }
}

/// The bytes of the elements of `values`, in order.
pub open spec fn codeword_bytes_spec(values: Seq<XFieldElement>) -> Seq<u8>
    decreases values.len(),
{
    if values.len() == 0 {
        Seq::empty()
    } else {
        codeword_bytes_spec(values.drop_last()) + x_bytes_spec(values.last())
    }
}

/// The elements that `bytes` hold, 24 bytes each, if `bytes` are a
/// multiple of 24 bytes.
pub open spec fn decode_codeword_spec(bytes: Seq<u8>) -> Option<Seq<XFieldElement>> {
    if bytes.len() % 24 != 0 {
        None
    } else {
        Some(
            Seq::new(
                bytes.len() / 24,
                |i: int| x_from_bytes_spec(bytes.subrange(24 * i, 24 * i + 24)),
            ),
        )
    }
}

/// The bytes of one entry of a path.
pub open spec fn entry_bytes_spec(entry: Option<Digest>) -> Seq<u8> {
    match entry {
        None => seq![0u8],
        Some(digest) => seq![1u8] + digest.bytes_spec(),
    }
}

/// The bytes of the entries of `path`, in order.
pub open spec fn path_bytes_spec(path: Seq<Option<Digest>>) -> Seq<u8>
    decreases path.len(),
{
    if path.len() == 0 {
        Seq::empty()
    } else {
        path_bytes_spec(path.drop_last()) + entry_bytes_spec(path.last())
    }
}

/// The bytes of a path with the value that it opens: the number of the
/// path's entries, the entries, the value.
pub open spec fn auth_pair_bytes_spec(pair: (Seq<Option<Digest>>, XFieldElement)) -> Seq<u8> {
    spec_u64_to_le_bytes(pair.0.len() as u64) + path_bytes_spec(pair.0) + x_bytes_spec(pair.1)
}

/// The bytes of the pairs of `pairs`, in order.
pub open spec fn auth_pairs_body_spec(pairs: Seq<(Seq<Option<Digest>>, XFieldElement)>) -> Seq<u8>
    decreases pairs.len(),
{
    if pairs.len() == 0 {
        Seq::empty()
    } else {
        auth_pairs_body_spec(pairs.drop_last()) + auth_pair_bytes_spec(pairs.last())
    }
}

/// The bytes of an opening with its values: the number of pairs, then the
/// pairs.
pub open spec fn auth_pairs_bytes_spec(pairs: Seq<(Seq<Option<Digest>>, XFieldElement)>) -> Seq<
    u8,
> {
    spec_u64_to_le_bytes(pairs.len() as u64) + auth_pairs_body_spec(pairs)
}

/// The `count` entries of a path that `bytes` hold from `at` on, and the
/// place behind them; `None` where the bytes end too early or an entry
/// starts with a byte other than 0 and 1.
pub open spec fn decode_path_spec(bytes: Seq<u8>, at: nat, count: nat) -> Option<
    (Seq<Option<Digest>>, nat),
>
    decreases count,
{
    if count == 0 {
        Some((Seq::empty(), at))
    } else {
        match decode_path_spec(bytes, at, (count - 1) as nat) {
            None => None,
            Some((entries, pos)) => {
                if pos >= bytes.len() {
                    None
                } else if bytes[pos as int] == 0 {
                    Some((entries.push(None), pos + 1))
                } else if bytes[pos as int] == 1 && pos + 33 <= bytes.len() {
                    Some(
                        (
                            entries.push(
                                Some(
                                    Digest::from_bytes_spec(
                                        bytes.subrange(pos as int + 1, pos as int + 33),
                                    ),
                                ),
                            ),
                            pos + 33,
                        ),
                    )
                } else {
                    None
                }
            },
        }
    }
}

/// The path and the value that `bytes` hold from `at` on, and the place
/// behind them.
pub open spec fn decode_pair_spec(bytes: Seq<u8>, at: nat) -> Option<
    ((Seq<Option<Digest>>, XFieldElement), nat),
> {
    if at + 8 > bytes.len() {
        None
    } else {
        match decode_path_spec(
            bytes,
            at + 8,
            spec_u64_from_le_bytes(bytes.subrange(at as int, at as int + 8)) as nat,
        ) {
            None => None,
            Some((path, pos)) => {
                if pos + 24 > bytes.len() {
                    None
                } else {
                    Some(
                        (
                            (path, x_from_bytes_spec(bytes.subrange(pos as int, pos as int + 24))),
                            pos + 24,
                        ),
                    )
                }
            },
        }
    }
}

/// The `count` pairs that `bytes` hold from `at` on, and the place behind
/// them.
pub open spec fn decode_pairs_spec(bytes: Seq<u8>, at: nat, count: nat) -> Option<
    (Seq<(Seq<Option<Digest>>, XFieldElement)>, nat),
>
    decreases count,
{
    if count == 0 {
        Some((Seq::empty(), at))
    } else {
        match decode_pairs_spec(bytes, at, (count - 1) as nat) {
            None => None,
            Some((pairs, pos)) => match decode_pair_spec(bytes, pos) {
                None => None,
                Some((pair, next)) => Some((pairs.push(pair), next)),
            },
        }
    }
}

/// The opening with its values that `bytes` hold: as many pairs as the
/// first eight bytes say, with no byte left over.
pub open spec fn decode_auth_pairs_spec(bytes: Seq<u8>) -> Option<
    Seq<(Seq<Option<Digest>>, XFieldElement)>,
> {
    if bytes.len() < 8 {
        None
    } else {
        match decode_pairs_spec(bytes, 8, spec_u64_from_le_bytes(bytes.subrange(0, 8)) as nat) {
            Some((pairs, pos)) => if pos == bytes.len() {
                Some(pairs)
            } else {
                None
            },
            None => None,
        }
    }
}

/// Where fewer entries cannot be read, more cannot either.
pub proof fn lemma_decode_path_fails_on(bytes: Seq<u8>, at: nat, fewer: nat, count: nat)
    requires
        fewer <= count,
        decode_path_spec(bytes, at, fewer) is None,
    ensures
        decode_path_spec(bytes, at, count) is None,
    decreases count,
{
    if fewer < count {
        lemma_decode_path_fails_on(bytes, at, fewer, (count - 1) as nat);
    }
}

/// Where fewer pairs cannot be read, more cannot either.
pub proof fn lemma_decode_pairs_fails_on(bytes: Seq<u8>, at: nat, fewer: nat, count: nat)
    requires
        fewer <= count,
        decode_pairs_spec(bytes, at, fewer) is None,
    ensures
        decode_pairs_spec(bytes, at, count) is None,
    decreases count,
{
    if fewer < count {
        lemma_decode_pairs_fails_on(bytes, at, fewer, (count - 1) as nat);
    }
}

pub fn x_to_bytes(x: &XFieldElement) -> (res: Vec<u8>)
    ensures
        res@ == x_bytes_spec(*x),
        res@.len() == 24,
{
    let mut res = element_to_bytes(x.c0);
    let mut b1 = element_to_bytes(x.c1);
    let mut b2 = element_to_bytes(x.c2);
    res.append(&mut b1);
    res.append(&mut b2);
    res
}

pub fn x_from_bytes(bytes: &[u8]) -> (res: XFieldElement)
    requires
        bytes@.len() == 24,
    ensures
        res == x_from_bytes_spec(bytes@),
{
    XFieldElement {
        c0: element_from_bytes(slice_subrange(bytes, 0, 8)),
        c1: element_from_bytes(slice_subrange(bytes, 8, 16)),
        c2: element_from_bytes(slice_subrange(bytes, 16, 24)),
    }
}

/// The bytes of the elements of `values`, in order.
pub fn encode_codeword(values: &[XFieldElement]) -> (res: Vec<u8>)
    ensures
        res@ == codeword_bytes_spec(values@),
{
    let mut res: Vec<u8> = Vec::new();
    let mut i: usize = 0;
    while i < values.len()
        invariant
            i <= values@.len(),
            res@ == codeword_bytes_spec(values@.take(i as int)),
        decreases values@.len() - i,
    {
        let mut bytes = x_to_bytes(&values[i]);
        proof {
            assert(values@.take(i + 1).drop_last() =~= values@.take(i as int));
        }
        res.append(&mut bytes);
        i = i + 1;
    }
    proof {
        assert(values@.take(i as int) =~= values@);
    }
    res
}

/// The elements that `bytes` hold, if `bytes` are a multiple of 24 bytes.
pub fn decode_codeword(bytes: &[u8]) -> (res: Option<Vec<XFieldElement>>)
    ensures
        match decode_codeword_spec(bytes@) {
            Some(values) => res is Some && res->0@ == values,
            None => res is None,
        },
{
    if bytes.len() % 24 != 0 {
        return None;
    }
    let count = bytes.len() / 24;
    let mut res: Vec<XFieldElement> = Vec::new();
    let mut i: usize = 0;
    while i < count
        invariant
            i <= count,
            24 * count == bytes@.len() <= usize::MAX,
            res@.len() == i,
            forall|j: int|
                0 <= j < i ==> #[trigger] res@[j] == x_from_bytes_spec(
                    bytes@.subrange(24 * j, 24 * j + 24),
                ),
        decreases count - i,
    {
        res.push(x_from_bytes(slice_subrange(bytes, 24 * i, 24 * i + 24)));
        i = i + 1;
    }
    proof {
        assert(res@ =~= decode_codeword_spec(bytes@)->0);
    }
    Some(res)
}

/// The bytes of the entries of `path`, in order.
pub fn encode_path(path: &PartialAuthenticationPath) -> (res: Vec<u8>)
    ensures
        res@ == path_bytes_spec(path.0@),
{
    let mut res: Vec<u8> = Vec::new();
    let mut i: usize = 0;
    while i < path.0.len()
        invariant
            i <= path.0@.len(),
            res@ == path_bytes_spec(path.0@.take(i as int)),
        decreases path.0@.len() - i,
    {
        proof {
            assert(path.0@.take(i + 1).drop_last() =~= path.0@.take(i as int));
        }
        match path.0[i] {
            None => {
                res.push(0u8);
                assert(res@ =~= path_bytes_spec(path.0@.take(i as int)) + seq![0u8]);
            },
            Some(digest) => {
                res.push(1u8);
                let mut bytes = digest.to_bytes();
                res.append(&mut bytes);
                assert(res@ =~= path_bytes_spec(path.0@.take(i as int)) + (seq![1u8]
                    + digest.bytes_spec()));
            },
        }
        i = i + 1;
    }
    proof {
        assert(path.0@.take(i as int) =~= path.0@);
    }
    res
}

/// The bytes of an opening with its values: path `j` of `paths` opens
/// value `j` of `values`.
pub fn encode_auth_pairs(paths: &[PartialAuthenticationPath], values: &[XFieldElement]) -> (res:
    Vec<u8>)
    requires
        paths@.len() == values@.len(),
    ensures
        res@ == auth_pairs_bytes_spec(
            Seq::new(paths@.len(), |j: int| (paths@[j].0@, values@[j])),
        ),
{
    let ghost view = Seq::new(paths@.len(), |j: int| (paths@[j].0@, values@[j]));
    let mut res = u64_to_le_bytes(paths.len() as u64);
    let ghost prefix = res@;
    let mut i: usize = 0;
    while i < paths.len()
        invariant
            i <= paths@.len(),
            paths@.len() == values@.len(),
            view == Seq::new(paths@.len(), |j: int| (paths@[j].0@, values@[j])),
            res@ == prefix + auth_pairs_body_spec(view.take(i as int)),
        decreases paths@.len() - i,
    {
        proof {
            assert(view.take(i + 1).drop_last() =~= view.take(i as int));
            assert(view.take(i + 1).last() == (paths@[i as int].0@, values@[i as int]));
        }
        let ghost before = res@;
        let mut count = u64_to_le_bytes(paths[i].0.len() as u64);
        let mut path = encode_path(&paths[i]);
        let mut value = x_to_bytes(&values[i]);
        res.append(&mut count);
        res.append(&mut path);
        res.append(&mut value);
        proof {
            let pair = (paths@[i as int].0@, values@[i as int]);
            assert(res@ =~= before + auth_pair_bytes_spec(pair));
            assert(res@ =~= prefix + (auth_pairs_body_spec(view.take(i as int))
                + auth_pair_bytes_spec(pair)));
        }
        i = i + 1;
    }
    proof {
        assert(view.take(i as int) =~= view);
    }
    res
}

/// The `count` entries of a path that `bytes` hold from `at` on, and the
/// place behind them.
pub fn decode_path(bytes: &[u8], at: usize, count: u64) -> (res: Option<
    (PartialAuthenticationPath, usize),
>)
    requires
        at <= bytes@.len(),
    ensures
        match decode_path_spec(bytes@, at as nat, count as nat) {
            Some((entries, pos)) => res matches Some((path, behind)) && path.0@ == entries
                && behind == pos && pos <= bytes@.len(),
            None => res is None,
        },
{
    let mut entries: Vec<Option<Digest>> = Vec::new();
    let mut pos: usize = at;
    let mut i: u64 = 0;
    while i < count
        invariant
            i <= count,
            pos <= bytes@.len(),
            decode_path_spec(bytes@, at as nat, i as nat) == Some((entries@, pos as nat)),
        decreases count - i,
    {
        if pos >= bytes.len() {
            proof {
                lemma_decode_path_fails_on(bytes@, at as nat, (i + 1) as nat, count as nat);
            }
            return None;
        }
        let tag = bytes[pos];
        if tag == 0 {
            entries.push(None);
            pos = pos + 1;
        } else if tag == 1 && bytes.len() - pos >= 33 {
            let digest = Digest::from_bytes(slice_subrange(bytes, pos + 1, pos + 33));
            entries.push(Some(digest));
            pos = pos + 33;
        } else {
            proof {
                lemma_decode_path_fails_on(bytes@, at as nat, (i + 1) as nat, count as nat);
            }
            return None;
        }
        i = i + 1;
    }
    Some((PartialAuthenticationPath(entries), pos))
}

/// The opening with its values that `bytes` hold: the paths, and the
/// value that each of them opens.
pub fn decode_auth_pairs(bytes: &[u8]) -> (res: Option<
    (Vec<PartialAuthenticationPath>, Vec<XFieldElement>),
>)
    ensures
        match decode_auth_pairs_spec(bytes@) {
            Some(pairs) => res matches Some((paths, values)) && paths@.len() == pairs.len()
                && values@.len() == pairs.len() && forall|j: int|
                0 <= j < pairs.len() ==> #[trigger] pairs[j] == (paths@[j].0@, values@[j]),
            None => res is None,
        },
{
    if bytes.len() < 8 {
        return None;
    }
    let count = u64_from_le_bytes(slice_subrange(bytes, 0, 8));
    let mut paths: Vec<PartialAuthenticationPath> = Vec::new();
    let mut values: Vec<XFieldElement> = Vec::new();
    let mut pos: usize = 8;
    let mut i: u64 = 0;
    while i < count
        invariant
            i <= count,
            8 <= pos <= bytes@.len(),
            count == spec_u64_from_le_bytes(bytes@.subrange(0, 8)),
            paths@.len() == i,
            values@.len() == i,
            decode_pairs_spec(bytes@, 8, i as nat) matches Some((pairs, behind)) && behind == pos
                && pairs.len() == i && forall|j: int|
                0 <= j < i ==> #[trigger] pairs[j] == (paths@[j].0@, values@[j]),
        decreases count - i,
    {
        if bytes.len() - pos < 8 {
            proof {
                lemma_decode_pairs_fails_on(bytes@, 8, (i + 1) as nat, count as nat);
            }
            return None;
        }
        let entries = u64_from_le_bytes(slice_subrange(bytes, pos, pos + 8));
        let (path, behind) = match decode_path(bytes, pos + 8, entries) {
            Some(found) => found,
            None => {
                proof {
                    lemma_decode_pairs_fails_on(bytes@, 8, (i + 1) as nat, count as nat);
                }
                return None;
            },
        };
        if bytes.len() - behind < 24 {
            proof {
                lemma_decode_pairs_fails_on(bytes@, 8, (i + 1) as nat, count as nat);
            }
            return None;
        }
        let value = x_from_bytes(slice_subrange(bytes, behind, behind + 24));
        paths.push(path);
        values.push(value);
        pos = behind + 24;
        i = i + 1;
    }
    if pos != bytes.len() {
        return None;
    }
    Some((paths, values))
}

} // verus!
