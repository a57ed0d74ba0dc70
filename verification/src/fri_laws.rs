//! An honest proof is accepted: the verifier finds the codeword of a
//! polynomial of low enough degree to be close to such a codeword, and
//! returns values of the polynomial.

use crate::algebraic_hasher::AlgebraicHasher;
use crate::b_field_element::BFieldElement;
use crate::codec::{auth_pairs_body_spec, auth_pairs_bytes_spec, codeword_bytes_spec};
use crate::codec_laws::{
    lemma_auth_pairs_roundtrip, lemma_codeword_bytes_len, lemma_codeword_roundtrip,
    lemma_path_bytes_len, lemma_x_bytes_roundtrip, pairs_are_writable, path_is_canonical,
};
use crate::digest::Digest;
use crate::domain_laws::x_all_canonical;
use crate::fold_laws::{fold_polynomial_spec, lemma_x_eval_canonical};
use crate::fri::{
    auth_pairs_spec, authenticate_spec, b_indices_spec, bundle_bytes_spec, colinear_values_spec,
    commit_layer_spec, commit_transcript_spec, evaluation_argument_spec, evaluations_spec,
    fold_spec, Fri, full_rounds_spec, halved_spec, leaf_digests_spec, lemma_commit_layer_len,
    lemma_sampled_indices_distinct, missed_rounds_spec, proof_transcript_spec, query_rounds_spec,
    read_codeword_spec, read_roots_spec, reduced_indices_spec, sample_indices_spec,
    sibling_indices_spec,
    top_indices_spec, ValidationError, values_agree_spec,
};
use crate::fri_domain::FriDomain;
use crate::merkle_laws::{lemma_opening_verifies, lemma_partial_path_len};
use crate::merkle_tree::{
    authentication_structure_spec, node_spec, opened_spec, partial_path_spec, root_spec, seen_spec,
};
use crate::polynomial::{lemma_x_degree_bounds, x_degree_spec, x_eval_spec};
use crate::power_of_two::{
    is_power_of_two_spec, lemma_half_power_of_two, lemma_log_2_floor_bounds, log_2_ceil_spec,
    log_2_floor_spec,
};
use crate::proof_stream::{
    fiat_shamir_spec, lemma_length_prepended_roundtrip, length_prepended_spec,
};
use crate::x_field_element::XFieldElement;
use crate::x_field_laws::{lemma_line_is_fold, lemma_results_are_canonical};
use vstd::arithmetic::div_mod::{lemma_add_mod_noop, lemma_mod_twice, lemma_small_mod};
use vstd::arithmetic::power2::{
    lemma2_to64, lemma2_to64_rest, lemma_pow2_pos, lemma_pow2_strictly_increases, lemma_pow2_unfold,
    pow2,
};
use vstd::bytes::lemma_auto_spec_u64_to_from_le_bytes;
use vstd::prelude::*;

verus! {

/// The domain of layer `r`: the domain of the squares, `r` times over.
pub open spec fn layer_domain_spec(domain: FriDomain, r: nat) -> FriDomain
    decreases r,
{
    if r == 0 {
        domain
    } else {
        layer_domain_spec(domain, (r - 1) as nat).squared_domain_spec()
    }
}

/// The challenge under which the prover folds the codeword of layer `r`.
pub open spec fn challenge_spec<H: AlgebraicHasher>(
    domain: FriDomain,
    codeword: Seq<XFieldElement>,
    transcript: Seq<u8>,
    r: nat,
) -> XFieldElement {
    let written = commit_layer_spec::<H>(domain, codeword, transcript, r).1;
    XFieldElement::sample_spec(fiat_shamir_spec::<H>(written, written.len()))
}

/// The coefficients of the polynomial of layer `r`, where the polynomial
/// of the first layer has the coefficients `p`: each layer's polynomial is
/// the fold of that of the layer before.
pub open spec fn layer_polynomial_spec<H: AlgebraicHasher>(
    domain: FriDomain,
    p: Seq<XFieldElement>,
    transcript: Seq<u8>,
    r: nat,
) -> Seq<XFieldElement>
    decreases r,
{
    if r == 0 {
        p
    } else {
        fold_polynomial_spec(
            layer_polynomial_spec::<H>(domain, p, transcript, (r - 1) as nat),
            challenge_spec::<H>(domain, domain.x_evaluate_spec(p), transcript, (r - 1) as nat),
        )
    }
}

/// `n`, halved `r` times, each time rounded up.
pub open spec fn halved_up_spec(n: nat, r: nat) -> nat
    decreases r,
{
    if r == 0 {
        n
    } else {
        (halved_up_spec(n, (r - 1) as nat) + 1) / 2
    }
}

/// What is at most a power of two is, halved up no more often than the
/// exponent says, at most the power of two of that much less.
pub proof fn lemma_halved_up(n: nat, k: nat, r: nat)
    requires
        n <= pow2(k),
        r <= k,
    ensures
        halved_up_spec(n, r) <= pow2((k - r) as nat),
    decreases r,
{
    if r > 0 {
        lemma_halved_up(n, k, (r - 1) as nat);
        lemma_pow2_unfold((k - r + 1) as nat);
    }
}

/// The domain of each layer up to the first of fewer than two points is a
/// coset, with the generator and the offset squared once for each layer
/// and half the length for each layer.
pub proof fn lemma_layer_domain(domain: FriDomain, r: nat)
    requires
        domain.is_coset(),
        forall|k: nat| k < r ==> 2 <= #[trigger] halved_spec(domain.length as nat, k),
    ensures
        layer_domain_spec(domain, r).is_coset(),
        layer_domain_spec(domain, r).offset == domain.offset.squared_spec(r),
        layer_domain_spec(domain, r).omega == domain.omega.squared_spec(r),
        layer_domain_spec(domain, r).length == halved_spec(domain.length as nat, r),
    decreases r,
{
    if r > 0 {
        lemma_layer_domain(domain, (r - 1) as nat);
        assert(2 <= halved_spec(domain.length as nat, (r - 1) as nat));
        layer_domain_spec(domain, (r - 1) as nat).lemma_squared_domain_is_coset();
    }
}

/// The challenges are canonical.
pub proof fn lemma_challenge_is_canonical<H: AlgebraicHasher>(
    domain: FriDomain,
    codeword: Seq<XFieldElement>,
    transcript: Seq<u8>,
    r: nat,
)
    ensures
        challenge_spec::<H>(domain, codeword, transcript, r).is_canonical(),
{
    let written = commit_layer_spec::<H>(domain, codeword, transcript, r).1;
    H::lemma_hash_is_canonical(
        crate::digest::bytes_as_elements_spec(written.take(written.len() as int)),
    );
}

/// The codeword of each layer is that of the layer's polynomial on the
/// layer's domain, where the first codeword is that of the polynomial
/// with the coefficients `p`.
pub proof fn lemma_layers_are_codewords<H: AlgebraicHasher>(
    domain: FriDomain,
    p: Seq<XFieldElement>,
    transcript: Seq<u8>,
    r: nat,
)
    requires
        domain.is_coset(),
        x_all_canonical(p),
        forall|k: nat| k < r ==> 2 <= #[trigger] halved_spec(domain.length as nat, k),
    ensures
        commit_layer_spec::<H>(domain, domain.x_evaluate_spec(p), transcript, r).0
            == layer_domain_spec(domain, r).x_evaluate_spec(
            layer_polynomial_spec::<H>(domain, p, transcript, r),
        ),
        x_all_canonical(layer_polynomial_spec::<H>(domain, p, transcript, r)),
        layer_polynomial_spec::<H>(domain, p, transcript, r).len() == halved_up_spec(p.len(), r),
    decreases r,
{
    if r > 0 {
        let before = (r - 1) as nat;
        lemma_layers_are_codewords::<H>(domain, p, transcript, before);
        lemma_layer_domain(domain, before);
        assert(2 <= halved_spec(domain.length as nat, before));
        let codeword = domain.x_evaluate_spec(p);
        let alpha = challenge_spec::<H>(domain, codeword, transcript, before);
        lemma_challenge_is_canonical::<H>(domain, codeword, transcript, before);
        layer_domain_spec(domain, before).lemma_fold_of_evaluation(
            layer_polynomial_spec::<H>(domain, p, transcript, before),
            alpha,
        );
    }
}

/// The values of a polynomial are canonical.
pub proof fn lemma_codeword_is_canonical(domain: FriDomain, p: Seq<XFieldElement>)
    ensures
        x_all_canonical(domain.x_evaluate_spec(p)),
{
    assert forall|i: int| 0 <= i < domain.x_evaluate_spec(p).len() implies (
    #[trigger] domain.x_evaluate_spec(p)[i]).is_canonical() by {
        lemma_x_eval_canonical(p, domain.domain_value_spec(i as nat));
    }
}

/// The polynomial whose coefficients are those of `p` and then zeros has
/// a degree below the number of coefficients of `p`.
pub proof fn lemma_degree_of_padded(p: Seq<XFieldElement>, zeros: nat)
    ensures
        x_degree_spec(p + Seq::new(zeros, |i: int| XFieldElement::spec_zero())) < p.len(),
{
    let padded = p + Seq::new(zeros, |i: int| XFieldElement::spec_zero());
    lemma_x_degree_bounds(padded);
    let d = x_degree_spec(padded);
    if d >= p.len() {
        assert(padded[d] == XFieldElement::spec_zero());
    }
}

/// Whether `f` begins with `s`.
pub open spec fn begins_with(f: Seq<u8>, s: Seq<u8>) -> bool {
    s.len() <= f.len() && f.subrange(0, s.len() as int) == s
}

/// What begins with a sequence begins with what that sequence begins
/// with; and a sequence with more behind it begins with itself.
pub proof fn lemma_begins_with(f: Seq<u8>, s: Seq<u8>, t: Seq<u8>, more: Seq<u8>)
    ensures
        begins_with(f, s) && begins_with(s, t) ==> begins_with(f, t),
        begins_with(s + more, s),
        begins_with(s, s),
{
    if begins_with(f, s) && begins_with(s, t) {
        assert(f.subrange(0, t.len() as int) =~= s.subrange(0, t.len() as int));
    }
    assert((s + more).subrange(0, s.len() as int) =~= s);
    assert(s.subrange(0, s.len() as int) =~= s);
}

/// The root of layer `r` of the commit phase.
pub open spec fn layer_root_spec<H: AlgebraicHasher>(
    domain: FriDomain,
    codeword: Seq<XFieldElement>,
    transcript: Seq<u8>,
    r: nat,
) -> Digest {
    root_spec::<H>(
        leaf_digests_spec::<H>(commit_layer_spec::<H>(domain, codeword, transcript, r).0),
    )
}

/// The digest of each node of a tree over digests of codeword values is
/// canonical.
pub proof fn lemma_node_is_canonical<H: AlgebraicHasher>(codeword: Seq<XFieldElement>, k: nat)
    requires
        1 <= k < 2 * codeword.len(),
    ensures
        node_spec::<H>(leaf_digests_spec::<H>(codeword), k).is_canonical(),
{
    let leaves = leaf_digests_spec::<H>(codeword);
    if k >= leaves.len() {
        H::lemma_hash_is_canonical(codeword[k - leaves.len()].sequence_spec());
    } else {
        H::lemma_hash_is_canonical(
            node_spec::<H>(leaves, 2 * k).sequence_spec() + node_spec::<H>(
                leaves,
                2 * k + 1,
            ).sequence_spec(),
        );
    }
}

/// The transcript of the commit phase grows from layer to layer: after
/// each layer it begins with what it was after the layers before, and
/// with what it was to begin with. Each layer adds 32 bytes.
pub proof fn lemma_commit_layers_grow<H: AlgebraicHasher>(
    domain: FriDomain,
    codeword: Seq<XFieldElement>,
    transcript: Seq<u8>,
    r: nat,
    later: nat,
)
    requires
        r <= later,
        codeword.len() >= 1,
        forall|k: nat| k <= later ==> 1 <= #[trigger] halved_spec(codeword.len(), k),
    ensures
        begins_with(
            commit_layer_spec::<H>(domain, codeword, transcript, later).1,
            commit_layer_spec::<H>(domain, codeword, transcript, r).1,
        ),
        begins_with(commit_layer_spec::<H>(domain, codeword, transcript, later).1, transcript),
        commit_layer_spec::<H>(domain, codeword, transcript, later).1.len() == transcript.len() + 32
            * (later + 1),
    decreases later,
{
    let last = commit_layer_spec::<H>(domain, codeword, transcript, later);
    lemma_commit_layer_len::<H>(domain, codeword, transcript, later);
    assert(1 <= halved_spec(codeword.len(), later));
    lemma_node_is_canonical::<H>(last.0, 1);
    Digest::lemma_bytes_roundtrip(layer_root_spec::<H>(domain, codeword, transcript, later));
    let root = layer_root_spec::<H>(domain, codeword, transcript, later).bytes_spec();
    lemma_begins_with(last.1, last.1, last.1, root);
    if later == 0 {
        lemma_begins_with(last.1, transcript, transcript, root);
    } else {
        let before = commit_layer_spec::<H>(domain, codeword, transcript, (later - 1) as nat);
        lemma_begins_with(last.1, before.1, transcript, root);
        if r < later {
            lemma_commit_layers_grow::<H>(domain, codeword, transcript, r, (later - 1) as nat);
            lemma_begins_with(
                last.1,
                before.1,
                commit_layer_spec::<H>(domain, codeword, transcript, r).1,
                root,
            );
        } else {
            lemma_commit_layers_grow::<H>(
                domain,
                codeword,
                transcript,
                (later - 1) as nat,
                (later - 1) as nat,
            );
        }
        lemma_begins_with(last.1, before.1, transcript, root);
    }
}

/// From a transcript that begins with that of the commit phase up to
/// layer `r`, the verifier reads the roots of the layers up to `r` and
/// draws the challenges of the prover.
#[verifier::rlimit(50)]
pub proof fn lemma_read_roots<H: AlgebraicHasher>(
    domain: FriDomain,
    codeword: Seq<XFieldElement>,
    transcript: Seq<u8>,
    f: Seq<u8>,
    r: nat,
)
    requires
        codeword.len() >= 1,
        forall|k: nat| k <= r ==> 1 <= #[trigger] halved_spec(codeword.len(), k),
        begins_with(f, commit_layer_spec::<H>(domain, codeword, transcript, r).1),
    ensures
        read_roots_spec::<H>(f, transcript.len(), r) == Some(
            (
                Seq::new(r + 1, |k: int| layer_root_spec::<H>(domain, codeword, transcript, k as nat)),
                Seq::new(r, |k: int| challenge_spec::<H>(domain, codeword, transcript, k as nat)),
                commit_layer_spec::<H>(domain, codeword, transcript, r).1.len(),
            ),
        ),
    decreases r,
{
    let layer = commit_layer_spec::<H>(domain, codeword, transcript, r);
    let root = layer_root_spec::<H>(domain, codeword, transcript, r);
    lemma_commit_layer_len::<H>(domain, codeword, transcript, r);
    assert(1 <= halved_spec(codeword.len(), r));
    lemma_node_is_canonical::<H>(layer.0, 1);
    Digest::lemma_bytes_roundtrip(root);
    lemma_commit_layers_grow::<H>(domain, codeword, transcript, r, r);
    let roots = Seq::new(
        r + 1,
        |k: int| layer_root_spec::<H>(domain, codeword, transcript, k as nat),
    );
    let alphas = Seq::new(r, |k: int| challenge_spec::<H>(domain, codeword, transcript, k as nat));
    if r == 0 {
        let at = transcript.len() as int;
        assert(layer.1 == transcript + root.bytes_spec());
        assert(f.subrange(at, at + 32) =~= root.bytes_spec()) by {
            assert(f.subrange(0, layer.1.len() as int) == layer.1);
            assert forall|i: int| 0 <= i < 32 implies f.subrange(at, at + 32)[i]
                == root.bytes_spec()[i] by {
                assert(f.subrange(0, layer.1.len() as int)[at + i] == f[at + i]);
            }
        };
        assert(roots =~= seq![root]);
        assert(alphas =~= Seq::empty());
    } else {
        let before = commit_layer_spec::<H>(domain, codeword, transcript, (r - 1) as nat);
        lemma_commit_layers_grow::<H>(domain, codeword, transcript, (r - 1) as nat, r);
        lemma_begins_with(f, layer.1, before.1, Seq::empty());
        lemma_read_roots::<H>(domain, codeword, transcript, f, (r - 1) as nat);
        let at = before.1.len() as int;
        assert(layer.1 == before.1 + root.bytes_spec());
        assert(f.subrange(at, at + 32) =~= root.bytes_spec()) by {
            assert(f.subrange(0, layer.1.len() as int) == layer.1);
            assert forall|i: int| 0 <= i < 32 implies f.subrange(at, at + 32)[i]
                == root.bytes_spec()[i] by {
                assert(f.subrange(0, layer.1.len() as int)[at + i] == f[at + i]);
            }
        };
        // The verifier's challenge is the prover's.
        assert(f.take(at) =~= before.1.take(at)) by {
            assert(f.subrange(0, at) == before.1);
        };
        let roots_before = Seq::new(
            r,
            |k: int| layer_root_spec::<H>(domain, codeword, transcript, k as nat),
        );
        let alphas_before = Seq::new(
            (r - 1) as nat,
            |k: int| challenge_spec::<H>(domain, codeword, transcript, k as nat),
        );
        assert(roots =~= roots_before.push(root));
        assert(alphas =~= alphas_before.push(
            challenge_spec::<H>(domain, codeword, transcript, (r - 1) as nat),
        ));
    }
}

/// The number of bytes of pairs whose paths have at most `height`
/// entries.
pub proof fn lemma_auth_pairs_body_bound(
    pairs: Seq<(Seq<Option<Digest>>, XFieldElement)>,
    height: nat,
)
    requires
        pairs_are_writable(pairs),
        forall|j: int| 0 <= j < pairs.len() ==> (#[trigger] pairs[j]).0.len() <= height,
    ensures
        auth_pairs_body_spec(pairs).len() <= pairs.len() * (32 + 33 * height),
    decreases pairs.len(),
{
    lemma_auto_spec_u64_to_from_le_bytes();
    if pairs.len() > 0 {
        let head = pairs.drop_last();
        assert(pairs_are_writable(head));
        lemma_auth_pairs_body_bound(head, height);
        lemma_x_bytes_roundtrip(pairs.last().1);
        lemma_path_bytes_len(pairs.last().0);
        assert(pairs.len() * (32 + 33 * height) == head.len() * (32 + 33 * height) + (32 + 33
            * height)) by (nonlinear_arith)
            requires
                pairs.len() == head.len() + 1,
        ;
    }
}

/// The opening that the prover writes of the values of `codeword` at
/// `indices` can be written: it holds a pair for each index, the value at
/// the index with a path of at most 33 canonical digests.
pub proof fn lemma_opening_is_writable<H: AlgebraicHasher>(
    codeword: Seq<XFieldElement>,
    indices: Seq<usize>,
)
    requires
        is_power_of_two_spec(codeword.len()),
        codeword.len() <= 0x1_0000_0000,
        x_all_canonical(codeword),
        indices.len() <= 0x1_0000_0000,
        forall|j: int| 0 <= j < indices.len() ==> indices[j] < codeword.len(),
    ensures
        pairs_are_writable(auth_pairs_spec::<H>(codeword, indices)),
        auth_pairs_spec::<H>(codeword, indices).len() == indices.len(),
        forall|j: int|
            0 <= j < indices.len() ==> (#[trigger] auth_pairs_spec::<H>(codeword, indices)[j]).0.len()
                <= 33,
{
    let n = codeword.len();
    let leaves = leaf_digests_spec::<H>(codeword);
    let pairs = auth_pairs_spec::<H>(codeword, indices);
    let opened = opened_spec(indices, n, indices.len());
    lemma2_to64();
    lemma2_to64_rest();
    lemma_pow2_pos(log_2_ceil_spec(n));
    assert forall|j: int| 0 <= j < pairs.len() implies (#[trigger] pairs[j]).0.len() <= 33
        && path_is_canonical(pairs[j].0) && pairs[j].1.is_canonical() by {
        let x = n + indices[j] as nat;
        let seen = seen_spec(indices, n, j as nat);
        lemma_partial_path_len::<H>(leaves, opened, seen, x);
        lemma_log_2_floor_bounds(x);
        if log_2_floor_spec(x) > 33 {
            lemma_pow2_strictly_increases(33, log_2_floor_spec(x));
        }
        lemma_path_is_canonical::<H>(codeword, opened, seen, x);
        assert(codeword[indices[j] as int].is_canonical());
    }
}

/// From a transcript that holds an opening behind `before`, the verifier
/// reads the pairs of the opening, and takes their values where the paths
/// lead from them to the root; where they do not, it names a bad Merkle
/// proof.
pub proof fn lemma_reads_opening<H: AlgebraicHasher>(
    before: Seq<u8>,
    pairs: Seq<(Seq<Option<Digest>>, XFieldElement)>,
    after: Seq<u8>,
    indices: Seq<usize>,
    root: Digest,
    n: nat,
)
    requires
        pairs_are_writable(pairs),
        pairs.len() <= 0x1_0000_0000,
        forall|j: int| 0 <= j < pairs.len() ==> (#[trigger] pairs[j]).0.len() <= 33,
    ensures
        authenticate_spec::<H>(
            before + length_prepended_spec(auth_pairs_bytes_spec(pairs)) + after,
            before.len(),
            indices,
            root,
            n,
        ) == if crate::merkle_tree::verify_spec::<H>(
            root,
            n,
            indices,
            Seq::new(pairs.len(), |j: int| pairs[j].0),
            leaf_digests_spec::<H>(Seq::new(pairs.len(), |j: int| pairs[j].1)),
        ) {
            Ok::<(Seq<XFieldElement>, nat), ValidationError>(
                (
                    Seq::new(pairs.len(), |j: int| pairs[j].1),
                    before.len() + length_prepended_spec(auth_pairs_bytes_spec(pairs)).len(),
                ),
            )
        } else {
            Err::<(Seq<XFieldElement>, nat), ValidationError>(ValidationError::BadMerkleProof)
        },
{
    let bytes = auth_pairs_bytes_spec(pairs);
    lemma_auto_spec_u64_to_from_le_bytes();
    lemma_auth_pairs_body_bound(pairs, 33);
    assert(pairs.len() * (32 + 33 * 33) <= 0x1_0000_0000 * (32 + 33 * 33)) by (nonlinear_arith)
        requires
            pairs.len() <= 0x1_0000_0000,
    ;
    lemma_length_prepended_roundtrip(before, bytes, after);
    lemma_auth_pairs_roundtrip(pairs);
}

/// From a transcript that holds, behind `before`, the opening that the
/// prover writes of the values of `codeword` at `indices`, the verifier
/// reads these values, and finds them under the root of the tree over the
/// codeword.
#[verifier::rlimit(50)]
pub proof fn lemma_authenticate<H: AlgebraicHasher>(
    f: Seq<u8>,
    before: Seq<u8>,
    codeword: Seq<XFieldElement>,
    indices: Seq<usize>,
)
    requires
        begins_with(f, before + bundle_bytes_spec::<H>(codeword, indices)),
        is_power_of_two_spec(codeword.len()),
        codeword.len() <= 0x1_0000_0000,
        x_all_canonical(codeword),
        1 <= indices.len() <= 0x1_0000_0000,
        forall|j: int| 0 <= j < indices.len() ==> indices[j] < codeword.len(),
    ensures
        authenticate_spec::<H>(
            f,
            before.len(),
            indices,
            root_spec::<H>(leaf_digests_spec::<H>(codeword)),
            codeword.len(),
        ) == Ok::<(Seq<XFieldElement>, nat), ValidationError>(
            (
                Seq::new(indices.len(), |j: int| codeword[indices[j] as int]),
                before.len() + bundle_bytes_spec::<H>(codeword, indices).len(),
            ),
        ),
{
    let leaves = leaf_digests_spec::<H>(codeword);
    let pairs = auth_pairs_spec::<H>(codeword, indices);
    let bundle = bundle_bytes_spec::<H>(codeword, indices);
    let whole = before + bundle;
    let after = f.subrange(whole.len() as int, f.len() as int);
    lemma_opening_is_writable::<H>(codeword, indices);
    assert(f =~= before + bundle + after) by {
        assert(f.subrange(0, whole.len() as int) == whole);
        assert forall|i: int| 0 <= i < whole.len() implies f[i] == whole[i] by {
            assert(f.subrange(0, whole.len() as int)[i] == f[i]);
        }
    };
    lemma_reads_opening::<H>(
        before,
        pairs,
        after,
        indices,
        root_spec::<H>(leaf_digests_spec::<H>(codeword)),
        codeword.len(),
    );
    // The opening leads to the root.
    lemma_opening_verifies::<H>(leaves, indices);
    let values = Seq::new(pairs.len(), |j: int| pairs[j].1);
    let paths = Seq::new(pairs.len(), |j: int| pairs[j].0);
    assert(values =~= Seq::new(indices.len(), |j: int| codeword[indices[j] as int]));
    assert(paths =~= authentication_structure_spec::<H>(leaves, indices));
    assert(leaf_digests_spec::<H>(values) =~= Seq::new(
        indices.len(),
        |j: int| leaves[indices[j] as int],
    ));
}

/// The digests that a partial path holds are canonical.
pub proof fn lemma_path_is_canonical<H: AlgebraicHasher>(
    codeword: Seq<XFieldElement>,
    opened: Seq<bool>,
    seen: Seq<bool>,
    x: nat,
)
    requires
        x < 2 * codeword.len(),
        codeword.len() >= 1,
    ensures
        path_is_canonical(
            partial_path_spec::<H>(leaf_digests_spec::<H>(codeword), opened, seen, x),
        ),
    decreases x,
{
    let leaves = leaf_digests_spec::<H>(codeword);
    let path = partial_path_spec::<H>(leaves, opened, seen, x);
    if x > 1 {
        lemma_path_is_canonical::<H>(codeword, opened, seen, x / 2);
        let rest = partial_path_spec::<H>(leaves, opened, seen, x / 2);
        let s = crate::merkle_tree::sibling_spec(x);
        lemma_node_is_canonical::<H>(codeword, s);
        assert forall|i: int| 0 <= i < path.len() implies (#[trigger] path[i] matches Some(d)
            ==> d.is_canonical()) by {
            if i > 0 {
                assert(path[i] == rest[i - 1]);
            }
        }
    }
}

/// From a transcript that begins with that of the commit phase, the
/// verifier reads the last codeword behind the roots.
pub proof fn lemma_read_last_codeword<H: AlgebraicHasher>(
    domain: FriDomain,
    codeword: Seq<XFieldElement>,
    transcript: Seq<u8>,
    f: Seq<u8>,
    rounds: nat,
)
    requires
        1 <= codeword.len() <= 0x1_0000_0000,
        x_all_canonical(commit_layer_spec::<H>(domain, codeword, transcript, rounds).0),
        begins_with(f, commit_transcript_spec::<H>(domain, codeword, transcript, rounds)),
    ensures
        read_codeword_spec(
            f,
            commit_layer_spec::<H>(domain, codeword, transcript, rounds).1.len(),
        ) == Some(
            (
                commit_layer_spec::<H>(domain, codeword, transcript, rounds).0,
                commit_transcript_spec::<H>(domain, codeword, transcript, rounds).len(),
            ),
        ),
{
    let last = commit_layer_spec::<H>(domain, codeword, transcript, rounds);
    let bytes = codeword_bytes_spec(last.0);
    let whole = commit_transcript_spec::<H>(domain, codeword, transcript, rounds);
    let after = f.subrange(whole.len() as int, f.len() as int);
    lemma_commit_layer_len::<H>(domain, codeword, transcript, rounds);
    lemma_halved_is_less(codeword.len(), rounds);
    lemma_codeword_bytes_len(last.0);
    lemma_codeword_roundtrip(last.0);
    lemma_auto_spec_u64_to_from_le_bytes();
    assert(f =~= last.1 + length_prepended_spec(bytes) + after) by {
        assert(f.subrange(0, whole.len() as int) == whole);
        assert forall|i: int| 0 <= i < whole.len() implies f[i] == whole[i] by {
            assert(f.subrange(0, whole.len() as int)[i] == f[i]);
        }
    };
    lemma_length_prepended_roundtrip(last.1, bytes, after);
}

/// Halving makes no greater.
pub proof fn lemma_halved_is_less(n: nat, r: nat)
    ensures
        halved_spec(n, r) <= n,
    decreases r,
{
    if r > 0 {
        lemma_halved_is_less(n, (r - 1) as nat);
    }
}

/// The indices that the queries have reached after `r` rounds: each round
/// reduces them to the length of the next codeword.
pub open spec fn a_indices_spec(top: Seq<usize>, length: nat, r: nat) -> Seq<usize>
    decreases r,
{
    if r == 0 {
        top
    } else {
        reduced_indices_spec(
            a_indices_spec(top, length, (r - 1) as nat),
            halved_spec(length, (r - 1) as nat) / 2,
        )
    }
}

/// The values of `codeword` at `indices`.
pub open spec fn values_at_spec(codeword: Seq<XFieldElement>, indices: Seq<usize>) -> Seq<
    XFieldElement,
> {
    Seq::new(indices.len(), |j: int| codeword[indices[j] as int])
}

/// In each round the index of a query is below the codeword's length, and
/// the index that it is folded with is the index half the codeword's
/// length further on, around the end.
pub proof fn lemma_indices(top: Seq<usize>, length: nat, r: nat)
    requires
        length <= usize::MAX,
        forall|j: int| 0 <= j < top.len() ==> top[j] < length,
        forall|k: nat| k <= r ==> 2 <= #[trigger] halved_spec(length, k),
        forall|k: nat| k <= r ==> #[trigger] halved_spec(length, k) % 2 == 0,
    ensures
        a_indices_spec(top, length, r).len() == top.len(),
        b_indices_spec(top, length, r).len() == top.len(),
        forall|j: int|
            0 <= j < top.len() ==> #[trigger] a_indices_spec(top, length, r)[j] < halved_spec(
                length,
                r,
            ),
        forall|j: int|
            0 <= j < top.len() ==> #[trigger] b_indices_spec(top, length, r)[j] == (a_indices_spec(
                top,
                length,
                r,
            )[j] + halved_spec(length, r) / 2) % (halved_spec(length, r) as int),
    decreases r,
{
    let n = halved_spec(length, r);
    lemma_halved_is_less(length, r);
    assert(2 <= halved_spec(length, r));
    if r > 0 {
        let before = (r - 1) as nat;
        lemma_indices(top, length, before);
        let m = halved_spec(length, before);
        assert(halved_spec(length, before) % 2 == 0);
        assert(n == m / 2);
        let a_before = a_indices_spec(top, length, before);
        let b_before = b_indices_spec(top, length, before);
        let a = a_indices_spec(top, length, r);
        let b = b_indices_spec(top, length, r);
        assert forall|j: int| 0 <= j < top.len() implies #[trigger] a[j] < n && #[trigger] b[j]
            == (a[j] + n / 2) % (n as int) by {
            let x = a_before[j] as int;
            let y = b_before[j] as int;
            assert(x < m);
            assert(y == (x + m / 2) % (m as int));
            // y is x with n added or taken away.
            if x < n {
                lemma_small_mod((x + n) as nat, m);
                lemma_small_mod(x as nat, n);
                assert(y == x + n);
                vstd::arithmetic::div_mod::lemma_mod_add_multiples_vanish(x, n as int);
            } else {
                assert(x + n == m + (x - n));
                vstd::arithmetic::div_mod::lemma_mod_add_multiples_vanish(x - n, m as int);
                lemma_small_mod((x - n) as nat, m);
                assert(y == x - n);
                vstd::arithmetic::div_mod::lemma_mod_add_multiples_vanish(x - n, n as int);
            }
            assert(y % (n as int) == x % (n as int));
            lemma_add_mod_noop(y, (n / 2) as int, n as int);
            lemma_add_mod_noop(x, (n / 2) as int, n as int);
            lemma_add_mod_noop(x % (n as int), (n / 2) as int, n as int);
            lemma_mod_twice(x, n as int);
        }
    } else {
        assert forall|j: int| 0 <= j < top.len() implies #[trigger] b_indices_spec(
            top,
            length,
            0,
        )[j] == (a_indices_spec(top, length, 0)[j] + n / 2) % (n as int) by {
            assert(top[j] < length);
        }
    }
}

/// The argument of the value of index `idx` in round `r` is the point of
/// index `idx` of the domain of layer `r`.
pub proof fn lemma_evaluation_argument(domain: FriDomain, idx: nat, r: nat)
    requires
        domain.is_coset(),
        forall|k: nat| k < r ==> 2 <= #[trigger] halved_spec(domain.length as nat, k),
    ensures
        evaluation_argument_spec(domain, idx, r) == layer_domain_spec(domain, r).domain_value_spec(
            idx,
        ),
{
    let g = domain.offset;
    let omega = domain.omega;
    let e = pow2(r);
    lemma_layer_domain(domain, r);
    BFieldElement::lemma_squared_is_power(g, r);
    BFieldElement::lemma_squared_is_power(omega, r);
    BFieldElement::lemma_pow_of_product(g, omega.pow_spec(idx), e);
    BFieldElement::lemma_pow_pow(omega, idx, e);
    BFieldElement::lemma_pow_pow(omega, e, idx);
    assert(idx * e == e * idx) by (nonlinear_arith);
    BFieldElement::lemma_mul_commutative(g.pow_spec(e), omega.pow_spec(idx * e));
}

/// The codewords of the layers are canonical, where the first is.
pub proof fn lemma_layers_are_canonical<H: AlgebraicHasher>(
    domain: FriDomain,
    codeword: Seq<XFieldElement>,
    transcript: Seq<u8>,
    r: nat,
)
    requires
        x_all_canonical(codeword),
    ensures
        x_all_canonical(commit_layer_spec::<H>(domain, codeword, transcript, r).0),
    decreases r,
{
    if r > 0 {
        let layer = commit_layer_spec::<H>(domain, codeword, transcript, r).0;
        assert forall|i: int| 0 <= i < layer.len() implies (#[trigger] layer[i]).is_canonical() by {
            let below = commit_layer_spec::<H>(domain, codeword, transcript, (r - 1) as nat).0;
            let alpha = challenge_spec::<H>(domain, codeword, transcript, (r - 1) as nat);
            let x_inverse = domain.omega.squared_spec((r - 1) as nat).pow_spec(i as nat).mul_spec(
                domain.offset.squared_spec((r - 1) as nat),
            ).inverse_spec();
            let quotient = alpha.scale_spec(x_inverse);
            let one = XFieldElement::spec_one();
            lemma_results_are_canonical(
                crate::fri::two_inverse_spec(),
                one.add_spec(quotient).mul_spec(below[i]).add_spec(
                    one.sub_spec(quotient).mul_spec(below[below.len() / 2 + i]),
                ),
                x_inverse,
            );
        }
    }
}

/// The values that the verifier folds the values of the queries to, in
/// round `r`, are the values of the next codeword at the indices that the
/// queries are reduced to.
#[verifier::rlimit(50)]
pub proof fn lemma_lines_are_folds<H: AlgebraicHasher>(
    domain: FriDomain,
    codeword: Seq<XFieldElement>,
    transcript: Seq<u8>,
    top: Seq<usize>,
    r: nat,
)
    requires
        domain.is_coset(),
        codeword.len() == domain.length,
        x_all_canonical(codeword),
        forall|j: int| 0 <= j < top.len() ==> top[j] < domain.length,
        forall|k: nat| k <= r ==> 2 <= #[trigger] halved_spec(domain.length as nat, k),
        forall|k: nat| k <= r ==> #[trigger] halved_spec(domain.length as nat, k) % 2 == 0,
    ensures
        colinear_values_spec(
            domain,
            a_indices_spec(top, domain.length as nat, r),
            values_at_spec(
                commit_layer_spec::<H>(domain, codeword, transcript, r).0,
                a_indices_spec(top, domain.length as nat, r),
            ),
            b_indices_spec(top, domain.length as nat, r),
            values_at_spec(
                commit_layer_spec::<H>(domain, codeword, transcript, r).0,
                b_indices_spec(top, domain.length as nat, r),
            ),
            challenge_spec::<H>(domain, codeword, transcript, r),
            r,
        ) == values_at_spec(
            commit_layer_spec::<H>(domain, codeword, transcript, r + 1).0,
            a_indices_spec(top, domain.length as nat, r + 1),
        ),
{
    let length = domain.length as nat;
    let n = halved_spec(length, r);
    let half = n / 2;
    let layer = commit_layer_spec::<H>(domain, codeword, transcript, r).0;
    let next = commit_layer_spec::<H>(domain, codeword, transcript, r + 1).0;
    let alpha = challenge_spec::<H>(domain, codeword, transcript, r);
    let a = a_indices_spec(top, length, r);
    let b = b_indices_spec(top, length, r);
    let a_next = a_indices_spec(top, length, r + 1);
    let d = layer_domain_spec(domain, r);
    let lines = colinear_values_spec(
        domain,
        a,
        values_at_spec(layer, a),
        b,
        values_at_spec(layer, b),
        alpha,
        r,
    );
    let wanted = values_at_spec(next, a_next);
    lemma_indices(top, length, r);
    lemma_layer_domain(domain, r);
    lemma_commit_layer_len::<H>(domain, codeword, transcript, r);
    lemma_layers_are_canonical::<H>(domain, codeword, transcript, r);
    lemma_challenge_is_canonical::<H>(domain, codeword, transcript, r);
    assert(2 <= halved_spec(length, r));
    assert(halved_spec(length, r) % 2 == 0);
    assert(next == fold_spec(layer, alpha, d.offset, d.omega));
    assert forall|j: int| 0 <= j < top.len() implies #[trigger] lines[j] == wanted[j] by {
        let x_a = a[j] as nat;
        let x_b = b[j] as nat;
        let i = (x_a % half) as nat;
        assert(a_next[j] == i);
        lemma_evaluation_argument(domain, x_a, r);
        lemma_evaluation_argument(domain, x_b, r);
        d.lemma_points(i);
        let x = d.domain_value_spec(i);
        assert(layer[i as int].is_canonical());
        assert(layer[(half + i) as int].is_canonical());
        lemma_line_is_fold(alpha, x, layer[i as int], layer[(half + i) as int]);
        if x_a < half {
            lemma_small_mod(x_a, half);
            lemma_small_mod(x_a + half, n);
            assert(x_b == x_a + half);
        } else {
            assert(x_a + half == n + (x_a - half));
            vstd::arithmetic::div_mod::lemma_mod_add_multiples_vanish(x_a - half, n as int);
            lemma_small_mod((x_a - half) as nat, n);
            assert(x_b == x_a - half);
            vstd::arithmetic::div_mod::lemma_mod_add_multiples_vanish(x_a - half, half as int);
            lemma_small_mod((x_a - half) as nat, half);
            assert(i == x_a - half);
        }
    }
    assert(lines =~= wanted);
}

/// The transcript of a proof grows with each opening: it begins with what
/// it was after fewer openings, and with the transcript of the commit
/// phase.
pub proof fn lemma_proof_grows<H: AlgebraicHasher>(
    domain: FriDomain,
    codeword: Seq<XFieldElement>,
    transcript: Seq<u8>,
    rounds: nat,
    queries: nat,
    r: nat,
    later: nat,
)
    requires
        r <= later,
    ensures
        begins_with(
            proof_transcript_spec::<H>(domain, codeword, transcript, rounds, queries, later),
            proof_transcript_spec::<H>(domain, codeword, transcript, rounds, queries, r),
        ),
        begins_with(
            proof_transcript_spec::<H>(domain, codeword, transcript, rounds, queries, later),
            commit_transcript_spec::<H>(domain, codeword, transcript, rounds),
        ),
    decreases later,
{
    let last = proof_transcript_spec::<H>(domain, codeword, transcript, rounds, queries, later);
    let commit = commit_transcript_spec::<H>(domain, codeword, transcript, rounds);
    let top = top_indices_spec::<H>(domain, codeword, transcript, rounds, queries);
    lemma_begins_with(last, last, last, last);
    if later == 0 {
        lemma_begins_with(last, commit, commit, bundle_bytes_spec::<H>(codeword, top));
    } else {
        let before = proof_transcript_spec::<H>(
            domain,
            codeword,
            transcript,
            rounds,
            queries,
            (later - 1) as nat,
        );
        let bundle = bundle_bytes_spec::<H>(
            commit_layer_spec::<H>(domain, codeword, transcript, (later - 1) as nat).0,
            b_indices_spec(top, domain.length as nat, (later - 1) as nat),
        );
        lemma_begins_with(last, before, commit, bundle);
        if r < later {
            lemma_proof_grows::<H>(
                domain,
                codeword,
                transcript,
                rounds,
                queries,
                r,
                (later - 1) as nat,
            );
            lemma_begins_with(
                last,
                before,
                proof_transcript_spec::<H>(domain, codeword, transcript, rounds, queries, r),
                bundle,
            );
        } else {
            lemma_proof_grows::<H>(
                domain,
                codeword,
                transcript,
                rounds,
                queries,
                (later - 1) as nat,
                (later - 1) as nat,
            );
        }
        lemma_begins_with(last, before, commit, bundle);
    }
}

impl<H: AlgebraicHasher> Fri<H> {
    /// The roots that the prover writes.
    pub open spec fn roots_spec(self, codeword: Seq<XFieldElement>, transcript: Seq<u8>) -> Seq<
        Digest,
    > {
        Seq::new(
            self.rounds_spec() + 1,
            |k: int| layer_root_spec::<H>(self.domain, codeword, transcript, k as nat),
        )
    }

    /// The challenges that the prover draws.
    pub open spec fn challenges_spec(
        self,
        codeword: Seq<XFieldElement>,
        transcript: Seq<u8>,
    ) -> Seq<XFieldElement> {
        Seq::new(
            self.rounds_spec(),
            |k: int| challenge_spec::<H>(self.domain, codeword, transcript, k as nat),
        )
    }

    /// The indices of the queries into the first codeword that the prover
    /// draws.
    pub open spec fn top_spec(self, codeword: Seq<XFieldElement>, transcript: Seq<u8>) -> Seq<
        usize,
    > {
        top_indices_spec::<H>(
            self.domain,
            codeword,
            transcript,
            self.rounds_spec(),
            self.colinearity_checks_count as nat,
        )
    }

    /// The transcript once the prover has written `r` of the openings
    /// that follow the first.
    pub open spec fn written_spec(
        self,
        codeword: Seq<XFieldElement>,
        transcript: Seq<u8>,
        r: nat,
    ) -> Seq<u8> {
        proof_transcript_spec::<H>(
            self.domain,
            codeword,
            transcript,
            self.rounds_spec(),
            self.colinearity_checks_count as nat,
            r,
        )
    }

    /// The two points of each query in the first codeword that the
    /// verifier returns for an honest proof.
    pub open spec fn honest_evaluations_spec(
        self,
        codeword: Seq<XFieldElement>,
        transcript: Seq<u8>,
    ) -> Seq<(usize, XFieldElement)> {
        let top = self.top_spec(codeword, transcript);
        let folded_with = sibling_indices_spec(top, self.domain.length as nat);
        evaluations_spec(
            top,
            values_at_spec(codeword, top),
            folded_with,
            values_at_spec(codeword, folded_with),
        )
    }

    /// What the verifier has found after `r` rounds of the query phase,
    /// in a transcript `f` that begins with an honest proof up to the
    /// opening of round `r`: the queries have reached the values of the
    /// codeword of layer `r` at their indices.
    #[verifier::rlimit(50)]
    pub proof fn lemma_query_rounds(
        self,
        codeword: Seq<XFieldElement>,
        transcript: Seq<u8>,
        f: Seq<u8>,
        r: nat,
    )
        requires
            self.is_valid(),
            self.has_rounds(),
            codeword.len() == self.domain.length,
            x_all_canonical(codeword),
            r <= self.rounds_spec(),
            begins_with(f, self.written_spec(codeword, transcript, r)),
        ensures
            query_rounds_spec::<H>(
                self.domain,
                f,
                self.roots_spec(codeword, transcript),
                self.challenges_spec(codeword, transcript),
                self.top_spec(codeword, transcript),
                values_at_spec(codeword, self.top_spec(codeword, transcript)),
                self.written_spec(codeword, transcript, 0).len(),
                r,
            ) == Ok::<
                (Seq<usize>, Seq<XFieldElement>, Seq<usize>, nat, Seq<(usize, XFieldElement)>),
                ValidationError,
            >(
                (
                    a_indices_spec(self.top_spec(codeword, transcript), self.domain.length as nat, r),
                    values_at_spec(
                        commit_layer_spec::<H>(self.domain, codeword, transcript, r).0,
                        a_indices_spec(
                            self.top_spec(codeword, transcript),
                            self.domain.length as nat,
                            r,
                        ),
                    ),
                    if r == 0 {
                        self.top_spec(codeword, transcript)
                    } else {
                        b_indices_spec(
                            self.top_spec(codeword, transcript),
                            self.domain.length as nat,
                            (r - 1) as nat,
                        )
                    },
                    self.written_spec(codeword, transcript, r).len(),
                    if r == 0 {
                        Seq::empty()
                    } else {
                        self.honest_evaluations_spec(codeword, transcript)
                    },
                ),
            ),
        decreases r,
    {
        let length = self.domain.length as nat;
        let rounds = self.rounds_spec();
        let queries = self.colinearity_checks_count as nat;
        let top = self.top_spec(codeword, transcript);
        if r > 0 {
            let before = (r - 1) as nat;
            lemma_proof_grows::<H>(self.domain, codeword, transcript, rounds, queries, before, r);
            lemma_begins_with(
                f,
                self.written_spec(codeword, transcript, r),
                self.written_spec(codeword, transcript, before),
                Seq::empty(),
            );
            self.lemma_query_rounds(codeword, transcript, f, before);
            self.lemma_rounds();
            let committed = commit_transcript_spec::<H>(self.domain, codeword, transcript, rounds);
            lemma_sampled_indices_distinct::<H>(
                fiat_shamir_spec::<H>(committed, committed.len()),
                length,
                rounds,
                queries,
            );
            assert forall|k: nat| k <= before implies 2 <= #[trigger] halved_spec(length, k)
                && halved_spec(length, k) % 2 == 0 by {
                assert(is_power_of_two_spec(halved_spec(length, k)));
                lemma_half_power_of_two(halved_spec(length, k));
            }
            lemma_indices(top, length, before);
            let layer = commit_layer_spec::<H>(self.domain, codeword, transcript, before).0;
            let b = b_indices_spec(top, length, before);
            let n = halved_spec(length, before);
            lemma_commit_layer_len::<H>(self.domain, codeword, transcript, before);
            lemma_layers_are_canonical::<H>(self.domain, codeword, transcript, before);
            lemma_halved_is_less(length, before);
            lemma_halved_is_less(length, rounds);
            assert(is_power_of_two_spec(halved_spec(length, before)));
            let written = self.written_spec(codeword, transcript, before);
            assert(self.written_spec(codeword, transcript, r) == written + bundle_bytes_spec::<H>(
                layer,
                b,
            ));
            lemma_authenticate::<H>(f, written, layer, b);
            lemma_lines_are_folds::<H>(self.domain, codeword, transcript, top, before);
            assert(self.roots_spec(codeword, transcript)[before as int] == root_spec::<H>(
                leaf_digests_spec::<H>(layer),
            ));
            assert(self.challenges_spec(codeword, transcript)[before as int] == challenge_spec::<H>(
                self.domain,
                codeword,
                transcript,
                before,
            ));
            assert(values_at_spec(layer, b) =~= Seq::new(b.len(), |j: int| layer[b[j] as int]));
            if before == 0 {
                assert(b == sibling_indices_spec(top, length));
                assert(layer == codeword);
            }
        }
    }
}

impl<H: AlgebraicHasher> Fri<H> {
    /// From a transcript `f` that begins with what the prover writes in
    /// the commit phase, the verifier reads the roots and draws the
    /// challenges of the prover, reads the last codeword, which has the
    /// length and the root of the last layer, and draws the prover's
    /// indices.
    #[verifier::rlimit(50)]
    pub proof fn lemma_reads_commitment(
        self,
        codeword: Seq<XFieldElement>,
        transcript: Seq<u8>,
        f: Seq<u8>,
    )
        requires
            self.is_valid(),
            self.has_rounds(),
            codeword.len() == self.domain.length,
            x_all_canonical(codeword),
            begins_with(
                f,
                commit_transcript_spec::<H>(self.domain, codeword, transcript, self.rounds_spec()),
            ),
        ensures
            ({
                let rounds = self.rounds_spec();
                let layer = commit_layer_spec::<H>(self.domain, codeword, transcript, rounds);
                let committed = commit_transcript_spec::<H>(
                    self.domain,
                    codeword,
                    transcript,
                    rounds,
                );
                &&& read_roots_spec::<H>(f, transcript.len(), rounds) == Some(
                    (
                        self.roots_spec(codeword, transcript),
                        self.challenges_spec(codeword, transcript),
                        layer.1.len(),
                    ),
                )
                &&& read_codeword_spec(f, layer.1.len()) == Some((layer.0, committed.len()))
                &&& layer.0.len() == self.last_length_spec()
                &&& self.roots_spec(codeword, transcript)[rounds as int] == root_spec::<H>(
                    leaf_digests_spec::<H>(layer.0),
                )
                &&& sample_indices_spec::<H>(
                    fiat_shamir_spec::<H>(f, committed.len()),
                    self.domain.length as nat,
                    rounds,
                    self.colinearity_checks_count as nat,
                ) == self.top_spec(codeword, transcript)
            }),
    {
        let length = self.domain.length as nat;
        let rounds = self.rounds_spec();
        let committed = commit_transcript_spec::<H>(self.domain, codeword, transcript, rounds);
        let layer = commit_layer_spec::<H>(self.domain, codeword, transcript, rounds);
        let last = layer.0;
        let roots = self.roots_spec(codeword, transcript);
        self.lemma_rounds();
        lemma_halved_is_less(length, rounds);
        // The roots and the challenges.
        lemma_begins_with(
            committed,
            layer.1,
            layer.1,
            length_prepended_spec(codeword_bytes_spec(last)),
        );
        lemma_begins_with(f, committed, layer.1, Seq::empty());
        lemma_read_roots::<H>(self.domain, codeword, transcript, f, rounds);
        // The last codeword.
        lemma_layers_are_canonical::<H>(self.domain, codeword, transcript, rounds);
        lemma_read_last_codeword::<H>(self.domain, codeword, transcript, f, rounds);
        lemma_commit_layer_len::<H>(self.domain, codeword, transcript, rounds);
        assert(roots[rounds as int] == root_spec::<H>(leaf_digests_spec::<H>(last)));
        // The indices of the queries.
        assert(f.take(committed.len() as int) =~= committed.take(committed.len() as int)) by {
            assert(f.subrange(0, committed.len() as int) == committed);
        };
    }

    /// What the verifier makes of the proof that the prover writes for a
    /// codeword: unless the polynomial of the last codeword has too high a
    /// degree, the proof is accepted and read to its end, and the verifier
    /// returns the two points of each query in the codeword.
    #[verifier::rlimit(50)]
    pub proof fn lemma_honest_proof(self, codeword: Seq<XFieldElement>, transcript: Seq<u8>)
        requires
            self.is_valid(),
            self.has_rounds(),
            codeword.len() == self.domain.length,
            x_all_canonical(codeword),
        ensures
            self.verify_spec(
                self.written_spec(codeword, transcript, self.rounds_spec()),
                transcript.len(),
            ) == if x_degree_spec(
                self.last_polynomial_spec(
                    commit_layer_spec::<H>(self.domain, codeword, transcript, self.rounds_spec()).0,
                ),
            ) > self.last_degree_spec() {
                Err::<(Seq<(usize, XFieldElement)>, nat), ValidationError>(
                    ValidationError::LastIterationTooHighDegree,
                )
            } else {
                Ok::<(Seq<(usize, XFieldElement)>, nat), ValidationError>(
                    (
                        self.honest_evaluations_spec(codeword, transcript),
                        self.written_spec(codeword, transcript, self.rounds_spec()).len(),
                    ),
                )
            },
    {
        let length = self.domain.length as nat;
        let rounds = self.rounds_spec();
        let queries = self.colinearity_checks_count as nat;
        let f = self.written_spec(codeword, transcript, rounds);
        let committed = commit_transcript_spec::<H>(self.domain, codeword, transcript, rounds);
        let last = commit_layer_spec::<H>(self.domain, codeword, transcript, rounds).0;
        let top = self.top_spec(codeword, transcript);
        let roots = self.roots_spec(codeword, transcript);
        self.lemma_rounds();
        lemma_halved_is_less(length, rounds);
        // The roots, the challenges, the last codeword and the indices.
        lemma_proof_grows::<H>(self.domain, codeword, transcript, rounds, queries, 0, rounds);
        self.lemma_reads_commitment(codeword, transcript, f);
        lemma_sampled_indices_distinct::<H>(
            fiat_shamir_spec::<H>(committed, committed.len()),
            length,
            rounds,
            queries,
        );
        // The first opening.
        assert(self.written_spec(codeword, transcript, 0) == committed + bundle_bytes_spec::<H>(
            codeword,
            top,
        ));
        lemma_authenticate::<H>(f, committed, codeword, top);
        assert(roots[0] == root_spec::<H>(leaf_digests_spec::<H>(codeword)));
        assert(values_at_spec(codeword, top) =~= Seq::new(
            top.len(),
            |j: int| codeword[top[j] as int],
        ));
        // The rounds, and the last values.
        lemma_begins_with(f, f, f, f);
        self.lemma_query_rounds(codeword, transcript, f, rounds);
        let a_last = a_indices_spec(top, length, rounds);
        assert(values_agree_spec(a_last, values_at_spec(last, a_last), last));
    }

    /// An honest proof for the codeword of a polynomial of low degree is
    /// accepted: where the polynomial with the coefficients `p` has no
    /// more coefficients than the domain has points for each unit of the
    /// expansion factor, the verifier accepts the proof that the prover
    /// writes for the values of the polynomial on the domain, reads it to
    /// its end, and returns two points for each query, each an index into
    /// the codeword with the value of the polynomial at the domain's point
    /// of that index.
    #[verifier::rlimit(50)]
    pub proof fn lemma_completeness(self, p: Seq<XFieldElement>, transcript: Seq<u8>)
        requires
            self.is_valid(),
            self.has_rounds(),
            x_all_canonical(p),
            p.len() <= self.domain.length / self.expansion_factor,
        ensures
            ({
                let codeword = self.domain.x_evaluate_spec(p);
                let written = self.written_spec(codeword, transcript, self.rounds_spec());
                &&& self.verify_spec(written, transcript.len()) matches Ok((evaluations, behind))
                &&& behind == written.len()
                &&& evaluations.len() == 2 * self.colinearity_checks_count
                &&& forall|i: int|
                    0 <= i < evaluations.len() ==> {
                        &&& (#[trigger] evaluations[i]).0 < self.domain.length
                        &&& evaluations[i].1 == x_eval_spec(
                            p,
                            self.domain.domain_value_spec(evaluations[i].0 as nat),
                        )
                    }
            }),
    {
        let length = self.domain.length as nat;
        let rounds = self.rounds_spec();
        let queries = self.colinearity_checks_count as nat;
        let codeword = self.domain.x_evaluate_spec(p);
        let written = self.written_spec(codeword, transcript, rounds);
        let last = commit_layer_spec::<H>(self.domain, codeword, transcript, rounds).0;
        let full = full_rounds_spec(length, self.expansion_factor as nat);
        let missed = missed_rounds_spec(self.expansion_factor as nat, queries);
        self.lemma_rounds();
        self.lemma_lengths();
        lemma_codeword_is_canonical(self.domain, p);
        self.lemma_honest_proof(codeword, transcript);
        // The last codeword is that of a polynomial of low degree.
        lemma_layers_are_codewords::<H>(self.domain, p, transcript, rounds);
        lemma_layer_domain(self.domain, rounds);
        let folded = layer_polynomial_spec::<H>(self.domain, p, transcript, rounds);
        let last_domain = layer_domain_spec(self.domain, rounds);
        lemma_halved_is_less(length, rounds);
        assert(self.last_domain_spec() == last_domain);
        lemma_halved_up(p.len(), full, rounds);
        lemma_pow2_pos(missed);
        assert(pow2(missed) <= self.expansion_factor * pow2(missed)) by (nonlinear_arith)
            requires
                self.expansion_factor >= 1,
                pow2(missed) >= 0,
        ;
        last_domain.lemma_x_interpolate_evaluate(folded);
        lemma_commit_layer_len::<H>(self.domain, codeword, transcript, rounds);
        assert(self.last_polynomial_spec(last) =~= last_domain.x_interpolate_spec(last));
        lemma_degree_of_padded(folded, (last_domain.length - folded.len()) as nat);
        // The points that are returned.
        let committed = commit_transcript_spec::<H>(self.domain, codeword, transcript, rounds);
        lemma_sampled_indices_distinct::<H>(
            fiat_shamir_spec::<H>(committed, committed.len()),
            length,
            rounds,
            queries,
        );
        let top = self.top_spec(codeword, transcript);
        let evaluations = self.honest_evaluations_spec(codeword, transcript);
        assert forall|i: int| 0 <= i < evaluations.len() implies (#[trigger] evaluations[i]).0
            < self.domain.length && evaluations[i].1 == x_eval_spec(
            p,
            self.domain.domain_value_spec(evaluations[i].0 as nat),
        ) by {
            let j = i / 2;
            assert(top[j] < length);
            lemma_small_mod(0, length);
        }
    }
}

} // verus!
