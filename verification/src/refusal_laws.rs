//! A proof that was changed behind the roots is refused, and for the
//! right reason: another last codeword for its root, another value in an
//! opening for its path. Both are stated for changes that the hash shows:
//! a changed codeword with another root, a changed opening that no longer
//! leads to the root of its layer. The changed bytes may be any that are
//! read as the changed values.

use crate::algebraic_hasher::AlgebraicHasher;
use crate::codec::{decode_auth_pairs_spec, decode_codeword_spec};
use crate::digest::Digest;
use crate::domain_laws::x_all_canonical;
use crate::fri::{
    auth_pairs_spec, authenticate_spec, b_indices_spec, bundle_bytes_spec, commit_layer_spec,
    commit_transcript_spec, Fri, halved_spec, leaf_digests_spec, lemma_commit_layer_len,
    lemma_query_rounds_error_stays, lemma_sampled_indices_distinct, query_rounds_spec,
    read_codeword_spec, sibling_indices_spec, ValidationError,
};
use crate::fri_laws::{
    begins_with, lemma_authenticate, lemma_begins_with, lemma_halved_is_less, lemma_proof_grows,
    lemma_read_roots, values_at_spec,
};
use crate::merkle_tree::root_spec;
use crate::polynomial::x_degree_spec;
use crate::proof_stream::{
    fiat_shamir_spec, lemma_length_prepended_roundtrip, length_prepended_spec,
};
use crate::x_field_element::XFieldElement;
use vstd::prelude::*;

verus! {

impl<H: AlgebraicHasher> Fri<H> {
    /// The layer whose values opening `k` of a proof shows: the first
    /// opening shows the codeword itself, and each further opening the
    /// layer of its round, the second opening the codeword once more.
    pub open spec fn opened_layer_spec(
        self,
        codeword: Seq<XFieldElement>,
        transcript: Seq<u8>,
        k: nat,
    ) -> Seq<XFieldElement> {
        commit_layer_spec::<H>(
            self.domain,
            codeword,
            transcript,
            if k == 0 {
                0
            } else {
                (k - 1) as nat
            },
        ).0
    }

    /// The indices at which opening `k` of a proof shows values: the
    /// first opening at the indices of the queries, each further opening
    /// at the indices that are folded with those of the queries in its
    /// round.
    pub open spec fn opened_indices_spec(
        self,
        codeword: Seq<XFieldElement>,
        transcript: Seq<u8>,
        k: nat,
    ) -> Seq<usize> {
        let top = self.top_spec(codeword, transcript);
        if k == 0 {
            top
        } else {
            b_indices_spec(top, self.domain.length as nat, (k - 1) as nat)
        }
    }

    /// What the prover has written before opening `k`.
    pub open spec fn before_opening_spec(
        self,
        codeword: Seq<XFieldElement>,
        transcript: Seq<u8>,
        k: nat,
    ) -> Seq<u8> {
        if k == 0 {
            commit_transcript_spec::<H>(self.domain, codeword, transcript, self.rounds_spec())
        } else {
            self.written_spec(codeword, transcript, (k - 1) as nat)
        }
    }

    /// Opening `k` of a proof with the value of its pair `j` replaced by
    /// `value`.
    pub open spec fn changed_opening_spec(
        self,
        codeword: Seq<XFieldElement>,
        transcript: Seq<u8>,
        k: nat,
        j: int,
        value: XFieldElement,
    ) -> Seq<(Seq<Option<Digest>>, XFieldElement)> {
        let pairs = auth_pairs_spec::<H>(
            self.opened_layer_spec(codeword, transcript, k),
            self.opened_indices_spec(codeword, transcript, k),
        );
        pairs.update(j, (pairs[j].0, value))
    }

    /// Whether the paths of the opening `pairs` lead from its values to
    /// the root of the layer that opening `k` of a proof shows.
    pub open spec fn leads_to_root_spec(
        self,
        codeword: Seq<XFieldElement>,
        transcript: Seq<u8>,
        k: nat,
        pairs: Seq<(Seq<Option<Digest>>, XFieldElement)>,
    ) -> bool {
        let layer = self.opened_layer_spec(codeword, transcript, k);
        crate::merkle_tree::verify_spec::<H>(
            root_spec::<H>(leaf_digests_spec::<H>(layer)),
            layer.len(),
            self.opened_indices_spec(codeword, transcript, k),
            Seq::new(pairs.len(), |i: int| pairs[i].0),
            leaf_digests_spec::<H>(Seq::new(pairs.len(), |i: int| pairs[i].1)),
        )
    }

    /// Another last codeword is refused for its root: where the prover's
    /// roots are followed by bytes that are read as a codeword `changed`
    /// of the last layer's length, whose tree has another root than the
    /// last codeword of the prover, the verifier names a bad root for the
    /// last codeword, whatever follows.
    #[verifier::rlimit(50)]
    pub proof fn lemma_changed_last_codeword_is_refused(
        self,
        codeword: Seq<XFieldElement>,
        transcript: Seq<u8>,
        changed: Seq<XFieldElement>,
        bytes: Seq<u8>,
        rest: Seq<u8>,
    )
        requires
            self.is_valid(),
            self.has_rounds(),
            codeword.len() == self.domain.length,
            x_all_canonical(codeword),
            bytes.len() <= u64::MAX,
            decode_codeword_spec(bytes) == Some(changed),
            changed.len() == self.last_length_spec(),
            root_spec::<H>(leaf_digests_spec::<H>(changed)) != root_spec::<H>(
                leaf_digests_spec::<H>(
                    commit_layer_spec::<H>(self.domain, codeword, transcript, self.rounds_spec()).0,
                ),
            ),
        ensures
            self.verify_spec(
                commit_layer_spec::<H>(self.domain, codeword, transcript, self.rounds_spec()).1
                    + length_prepended_spec(bytes) + rest,
                transcript.len(),
            ) == Err::<(Seq<(usize, XFieldElement)>, nat), ValidationError>(
                ValidationError::BadMerkleRootForLastCodeword,
            ),
    {
        let length = self.domain.length as nat;
        let rounds = self.rounds_spec();
        let layer = commit_layer_spec::<H>(self.domain, codeword, transcript, rounds);
        let f = layer.1 + length_prepended_spec(bytes) + rest;
        self.lemma_rounds();
        lemma_halved_is_less(length, rounds);
        assert(f =~= layer.1 + (length_prepended_spec(bytes) + rest));
        lemma_begins_with(f, layer.1, layer.1, length_prepended_spec(bytes) + rest);
        lemma_read_roots::<H>(self.domain, codeword, transcript, f, rounds);
        lemma_length_prepended_roundtrip(layer.1, bytes, rest);
        assert(read_codeword_spec(f, layer.1.len()) is Some);
    }

    /// The verifier reads the changed opening `k` where the prover's
    /// stood, and finds that it does not lead to the root of its layer.
    proof fn lemma_changed_opening_is_read(
        self,
        codeword: Seq<XFieldElement>,
        transcript: Seq<u8>,
        k: nat,
        j: int,
        value: XFieldElement,
        opening: Seq<u8>,
        rest: Seq<u8>,
    )
        requires
            opening.len() <= u64::MAX,
            decode_auth_pairs_spec(opening) == Some(
                self.changed_opening_spec(codeword, transcript, k, j, value),
            ),
            !self.leads_to_root_spec(
                codeword,
                transcript,
                k,
                self.changed_opening_spec(codeword, transcript, k, j, value),
            ),
        ensures
            ({
                let layer = self.opened_layer_spec(codeword, transcript, k);
                let before = self.before_opening_spec(codeword, transcript, k);
                let f = before + length_prepended_spec(opening) + rest;
                &&& begins_with(f, before)
                &&& authenticate_spec::<H>(
                    f,
                    before.len(),
                    self.opened_indices_spec(codeword, transcript, k),
                    root_spec::<H>(leaf_digests_spec::<H>(layer)),
                    layer.len(),
                ) == Err::<(Seq<XFieldElement>, nat), ValidationError>(
                    ValidationError::BadMerkleProof,
                )
            }),
    {
        let before = self.before_opening_spec(codeword, transcript, k);
        let f = before + length_prepended_spec(opening) + rest;
        assert(f =~= before + (length_prepended_spec(opening) + rest));
        lemma_begins_with(f, before, before, length_prepended_spec(opening) + rest);
        lemma_length_prepended_roundtrip(before, opening, rest);
    }

    /// In a transcript that begins with an honest proof up to the opening
    /// of round `r`, and then holds an opening that does not lead to the
    /// root of its layer, the verifier reads the first opening, and ends
    /// the rounds with the name of a bad Merkle proof.
    #[verifier::rlimit(50)]
    proof fn lemma_rounds_end_at_bad_opening(
        self,
        codeword: Seq<XFieldElement>,
        transcript: Seq<u8>,
        f: Seq<u8>,
        r: nat,
    )
        requires
            self.is_valid(),
            self.has_rounds(),
            codeword.len() == self.domain.length,
            x_all_canonical(codeword),
            r < self.rounds_spec(),
            begins_with(f, self.written_spec(codeword, transcript, r)),
            authenticate_spec::<H>(
                f,
                self.written_spec(codeword, transcript, r).len(),
                b_indices_spec(self.top_spec(codeword, transcript), self.domain.length as nat, r),
                root_spec::<H>(
                    leaf_digests_spec::<H>(
                        commit_layer_spec::<H>(self.domain, codeword, transcript, r).0,
                    ),
                ),
                commit_layer_spec::<H>(self.domain, codeword, transcript, r).0.len(),
            ) == Err::<(Seq<XFieldElement>, nat), ValidationError>(
                ValidationError::BadMerkleProof,
            ),
        ensures
            authenticate_spec::<H>(
                f,
                commit_transcript_spec::<H>(
                    self.domain,
                    codeword,
                    transcript,
                    self.rounds_spec(),
                ).len(),
                self.top_spec(codeword, transcript),
                self.roots_spec(codeword, transcript)[0],
                self.domain.length as nat,
            ) == Ok::<(Seq<XFieldElement>, nat), ValidationError>(
                (
                    values_at_spec(codeword, self.top_spec(codeword, transcript)),
                    self.written_spec(codeword, transcript, 0).len(),
                ),
            ),
            query_rounds_spec::<H>(
                self.domain,
                f,
                self.roots_spec(codeword, transcript),
                self.challenges_spec(codeword, transcript),
                self.top_spec(codeword, transcript),
                values_at_spec(codeword, self.top_spec(codeword, transcript)),
                self.written_spec(codeword, transcript, 0).len(),
                self.rounds_spec(),
            ) == Err::<
                (Seq<usize>, Seq<XFieldElement>, Seq<usize>, nat, Seq<(usize, XFieldElement)>),
                ValidationError,
            >(ValidationError::BadMerkleProof),
    {
        let length = self.domain.length as nat;
        let rounds = self.rounds_spec();
        let queries = self.colinearity_checks_count as nat;
        let committed = commit_transcript_spec::<H>(self.domain, codeword, transcript, rounds);
        let top = self.top_spec(codeword, transcript);
        let roots = self.roots_spec(codeword, transcript);
        let alphas = self.challenges_spec(codeword, transcript);
        let first_values = values_at_spec(codeword, top);
        let behind_first = self.written_spec(codeword, transcript, 0).len();
        self.lemma_rounds();
        lemma_sampled_indices_distinct::<H>(
            fiat_shamir_spec::<H>(committed, committed.len()),
            length,
            rounds,
            queries,
        );
        lemma_commit_layer_len::<H>(self.domain, codeword, transcript, r);
        // The first opening.
        lemma_proof_grows::<H>(self.domain, codeword, transcript, rounds, queries, 0, r);
        lemma_begins_with(
            f,
            self.written_spec(codeword, transcript, r),
            self.written_spec(codeword, transcript, 0),
            Seq::empty(),
        );
        assert(self.written_spec(codeword, transcript, 0) == committed + bundle_bytes_spec::<H>(
            codeword,
            top,
        ));
        lemma_authenticate::<H>(f, committed, codeword, top);
        assert(roots[0] == root_spec::<H>(leaf_digests_spec::<H>(codeword)));
        assert(first_values =~= Seq::new(top.len(), |i: int| codeword[top[i] as int]));
        // The rounds before the opening, and the round of the opening.
        self.lemma_query_rounds(codeword, transcript, f, r);
        assert(roots[r as int] == root_spec::<H>(
            leaf_digests_spec::<H>(commit_layer_spec::<H>(self.domain, codeword, transcript, r).0),
        ));
        assert(b_indices_spec(top, length, r) == sibling_indices_spec(
            if r == 0 {
                top
            } else {
                b_indices_spec(top, length, (r - 1) as nat)
            },
            halved_spec(length, r),
        ));
        assert(query_rounds_spec::<H>(
            self.domain,
            f,
            roots,
            alphas,
            top,
            first_values,
            behind_first,
            r + 1,
        ) == Err::<
            (Seq<usize>, Seq<XFieldElement>, Seq<usize>, nat, Seq<(usize, XFieldElement)>),
            ValidationError,
        >(ValidationError::BadMerkleProof));
        lemma_query_rounds_error_stays::<H>(
            self.domain,
            f,
            roots,
            alphas,
            top,
            first_values,
            behind_first,
            r + 1,
            rounds,
        );
    }

    /// Another value in an opening is refused for its path: where an
    /// accepted proof is followed up to opening `k`, and bytes stand in
    /// the place of that opening that are read as the opening with
    /// another value `value` in its pair `j`, with which it no longer
    /// leads to the root of its layer, the verifier names a bad Merkle
    /// proof, whatever follows.
    #[verifier::rlimit(50)]
    pub proof fn lemma_changed_value_is_refused(
        self,
        codeword: Seq<XFieldElement>,
        transcript: Seq<u8>,
        k: nat,
        j: int,
        value: XFieldElement,
        opening: Seq<u8>,
        rest: Seq<u8>,
    )
        requires
            self.is_valid(),
            self.has_rounds(),
            codeword.len() == self.domain.length,
            x_all_canonical(codeword),
            x_degree_spec(
                self.last_polynomial_spec(
                    commit_layer_spec::<H>(self.domain, codeword, transcript, self.rounds_spec()).0,
                ),
            ) <= self.last_degree_spec(),
            k <= self.rounds_spec(),
            0 <= j < self.colinearity_checks_count,
            opening.len() <= u64::MAX,
            decode_auth_pairs_spec(opening) == Some(
                self.changed_opening_spec(codeword, transcript, k, j, value),
            ),
            !self.leads_to_root_spec(
                codeword,
                transcript,
                k,
                self.changed_opening_spec(codeword, transcript, k, j, value),
            ),
        ensures
            self.verify_spec(
                self.before_opening_spec(codeword, transcript, k) + length_prepended_spec(opening)
                    + rest,
                transcript.len(),
            ) == Err::<(Seq<(usize, XFieldElement)>, nat), ValidationError>(
                ValidationError::BadMerkleProof,
            ),
    {
        let rounds = self.rounds_spec();
        let queries = self.colinearity_checks_count as nat;
        let committed = commit_transcript_spec::<H>(self.domain, codeword, transcript, rounds);
        let roots = self.roots_spec(codeword, transcript);
        let before = self.before_opening_spec(codeword, transcript, k);
        let f = before + length_prepended_spec(opening) + rest;
        self.lemma_changed_opening_is_read(codeword, transcript, k, j, value, opening, rest);
        if k == 0 {
            self.lemma_reads_commitment(codeword, transcript, f);
            assert(roots[0] == root_spec::<H>(leaf_digests_spec::<H>(codeword)));
        } else {
            let r = (k - 1) as nat;
            lemma_proof_grows::<H>(self.domain, codeword, transcript, rounds, queries, 0, r);
            lemma_begins_with(f, before, committed, Seq::empty());
            self.lemma_reads_commitment(codeword, transcript, f);
            self.lemma_rounds_end_at_bad_opening(codeword, transcript, f, r);
        }
    }
}

} // verus!
