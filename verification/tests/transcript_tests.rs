use fri::b_field_element::BFieldElement;
use fri::blake3_hasher::Blake3Hasher;
use fri::codec::{encode_auth_pairs, encode_codeword};
use fri::fri::{fold, leaf_digests, move_to_siblings, Fri, ValidationError};
use fri::merkle_tree::MerkleTree;
use fri::proof_stream::ProofStream;
use fri::x_field_element::XFieldElement;

type Hasher = Blake3Hasher;

fn test_fri(subgroup_order: u64, expansion_factor: usize, queries: usize) -> Fri<Hasher> {
    Fri::new(
        BFieldElement::new(7),
        BFieldElement::primitive_root_of_unity(subgroup_order).unwrap(),
        subgroup_order as usize,
        expansion_factor,
        queries,
    )
}

fn codeword_of_power(fri: &Fri<Hasher>, n: u32) -> Vec<XFieldElement> {
    fri.domain
        .omega
        .get_cyclic_group_elements(None)
        .iter()
        .map(|p| p.mod_pow_u32(n).lift())
        .collect()
}

fn proof_of_power(fri: &Fri<Hasher>, n: u32) -> (ProofStream, Vec<usize>) {
    let mut proof_stream = ProofStream::default();
    let indices = fri
        .prove(&codeword_of_power(fri, n), &mut proof_stream)
        .unwrap();
    (proof_stream, indices)
}

#[test]
fn identity_codeword_is_accepted_with_its_points() {
    let fri = test_fri(1024, 4, 6);
    let codeword = codeword_of_power(&fri, 1);
    let (mut proof_stream, indices) = proof_of_power(&fri, 1);
    assert_eq!(6, indices.len());
    let evaluations = fri.verify(&mut proof_stream).unwrap();
    assert_eq!(12, evaluations.len());
    assert_eq!(proof_stream.transcript.len(), proof_stream.read_index);
    for (j, index) in indices.iter().enumerate() {
        assert_eq!(*index, evaluations[2 * j].0);
        assert_eq!((*index + 512) % 1024, evaluations[2 * j + 1].0);
    }
    for (index, value) in evaluations {
        assert_eq!(codeword[index], value);
    }
}

#[test]
fn flipped_bit_in_a_query_value_is_a_bad_merkle_proof() {
    let fri = test_fri(1024, 4, 6);
    let (mut proof_stream, _) = proof_of_power(&fri, 10);
    // The transcript ends with the value of the last query of the last
    // opening.
    let last = proof_stream.transcript.len() - 24;
    proof_stream.transcript[last] ^= 1;
    assert_eq!(
        Err(ValidationError::BadMerkleProof),
        fri.verify(&mut proof_stream)
    );
    // The opening was read before it was found not to fit.
    assert_eq!(proof_stream.transcript.len(), proof_stream.read_index);
}

#[test]
fn flipped_bit_in_the_first_opening_is_a_bad_merkle_proof() {
    let fri = test_fri(1024, 4, 6);
    let (mut proof_stream, _) = proof_of_power(&fri, 10);
    // Seven rounds: eight roots, the length of the last codeword, its
    // eight values, then the first opening: its length, the number of
    // its pairs, and the first pair, which ends with its value.
    let first_opening = 8 * 32 + 8 + 8 * 24;
    let first_pair = first_opening + 8 + 8;
    let entries = u64::from_le_bytes(
        proof_stream.transcript[first_pair..first_pair + 8]
            .try_into()
            .unwrap(),
    );
    assert_eq!(10, entries);
    let mut at = first_pair + 8;
    for _ in 0..entries {
        at += if proof_stream.transcript[at] == 0 { 1 } else { 33 };
    }
    proof_stream.transcript[at] ^= 0x10;
    assert_eq!(
        Err(ValidationError::BadMerkleProof),
        fri.verify(&mut proof_stream)
    );
}

#[test]
fn changed_last_codeword_has_a_bad_root() {
    let fri = test_fri(1024, 4, 6);
    let (mut proof_stream, _) = proof_of_power(&fri, 10);
    let last_codeword = 8 * 32 + 8;
    proof_stream.transcript[last_codeword + 24] ^= 1;
    assert_eq!(
        Err(ValidationError::BadMerkleRootForLastCodeword),
        fri.verify(&mut proof_stream)
    );
}

#[test]
fn two_proofs_of_one_codeword_are_the_same_bytes() {
    let fri = test_fri(1024, 4, 6);
    let (first, first_indices) = proof_of_power(&fri, 50);
    let (second, second_indices) = proof_of_power(&fri, 50);
    assert_eq!(first.transcript, second.transcript);
    assert_eq!(first_indices, second_indices);
    let (other, _) = proof_of_power(&fri, 51);
    assert_ne!(first.transcript, other.transcript);
}

#[test]
fn transcript_has_roots_then_last_codeword_then_openings() {
    let fri = test_fri(64, 4, 2);
    assert_eq!((4, 0), fri.num_rounds());
    let (proof_stream, _) = proof_of_power(&fri, 3);
    let transcript = &proof_stream.transcript;
    // Five roots, then the last codeword of four values behind its length.
    let at = 5 * 32;
    assert_eq!(
        4 * 24,
        u64::from_le_bytes(transcript[at..at + 8].try_into().unwrap())
    );
    // Five openings follow: one of the first codeword, one for each round.
    let mut at = at + 8 + 4 * 24;
    let mut openings = 0;
    while at < transcript.len() {
        let length = u64::from_le_bytes(transcript[at..at + 8].try_into().unwrap()) as usize;
        let pairs = u64::from_le_bytes(transcript[at + 8..at + 16].try_into().unwrap());
        assert_eq!(2, pairs);
        at += 8 + length;
        openings += 1;
    }
    assert_eq!(5, openings);
    assert_eq!(transcript.len(), at);
}

#[test]
fn truncated_transcript_is_badly_sized() {
    let fri = test_fri(1024, 4, 6);
    let (proof_stream, _) = proof_of_power(&fri, 10);
    for keep in [0, 31, 8 * 32, 8 * 32 + 8 + 8 * 24, proof_stream.transcript.len() - 1] {
        let mut cut = ProofStream {
            transcript: proof_stream.transcript[..keep].to_vec(),
            read_index: 0,
        };
        assert_eq!(Err(ValidationError::BadSizedProof), fri.verify(&mut cut));
    }
}

#[test]
fn last_codeword_of_another_length_is_badly_sized() {
    let fri = test_fri(1024, 4, 6);
    let (proof_stream, _) = proof_of_power(&fri, 10);
    let at = 8 * 32;
    let mut transcript = proof_stream.transcript[..at].to_vec();
    transcript.extend_from_slice(&(7u64 * 24).to_le_bytes());
    transcript.extend_from_slice(&proof_stream.transcript[at + 8..at + 8 + 7 * 24]);
    transcript.extend_from_slice(&proof_stream.transcript[at + 8 + 8 * 24..]);
    let mut changed = ProofStream {
        transcript,
        read_index: 0,
    };
    assert_eq!(
        Err(ValidationError::BadSizedProof),
        fri.verify(&mut changed)
    );
}

#[test]
fn no_round_left_is_an_error() {
    // Four coefficients, 64 queries: more rounds are missed than there are.
    let fri = test_fri(16, 4, 16);
    let codeword = codeword_of_power(&fri, 1);
    let mut proof_stream = ProofStream::default();
    assert_eq!(
        Err(ValidationError::NonPositiveRoundCount),
        fri.prove(&codeword, &mut proof_stream)
    );
    assert!(proof_stream.transcript.is_empty());
    assert_eq!(
        Err(ValidationError::NonPositiveRoundCount),
        fri.verify(&mut proof_stream)
    );
}

/// Writes a proof as the prover does, but for the last codeword, which is
/// `last` in the place of the last fold.
fn proof_with_last_codeword(
    fri: &Fri<Hasher>,
    codeword: &[XFieldElement],
    last: Option<Vec<XFieldElement>>,
) -> ProofStream {
    let (rounds, _) = fri.num_rounds();
    let mut proof_stream = ProofStream::default();
    let mut layers: Vec<(Vec<XFieldElement>, MerkleTree<Hasher>)> = vec![];
    let mut current = codeword.to_vec();
    let mut offset = fri.domain.offset;
    let mut generator = fri.domain.omega;
    for r in 0..=rounds {
        let tree = MerkleTree::<Hasher>::from_digests(&leaf_digests::<Hasher>(&current));
        proof_stream.enqueue(&tree.get_root().to_bytes());
        layers.push((current.clone(), tree));
        if r < rounds {
            let alpha = XFieldElement::sample(&proof_stream.prover_fiat_shamir::<Hasher>());
            current = fold(&current, alpha, offset, generator);
            offset = offset.square();
            generator = generator.square();
            if r + 1 == rounds {
                if let Some(other) = &last {
                    current = other.clone();
                }
            }
        }
    }
    proof_stream.enqueue_length_prepended(&encode_codeword(&current));
    let top = fri.sample_indices(&proof_stream.prover_fiat_shamir::<Hasher>());
    let mut open = |layer: &(Vec<XFieldElement>, MerkleTree<Hasher>), indices: &[usize]| {
        let paths = layer.1.get_authentication_structure(indices);
        let values: Vec<XFieldElement> = indices.iter().map(|i| layer.0[*i]).collect();
        proof_stream.enqueue_length_prepended(&encode_auth_pairs(&paths, &values));
    };
    open(&layers[0], &top);
    let mut indices = top;
    for r in 0..rounds as usize {
        let length = layers[r].0.len();
        indices = indices.iter().map(|i| (i + length / 2) % length).collect();
        open(&layers[r], &indices);
    }
    proof_stream
}

#[test]
fn prover_writes_roots_challenges_and_openings_in_turn() {
    let fri = test_fri(256, 4, 5);
    let codeword = codeword_of_power(&fri, 17);
    let mut by_hand = proof_with_last_codeword(&fri, &codeword, None);
    let (proof_stream, _) = proof_of_power(&fri, 17);
    assert_eq!(proof_stream.transcript, by_hand.transcript);
    assert!(fri.verify(&mut by_hand).is_ok());
}

#[test]
fn another_last_codeword_is_not_colinear() {
    let fri = test_fri(256, 4, 5);
    assert_eq!((5, 1), fri.num_rounds());
    let codeword = codeword_of_power(&fri, 17);
    // The codeword of a constant, which has a low enough degree, in the
    // place of the last fold.
    let constant = vec![XFieldElement::lift(BFieldElement::new(11)); 8];
    let mut proof_stream = proof_with_last_codeword(&fri, &codeword, Some(constant));
    assert_eq!(
        Err(ValidationError::NotColinear(4)),
        fri.verify(&mut proof_stream)
    );
    assert_eq!(proof_stream.transcript.len(), proof_stream.read_index);
}

#[test]
fn openings_of_another_proof_do_not_fit() {
    let fri = test_fri(1024, 4, 6);
    let (proof_stream, _) = proof_of_power(&fri, 3);
    let (other, _) = proof_of_power(&fri, 5);
    // Openings of one proof behind the commit phase of another.
    let commit = 8 * 32 + 8 + 8 * 24;
    let mut transcript = proof_stream.transcript[..commit].to_vec();
    transcript.extend_from_slice(&other.transcript[commit..]);
    let mut mixed = ProofStream {
        transcript,
        read_index: 0,
    };
    let error = fri.verify(&mut mixed).unwrap_err();
    assert!(matches!(
        error,
        ValidationError::BadMerkleProof | ValidationError::BadSizedProof
    ));
}

#[test]
fn honest_proof_of_too_high_a_degree_fails_at_the_last_codeword() {
    let fri = test_fri(1024, 4, 6);
    for n in [256, 257, 300, 511, 1023] {
        let (mut proof_stream, _) = proof_of_power(&fri, n);
        assert_eq!(
            Err(ValidationError::LastIterationTooHighDegree),
            fri.verify(&mut proof_stream)
        );
    }
}

#[test]
fn proof_can_follow_other_messages() {
    let fri = test_fri(256, 4, 3);
    let codeword = codeword_of_power(&fri, 20);
    let mut proof_stream = ProofStream::default();
    proof_stream.enqueue(&[1, 2, 3]);
    assert_eq!(Some(vec![1, 2, 3]), proof_stream.dequeue(3));
    fri.prove(&codeword, &mut proof_stream).unwrap();
    assert_eq!(3, proof_stream.read_index);
    assert!(fri.verify(&mut proof_stream).is_ok());
    assert_eq!(proof_stream.transcript.len(), proof_stream.read_index);
}

#[test]
fn proof_stream_reads_what_was_written() {
    let mut proof_stream = ProofStream::new();
    proof_stream.enqueue_length_prepended(&[9, 8, 7]);
    proof_stream.enqueue(&[5]);
    assert_eq!(12, proof_stream.transcript_length());
    assert_eq!(
        vec![3u8, 0, 0, 0, 0, 0, 0, 0, 9, 8, 7, 5],
        proof_stream.transcript
    );
    assert_eq!(Some(vec![9, 8, 7]), proof_stream.dequeue_length_prepended());
    assert_eq!(None, proof_stream.dequeue(2));
    assert_eq!(11, proof_stream.read_index);
    assert_eq!(None, proof_stream.dequeue_length_prepended());
    assert_eq!(11, proof_stream.read_index);
    assert_eq!(Some(vec![5]), proof_stream.dequeue(1));
    assert_ne!(
        proof_stream.prover_fiat_shamir::<Hasher>(),
        ProofStream::new().prover_fiat_shamir::<Hasher>()
    );
    assert_eq!(
        proof_stream.prover_fiat_shamir::<Hasher>(),
        proof_stream.verifier_fiat_shamir::<Hasher>()
    );
}

#[test]
fn read_index_stands_behind_what_was_read() {
    let fri = test_fri(1024, 4, 6);
    let (proof_stream, _) = proof_of_power(&fri, 10);
    let roots = 8 * 32;
    let commit = roots + 8 + 8 * 24;
    let first_opening = 8 + u64::from_le_bytes(
        proof_stream.transcript[commit..commit + 8]
            .try_into()
            .unwrap(),
    ) as usize;
    // The transcript ends in a root: the roots before it were read.
    let mut cut = ProofStream {
        transcript: proof_stream.transcript[..3 * 32 + 5].to_vec(),
        read_index: 0,
    };
    assert_eq!(Err(ValidationError::BadSizedProof), fri.verify(&mut cut));
    assert_eq!(3 * 32, cut.read_index);
    // It ends in the last codeword: the roots were read.
    let mut cut = ProofStream {
        transcript: proof_stream.transcript[..commit - 1].to_vec(),
        read_index: 0,
    };
    assert_eq!(Err(ValidationError::BadSizedProof), fri.verify(&mut cut));
    assert_eq!(roots, cut.read_index);
    // It ends in the first opening: the last codeword was read.
    let mut cut = ProofStream {
        transcript: proof_stream.transcript[..commit + first_opening - 1].to_vec(),
        read_index: 0,
    };
    assert_eq!(Err(ValidationError::BadSizedProof), fri.verify(&mut cut));
    assert_eq!(commit, cut.read_index);
    // It ends behind the first opening: that was read too.
    let mut cut = ProofStream {
        transcript: proof_stream.transcript[..commit + first_opening + 3].to_vec(),
        read_index: 0,
    };
    assert_eq!(Err(ValidationError::BadSizedProof), fri.verify(&mut cut));
    assert_eq!(commit + first_opening, cut.read_index);
    // The last codeword has another root: it was read.
    let mut changed = ProofStream {
        transcript: proof_stream.transcript.clone(),
        read_index: 0,
    };
    changed.transcript[roots + 8] ^= 1;
    assert_eq!(
        Err(ValidationError::BadMerkleRootForLastCodeword),
        fri.verify(&mut changed)
    );
    assert_eq!(commit, changed.read_index);
    // The first opening does not fit: it was read.
    let mut changed = ProofStream {
        transcript: proof_stream.transcript.clone(),
        read_index: 0,
    };
    changed.transcript[commit + first_opening - 1] ^= 1;
    assert_eq!(
        Err(ValidationError::BadMerkleProof),
        fri.verify(&mut changed)
    );
    assert_eq!(commit + first_opening, changed.read_index);
    // No round is left: nothing was read.
    let none = test_fri(16, 4, 16);
    let mut other = ProofStream {
        transcript: proof_stream.transcript.clone(),
        read_index: 7,
    };
    assert_eq!(
        Err(ValidationError::NonPositiveRoundCount),
        none.verify(&mut other)
    );
    assert_eq!(7, other.read_index);
}

#[test]
fn opening_with_a_pair_too_few_is_a_bad_merkle_proof() {
    let fri = test_fri(1024, 4, 6);
    let codeword = codeword_of_power(&fri, 10);
    let (proof_stream, indices) = proof_of_power(&fri, 10);
    let commit = 8 * 32 + 8 + 8 * 24;
    // The first opening with five of its six pairs.
    let tree = MerkleTree::<Hasher>::from_digests(&leaf_digests::<Hasher>(&codeword));
    let mut paths = tree.get_authentication_structure(&indices);
    paths.pop();
    let values: Vec<XFieldElement> = indices[..5].iter().map(|i| codeword[*i]).collect();
    let mut short = ProofStream {
        transcript: proof_stream.transcript[..commit].to_vec(),
        read_index: 0,
    };
    short.enqueue_length_prepended(&encode_auth_pairs(&paths, &values));
    let end = short.transcript.len();
    assert_eq!(Err(ValidationError::BadMerkleProof), fri.verify(&mut short));
    assert_eq!(end, short.read_index);
}

#[test]
fn indices_move_half_the_length_on() {
    let mut indices = vec![0, 1, 511, 512, 1023];
    move_to_siblings(&mut indices, 1024);
    assert_eq!(vec![512, 513, 1023, 0, 511], indices);
    move_to_siblings(&mut indices, 512);
    assert_eq!(vec![256, 257, 255, 256, 255], indices);
    let mut none: Vec<usize> = vec![];
    move_to_siblings(&mut none, 2);
    assert!(none.is_empty());
}
