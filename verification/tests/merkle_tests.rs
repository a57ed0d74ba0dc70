use fri::algebraic_hasher::{hash_pair, AlgebraicHasher};
use fri::b_field_element::BFieldElement;
use fri::blake3_hasher::Blake3Hasher;
use fri::codec::{
    decode_auth_pairs, decode_codeword, encode_auth_pairs, encode_codeword, x_from_bytes,
    x_to_bytes,
};
use fri::digest::Digest;
use fri::merkle_tree::{MerkleTree, PartialAuthenticationPath};
use fri::x_field_element::XFieldElement;

type Hasher = Blake3Hasher;

fn leaves(count: u64) -> Vec<Digest> {
    (0..count)
        .map(|i| Hasher::hash_slice(&vec![BFieldElement::new(i)]))
        .collect()
}

#[test]
fn root_is_the_hash_of_the_two_halves() {
    let digests = leaves(4);
    let tree: MerkleTree<Hasher> = MerkleTree::from_digests(&digests);
    let left = hash_pair::<Hasher>(&digests[0], &digests[1]);
    let right = hash_pair::<Hasher>(&digests[2], &digests[3]);
    assert_eq!(hash_pair::<Hasher>(&left, &right), tree.get_root());
    assert_eq!(4, tree.get_leaf_count());
    let single: MerkleTree<Hasher> = MerkleTree::from_digests(&digests[..1]);
    assert_eq!(digests[0], single.get_root());
}

#[test]
fn opening_gives_no_node_twice() {
    let digests = leaves(8);
    let tree: MerkleTree<Hasher> = MerkleTree::from_digests(&digests);
    // Leaves 0 and 1 are each other's siblings, and share the rest of the
    // path; leaf 1 again adds nothing.
    let paths = tree.get_authentication_structure(&[0, 1, 1]);
    let n23 = hash_pair::<Hasher>(&digests[2], &digests[3]);
    let n45 = hash_pair::<Hasher>(&digests[4], &digests[5]);
    let n67 = hash_pair::<Hasher>(&digests[6], &digests[7]);
    let n4567 = hash_pair::<Hasher>(&n45, &n67);
    assert_eq!(vec![None, Some(n23), Some(n4567)], paths[0].0);
    assert_eq!(vec![None, None, None], paths[1].0);
    assert_eq!(vec![None, None, None], paths[2].0);
    // Leaves 0 and 7 meet only at the root.
    let paths = tree.get_authentication_structure(&[0, 7]);
    let n01 = hash_pair::<Hasher>(&digests[0], &digests[1]);
    assert_eq!(vec![Some(digests[1]), Some(n23), None], paths[0].0);
    assert_eq!(vec![Some(digests[6]), Some(n45), None], paths[1].0);
    assert_ne!(n01, n23);
}

#[test]
fn openings_verify_and_tampered_ones_do_not() {
    let digests = leaves(16);
    let tree: MerkleTree<Hasher> = MerkleTree::from_digests(&digests);
    let root = tree.get_root();
    for indices in [vec![3usize], vec![0, 15], vec![5, 4, 5, 12], vec![1, 2, 3, 4, 5, 6]] {
        let paths = tree.get_authentication_structure(&indices);
        let opened: Vec<Digest> = indices.iter().map(|i| digests[*i]).collect();
        assert!(MerkleTree::<Hasher>::verify_authentication_structure(
            root, 16, &indices, &paths, &opened
        ));
        // Another leaf in the place of one of the opened ones.
        let mut wrong = opened.clone();
        wrong[0] = digests[(indices[0] + 1) % 16];
        assert!(!MerkleTree::<Hasher>::verify_authentication_structure(
            root, 16, &indices, &paths, &wrong
        ));
        // Another root.
        assert!(!MerkleTree::<Hasher>::verify_authentication_structure(
            digests[0], 16, &indices, &paths, &opened
        ));
        // Another size of tree.
        assert!(!MerkleTree::<Hasher>::verify_authentication_structure(
            root, 32, &indices, &paths, &opened
        ));
        assert!(!MerkleTree::<Hasher>::verify_authentication_structure(
            root, 15, &indices, &paths, &opened
        ));
        // A path too few.
        assert!(!MerkleTree::<Hasher>::verify_authentication_structure(
            root,
            16,
            &indices,
            &paths[1..],
            &opened
        ));
    }
}

#[test]
fn a_given_digest_cannot_stand_for_a_covered_node() {
    let digests = leaves(4);
    let tree: MerkleTree<Hasher> = MerkleTree::from_digests(&digests);
    let root = tree.get_root();
    // The honest opening of leaf 0.
    let n23 = hash_pair::<Hasher>(&digests[2], &digests[3]);
    let honest = vec![PartialAuthenticationPath(vec![Some(digests[1]), Some(n23)])];
    assert!(MerkleTree::<Hasher>::verify_authentication_structure(
        root,
        4,
        &[0],
        &honest,
        &[digests[0]]
    ));
    // Without the sibling the leaf is not tied to the root, whatever else
    // is given.
    let loose = vec![PartialAuthenticationPath(vec![None, Some(n23)])];
    assert!(!MerkleTree::<Hasher>::verify_authentication_structure(
        root,
        4,
        &[0],
        &loose,
        &[digests[3]]
    ));
    // A leaf given twice with two digests is refused.
    let paths = tree.get_authentication_structure(&[0, 0]);
    assert!(!MerkleTree::<Hasher>::verify_authentication_structure(
        root,
        4,
        &[0, 0],
        &paths,
        &[digests[1], digests[0]]
    ));
    // An index beyond the leaves is refused.
    assert!(!MerkleTree::<Hasher>::verify_authentication_structure(
        root,
        4,
        &[4],
        &honest,
        &[digests[0]]
    ));
}

#[test]
fn codeword_bytes_are_read_back() {
    let values = vec![
        XFieldElement::new(
            BFieldElement::new(1),
            BFieldElement::new(2),
            BFieldElement::new(3),
        ),
        XFieldElement::new(
            BFieldElement::new(18446744069414584320),
            BFieldElement::zero(),
            BFieldElement::new(1 << 40),
        ),
    ];
    let bytes = encode_codeword(&values);
    assert_eq!(48, bytes.len());
    assert_eq!(
        vec![1u8, 0, 0, 0, 0, 0, 0, 0, 2, 0, 0, 0, 0, 0, 0, 0, 3, 0, 0, 0, 0, 0, 0, 0],
        bytes[..24].to_vec()
    );
    assert_eq!(Some(values.clone()), decode_codeword(&bytes));
    assert_eq!(None, decode_codeword(&bytes[..47]));
    assert_eq!(Some(vec![]), decode_codeword(&[]));
    assert_eq!(values[1], x_from_bytes(&x_to_bytes(&values[1])));
    // A number from the modulus up is read as its residue.
    let mut high = vec![0xffu8; 8];
    high.extend_from_slice(&[0u8; 16]);
    assert_eq!(
        XFieldElement::lift(BFieldElement::new(u64::MAX)),
        x_from_bytes(&high)
    );
    assert_eq!(BFieldElement::new(4294967294), BFieldElement::new(u64::MAX));
}

#[test]
fn openings_are_read_back() {
    let digests = leaves(8);
    let tree: MerkleTree<Hasher> = MerkleTree::from_digests(&digests);
    let paths = tree.get_authentication_structure(&[2, 6]);
    let values = vec![
        XFieldElement::lift(BFieldElement::new(5)),
        XFieldElement::lift(BFieldElement::new(6)),
    ];
    let bytes = encode_auth_pairs(&paths, &values);
    let (read_paths, read_values) = decode_auth_pairs(&bytes).unwrap();
    assert_eq!(values, read_values);
    assert_eq!(2, read_paths.len());
    assert_eq!(paths[0].0, read_paths[0].0);
    assert_eq!(paths[1].0, read_paths[1].0);
    // The number of pairs, then for each pair the number of entries, the
    // entries and the value.
    assert_eq!(2, bytes[0]);
    assert_eq!(3, bytes[8]);
    assert_eq!(1, bytes[16]);
    // Each path gives two digests, and leaves the node out that the other
    // leaf covers.
    assert_eq!(8 + 2 * (8 + 24) + 4 * 33 + 2, bytes.len());
    // One byte more or less, or an entry that is neither there nor not.
    assert!(decode_auth_pairs(&bytes[..bytes.len() - 1]).is_none());
    let mut longer = bytes.clone();
    longer.push(0);
    assert!(decode_auth_pairs(&longer).is_none());
    let mut odd = bytes.clone();
    odd[16] = 2;
    assert!(decode_auth_pairs(&odd).is_none());
    assert!(decode_auth_pairs(&[]).is_none());
    let mut many = bytes.clone();
    many[7] = 0xff;
    assert!(decode_auth_pairs(&many).is_none());
    assert_eq!(
        Some((vec![], vec![])),
        decode_auth_pairs(&[0; 8]).map(|(p, v)| (p.into_iter().map(|x| x.0).collect::<Vec<_>>(), v))
    );
}
