use fri::algebraic_hasher::{
    hash_pair, sample_index, sample_index_not_power_of_two, AlgebraicHasher,
};
use fri::b_field_element::BFieldElement;
use fri::blake3_hasher::Blake3Hasher;
use fri::digest::Digest;
use fri::fri::{halved, Fri};

type Hasher = Blake3Hasher;

fn seed(n: u64) -> Digest {
    Hasher::hash_slice(&vec![BFieldElement::new(n)])
}

fn test_fri(subgroup_order: u64, expansion_factor: usize, queries: usize) -> Fri<Hasher> {
    Fri::new(
        BFieldElement::new(7),
        BFieldElement::primitive_root_of_unity(subgroup_order).unwrap(),
        subgroup_order as usize,
        expansion_factor,
        queries,
    )
}

#[test]
fn num_rounds_table() {
    let table: [(usize, usize, usize, u8, u32); 11] = [
        (512, 4, 2, 7, 0),
        (512, 4, 8, 6, 1),
        (512, 4, 10, 5, 3),
        (512, 4, 16, 5, 3),
        (512, 4, 17, 4, 7),
        (512, 4, 32, 4, 7),
        (512, 4, 33, 3, 15),
        (256, 4, 33, 2, 15),
        (1048576, 8, 32, 15, 3),
        (1048576, 8, 33, 14, 7),
        (1048576, 8, 65, 13, 15),
    ];
    for (length, expansion_factor, queries, rounds, degree) in table {
        let mut fri = test_fri(512, expansion_factor, queries);
        fri.domain.length = length;
        assert_eq!((rounds, degree), fri.num_rounds());
    }
    // With no more queries than the expansion factor no round is missed.
    let mut fri = test_fri(256, 4, 2);
    assert_eq!((6, 0), fri.num_rounds());
    fri.colinearity_checks_count = 4;
    assert_eq!((6, 0), fri.num_rounds());
    fri.colinearity_checks_count = 5;
    assert_eq!((5, 1), fri.num_rounds());
}

#[test]
fn sampled_indices_are_distinct_and_lift_the_last_ones() {
    for (length, expansion_factor, queries) in [(1024, 4, 6), (512, 4, 33), (64, 2, 2), (32, 4, 8)]
    {
        let fri = test_fri(length as u64, expansion_factor, queries);
        let (rounds, _) = fri.num_rounds();
        let last_length = halved(length, rounds);
        assert!(queries <= last_length);
        for n in 0..5 {
            let indices = fri.sample_indices(&seed(n));
            assert_eq!(queries, indices.len());
            assert_eq!(indices, fri.sample_indices(&seed(n)));
            let mut last: Vec<usize> = indices.iter().map(|i| i % last_length).collect();
            last.sort();
            last.dedup();
            assert_eq!(queries, last.len());
            assert!(indices.iter().all(|i| *i < length / 2));
        }
        assert_ne!(fri.sample_indices(&seed(0)), fri.sample_indices(&seed(1)));
    }
}

#[test]
fn all_indices_of_the_last_codeword_are_drawn_when_asked() {
    let fri = test_fri(64, 4, 16);
    assert_eq!((2, 3), fri.num_rounds());
    let mut last: Vec<usize> = fri
        .sample_indices(&seed(3))
        .iter()
        .map(|i| i % 16)
        .collect();
    last.sort();
    assert_eq!((0..16).collect::<Vec<usize>>(), last);
}

#[test]
fn halved_halves() {
    assert_eq!(1024, halved(1024, 0));
    assert_eq!(8, halved(1024, 7));
    assert_eq!(0, halved(1024, 11));
    assert_eq!(3, halved(7, 1));
}

#[test]
fn index_samplers_follow_the_digest() {
    let digest = Digest::new(
        BFieldElement::new(18446744069414584320),
        BFieldElement::new(11),
        BFieldElement::new(12),
        BFieldElement::new(13),
    );
    // The first element, reduced.
    assert_eq!(0, sample_index(&digest, 2));
    assert_eq!(
        (18446744069414584320u64 % 1024) as usize,
        sample_index(&digest, 1024)
    );
    // Three classes: the greatest multiple of three up to the modulus is
    // the modulus less one, so the greatest residue is passed over.
    assert_eq!(18446744069414584321u64 % 3, 1);
    assert_eq!(11 % 3, sample_index_not_power_of_two(&digest, 3));
    let below = Digest::new(
        BFieldElement::new(18446744069414584319),
        BFieldElement::new(11),
        BFieldElement::new(12),
        BFieldElement::new(13),
    );
    assert_eq!(
        (18446744069414584319u64 % 3) as usize,
        sample_index_not_power_of_two(&below, 3)
    );
    // 2^63 classes: only elements below 2^63 are counted.
    assert_eq!(11, sample_index_not_power_of_two(&digest, 1 << 63));
    let high = BFieldElement::new(1 << 63);
    let all_high = Digest::new(high, high, high, BFieldElement::new((1 << 63) + 5));
    assert_eq!(5, sample_index_not_power_of_two(&all_high, 1 << 63));
}

#[test]
fn blake3_hasher_hashes_the_bytes_of_the_elements() {
    let elements = vec![BFieldElement::new(1), BFieldElement::new(258)];
    let mut bytes = vec![0u8; 16];
    bytes[0] = 1;
    bytes[8] = 2;
    bytes[9] = 1;
    let hash = blake3::hash(&bytes);
    let word = |i: usize| {
        BFieldElement::new(u64::from_le_bytes(
            hash.as_bytes()[8 * i..8 * i + 8].try_into().unwrap(),
        ))
    };
    let expected = Digest::new(word(0), word(1), word(2), word(3));
    assert_eq!(expected, Hasher::hash_slice(&elements));
    assert_ne!(Hasher::hash_slice(&elements), Hasher::hash_slice(&bytes_as(&[1, 258, 0])));
    let left = seed(1);
    let right = seed(2);
    let mut both = left.to_sequence();
    both.extend(right.to_sequence());
    assert_eq!(Hasher::hash_slice(&both), hash_pair::<Hasher>(&left, &right));
    assert_ne!(
        hash_pair::<Hasher>(&left, &right),
        hash_pair::<Hasher>(&right, &left)
    );
}

fn bytes_as(values: &[u64]) -> Vec<BFieldElement> {
    values.iter().map(|v| BFieldElement::new(*v)).collect()
}

#[test]
fn parameters_are_checked() {
    assert!(test_fri(1024, 4, 6).check_valid());
    assert!(test_fri(16, 4, 16).check_valid());
    // The expansion factor is no power of two, is one, or is above the length.
    assert!(!test_fri(1024, 3, 6).check_valid());
    assert!(!test_fri(1024, 1, 6).check_valid());
    assert!(!test_fri(16, 32, 6).check_valid());
    // No query.
    assert!(!test_fri(1024, 4, 0).check_valid());
    // The generator has another order than the length says.
    let mut fri = test_fri(1024, 4, 6);
    fri.domain.length = 512;
    assert!(!fri.check_valid());
    assert!(!fri.domain.check_coset());
    fri.domain.length = 1000;
    assert!(!fri.check_valid());
    // The offset lies in the subgroup, or is zero.
    let mut fri = test_fri(1024, 4, 6);
    fri.domain.offset = fri.domain.omega.mod_pow(77);
    assert!(fri.domain.check_coset());
    assert!(!fri.domain.check_valid());
    assert!(!fri.check_valid());
    fri.domain.offset = BFieldElement::zero();
    assert!(!fri.domain.check_coset());
    // The trivial subgroup.
    let mut fri = test_fri(1, 2, 1);
    assert!(fri.domain.check_valid());
    assert!(!fri.check_valid());
    fri.domain.omega = BFieldElement::new(5);
    assert!(!fri.domain.check_coset());
}

#[test]
fn round_counts_are_checked() {
    let mut fri = test_fri(512, 4, 33);
    assert_eq!(Some((3, 15)), fri.checked_num_rounds());
    assert!(fri.check_sampler_ready());
    // All rounds are left out, and then more than there are.
    fri.colinearity_checks_count = 4 * 128;
    assert_eq!(Some((0, 127)), fri.checked_num_rounds());
    assert!(fri.check_sampler_ready());
    fri.colinearity_checks_count = 4 * 128 + 1;
    assert_eq!(None, fri.checked_num_rounds());
    assert!(!fri.check_sampler_ready());
    // No expansion factor, or one above the length.
    fri.colinearity_checks_count = 2;
    fri.expansion_factor = 0;
    assert_eq!(None, fri.checked_num_rounds());
    fri.expansion_factor = 1024;
    assert_eq!(None, fri.checked_num_rounds());
    // An expansion factor that is no power of two leaves too short a last
    // codeword for as many queries.
    fri.expansion_factor = 3;
    fri.colinearity_checks_count = 3;
    assert_eq!(Some((8, 0)), fri.checked_num_rounds());
    assert!(!fri.check_sampler_ready());
}

#[test]
fn units_are_the_elements_but_zero() {
    assert!(!BFieldElement::zero().check_unit());
    for v in [1u64, 2, 7, 18446744069414584320] {
        assert!(BFieldElement::new(v).check_unit());
    }
}
