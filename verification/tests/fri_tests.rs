use fri::b_field_element::BFieldElement;
use fri::blake3_hasher::Blake3Hasher;
use fri::fri::{Fri, ValidationError};
use fri::fri_domain::FriDomain;
use fri::polynomial::Polynomial;
use fri::proof_stream::ProofStream;
use fri::x_field_element::XFieldElement;

type Hasher = Blake3Hasher;

fn get_x_field_fri_test_object(
    subgroup_order: u64,
    expansion_factor: usize,
    colinearity_checks: usize,
) -> Fri<Hasher> {
    let maybe_omega = BFieldElement::primitive_root_of_unity(subgroup_order);
    let offset: Option<BFieldElement> = Some(BFieldElement::new(7));
    Fri::new(
        offset.unwrap(),
        maybe_omega.unwrap(),
        subgroup_order as usize,
        expansion_factor,
        colinearity_checks,
    )
}

/// The codeword of `x^n` on the subgroup of `fri`'s generator.
fn power_codeword(fri: &Fri<Hasher>, n: u32) -> Vec<XFieldElement> {
    fri.domain
        .omega
        .get_cyclic_group_elements(None)
        .iter()
        .map(|p| p.mod_pow_u32(n).lift())
        .collect()
}

#[test]
fn x_values_test() {
    // pol = x^3
    let x_squared_coefficients = vec![
        BFieldElement::zero(),
        BFieldElement::zero(),
        BFieldElement::zero(),
        BFieldElement::one(),
    ];

    for order in [4, 8, 32] {
        let omega = BFieldElement::primitive_root_of_unity(order).unwrap();
        let domain = FriDomain {
            offset: BFieldElement::generator(),
            omega,
            length: order as usize,
        };
        let expected_x_values: Vec<BFieldElement> = (0..order)
            .map(|i| BFieldElement::generator().mul(omega.mod_pow(i as u64)))
            .collect();
        let x_values = domain.b_domain_values();
        assert_eq!(expected_x_values, x_values);

        // Verify that `x_value` also returns expected values
        for i in 0..order {
            assert_eq!(
                expected_x_values[i as usize],
                domain.b_domain_value(i as u32)
            );
        }

        let pol = Polynomial::<BFieldElement>::new(x_squared_coefficients.clone());
        let values = domain.b_evaluate(&pol);
        assert_ne!(values, x_squared_coefficients);
        let interpolant = domain.b_interpolate(&values);
        assert_eq!(pol, interpolant);

        // Verify that batch-evaluated values match a manual evaluation
        for i in 0..order {
            assert_eq!(
                pol.evaluate(&domain.b_domain_value(i as u32)),
                values[i as usize]
            );
        }

        let x_squared_coefficients_lifted: Vec<XFieldElement> = x_squared_coefficients
            .clone()
            .into_iter()
            .map(|x| x.lift())
            .collect();
        let xpol = Polynomial::new(x_squared_coefficients_lifted.clone());
        let x_field_x_values = domain.x_evaluate(&xpol);
        assert_ne!(x_field_x_values, x_squared_coefficients_lifted);
        let x_interpolant = domain.x_interpolate(&x_field_x_values);
        assert_eq!(xpol, x_interpolant);
    }
}

#[test]
fn get_rounds_count_test() {
    let subgroup_order = 512;
    let expansion_factor = 4;
    let mut fri: Fri<Hasher> = get_x_field_fri_test_object(subgroup_order, expansion_factor, 2);

    assert_eq!((7, 0), fri.num_rounds());
    fri.colinearity_checks_count = 8;
    assert_eq!((6, 1), fri.num_rounds());
    fri.colinearity_checks_count = 10;
    assert_eq!((5, 3), fri.num_rounds());
    fri.colinearity_checks_count = 16;
    assert_eq!((5, 3), fri.num_rounds());
    fri.colinearity_checks_count = 17;
    assert_eq!((4, 7), fri.num_rounds());
    fri.colinearity_checks_count = 18;
    assert_eq!((4, 7), fri.num_rounds());
    fri.colinearity_checks_count = 31;
    assert_eq!((4, 7), fri.num_rounds());
    fri.colinearity_checks_count = 32;
    assert_eq!((4, 7), fri.num_rounds());
    fri.colinearity_checks_count = 33;
    assert_eq!((3, 15), fri.num_rounds());

    fri.domain.length = 256;
    assert_eq!((2, 15), fri.num_rounds());
    fri.colinearity_checks_count = 32;
    assert_eq!((3, 7), fri.num_rounds());

    fri.colinearity_checks_count = 32;
    fri.domain.length = 1048576;
    fri.expansion_factor = 8;
    assert_eq!((15, 3), fri.num_rounds());

    fri.colinearity_checks_count = 33;
    fri.domain.length = 1048576;
    fri.expansion_factor = 8;
    assert_eq!((14, 7), fri.num_rounds());

    fri.colinearity_checks_count = 63;
    fri.domain.length = 1048576;
    fri.expansion_factor = 8;
    assert_eq!((14, 7), fri.num_rounds());

    fri.colinearity_checks_count = 64;
    fri.domain.length = 1048576;
    fri.expansion_factor = 8;
    assert_eq!((14, 7), fri.num_rounds());

    fri.colinearity_checks_count = 65;
    fri.domain.length = 1048576;
    fri.expansion_factor = 8;
    assert_eq!((13, 15), fri.num_rounds());

    fri.domain.length = 256;
    fri.expansion_factor = 4;
    fri.colinearity_checks_count = 17;
    assert_eq!((3, 7), fri.num_rounds());
}

#[test]
fn fri_on_x_field_test() {
    let subgroup_order = 1024;
    let expansion_factor = 4;
    let colinearity_check_count = 6;
    let fri: Fri<Hasher> =
        get_x_field_fri_test_object(subgroup_order, expansion_factor, colinearity_check_count);
    let mut proof_stream: ProofStream = ProofStream::default();
    let subgroup = power_codeword(&fri, 1);

    let ret = fri.prove(&subgroup, &mut proof_stream).unwrap();
    assert_eq!(fri.colinearity_checks_count, ret.len());
    assert_eq!(colinearity_check_count, ret.len());
    let verify_result = fri.verify(&mut proof_stream);
    assert!(verify_result.is_ok());
}

#[test]
fn fri_x_field_limit_test() {
    let subgroup_order = 1024;
    let expansion_factor = 4;
    let colinearity_check_count = 6;
    let fri: Fri<Hasher> =
        get_x_field_fri_test_object(subgroup_order, expansion_factor, colinearity_check_count);
    let subgroup = fri.domain.omega.get_cyclic_group_elements(None);

    let mut points: Vec<XFieldElement>;
    for n in &[1, 10, 50, 100, 255] {
        points = subgroup
            .clone()
            .iter()
            .map(|p| p.mod_pow_u32(*n).lift())
            .collect();

        let mut proof_stream: ProofStream = ProofStream::default();
        let ret = fri.prove(&points, &mut proof_stream).unwrap();
        assert_eq!(colinearity_check_count, ret.len());

        let verify_result = fri.verify(&mut proof_stream);
        if verify_result.is_err() {
            println!(
                "There are {} points, |<1024>^{}| = {}, and verify_result = {:?}",
                points.len(),
                n,
                points.len(),
                verify_result
            );
        }

        assert!(verify_result.is_ok());
    }

    // Negative test
    let too_high = subgroup_order as u32 / expansion_factor as u32;
    points = subgroup
        .iter()
        .map(|p| p.mod_pow_u32(too_high).lift())
        .collect();
    let mut proof_stream: ProofStream = ProofStream::default();
    fri.prove(&points, &mut proof_stream).unwrap();
    let verify_result = fri.verify(&mut proof_stream);
    assert!(verify_result.is_err());
}

#[test]
fn too_high_degree_is_named() {
    let fri = get_x_field_fri_test_object(1024, 4, 6);
    let points = power_codeword(&fri, 256);
    let mut proof_stream = ProofStream::default();
    fri.prove(&points, &mut proof_stream).unwrap();
    let error = fri.verify(&mut proof_stream).unwrap_err();
    assert!(matches!(
        error,
        ValidationError::LastIterationTooHighDegree | ValidationError::NotColinear(_)
    ));
    // The roots and the last codeword were read: eight roots, and the
    // eight values behind their length.
    assert_eq!(8 * 32 + 8 + 8 * 24, proof_stream.read_index);
}
