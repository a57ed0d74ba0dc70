use fri::b_field_element::{BFieldElement, P};
use fri::digest::Digest;
use fri::blake3_hasher::Blake3Hasher;
use fri::fri::{fold, Fri};
use fri::ntt::{b_ntt, x_ntt};
use fri::fri_domain::FriDomain;
use fri::polynomial::Polynomial;
use fri::power_of_two::{ceil_power_of_two, is_power_of_two, log_2_ceil, log_2_floor};
use fri::x_field_element::XFieldElement;

fn b(value: u64) -> BFieldElement {
    BFieldElement::new(value)
}

fn x(c0: u64, c1: u64, c2: u64) -> XFieldElement {
    XFieldElement::new(b(c0), b(c1), b(c2))
}

#[test]
fn b_field_arithmetic() {
    assert_eq!(18446744069414584321, P);
    assert_eq!(b(0), b(P));
    assert_eq!(4294967294, b(u64::MAX).value());
    assert_eq!(b(1), b(P - 1).add(b(2)));
    assert_eq!(b(P - 1), b(0).sub(b(1)));
    assert_eq!(b(P - 5), b(5).neg());
    assert_eq!(b(0), b(0).neg());
    // 2^32 * 2^32 = 2^64 = 2^32 - 1.
    assert_eq!(b(4294967295), b(1 << 32).mul(b(1 << 32)));
    assert_eq!(b(4294967295), b(1 << 32).square());
    assert_eq!(b(1), b(P - 1).mul(b(P - 1)));
    assert_eq!(b(1024), b(2).mod_pow(10));
    assert_eq!(b(1), b(2).mod_pow(192));
    assert_eq!(b(1), b(5).mod_pow_u32(0));
    assert_eq!(b(1), b(7).mod_pow(P - 1));
    assert_eq!(b(7), BFieldElement::generator());
    assert!(b(0).is_zero());
    assert!(!b(1).is_zero());
    assert!(b(1).is_one());
    assert_eq!(b(0), BFieldElement::zero());
    assert_eq!(b(1), BFieldElement::one());
}

#[test]
fn b_field_inverse_is_inverse() {
    for v in [1u64, 2, 7, 1 << 40, 18446744069414584320] {
        let a = b(v);
        assert_eq!(BFieldElement::one(), a.mul(a.inverse()));
    }
    assert_eq!(b(9223372034707292161), b(2).inverse());
    assert_eq!(BFieldElement::zero(), BFieldElement::zero().inverse());
}

#[test]
fn batch_inversion_inverts_each() {
    let input = vec![b(3), b(1 << 50), b(P - 1), b(3), b(1)];
    let inverses = BFieldElement::batch_inversion(&input);
    assert_eq!(5, inverses.len());
    for (a, inverse) in input.iter().zip(inverses.iter()) {
        assert_eq!(a.inverse(), *inverse);
        assert_eq!(b(1), a.mul(*inverse));
    }
    assert!(BFieldElement::batch_inversion(&vec![]).is_empty());
    assert_eq!(vec![b(5).inverse()], BFieldElement::batch_inversion(&vec![b(5)]));
}

#[test]
fn primitive_roots_have_their_order() {
    assert_eq!(Some(b(1)), BFieldElement::primitive_root_of_unity(1));
    assert_eq!(Some(b(P - 1)), BFieldElement::primitive_root_of_unity(2));
    assert_eq!(Some(b(281474976710656)), BFieldElement::primitive_root_of_unity(4));
    assert_eq!(
        Some(b(1753635133440165772)),
        BFieldElement::primitive_root_of_unity(1 << 32)
    );
    for log in 1..=32u32 {
        let n = 1u64 << log;
        let root = BFieldElement::primitive_root_of_unity(n).unwrap();
        assert_eq!(b(1), root.mod_pow(n));
        assert_eq!(b(P - 1), root.mod_pow(n / 2));
    }
    for n in [0u64, 3, 6, 1000, 1 << 33, u64::MAX] {
        assert_eq!(None, BFieldElement::primitive_root_of_unity(n));
    }
}

#[test]
fn cyclic_group_elements_are_the_powers() {
    let root = BFieldElement::primitive_root_of_unity(8).unwrap();
    let elements = root.get_cyclic_group_elements(None);
    assert_eq!(8, elements.len());
    for (i, element) in elements.iter().enumerate() {
        assert_eq!(root.mod_pow(i as u64), *element);
    }
    assert_eq!(vec![b(1)], b(1).get_cyclic_group_elements(None));
    assert_eq!(
        vec![b(1), b(7), b(49)],
        b(7).get_cyclic_group_elements(Some(3))
    );
    assert_eq!(vec![b(1)], b(7).get_cyclic_group_elements(Some(0)));
    assert_eq!(vec![b(1), b(0)], b(0).get_cyclic_group_elements(Some(2)));
}

#[test]
fn x_field_arithmetic() {
    let one = XFieldElement::one();
    let a = x(5, 11, P - 1);
    assert_eq!(a, a.mul(one));
    assert_eq!(a, one.mul(a));
    assert_eq!(XFieldElement::zero(), a.sub(a));
    assert_eq!(XFieldElement::zero(), a.add(a.neg()));
    assert!(a.sub(a).is_zero());
    // x * x^2 = x^3 = x - 1.
    assert_eq!(x(P - 1, 1, 0), x(0, 1, 0).mul(x(0, 0, 1)));
    // x^2 * x^2 = x^4 = x^2 - x.
    assert_eq!(x(0, P - 1, 1), x(0, 0, 1).mul(x(0, 0, 1)));
    assert_eq!(x(10, 22, P - 2), a.scale(b(2)));
    assert_eq!(a.scale(b(2)), a.mul(XFieldElement::lift(b(2))));
    assert_eq!(vec![b(5), b(11), b(P - 1)], a.to_sequence());
    assert_eq!(x(3, 0, 0), b(3).lift());
    let digest = Digest::new(b(1), b(2), b(3), b(4));
    assert_eq!(x(1, 2, 3), XFieldElement::sample(&digest));
}

#[test]
fn x_field_inverse_is_inverse() {
    for a in [x(5, 11, P - 1), x(0, 1, 0), x(0, 0, 1), x(7, 0, 0), x(1, 1, 1)] {
        assert_eq!(XFieldElement::one(), a.mul(a.inverse()));
    }
    assert_eq!(b(2).inverse().lift(), x(2, 0, 0).inverse());
    assert_eq!(XFieldElement::zero(), XFieldElement::zero().inverse());
}

#[test]
fn logarithms_and_powers_of_two() {
    assert_eq!(0, log_2_ceil(0));
    assert_eq!(0, log_2_ceil(1));
    assert_eq!(1, log_2_ceil(2));
    assert_eq!(2, log_2_ceil(3));
    assert_eq!(10, log_2_ceil(1024));
    assert_eq!(11, log_2_ceil(1025));
    assert_eq!(64, log_2_ceil(u64::MAX));
    assert_eq!(0, log_2_floor(0));
    assert_eq!(0, log_2_floor(1));
    assert_eq!(1, log_2_floor(3));
    assert_eq!(10, log_2_floor(2047));
    assert_eq!(63, log_2_floor(u64::MAX));
    assert_eq!((3, 8), ceil_power_of_two(5));
    assert_eq!((64, 1u128 << 64), ceil_power_of_two(u64::MAX));
    assert!(is_power_of_two(1));
    assert!(is_power_of_two(1 << 63));
    assert!(!is_power_of_two(0));
    assert!(!is_power_of_two(12));
}

#[test]
fn polynomial_degree_and_equality() {
    let p = Polynomial::<BFieldElement>::new(vec![b(1), b(0), b(3), b(0), b(0)]);
    assert_eq!(2, p.degree());
    assert_eq!(3, p.significant_len());
    assert_eq!(-1, Polynomial::<BFieldElement>::new(vec![b(0), b(0)]).degree());
    assert_eq!(-1, Polynomial::<BFieldElement>::new(vec![]).degree());
    assert_eq!(p, Polynomial::<BFieldElement>::new(vec![b(1), b(0), b(3)]));
    assert_ne!(p, Polynomial::<BFieldElement>::new(vec![b(1), b(0), b(4)]));
    assert_ne!(p, Polynomial::<BFieldElement>::new(vec![b(1), b(0), b(3), b(1)]));
    // 1 + 3 * 5^2
    assert_eq!(b(76), p.evaluate(&b(5)));
    let q = Polynomial::<XFieldElement>::new(vec![x(1, 1, 0), x(0, 0, 2), XFieldElement::zero()]);
    assert_eq!(1, q.degree());
    assert_eq!(x(1, 1, 10), q.evaluate(&b(5)));
    assert!(q.equals(&Polynomial::<XFieldElement>::new(vec![x(1, 1, 0), x(0, 0, 2)])));
}

#[test]
fn colinear_y_is_on_the_line() {
    // The line through (1, 3) and (3, 7) is y = 2 x + 1.
    let y = Polynomial::<XFieldElement>::get_colinear_y(
        (x(1, 0, 0), x(3, 0, 0)),
        (x(3, 0, 0), x(7, 0, 0)),
        x(10, 0, 0),
    );
    assert_eq!(x(21, 0, 0), y);
    // With values and argument in the extension field: y = (x^2) t + x,
    // taken at t = x, is x^3 + x = 2 x - 1.
    let y = Polynomial::<XFieldElement>::get_colinear_y(
        (x(0, 0, 0), x(0, 1, 0)),
        (x(1, 0, 0), x(0, 1, 1)),
        x(0, 1, 0),
    );
    assert_eq!(x(P - 1, 2, 0), y);
}

#[test]
fn domain_round_trip() {
    for order in [1u64, 2, 16, 64] {
        let domain = FriDomain {
            offset: b(7),
            omega: BFieldElement::primitive_root_of_unity(order).unwrap(),
            length: order as usize,
        };
        let coefficients: Vec<BFieldElement> = (0..order).map(|i| b(i * i + 3)).collect();
        let p = Polynomial::<BFieldElement>::new(coefficients.clone());
        let values = domain.b_evaluate(&p);
        assert_eq!(coefficients, domain.b_interpolate(&values).coefficients);
        let again = domain.b_evaluate(&domain.b_interpolate(&coefficients));
        assert_eq!(coefficients, again);

        let x_coefficients: Vec<XFieldElement> =
            (0..order).map(|i| x(i, i * i, 3 * i + 1)).collect();
        let xp = Polynomial::<XFieldElement>::new(x_coefficients.clone());
        let x_values = domain.x_evaluate(&xp);
        assert_eq!(x_coefficients, domain.x_interpolate(&x_values).coefficients);
        let again = domain.x_evaluate(&domain.x_interpolate(&x_coefficients));
        assert_eq!(x_coefficients, again);
    }
}

#[test]
fn domain_values_are_offset_times_powers() {
    let omega = BFieldElement::primitive_root_of_unity(16).unwrap();
    let domain = FriDomain {
        offset: b(7),
        omega,
        length: 16,
    };
    let values = domain.b_domain_values();
    assert_eq!(16, values.len());
    assert_eq!(b(7), values[0]);
    for i in 0..16u32 {
        assert_eq!(b(7).mul(omega.mod_pow(i as u64)), values[i as usize]);
        assert_eq!(values[i as usize], domain.b_domain_value(i));
    }
}

#[test]
fn fold_halves_the_degree() {
    // The codeword of 3 + 5 x + 11 x^2 + 13 x^3 folds, under the challenge
    // alpha, to that of (3 + 5 alpha) + (11 + 13 alpha) x on the squares.
    let omega = BFieldElement::primitive_root_of_unity(8).unwrap();
    let offset = b(7);
    let domain = FriDomain {
        offset,
        omega,
        length: 8,
    };
    let p = Polynomial::<XFieldElement>::new(vec![x(3, 0, 0), x(5, 0, 0), x(11, 0, 0), x(13, 0, 0)]);
    let alpha = x(2, 1, 0);
    let folded = fold(&domain.x_evaluate(&p), alpha, offset, omega);
    let half = FriDomain {
        offset: offset.square(),
        omega: omega.square(),
        length: 4,
    };
    let q = Polynomial::<XFieldElement>::new(vec![
        x(3, 0, 0).add(alpha.scale(b(5))),
        x(11, 0, 0).add(alpha.scale(b(13))),
    ]);
    assert_eq!(half.x_evaluate(&q), folded);
}

#[test]
fn transform_gives_the_values_of_the_polynomial() {
    let domain = FriDomain {
        offset: b(7),
        omega: BFieldElement::primitive_root_of_unity(2048).unwrap(),
        length: 2048,
    };
    assert!(domain.check_coset());
    let coefficients: Vec<BFieldElement> = (0..700u64).map(|i| b(i * i * i + 5)).collect();
    let p = Polynomial::<BFieldElement>::new(coefficients.clone());
    let values = b_ntt(&coefficients, &domain);
    assert_eq!(2048, values.len());
    assert_eq!(values, domain.b_evaluate(&p));
    for i in [0u32, 1, 2, 1023, 1024, 1025, 2047] {
        assert_eq!(p.evaluate(&domain.b_domain_value(i)), values[i as usize]);
    }
    assert!(p == domain.b_interpolate(&values));

    let x_coefficients: Vec<XFieldElement> = (0..2048u64).map(|i| x(i, i + 1, i * i)).collect();
    let xp = Polynomial::<XFieldElement>::new(x_coefficients.clone());
    let x_values = x_ntt(&x_coefficients, &domain);
    assert_eq!(x_values, domain.x_evaluate(&xp));
    for i in [0u32, 3, 1024, 2047] {
        assert_eq!(xp.evaluate(&domain.b_domain_value(i)), x_values[i as usize]);
    }
    assert_eq!(x_coefficients, domain.x_interpolate(&x_values).coefficients);
}

#[test]
fn evaluation_needs_no_subgroup() {
    // Three points, which are no subgroup's coset, and a polynomial with
    // more coefficients than there are points.
    let domain = FriDomain {
        offset: b(2),
        omega: b(3),
        length: 3,
    };
    assert!(!domain.check_coset());
    let p = Polynomial::<BFieldElement>::new(vec![b(1), b(0), b(0), b(0), b(1)]);
    // 1 + x^4 at 2, 6 and 18.
    assert_eq!(vec![b(17), b(1297), b(104977)], domain.b_evaluate(&p));
    let domain = FriDomain {
        offset: b(7),
        omega: BFieldElement::primitive_root_of_unity(4).unwrap(),
        length: 4,
    };
    assert!(domain.check_coset());
    let values = domain.b_evaluate(&p);
    for i in 0..4u32 {
        assert_eq!(p.evaluate(&domain.b_domain_value(i)), values[i as usize]);
    }
    let xp = Polynomial::<XFieldElement>::new(vec![x(1, 2, 3); 9]);
    let x_values = domain.x_evaluate(&xp);
    for i in 0..4u32 {
        assert_eq!(xp.evaluate(&domain.b_domain_value(i)), x_values[i as usize]);
    }
}

#[test]
fn scaled_polynomial_takes_the_values_at_the_scaled_argument() {
    let p = Polynomial::<BFieldElement>::new(vec![b(3), b(5), b(11), b(13)]);
    let scaled = p.scale(&b(7));
    assert_eq!(vec![b(3), b(35), b(539), b(4459)], scaled.coefficients);
    assert_eq!(p.evaluate(&b(7 * 9)), scaled.evaluate(&b(9)));
    let xp = Polynomial::<XFieldElement>::new(vec![x(1, 2, 3), x(4, 5, 6), x(0, 0, 1)]);
    let x_scaled = xp.scale(&b(2));
    assert_eq!(
        vec![x(1, 2, 3), x(8, 10, 12), x(0, 0, 4)],
        x_scaled.coefficients
    );
    assert_eq!(xp.evaluate(&b(2 * 5)), x_scaled.evaluate(&b(5)));
}

#[test]
fn evaluation_domain_has_the_points_of_the_domain() {
    let fri: Fri<Blake3Hasher> = Fri::new(
        b(7),
        BFieldElement::primitive_root_of_unity(64).unwrap(),
        64,
        4,
        2,
    );
    assert_eq!(fri.domain.b_domain_values(), fri.get_evaluation_domain());
    assert_eq!(
        fri.domain.b_domain_value(5),
        fri.get_evaluation_argument(5, 0)
    );
    // Squared three times, the point of index 5 is the point of index 5 of
    // the eight points that are left.
    let squared = FriDomain {
        offset: b(7).mod_pow(8),
        omega: fri.domain.omega.mod_pow(8),
        length: 8,
    };
    assert_eq!(squared.b_domain_value(5), fri.get_evaluation_argument(5, 3));
    let copy = fri.clone();
    assert_eq!(fri.domain.length, copy.domain.length);
    assert_eq!(fri.expansion_factor, copy.expansion_factor);
}
