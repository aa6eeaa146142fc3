use cantor_zassenhaus::f128::F128Element;
use cantor_zassenhaus::factorize::{
    distinct_degree_factorize, equal_degree_factorize, factor, roots, square_free_factorization,
};
use cantor_zassenhaus::poly::F128Polynomial;

#[test]
fn test_find_zeros() {
    let poly = F128Polynomial::new(vec![
        F128Element(44658497621430546465552067582925486430),
        F128Element(8775212720526497844413474915127362008),
        F128Element(159882420825161619330844250700542647343),
        F128Element(41370730215558825575033146660536451072),
        F128Element(1),
    ]);
    let factors = factor(&poly);
    let zeros = factors
        .iter()
        .map(|x| x.to_monic())
        .flat_map(|x| x.0.first().cloned())
        .collect::<Vec<_>>();
    assert_eq!(zeros.len(), 4);
    assert!(zeros.contains(&F128Element(0xf77db57b000000000000000000000000)));
    assert!(zeros.contains(&F128Element(0x77ff0300000000000000000000000000)));
    assert!(zeros.contains(&F128Element(0xb3d50000000000000000000000000000)));
    assert!(zeros.contains(&F128Element(0x2c480000000000000000000000000000)));
}

#[test]
fn test_degree_two_factors() {
    let poly = F128Polynomial::new(vec![
        F128Element(73900111365138678687523612352372067482),
        F128Element(334766111689601553458100587475591389000),
        F128Element(228496597381527898477099281086147557357),
        F128Element(291173289036958711705635792801734525307),
        F128Element(3169191554852581922920349882495773301),
    ]);
    let factors = factor(&poly);
    assert_eq!(factors.len(), 2);
    assert_eq!(
        factors[0].to_monic().mul(&factors[1].to_monic()),
        poly.to_monic()
    );
}

#[test]
fn test_irreducible() {
    let poly = F128Polynomial::new(vec![
        F128Element(113621441705815645649065805383454706182),
        F128Element(172079072389954286753473129753044519229),
        F128Element(16589814480579588750760940242536969201),
        F128Element(94764393397259253859387367773756005363),
        F128Element(54975018509952452188641731551862247930),
    ]);
    let factors = factor(&poly);
    assert_eq!(factors.len(), 1);
    assert_eq!(factors[0].to_monic(), poly.to_monic());
}

#[test]
fn test_random_factors() {
    for _ in 0..200 {
        let poly = F128Polynomial::random(5);
        let factors = factor(&poly);
        let product = factors
            .iter()
            .fold(F128Polynomial::one(), |acc, x| acc.mul(x));
        assert_eq!(product.to_monic(), poly.to_monic());
    }
}

#[test]
fn test_find_square_free_part() {
    let a = F128Polynomial(vec![
        F128Element(165561879346020818106439165970613955905),
        F128Element(1),
    ]);
    let b = F128Polynomial(vec![
        F128Element(261064362113442048867529397787216873321),
        F128Element(1),
    ]);
    let poly = a.mul(&a).mul(&b);
    let square_free = square_free_factorization(&poly);
    assert_eq!(square_free.to_monic(), a.mul(&b).to_monic());
}

#[test]
fn test_distinct_degree_factorization() {
    let a = F128Polynomial(vec![
        F128Element(52330733814030467326643484500469848294),
        F128Element(165561879346020818106439165970613955905),
    ]);
    let b = F128Polynomial(vec![
        F128Element(233328233774988783342728909394263641625),
        F128Element(274493643517918769777437023706639486239),
        F128Element(161141815452699709889925938662260829158),
    ]);
    let poly = a.mul(&b);
    let factor = distinct_degree_factorize(&poly);
    assert_eq!(factor.len(), 2);
    assert!(factor.iter().any(|x| x.0.to_monic() == a.to_monic()));
    assert!(factor.iter().any(|x| x.0.to_monic() == b.to_monic()));
}

#[test]
fn test_distinct_degree_quadratic_times_cubic() {
    // an irreducible quadratic times an irreducible cubic yields exactly two
    // groups, one at degree 2 and one at degree 3
    let a = F128Polynomial(vec![
        F128Element(233328233774988783342728909394263641625),
        F128Element(274493643517918769777437023706639486239),
        F128Element(161141815452699709889925938662260829158),
    ]);
    let b = F128Polynomial(vec![
        F128Element(16874368708971697930179439133948970191),
        F128Element(189423249255895934164006845491935173324),
        F128Element(142625625631148033003252568128938612427),
        F128Element(1),
    ]);
    let poly = a.mul(&b);
    let groups = distinct_degree_factorize(&poly);
    assert_eq!(groups.len(), 2);
    assert!(groups
        .iter()
        .any(|x| x.1 == 2 && x.0.to_monic() == a.to_monic()));
    assert!(groups
        .iter()
        .any(|x| x.1 == 3 && x.0.to_monic() == b.to_monic()));
}

#[test]
fn test_roots_of_linear_split() {
    let poly = F128Polynomial::new(vec![
        F128Element(44658497621430546465552067582925486430),
        F128Element(8775212720526497844413474915127362008),
        F128Element(159882420825161619330844250700542647343),
        F128Element(41370730215558825575033146660536451072),
        F128Element(1),
    ]);
    let zeros = roots(&poly);
    assert_eq!(zeros.len(), 4);
    assert!(zeros.contains(&F128Element(0xf77db57b000000000000000000000000)));
    assert!(zeros.contains(&F128Element(0x77ff0300000000000000000000000000)));
    assert!(zeros.contains(&F128Element(0xb3d50000000000000000000000000000)));
    assert!(zeros.contains(&F128Element(0x2c480000000000000000000000000000)));
}

#[test]
fn test_equal_degree_split_of_two_linears() {
    let a = F128Polynomial(vec![
        F128Element(52330733814030467326643484500469848294),
        F128Element(1),
    ]);
    let b = F128Polynomial(vec![
        F128Element(261064362113442048867529397787216873321),
        F128Element(1),
    ]);
    let poly = a.mul(&b);
    let factors = equal_degree_factorize(&poly, 1);
    assert_eq!(factors.len(), 2);
    assert_eq!(
        factors[0].to_monic().mul(&factors[1].to_monic()),
        poly.to_monic()
    );
}

#[test]
fn test_monic_normalization_idempotent() {
    let poly = F128Polynomial::new(vec![
        F128Element(73900111365138678687523612352372067482),
        F128Element(334766111689601553458100587475591389000),
        F128Element(3169191554852581922920349882495773301),
    ]);
    let once = poly.to_monic();
    assert_eq!(once.to_monic(), once);
    assert_eq!(once.0.last().unwrap(), &F128Element(1));
}

#[test]
fn test_new_trims_trailing_zeros() {
    let poly = F128Polynomial::new(vec![
        F128Element(5),
        F128Element(7),
        F128Element(0),
        F128Element(0),
    ]);
    assert_eq!(poly.0, vec![F128Element(5), F128Element(7)]);
    let zero = F128Polynomial::new(vec![]);
    assert_eq!(zero.0, vec![F128Element(0)]);
}

#[test]
fn test_field_multiplication_values() {
    // x * x = x^2
    assert_eq!(F128Element(2).mul(F128Element(2)), F128Element(4));
    // x^127 * x wraps around the modulus: x^128 = x^7 + x^2 + x + 1
    assert_eq!(
        F128Element(1u128 << 127).mul(F128Element(2)),
        F128Element(0x87)
    );
    // one is the multiplicative identity on both sides
    let a = F128Element(0x1234_5678_9abc_def0_0fed_cba9_8765_4321);
    assert_eq!(a.mul(F128Element(1)), a);
    assert_eq!(F128Element(1).mul(a), a);
}

#[test]
fn test_field_addition_is_involutive() {
    let a = F128Element(0xdead_beef_0bad_f00d_1234_5678_9abc_def0);
    assert_eq!(a.add(a), F128Element(0));
    assert_eq!(a.add(F128Element(0)), a);
}

#[test]
fn test_field_inverse() {
    let a = F128Element(0x1234_5678_9abc_def0_0fed_cba9_8765_4321);
    let inv = a.invert();
    assert_eq!(a.mul(inv), F128Element(1));
    assert_eq!(F128Element(1).invert(), F128Element(1));
}

#[test]
fn test_field_sqrt_squares_back() {
    let a = F128Element(0x0123_4567_89ab_cdef_fedc_ba98_7654_3210);
    let r = a.sqrt();
    assert_eq!(r.mul(r), a);
}

#[test]
fn test_division_of_exact_product() {
    let a = F128Polynomial(vec![
        F128Element(165561879346020818106439165970613955905),
        F128Element(1),
    ]);
    let b = F128Polynomial(vec![
        F128Element(261064362113442048867529397787216873321),
        F128Element(1),
    ]);
    let poly = a.mul(&b);
    let (quotient, remainder) = poly.div_rem(&a);
    assert_eq!(quotient, b);
    assert!(remainder.is_zero());
}

#[test]
fn test_polynomial_sqrt_of_square() {
    let q = F128Polynomial(vec![F128Element(3), F128Element(7), F128Element(11)]);
    let square = q.mul(&q);
    assert_eq!(square.sqrt(), Some(q));
    // a nonzero odd-position coefficient means the polynomial is no square
    let not_square = F128Polynomial(vec![F128Element(1), F128Element(1)]);
    assert_eq!(not_square.sqrt(), None);
}

#[test]
fn test_derivative_drops_even_exponents() {
    let poly = F128Polynomial(vec![
        F128Element(9),
        F128Element(5),
        F128Element(6),
        F128Element(7),
    ]);
    // derivative of a3 x^3 + a2 x^2 + a1 x + a0 in characteristic 2: a3 x^2 + a1
    assert_eq!(
        poly.derivative().0,
        vec![F128Element(5), F128Element(0), F128Element(7)]
    );
}

#[test]
fn test_powmod_reduces() {
    // x^2 modulo x^2 + 1 is 1
    let x = F128Polynomial(vec![F128Element(0), F128Element(1)]);
    let modulus = F128Polynomial(vec![F128Element(1), F128Element(0), F128Element(1)]);
    let r = x.powmod(2, &modulus);
    assert_eq!(r.0, vec![F128Element(1)]);
}

#[test]
fn test_square_free_part_of_odd_power() {
    // x^3 has the single distinct irreducible factor x
    let poly = F128Polynomial(vec![
        F128Element(0),
        F128Element(0),
        F128Element(0),
        F128Element(1),
    ]);
    let square_free = square_free_factorization(&poly);
    assert_eq!(
        square_free.to_monic().0,
        vec![F128Element(0), F128Element(1)]
    );
}

#[test]
fn test_square_free_part_of_fifth_power() {
    // x^5 likewise collapses to x
    let poly = F128Polynomial(vec![
        F128Element(0),
        F128Element(0),
        F128Element(0),
        F128Element(0),
        F128Element(0),
        F128Element(1),
    ]);
    let square_free = square_free_factorization(&poly);
    assert_eq!(
        square_free.to_monic().0,
        vec![F128Element(0), F128Element(1)]
    );
}

#[test]
fn test_eval_at_root_and_elsewhere() {
    // x + c evaluates to zero exactly at c
    let c = F128Element(165561879346020818106439165970613955905);
    let poly = F128Polynomial(vec![c, F128Element(1)]);
    assert_eq!(poly.eval(c), F128Element(0));
    assert_ne!(poly.eval(F128Element(1)), F128Element(0));
}

#[test]
fn test_block_serialization_round_trip() {
    let block: [u8; 16] = [
        0x01, 0x23, 0x45, 0x67, 0x89, 0xab, 0xcd, 0xef, 0xfe, 0xdc, 0xba, 0x98, 0x76, 0x54, 0x32,
        0x10,
    ];
    let element = F128Element::from_block(&block);
    assert_eq!(
        element,
        F128Element(0x0123_4567_89ab_cdef_fedc_ba98_7654_3210)
    );
    assert_eq!(element.to_block(), block.to_vec());
    let back: [u8; 16] = element.to_block().try_into().unwrap();
    assert_eq!(F128Element::from_block(&back), element);
}

#[test]
fn test_gcd_of_common_factor() {
    let a = F128Polynomial(vec![F128Element(17), F128Element(1)]);
    let b = F128Polynomial(vec![F128Element(23), F128Element(1)]);
    let c = F128Polynomial(vec![F128Element(29), F128Element(1)]);
    let left = a.mul(&b);
    let right = a.mul(&c);
    let g = F128Polynomial::gcd(left, &right);
    assert_eq!(g.to_monic(), a);
}
