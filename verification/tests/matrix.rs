use rand::rngs::StdRng;
use rand::{Rng, SeedableRng};
use secret_sharing::algebra::{FieldElement, GroupElement};
use secret_sharing::modular::{ModPoint, ModScalar};
use secret_sharing::poly::BivariatePolynomial;


type PrimeField = ModScalar;
type Group = ModPoint;
type VerificationMatrix = secret_sharing::vss::matrix::VerificationMatrix<Group>;

fn scalar(value: i64) -> PrimeField {
    scalars(&vec![value])[0]
}

fn scalars(values: &[i64]) -> Vec<PrimeField> {
    values
        .iter()
        .map(|&w| match w.is_negative() {
            false => PrimeField::from_u64(w as u64),
            true => PrimeField::from_u64(-w as u64).neg(),
        })
        .collect()
}

fn random_bp(deg_x: usize, deg_y: usize, rng: &mut StdRng) -> BivariatePolynomial<PrimeField> {
    let mut b = Vec::new();
    for _ in 0..deg_x + 1 {
        let mut row = Vec::new();
        for _ in 0..deg_y + 1 {
            row.push(PrimeField::from_u64(rng.gen::<u64>()));
        }
        b.push(row);
    }
    BivariatePolynomial::with_coefficients(b)
}

#[test]
fn test_from() {
    // Two non-zero coefficients (fast).
    let mut rng: StdRng = SeedableRng::from_seed([1u8; 32]);
    let mut bp = BivariatePolynomial::zero(2, 3);
    assert!(bp.set_coefficient(0, 0, PrimeField::one()));
    assert!(bp.set_coefficient(1, 2, PrimeField::one().add(PrimeField::one())));

    let vm = VerificationMatrix::from_polynomial(&bp);
    assert_eq!(vm.m.len(), 3);
    for (i, mi) in vm.m.iter().enumerate() {
        assert_eq!(mi.len(), 4);
        for (j, mij) in mi.iter().enumerate() {
            match (i, j) {
                (0, 0) => assert_eq!(mij, &Group::generator()),
                (1, 2) => assert_eq!(mij, &Group::generator().add(Group::generator())),
                _ => assert_eq!(mij, &Group::identity()),
            }
        }
    }

    // Random bivariate polynomial (slow).
    let bp = random_bp(5, 10, &mut rng);
    let _ = VerificationMatrix::from_polynomial(&bp);
}

#[test]
fn test_dimensions() {
    let mut rng: StdRng = SeedableRng::from_seed([1u8; 32]);
    let bp = random_bp(5, 10, &mut rng);

    let vm = VerificationMatrix::from_polynomial(&bp);
    assert_eq!((6, 11), vm.dimensions());
}

#[test]
fn test_element() {
    let c = scalar(42);
    let e = Group::generator().scalar_mul(&c);

    let mut bp = BivariatePolynomial::zero(2, 3);
    assert!(bp.set_coefficient(1, 2, c));

    let vm = VerificationMatrix::from_polynomial(&bp);
    assert_eq!(e, vm.element(1, 2).unwrap());
    assert!(vm.element(3, 0).is_none());
    assert!(vm.element(0, 4).is_none());
}

#[test]
fn test_is_zero_hole() {
    let mut bp = BivariatePolynomial::zero(2, 3);
    let vm = VerificationMatrix::from_polynomial(&bp);
    assert!(vm.is_zero_hole());

    assert!(bp.set_coefficient(0, 0, scalar(5)));
    let vm = VerificationMatrix::from_polynomial(&bp);
    assert!(!vm.is_zero_hole());
}

#[test]
fn test_verify() {
    let mut rng: StdRng = SeedableRng::from_seed([1u8; 32]);
    let x2 = scalar(2);
    let x3 = scalar(3);

    let bp = random_bp(2, 3, &mut rng);
    let s = bp.eval_x(&x2).eval(&x3);
    let vm = VerificationMatrix::from_polynomial(&bp);
    assert!(vm.verify(&x2, &x3, &s));
    assert!(!vm.verify(&x3, &x2, &s));
}

#[test]
fn test_verification_polynomial_for_x() {
    let mut rng: StdRng = SeedableRng::from_seed([1u8; 32]);
    let x2 = scalar(2);
    let x3 = scalar(3);

    let bp = random_bp(2, 3, &mut rng);
    let vm = VerificationMatrix::from_polynomial(&bp);
    let p = bp.eval_y(&x2);

    let vv = vm.verification_vector_for_x(&x2);
    assert!(vv.is_from(&p));

    let vv = vm.verification_vector_for_x(&x3);
    assert!(!vv.is_from(&p));
}

#[test]
fn test_verification_polynomial_for_y() {
    let mut rng: StdRng = SeedableRng::from_seed([1u8; 32]);
    let x2 = scalar(2);
    let x3 = scalar(3);

    let bp = random_bp(2, 3, &mut rng);
    let vm = VerificationMatrix::from_polynomial(&bp);
    let p = bp.eval_x(&x2);

    let vv = vm.verification_vector_for_y(&x2);
    assert!(vv.is_from(&p));

    let vv = vm.verification_vector_for_y(&x3);
    assert!(!vv.is_from(&p));
}

#[test]
fn test_verify_x() {
    let mut rng: StdRng = SeedableRng::from_seed([1u8; 32]);
    let x2 = scalar(2);

    // Asymmetric bivariate polynomial.
    let bp = random_bp(2, 3, &mut rng);
    let p = bp.eval_x(&x2);
    let vm = VerificationMatrix::from_polynomial(&bp);
    assert!(vm.verify_x(&x2, &p));
    assert!(!vm.verify_y(&x2, &p)); // Invalid degree.

    // Symmetric bivariate polynomial.
    let bp = random_bp(2, 2, &mut rng);
    let p = bp.eval_x(&x2);
    let vm = VerificationMatrix::from_polynomial(&bp);
    assert!(vm.verify_x(&x2, &p));
    assert!(!vm.verify_y(&x2, &p)); // Valid degree, but verification failed.
}

#[test]
fn test_verify_y() {
    let mut rng: StdRng = SeedableRng::from_seed([1u8; 32]);
    let y2 = scalar(2);

    // Asymmetric bivariate polynomial.
    let bp = random_bp(2, 3, &mut rng);
    let p = bp.eval_y(&y2);
    let vm = VerificationMatrix::from_polynomial(&bp);
    assert!(!vm.verify_x(&y2, &p)); // Invalid degree.
    assert!(vm.verify_y(&y2, &p));

    // Symmetric bivariate polynomial.
    let bp = random_bp(2, 2, &mut rng);
    let p = bp.eval_y(&y2);
    let vm = VerificationMatrix::from_polynomial(&bp);
    assert!(!vm.verify_x(&y2, &p)); // Valid degree, but verification failed.
    assert!(vm.verify_y(&y2, &p));
}

#[test]
fn test_serialization() {
    let mut rng: StdRng = SeedableRng::from_seed([1u8; 32]);
    let bp = random_bp(2, 3, &mut rng);
    let vm = VerificationMatrix::from_polynomial(&bp);
    let restored =
        VerificationMatrix::from_bytes(&vm.to_bytes()).expect("deserialization should succeed");

    assert_eq!(vm, restored);
}

#[test]
fn test_serialization_rejects_malformed() {
    let mut rng: StdRng = SeedableRng::from_seed([1u8; 32]);
    let bp = random_bp(2, 3, &mut rng);
    let vm = VerificationMatrix::from_polynomial(&bp);
    let bytes = vm.to_bytes();
    assert_eq!(bytes.len(), 2 + 3 * 4 * 4);

    // Too short for even a header.
    assert!(VerificationMatrix::from_bytes(&[]).is_none());
    assert!(VerificationMatrix::from_bytes(&bytes[..1]).is_none());

    // Truncated or extended bodies.
    assert!(VerificationMatrix::from_bytes(&bytes[..bytes.len() - 1]).is_none());
    let mut longer = bytes.clone();
    longer.push(0);
    assert!(VerificationMatrix::from_bytes(&longer).is_none());

    // A degree header inconsistent with the length.
    let mut wrong_header = bytes.clone();
    wrong_header[0] = 7;
    assert!(VerificationMatrix::from_bytes(&wrong_header).is_none());

    // An element chunk that is no canonical encoding: the all-ones word is
    // no reduced residue.
    let mut bad_cell = bytes.clone();
    for b in bad_cell.iter_mut().skip(2).take(4) {
        *b = 0xff;
    }
    assert!(VerificationMatrix::from_bytes(&bad_cell).is_none());
}

#[test]
fn test_element_byte_size() {
    let size = VerificationMatrix::element_byte_size();
    assert_eq!(size, 4);
}

#[test]
fn test_byte_size() {
    let size = VerificationMatrix::byte_size(2, 3);
    assert_eq!(size, 2 + 2 * 3 * 4);
}

#[test]
pub fn test_add() {
    let test_cases = vec![
        // Same size.
        (
            vec![scalars(&[0, 1, 2]), scalars(&[3, 4, 5])],
            vec![scalars(&[1, 3, 5]), scalars(&[0, 2, 4])],
            vec![scalars(&[1, 4, 7]), scalars(&[3, 6, 9])],
        ),
        // LHS smaller.
        (
            vec![scalars(&[0, 1]), scalars(&[3, 4])],
            vec![scalars(&[1, 3, 5]), scalars(&[0, 2, 4])],
            vec![scalars(&[1, 4, 5]), scalars(&[3, 6, 4])],
        ),
        // RHS smaller.
        (
            vec![scalars(&[0, 1, 2]), scalars(&[3, 4, 5])],
            vec![scalars(&[1, 3]), scalars(&[0, 2])],
            vec![scalars(&[1, 4, 2]), scalars(&[3, 6, 5])],
        ),
        // Mixed size.
        (
            vec![scalars(&[1, 2, 3, 4]), scalars(&[5, 6, 7, 8])],
            vec![scalars(&[1, 2]), scalars(&[3, 4]), scalars(&[5, 6])],
            vec![
                scalars(&[2, 4, 3, 4]),
                scalars(&[8, 10, 7, 8]),
                scalars(&[5, 6, 0, 0]),
            ],
        ),
    ];

    for (c1, c2, c3) in test_cases {
        let bp1 = BivariatePolynomial::with_coefficients(c1);
        let bp2 = BivariatePolynomial::with_coefficients(c2);
        let bp3 = BivariatePolynomial::with_coefficients(c3);
        let vm1 = VerificationMatrix::from_polynomial(&bp1);
        let vm2 = VerificationMatrix::from_polynomial(&bp2);
        let vm3 = VerificationMatrix::from_polynomial(&bp3);

        // Test add.
        let sum = vm1.add(&vm2);
        assert_eq!(sum, vm3);

        let sum = vm2.add(&vm1);
        assert_eq!(sum, vm3);

        // Test add assign.
        let mut sum = vm1.clone();
        sum.add_assign(&vm2);
        assert_eq!(sum, vm3);

        let mut sum = vm2.clone();
        sum.add_assign(&vm1);
        assert_eq!(sum, vm3);
    }
}

#[test]
fn test_homomorphism() {
    let mut rng: StdRng = SeedableRng::from_seed([7u8; 32]);
    let bp1 = random_bp(2, 3, &mut rng);
    let bp2 = random_bp(3, 1, &mut rng);
    let sum_first = VerificationMatrix::from_polynomial(&bp1.add(&bp2));
    let sum_second =
        VerificationMatrix::from_polynomial(&bp1).add(&VerificationMatrix::from_polynomial(&bp2));
    assert_eq!(sum_first, sum_second);
}

#[test]
fn test_is_from_wrong_size() {
    let mut rng: StdRng = SeedableRng::from_seed([3u8; 32]);
    let x2 = scalar(2);

    let bp = random_bp(2, 3, &mut rng);
    let vm = VerificationMatrix::from_polynomial(&bp);
    // A slice along the wrong axis has the wrong number of coefficients.
    let p = bp.eval_x(&x2);
    let vv = vm.verification_vector_for_x(&x2);
    assert_eq!(vv.len(), 3);
    assert!(!vv.is_from(&p));
}

#[test]
fn test_matrix_equality() {
    let bp1 = BivariatePolynomial::with_coefficients(vec![scalars(&[1, 2]), scalars(&[3, 4])]);
    let bp2 = BivariatePolynomial::with_coefficients(vec![scalars(&[1, 2]), scalars(&[3, 5])]);
    let vm1 = VerificationMatrix::from_polynomial(&bp1);
    let vm2 = VerificationMatrix::from_polynomial(&bp2);
    assert_ne!(vm1, vm2);
    assert_eq!(vm1, vm1.clone());
}
