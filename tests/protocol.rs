use ark_ff::{BigInteger, Field, PrimeField};
use ark_std::rand::RngCore;
use ark_test_curves::bls12_381::Fr;
use poly_commit::field::FieldElement;
use poly_commit::poly::{digest_matches, verify, Commitment, DensePolynomial, OpeningProof};

const MODULUS: [u64; 4] = [
    0xffff_ffff_0000_0001,
    0x53bd_a402_fffe_5bfe,
    0x3339_d808_09a1_d805,
    0x73ed_a753_299d_7d48,
];

fn poly(cs: &[u64]) -> DensePolynomial {
    DensePolynomial::new(cs.iter().map(|&c| FieldElement::from_u64(c)).collect())
}

fn to_fr(e: &FieldElement) -> Fr {
    Fr::from_bigint(ark_ff::BigInt::new(e.limbs())).unwrap()
}

fn from_fr(f: Fr) -> FieldElement {
    FieldElement::from_limbs(f.into_bigint().0).unwrap()
}

fn encode(f: Fr) -> Vec<u8> {
    f.into_bigint().to_bytes_le()
}

fn random_element(rng: &mut impl RngCore) -> FieldElement {
    let mut limbs = [rng.next_u64(), rng.next_u64(), rng.next_u64(), rng.next_u64()];
    limbs[3] &= 0x3fff_ffff_ffff_ffff;
    FieldElement::from_limbs(limbs).unwrap()
}

#[test]
fn evaluates_quadratic_at_two() {
    let p = poly(&[3, 2, 1]);
    assert_eq!(p.evaluate_at(FieldElement::from_u64(2)), FieldElement::from_u64(11));
}

#[test]
fn opens_quadratic_at_two() {
    let p = poly(&[3, 2, 1]);
    let (value, proof) = p.open(FieldElement::from_u64(2));
    assert_eq!(value, FieldElement::from_u64(11));
    let expected = blake3::hash(&encode(Fr::from(11u64))).as_bytes().to_vec();
    assert_eq!(proof, OpeningProof(expected));
}

#[test]
fn verifies_quadratic_opening_and_refuses_wrong_value() {
    let p = poly(&[3, 2, 1]);
    let point = FieldElement::from_u64(2);
    let commitment = p.commit();
    let (value, proof) = p.open(point);
    assert!(verify(&commitment, point, value, &proof));
    assert!(!verify(&commitment, point, FieldElement::from_u64(12), &proof));
}

#[test]
fn evaluation_matches_direct_summation() {
    let mut rng = ark_std::test_rng();
    for len in 0..12 {
        let cs: Vec<FieldElement> = (0..len).map(|_| random_element(&mut rng)).collect();
        let x = random_element(&mut rng);
        let mut sum = Fr::from(0u64);
        for (i, c) in cs.iter().enumerate() {
            sum += to_fr(c) * to_fr(&x).pow([i as u64]);
        }
        let p = DensePolynomial::new(cs);
        assert_eq!(p.evaluate_at(x), from_fr(sum));
    }
}

#[test]
fn evaluation_reduces_modulo_the_order() {
    let mut top = MODULUS;
    top[0] -= 1;
    let minus_one = FieldElement::from_limbs(top).unwrap();
    let p = DensePolynomial::new(vec![minus_one, FieldElement::from_u64(1)]);
    assert_eq!(p.evaluate_at(FieldElement::from_u64(1)), FieldElement::zero());
    assert_eq!(p.evaluate_at(FieldElement::from_u64(3)), FieldElement::from_u64(2));
    let square = DensePolynomial::new(vec![FieldElement::zero(), FieldElement::zero(), minus_one]);
    assert_eq!(square.evaluate_at(minus_one), minus_one);
}

#[test]
fn zero_polynomial_is_zero_everywhere() {
    let empty = DensePolynomial::new(Vec::new());
    let zeros = poly(&[0, 0, 0, 0]);
    let mut rng = ark_std::test_rng();
    let mut points = vec![FieldElement::zero(), FieldElement::from_u64(1)];
    points.push(random_element(&mut rng));
    for x in points {
        assert_eq!(empty.evaluate_at(x), FieldElement::zero());
        assert_eq!(zeros.evaluate_at(x), FieldElement::zero());
    }
}

#[test]
fn commit_is_deterministic() {
    let a = poly(&[5, 0, 7, 9]);
    let b = poly(&[5, 0, 7, 9]);
    assert_eq!(a.commit(), a.commit());
    assert_eq!(a.commit(), b.commit());
}

#[test]
fn commit_hashes_concatenated_encodings() {
    let p = poly(&[3, 2, 1]);
    let mut data = Vec::new();
    for c in [3u64, 2, 1] {
        data.extend(encode(Fr::from(c)));
    }
    assert_eq!(data.len(), 96);
    let expected = blake3::hash(&data).as_bytes().to_vec();
    let commitment = p.commit();
    assert_eq!(commitment, Commitment(expected));
    assert_eq!(commitment.0.len(), 32);
}

#[test]
fn empty_polynomial_commits_to_digest_of_nothing() {
    let p = DensePolynomial::new(Vec::new());
    assert_eq!(p.commit(), Commitment(blake3::hash(&[]).as_bytes().to_vec()));
}

#[test]
fn trailing_zero_changes_commitment() {
    assert_ne!(poly(&[3, 2, 1]).commit(), poly(&[3, 2, 1, 0]).commit());
    assert_ne!(poly(&[]).commit(), poly(&[0]).commit());
}

#[test]
fn distinct_polynomials_commit_differently() {
    let mut rng = ark_std::test_rng();
    let mut seen: Vec<Vec<u8>> = vec![DensePolynomial::new(Vec::new()).commit().0];
    for i in 0..200 {
        let len = 1 + (i % 7) as usize;
        let cs: Vec<FieldElement> = (0..len).map(|_| random_element(&mut rng)).collect();
        let c = DensePolynomial::new(cs).commit();
        assert!(!seen.contains(&c.0));
        seen.push(c.0);
    }
}

#[test]
fn tampered_proof_is_refused() {
    let p = poly(&[4, 0, 6, 1]);
    let point = FieldElement::from_u64(9);
    let commitment = p.commit();
    let (value, proof) = p.open(point);
    assert!(verify(&commitment, point, value, &proof));
    for i in 0..proof.0.len() {
        let mut bytes = proof.0.clone();
        bytes[i] ^= 0x01;
        assert!(!verify(&commitment, point, value, &OpeningProof(bytes)));
    }
    let mut short = proof.0.clone();
    short.pop();
    assert!(!verify(&commitment, point, value, &OpeningProof(short)));
    assert!(!verify(&commitment, point, value, &OpeningProof(Vec::new())));
}

#[test]
fn verify_ignores_commitment_and_point() {
    let p = poly(&[1, 1]);
    let (value, proof) = p.open(FieldElement::from_u64(4));
    let other = Commitment(vec![0u8; 32]);
    assert!(verify(&other, FieldElement::from_u64(100), value, &proof));
}

#[test]
fn digest_matches_compares_bytes() {
    assert!(digest_matches(&vec![1, 2, 3], &OpeningProof(vec![1, 2, 3])));
    assert!(!digest_matches(&vec![1, 2, 3], &OpeningProof(vec![1, 2, 4])));
    assert!(!digest_matches(&vec![1, 2, 3], &OpeningProof(vec![1, 2])));
    assert!(digest_matches(&Vec::new(), &OpeningProof(Vec::new())));
}

#[test]
fn from_limbs_accepts_only_canonical_integers() {
    assert!(FieldElement::from_limbs(MODULUS).is_none());
    assert!(FieldElement::from_limbs([u64::MAX; 4]).is_none());
    let mut below = MODULUS;
    below[0] -= 1;
    let e = FieldElement::from_limbs(below).unwrap();
    assert_eq!(e.limbs(), below);
    assert_eq!(FieldElement::from_limbs([7, 0, 0, 0]), Some(FieldElement::from_u64(7)));
    assert_eq!(FieldElement::from_limbs([0, 0, 0, 0]), Some(FieldElement::zero()));
}

#[test]
fn from_u64_keeps_the_integer() {
    assert_eq!(FieldElement::from_u64(u64::MAX).limbs(), [u64::MAX, 0, 0, 0]);
    assert_eq!(to_fr(&FieldElement::from_u64(123456789)), Fr::from(123456789u64));
}

#[test]
fn from_bytes_le_decodes_canonical_encodings() {
    let e = FieldElement::from_u64(0x0102_0304_0506_0708);
    let bytes = encode(to_fr(&e));
    assert_eq!(bytes[0], 0x08);
    assert_eq!(FieldElement::from_bytes_le(&bytes), Some(e));
    let mut rng = ark_std::test_rng();
    for _ in 0..20 {
        let r = random_element(&mut rng);
        assert_eq!(FieldElement::from_bytes_le(&encode(to_fr(&r))), Some(r));
    }
}

#[test]
fn from_bytes_le_refuses_malformed_encodings() {
    assert_eq!(FieldElement::from_bytes_le(&vec![0u8; 31]), None);
    assert_eq!(FieldElement::from_bytes_le(&vec![0u8; 33]), None);
    assert_eq!(FieldElement::from_bytes_le(&Vec::new()), None);
    assert_eq!(FieldElement::from_bytes_le(&vec![0xffu8; 32]), None);
    let modulus = ark_ff::BigInt::new(MODULUS).to_bytes_le();
    assert_eq!(FieldElement::from_bytes_le(&modulus), None);
    assert_eq!(FieldElement::from_bytes_le(&vec![0u8; 32]), Some(FieldElement::zero()));
}
