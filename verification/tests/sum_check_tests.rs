use gkr_sumcheck::field::FieldElement;
use gkr_sumcheck::multilinear::{convert_to_fq_elements, MultilinearEvalForm, ProdPoly};
use gkr_sumcheck::sum_check::{
    get_sum_over_hypercube, prove, prove_prod_poly, verify, verify_prod_poly,
};

fn fq(x: u64) -> FieldElement {
    FieldElement::from_u64(x)
}

fn get_test_poly() -> MultilinearEvalForm {
    MultilinearEvalForm::new(vec![
        fq(0),
        fq(0),
        fq(0),
        fq(3),
        fq(0),
        fq(0),
        fq(2),
        fq(5),
    ])
}

fn get_prod_poly() -> ProdPoly {
    let polynomials = vec![
        MultilinearEvalForm::new(vec![fq(0), fq(0), fq(0), fq(3)]),
        MultilinearEvalForm::new(vec![fq(0), fq(0), fq(0), fq(2)]),
    ];
    ProdPoly::new(polynomials)
}

fn get_prod_poly2() -> ProdPoly {
    let polynomials = vec![
        MultilinearEvalForm::new(convert_to_fq_elements(vec![0, 0, 0, 3, 0, 0, 2, 5])),
        MultilinearEvalForm::new(convert_to_fq_elements(vec![0, 0, 0, 3, 0, 0, 2, 5])),
    ];
    ProdPoly::new(polynomials)
}

#[test]
fn test_prove() {
    let mut poly1 = get_test_poly();
    let sum = get_sum_over_hypercube(&poly1.eval_form);
    let proof = prove(&mut poly1, sum);
    assert_eq!(proof.sum, fq(10));
}

#[test]
fn test_prove_prod_poly() {
    let mut prod_poly = get_prod_poly();
    let claim_sum = get_sum_over_hypercube(&prod_poly.reduce());
    prove_prod_poly(claim_sum, &mut prod_poly);
}

#[test]
fn test_prove_prod_poly2() {
    let mut prod_poly = get_prod_poly2();
    let claim_sum = get_sum_over_hypercube(&prod_poly.reduce());
    prove_prod_poly(claim_sum, &mut prod_poly);
}

#[test]
fn test_prove_and_verify_prod_poly() {
    let mut prod_poly = get_prod_poly();
    let claim_sum = get_sum_over_hypercube(&prod_poly.reduce());
    let proof = prove_prod_poly(claim_sum, &mut get_prod_poly());
    let is_valid = verify_prod_poly(proof, &mut prod_poly);
    assert_eq!(is_valid, true);
}

#[test]
fn test_prove_and_verify_prod_poly2() {
    let mut prod_poly = get_prod_poly2();
    let claim_sum = get_sum_over_hypercube(&prod_poly.reduce());
    let proof = prove_prod_poly(claim_sum, &mut get_prod_poly2());
    let is_valid = verify_prod_poly(proof, &mut prod_poly);
    assert_eq!(is_valid, true);
}

// Honest round trip: the true hypercube sum of the test polynomial is 10,
// and the verifier accepts the honest proof of it.
#[test]
fn test_prove_and_verify_honest() {
    let mut prover_poly = get_test_poly();
    let sum = get_sum_over_hypercube(&prover_poly.eval_form);
    assert_eq!(sum, fq(10));
    let proof = prove(&mut prover_poly, sum);
    let mut verifier_poly = get_test_poly();
    assert_eq!(verify(proof, &mut verifier_poly), true);
}

// A dishonest claim: the same polynomial with a claimed sum of 100000 is
// rejected.
#[test]
fn test_prove_and_verify_dishonest() {
    let mut prover_poly = get_test_poly();
    let proof = prove(&mut prover_poly, fq(100000));
    let mut verifier_poly = get_test_poly();
    assert_eq!(verify(proof, &mut verifier_poly), false);
}

// Tampering with a valid proof: changing the claimed sum or any round
// polynomial entry causes rejection.
#[test]
fn test_tampered_proof_rejected() {
    let mut prover_poly = get_test_poly();
    let sum = get_sum_over_hypercube(&prover_poly.eval_form);
    let proof = prove(&mut prover_poly, sum);

    let mut tampered_sum = proof.clone();
    tampered_sum.sum = tampered_sum.sum.add(&fq(1));
    assert_eq!(verify(tampered_sum, &mut get_test_poly()), false);

    for round in 0..3 {
        for entry in 0..2 {
            let mut tampered = proof.clone();
            let bumped = tampered.polynomials[round][entry].add(&fq(1));
            tampered.polynomials[round][entry] = bumped;
            assert_eq!(verify(tampered, &mut get_test_poly()), false);
        }
    }
}

// Transcript determinism: two provers on identical inputs emit
// byte-identical proofs.
#[test]
fn test_prover_determinism() {
    let sum = get_sum_over_hypercube(&get_test_poly().eval_form);
    let proof_a = prove(&mut get_test_poly(), sum);
    let proof_b = prove(&mut get_test_poly(), sum);
    assert_eq!(proof_a.sum, proof_b.sum);
    assert_eq!(proof_a.polynomials, proof_b.polynomials);
    assert_eq!(proof_a.sum.to_bytes(), proof_b.sum.to_bytes());
}

// Round consistency of the honest prover: in every round the two entries
// sum to the expected value carried from the previous round.
#[test]
fn test_round_polynomials_are_consistent() {
    let mut prover_poly = get_test_poly();
    let sum = get_sum_over_hypercube(&prover_poly.eval_form);
    let proof = prove(&mut prover_poly, sum);
    let first = &proof.polynomials[0];
    assert_eq!(first[0].add(&first[1]), sum);
}

// Product-poly round polynomials have one more evaluation than the product
// has constituents.
#[test]
fn test_prod_round_poly_degree() {
    let mut prod_poly = get_prod_poly();
    let claim_sum = get_sum_over_hypercube(&prod_poly.reduce());
    let proof = prove_prod_poly(claim_sum, &mut prod_poly);
    assert_eq!(proof.polynomials.len(), 2);
    for round in &proof.polynomials {
        assert_eq!(round.len(), 3);
    }
}

// A dishonest product-poly claim is rejected.
#[test]
fn test_prod_poly_dishonest_rejected() {
    let mut prod_poly = get_prod_poly();
    let proof = prove_prod_poly(fq(99999), &mut get_prod_poly());
    assert_eq!(verify_prod_poly(proof, &mut prod_poly), false);
}
