use ark_bn254::Fq;
use ark_ff::{BigInteger, PrimeField};
use gkr_sumcheck::field::FieldElement;
use gkr_sumcheck::multilinear::{
    combine_convert, convert_to_fq_elements, find_pairs_with_xor, gen_based_on_two,
    gen_random_vars, get_power_of_two, interpolate_and_evaluate, MultilinearEvalForm, Op,
    ProdPoly, SumPoly,
};

fn fq(x: u64) -> FieldElement {
    FieldElement::from_u64(x)
}

#[test]
fn test_create_rep() {
    let eval_form = MultilinearEvalForm::new(vec![fq(1), fq(2), fq(3), fq(4)]);
    assert_eq!(eval_form.number_of_variables, 2);
    assert_eq!(eval_form.boolean_hypercube, vec![0, 1, 2, 3]);
}

#[test]
fn test_finding_pairs() {
    let num = 4;
    let boolean_hypercube_of_2_vars = (0..num).collect::<Vec<u32>>();
    let a_target = 2;
    let b_target = 1;
    let pairs_for_a = find_pairs_with_xor(&boolean_hypercube_of_2_vars, a_target);
    assert_eq!(pairs_for_a, vec![(0, 2), (1, 3)]);

    let pairs_for_b = find_pairs_with_xor(&boolean_hypercube_of_2_vars, b_target);
    assert_eq!(pairs_for_b, vec![(0, 1), (2, 3)]);
}

#[test]
fn test_finding_pairs_for_3vars() {
    let num = 8;
    let boolean_hypercube_of_2_vars = (0..num).collect::<Vec<u32>>();
    let a_target = 4;
    let b_target = 2;
    let c_target = 1;

    let pairs_for_a = find_pairs_with_xor(&boolean_hypercube_of_2_vars, a_target);
    assert_eq!(pairs_for_a, vec![(0, 4), (1, 5), (2, 6), (3, 7)]);

    let pairs_for_b = find_pairs_with_xor(&boolean_hypercube_of_2_vars, b_target);
    assert_eq!(pairs_for_b, vec![(0, 2), (1, 3), (4, 6), (5, 7)]);

    let pairs_for_c = find_pairs_with_xor(&boolean_hypercube_of_2_vars, c_target);
    assert_eq!(pairs_for_c, vec![(0, 1), (2, 3), (4, 5), (6, 7)]);
}

#[test]
fn test_interpolate_and_evaluate() {
    let y_values = (fq(1), fq(2));
    let r = fq(3);
    assert_eq!(interpolate_and_evaluate(y_values, r), fq(4));
}

#[test]
fn test_partial_evaluate_1vars() {
    let mut poly = MultilinearEvalForm::new(vec![fq(4), fq(7)]);
    poly.partial_evaluate(1, fq(3));
    assert_eq!(poly.eval_form, vec![fq(13)]);
    assert_eq!(poly.number_of_variables, 1);
}

#[test]
fn test_partial_evaluate_2vars() {
    let mut poly = MultilinearEvalForm::new(vec![fq(0), fq(3), fq(2), fq(5)]);
    poly.partial_evaluate(1, fq(2));
    assert_eq!(poly.eval_form, vec![fq(4), fq(7)]);
    assert_eq!(poly.number_of_variables, 2);
}

#[test]
fn test_partial_evaluate_3vars() {
    let mut poly = MultilinearEvalForm::new(vec![
        fq(0),
        fq(0),
        fq(0),
        fq(3),
        fq(0),
        fq(0),
        fq(2),
        fq(5),
    ]);
    poly.partial_evaluate(3, fq(3));
    assert_eq!(poly.eval_form, vec![fq(0), fq(9), fq(0), fq(11)]);
    assert_eq!(poly.number_of_variables, 3);
}

#[test]
fn test_evaluate_for_2vars() {
    let mut eval_form = MultilinearEvalForm::new(vec![fq(0), fq(3), fq(2), fq(5)]);
    assert_eq!(eval_form.evaluate(&vec![fq(2), fq(3)]), fq(13));
}

#[test]
fn test_to_bytes_for_2vars() {
    let polynomial = MultilinearEvalForm::new(vec![fq(0), fq(3), fq(2), fq(5)]);
    // Compute the expected byte representation manually
    let expected_bytes: Vec<u8> = [Fq::from(0u64), Fq::from(3), Fq::from(2), Fq::from(5)]
        .iter()
        .flat_map(|coeff| coeff.into_bigint().to_bytes_be())
        .collect();

    // Get actual bytes using the to_bytes function
    let actual_bytes = MultilinearEvalForm::to_bytes(&polynomial.eval_form);

    // Assert that both byte representations match
    assert_eq!(actual_bytes, expected_bytes);
}

#[test]
fn test_evaluate_for_3vars() {
    let mut eval_form = MultilinearEvalForm::new(vec![
        fq(0),
        fq(0),
        fq(0),
        fq(3),
        fq(0),
        fq(0),
        fq(2),
        fq(5),
    ]);
    assert_eq!(eval_form.evaluate(&vec![fq(4), fq(2), fq(3)]), fq(34));
}

fn get_prod_poly() -> ProdPoly {
    let polynomials = vec![
        MultilinearEvalForm::new(vec![fq(0), fq(0), fq(0), fq(3)]),
        MultilinearEvalForm::new(vec![fq(0), fq(0), fq(0), fq(2)]),
    ];
    ProdPoly::new(polynomials)
}

fn get_sum_of_prod_poly() -> SumPoly {
    let polynomials = vec![
        MultilinearEvalForm::new(vec![fq(0), fq(0), fq(0), fq(3)]),
        MultilinearEvalForm::new(vec![fq(0), fq(0), fq(0), fq(2)]),
    ];
    let prod_poly = ProdPoly::new(polynomials);
    SumPoly::new(vec![prod_poly.clone(), prod_poly])
}

#[test]
fn test_prod_poly_creation() {
    let prod_poly = get_prod_poly();
    assert_eq!(prod_poly.no_of_vars, 2);
}

#[test]
fn test_prod_poly_eval() {
    let mut prod_poly = get_prod_poly();
    let eval = prod_poly.evaluate(&vec![fq(1), fq(2)]);
    assert_eq!(eval, fq(24));
}

#[test]
fn test_combine_convert() {
    assert_eq!(combine_convert(vec![1, 2, 3], 3), 83);
    assert_eq!(combine_convert(vec![1, 0, 2], 2), 18);
}

#[test]
fn tensor_add() {
    let w_b = MultilinearEvalForm::new(vec![fq(0), fq(0), fq(0), fq(3)]);
    let w_c = MultilinearEvalForm::new(vec![fq(0), fq(0), fq(0), fq(2)]);
    assert_eq!(
        MultilinearEvalForm::tensor_add_or_mul(&w_b, &w_c, Op::Add).eval_form,
        convert_to_fq_elements(vec![0, 0, 0, 2, 0, 0, 0, 2, 0, 0, 0, 2, 3, 3, 3, 5])
    );
}

#[test]
fn tensor_mul() {
    let w_b = MultilinearEvalForm::new(vec![fq(0), fq(0), fq(0), fq(3)]);
    let w_c = MultilinearEvalForm::new(vec![fq(0), fq(0), fq(0), fq(2)]);
    assert_eq!(
        MultilinearEvalForm::tensor_add_or_mul(&w_b, &w_c, Op::Mul).eval_form,
        convert_to_fq_elements(vec![0, 0, 0, 0, 0, 0, 0, 0, 0, 0, 0, 0, 0, 0, 0, 6])
    );
}

#[test]
fn test_sum_of_prod_poly_eval() {
    let mut sum_poly = get_sum_of_prod_poly();
    let eval = sum_poly.evaluate(&vec![fq(1), fq(2)]);
    assert_eq!(eval, fq(48));
}

#[test]
fn test_reduce_sum_of_prod_poly() {
    let sum_poly = get_sum_of_prod_poly();
    assert_eq!(sum_poly.reduce(), vec![fq(0), fq(0), fq(0), fq(12)]);
}

// Substituting one variable at the halves 0 and 1 selects the matching
// half-hypercubes; substituting 2 interpolates beyond them.
#[test]
fn test_partial_evaluate_selects_halves() {
    let mut at_zero = MultilinearEvalForm::new(vec![fq(0), fq(3), fq(2), fq(5)]);
    at_zero.partial_evaluate(1, fq(0));
    assert_eq!(at_zero.eval_form, vec![fq(0), fq(3)]);

    let mut at_one = MultilinearEvalForm::new(vec![fq(0), fq(3), fq(2), fq(5)]);
    at_one.partial_evaluate(1, fq(1));
    assert_eq!(at_one.eval_form, vec![fq(2), fq(5)]);
}

// The pointwise identity P(r, x) = (1 - r) * P(0, x) + r * P(1, x), checked
// at r = 7 on a two-variable polynomial.
#[test]
fn test_partial_evaluate_is_linear() {
    let evals = vec![fq(1), fq(4), fq(9), fq(16)];
    let r = fq(7);
    let one_minus_r = FieldElement::one().sub(&r);

    let mut at_r = MultilinearEvalForm::new(evals.clone());
    at_r.partial_evaluate(1, r);
    let mut at_zero = MultilinearEvalForm::new(evals.clone());
    at_zero.partial_evaluate(1, fq(0));
    let mut at_one = MultilinearEvalForm::new(evals);
    at_one.partial_evaluate(1, fq(1));

    for k in 0..2 {
        let expected = one_minus_r
            .mul(&at_zero.eval_form[k])
            .add(&r.mul(&at_one.eval_form[k]));
        assert_eq!(at_r.eval_form[k], expected);
    }
}

// Random sampling produces the requested number of elements.
#[test]
fn test_gen_random_vars_lengths() {
    assert_eq!(gen_random_vars(5).len(), 5);
    assert_eq!(gen_based_on_two(3).len(), 8);
}

#[test]
fn test_get_power_of_two() {
    assert_eq!(get_power_of_two(1), 0);
    assert_eq!(get_power_of_two(8), 3);
    assert_eq!(get_power_of_two(1024), 10);
}

// A product polynomial has one degree per constituent.
#[test]
fn test_prod_poly_degree() {
    assert_eq!(get_prod_poly().degree(), 2);
}
