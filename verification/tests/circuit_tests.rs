use gkr_sumcheck::circuits::{Circuit, Gate, GateOperation, Layer};
use gkr_sumcheck::field::FieldElement;
use gkr_sumcheck::multilinear::{convert_to_fq_elements, MultilinearEvalForm};

fn fq(x: u64) -> FieldElement {
    FieldElement::from_u64(x)
}

fn get_circuit() -> Circuit {
    let l2_gate1 = Gate::new(0, 1, 0, GateOperation::Mul);
    let l2_gate2 = Gate::new(2, 3, 1, GateOperation::Add);
    let l2_gate3 = Gate::new(4, 5, 2, GateOperation::Mul);
    let l2_gate4 = Gate::new(6, 7, 3, GateOperation::Add);
    let layer_two = Layer::new(vec![l2_gate1, l2_gate2, l2_gate3, l2_gate4]);

    let l1_gate1 = Gate::new(0, 1, 0, GateOperation::Add);
    let l1_gate2 = Gate::new(2, 3, 1, GateOperation::Mul);
    let layer_one = Layer::new(vec![l1_gate1, l1_gate2]);

    let l0_gate1 = Gate::new(0, 1, 0, GateOperation::Mul);
    let layer_zero = Layer::new(vec![l0_gate1]);
    Circuit::new(vec![layer_two, layer_one, layer_zero])
}

fn get_circuit2() -> Circuit {
    let l2_gate1 = Gate::new(0, 1, 0, GateOperation::Add);
    let l2_gate2 = Gate::new(2, 3, 1, GateOperation::Add);
    let l2_gate3 = Gate::new(4, 5, 2, GateOperation::Add);
    let l2_gate4 = Gate::new(6, 7, 3, GateOperation::Mul);
    let layer_two = Layer::new(vec![l2_gate1, l2_gate2, l2_gate3, l2_gate4]);

    let l1_gate1 = Gate::new(0, 1, 0, GateOperation::Mul);
    let l1_gate2 = Gate::new(2, 3, 1, GateOperation::Add);
    let layer_one = Layer::new(vec![l1_gate1, l1_gate2]);

    let l0_gate1 = Gate::new(0, 1, 0, GateOperation::Add);
    let layer_zero = Layer::new(vec![l0_gate1]);
    Circuit::new(vec![layer_two, layer_one, layer_zero])
}

fn get_circuit3() -> Circuit {
    get_circuit2()
}

#[test]
fn test_gate_creation() {
    let gate = Gate::new(1, 2, 3, GateOperation::Add);
    assert_eq!(gate.left_index, 1);
    assert_eq!(gate.right_index, 2);
    assert_eq!(gate.output, 3);
}

#[test]
fn test_gate_evaluation() {
    let inputs = vec![fq(0), fq(2), fq(4), fq(6)];
    let mut outputs: Vec<FieldElement> = vec![fq(0); 2];

    let gate = Gate::new(0, 1, 0, GateOperation::Add);
    gate.evaluate(&inputs, &mut outputs);
    assert_eq!(outputs[0], fq(2));

    let gate2 = Gate::new(2, 3, 1, GateOperation::Mul);
    gate2.evaluate(&inputs, &mut outputs);
    assert_eq!(outputs[1], fq(24));
}

#[test]
fn test_layer_creation() {
    let gate = Gate::new(0, 1, 0, GateOperation::Add);
    let gate2 = Gate::new(2, 3, 1, GateOperation::Mul);
    let layer_one = Layer::new(vec![gate, gate2]);
    assert_eq!(layer_one.gates.len(), 2);
}

#[test]
fn test_layer_evaluation() {
    let gate = Gate::new(0, 1, 0, GateOperation::Add);
    let gate2 = Gate::new(2, 3, 1, GateOperation::Mul);
    let layer_one = Layer::new(vec![gate, gate2]);
    let inputs = vec![fq(0), fq(2), fq(4), fq(6)];
    let output = layer_one.evaluate(&inputs);
    assert_eq!(output.len(), 2);
    assert_eq!(output, vec![fq(2), fq(24)]);
}

#[test]
fn test_layer_evaluation2() {
    let gate = Gate::new(0, 1, 0, GateOperation::Mul);
    let gate2 = Gate::new(2, 3, 1, GateOperation::Add);
    let gate3 = Gate::new(4, 5, 2, GateOperation::Mul);
    let gate4 = Gate::new(6, 7, 3, GateOperation::Add);
    let layer_one = Layer::new(vec![gate, gate2, gate3, gate4]);
    let inputs = vec![fq(2), fq(3), fq(7), fq(10), fq(5), fq(4), fq(3), fq(8)];
    let output = layer_one.evaluate(&inputs);
    assert_eq!(output.len(), 4);
    assert_eq!(output, vec![fq(6), fq(17), fq(20), fq(11)]);
}

#[test]
fn test_circuit_creation() {
    let circuit_example = get_circuit();
    assert_eq!(circuit_example.layers.len(), 3);
}

#[test]
fn test_circuit_evaluation() {
    let mut circuit_example = get_circuit();
    let inputs = vec![fq(2), fq(3), fq(7), fq(10), fq(5), fq(4), fq(3), fq(8)];

    let circuit_evaluation = circuit_example.evaluate(&inputs);
    assert_eq!(
        circuit_evaluation,
        vec![
            vec![fq(2), fq(3), fq(7), fq(10), fq(5), fq(4), fq(3), fq(8)],
            vec![fq(6), fq(17), fq(20), fq(11)],
            vec![fq(23), fq(220)],
            vec![fq(5060)]
        ]
    )
}

#[test]
fn test_w_mle() {
    let mut circuit_example = get_circuit2();
    let inputs = vec![fq(1), fq(2), fq(3), fq(4), fq(5), fq(6), fq(7), fq(8)];
    circuit_example.evaluate(&inputs);
    assert_eq!(circuit_example.w_mle(0).eval_form, vec![fq(88)]);
    assert_eq!(circuit_example.w_mle(1).eval_form, vec![fq(21), fq(67)]);
    assert_eq!(
        circuit_example.w_mle(2).eval_form,
        vec![fq(3), fq(7), fq(11), fq(56)]
    );
    assert_eq!(
        circuit_example.w_mle(3).eval_form,
        vec![fq(1), fq(2), fq(3), fq(4), fq(5), fq(6), fq(7), fq(8)]
    );

    assert_eq!(circuit_example.w_mle(1).evaluate(&vec![fq(0)]), fq(21));
}

#[test]
fn test_add_and_mul_i() {
    let circuit_example = get_circuit3();
    let layer_index = 2;
    let (add_i_poly, mul_i_poly) = circuit_example.add_and_mul_i(layer_index);
    assert_eq!(
        add_i_poly
            .clone()
            .evaluate(&convert_to_fq_elements(vec![0, 0, 0, 0, 0, 0, 0, 1])),
        fq(1)
    );
    assert_eq!(
        add_i_poly
            .clone()
            .evaluate(&convert_to_fq_elements(vec![0, 1, 0, 1, 0, 0, 1, 1])),
        fq(1)
    );
    assert_eq!(
        add_i_poly
            .clone()
            .evaluate(&convert_to_fq_elements(vec![1, 0, 1, 0, 0, 1, 0, 1])),
        fq(1)
    );
    assert_eq!(
        add_i_poly
            .clone()
            .evaluate(&convert_to_fq_elements(vec![1, 1, 0, 1, 1, 0, 0, 1])),
        fq(0)
    );
    assert_eq!(
        mul_i_poly
            .clone()
            .evaluate(&convert_to_fq_elements(vec![1, 1, 1, 1, 0, 1, 1, 1])),
        fq(1)
    );
    assert_eq!(
        mul_i_poly
            .clone()
            .evaluate(&convert_to_fq_elements(vec![0, 1, 1, 1, 0, 1, 1, 1])),
        fq(0)
    );
    assert_eq!(
        mul_i_poly
            .clone()
            .evaluate(&convert_to_fq_elements(vec![1, 1, 1, 1, 1, 1, 1, 1])),
        fq(0)
    );
}

#[test]
fn test_add_and_mul_i2() {
    let circuit_example = get_circuit3();
    let layer_index = 1;
    let (add_i_poly, mul_i_poly) = circuit_example.add_and_mul_i(layer_index);
    assert_eq!(
        add_i_poly
            .clone()
            .evaluate(&convert_to_fq_elements(vec![0, 0, 0, 0, 1])),
        fq(0)
    );
    assert_eq!(
        add_i_poly
            .clone()
            .evaluate(&convert_to_fq_elements(vec![1, 1, 0, 1, 1])),
        fq(1)
    );
    assert_eq!(
        mul_i_poly
            .clone()
            .evaluate(&convert_to_fq_elements(vec![1, 1, 1, 0, 1])),
        fq(0)
    );
    assert_eq!(
        mul_i_poly
            .clone()
            .evaluate(&convert_to_fq_elements(vec![0, 0, 0, 0, 1])),
        fq(1)
    );
}

#[test]
fn test_add_and_mul_i3() {
    let circuit_example = get_circuit3();
    let layer_index = 0;
    let (add_i_poly, mul_i_poly) = circuit_example.add_and_mul_i(layer_index);
    assert_eq!(
        add_i_poly
            .clone()
            .evaluate(&convert_to_fq_elements(vec![0, 0, 0])),
        fq(0)
    );
    assert_eq!(
        add_i_poly
            .clone()
            .evaluate(&convert_to_fq_elements(vec![0, 0, 1])),
        fq(1)
    );
    assert_eq!(
        mul_i_poly
            .clone()
            .evaluate(&convert_to_fq_elements(vec![1, 1, 1])),
        fq(0)
    );
    assert_eq!(
        mul_i_poly
            .clone()
            .evaluate(&convert_to_fq_elements(vec![0, 0, 1])),
        fq(0)
    );
}

#[test]
fn test_gkr_verifier() {
    assert_eq!("hello gkr", "hello gkr");
}

// The composed layer polynomial f_{b,c} of the output layer of the circuit
// of the evaluation scenario: at the boolean point matching the single Mul
// gate's wiring it gives W(left) * W(right); at every other boolean point
// it gives zero.
#[test]
fn test_f_b_c_composition() {
    let mut circuit = get_circuit();
    let inputs = vec![fq(2), fq(3), fq(7), fq(10), fq(5), fq(4), fq(3), fq(8)];
    circuit.evaluate(&inputs);

    // the output layer has one Mul gate wired (out, left, right) = (0, 0, 1)
    let (mut add_i, mut mul_i) = circuit.add_and_mul_i(0);
    // fix the output variable to 0, leaving polynomials over (b, c)
    let add_fixed = MultilinearEvalForm::new(add_i.partial_evaluate(1, fq(0)));
    let mul_fixed = MultilinearEvalForm::new(mul_i.partial_evaluate(1, fq(0)));
    let w_1 = circuit.w_mle(1);
    assert_eq!(w_1.eval_form, vec![fq(23), fq(220)]);

    let mut f_b_c = Circuit::f_b_c(add_fixed, mul_fixed, &w_1);
    let booleans = [(0u64, 0u64), (0, 1), (1, 0), (1, 1)];
    for (b, c) in booleans {
        let value = f_b_c.evaluate(&vec![fq(b), fq(c)]);
        if (b, c) == (0, 1) {
            // W(0) * W(1) = 23 * 220
            assert_eq!(value, fq(5060));
        } else {
            assert_eq!(value, fq(0));
        }
    }
}
