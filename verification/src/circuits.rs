//! Layered arithmetic circuits and their layer polynomials: per-layer
//! evaluation, the layer-value multilinear `W_i`, and the wiring-predicate
//! multilinears for addition and multiplication gates.
use vstd::prelude::*;

use crate::field::{f_add, f_mul, FieldElement};
use crate::multilinear::{
    all_wf, combine_convert, combine_val, is_hypercube_len, lemma_lg_pow2, lg, tensor_vals,
    vals, MultilinearEvalForm, Op, ProdPoly, SumPoly,
};
use vstd::arithmetic::power2::pow2;

verus! {

/// Whether a gate adds or multiplies its two inputs.
#[derive(Clone, Copy, Debug, PartialEq, Eq, Structural)]
pub enum GateOperation {
    Add,
    Mul,
}

/// The field operation a gate performs.
pub open spec fn gate_val(op: GateOperation, a: nat, b: nat) -> nat {
    match op {
        GateOperation::Add => f_add(a, b),
        GateOperation::Mul => f_mul(a, b),
    }
}

/// One gate of a layer: it reads two slots of the layer's input vector and
/// writes one slot of the layer's output vector.
#[derive(Clone, Copy, Debug)]
pub struct Gate {
    pub left_index: usize,
    pub right_index: usize,
    pub output: usize,
    pub op: GateOperation,
}

impl Gate {
    pub fn new(left: usize, right: usize, out: usize, op: GateOperation) -> (r: Gate)
        ensures
            r.left_index == left,
            r.right_index == right,
            r.output == out,
            r.op == op,
    {
        Gate { left_index: left, right_index: right, output: out, op }
    }

    /// Evaluate one gate: combine the two input slots it reads and store
    /// the result in its output slot.
    pub fn evaluate(&self, inputs: &Vec<FieldElement>, outputs: &mut Vec<FieldElement>)
        requires
            self.left_index < inputs@.len(),
            self.right_index < inputs@.len(),
            self.output < old(outputs)@.len(),
            all_wf(inputs@),
            all_wf(old(outputs)@),
        ensures
            final(outputs)@.len() == old(outputs)@.len(),
            all_wf(final(outputs)@),
            vals(final(outputs)@) == vals(old(outputs)@).update(
                self.output as int,
                gate_val(
                    self.op,
                    vals(inputs@)[self.left_index as int],
                    vals(inputs@)[self.right_index as int],
                ),
            ),
    {
        let left_val = inputs[self.left_index];
        let right_val = inputs[self.right_index];
        let output = match self.op {
            GateOperation::Add => left_val.add(&right_val),
            GateOperation::Mul => left_val.mul(&right_val),
        };
        proof {
            assert(vals(outputs@.update(self.output as int, output)) =~= vals(outputs@).update(
                self.output as int,
                output@,
            ));
        }
        outputs.set(self.output, output);
    }
}

/// Every gate of the sequence reads within `in_len` slots and writes
/// within `out_len` slots.
pub open spec fn gates_wf(gates: Seq<Gate>, in_len: int, out_len: int) -> bool {
    forall|g: int|
        0 <= g < gates.len() ==> (#[trigger] gates[g]).left_index < in_len
            && gates[g].right_index < in_len && gates[g].output < out_len
}

/// A sequence of zero values.
pub open spec fn zero_vals(n: nat) -> Seq<nat> {
    Seq::new(n, |i: int| 0nat)
}

/// The output vector after applying the first `k` gates, starting from all
/// zeros.
pub open spec fn layer_eval_upto(gates: Seq<Gate>, ins: Seq<nat>, k: int) -> Seq<nat>
    decreases k,
{
    if k <= 0 {
        zero_vals(gates.len())
    } else {
        let g = gates[k - 1];
        layer_eval_upto(gates, ins, k - 1).update(
            g.output as int,
            gate_val(g.op, ins[g.left_index as int], ins[g.right_index as int]),
        )
    }
}

/// The output vector of a layer on the given inputs: every gate applied in
/// order to an all-zero output vector.
pub open spec fn layer_eval(gates: Seq<Gate>, ins: Seq<nat>) -> Seq<nat> {
    layer_eval_upto(gates, ins, gates.len() as int)
}

/// One layer of a circuit: an ordered list of gates writing one output
/// vector.
pub struct Layer {
    pub gates: Vec<Gate>,
}

impl Layer {
    pub fn new(gates: Vec<Gate>) -> (r: Layer)
        ensures
            r.gates@ == gates@,
    {
        Layer { gates }
    }

    /// Evaluate the layer: each gate writes its output slot, in gate
    /// order, into a vector with one slot per gate.
    pub fn evaluate(&self, inputs: &Vec<FieldElement>) -> (r: Vec<FieldElement>)
        requires
            all_wf(inputs@),
            gates_wf(self.gates@, inputs@.len() as int, self.gates@.len() as int),
        ensures
            r@.len() == self.gates@.len(),
            all_wf(r@),
            vals(r@) == layer_eval(self.gates@, vals(inputs@)),
    {
        let mut outputs: Vec<FieldElement> = Vec::new();
        let n = self.gates.len();
        for i in 0..n
            invariant
                outputs@.len() == i,
                all_wf(outputs@),
                forall|k: int| 0 <= k < i ==> vals(outputs@)[k] == 0,
        {
            let z = FieldElement::zero();
            proof {
                assert(vals(outputs@.push(z)) =~= vals(outputs@).push(z@));
            }
            outputs.push(z);
        }
        proof {
            assert(vals(outputs@) =~= zero_vals(n as nat));
        }
        for g in 0..n
            invariant
                n == self.gates@.len(),
                all_wf(inputs@),
                gates_wf(self.gates@, inputs@.len() as int, self.gates@.len() as int),
                outputs@.len() == n,
                all_wf(outputs@),
                vals(outputs@) == layer_eval_upto(self.gates@, vals(inputs@), g as int),
        {
            let gate = self.gates[g];
            gate.evaluate(inputs, &mut outputs);
        }
        outputs
    }
}

/// The list of per-stage evaluations of a circuit, input first: the
/// inputs, then each layer's outputs in order.
pub open spec fn circuit_evals_spec(layers: Seq<Layer>, ins: Seq<nat>) -> Seq<Seq<nat>>
    decreases layers.len(),
{
    if layers.len() == 0 {
        seq![ins]
    } else {
        seq![ins] + circuit_evals_spec(
            layers.drop_first(),
            layer_eval(layers.first().gates@, ins),
        )
    }
}

/// Appending a layer appends one more evaluation, computed from the last.
pub proof fn lemma_circuit_evals_snoc(layers: Seq<Layer>, l: Layer, ins: Seq<nat>)
    ensures
        circuit_evals_spec(layers.push(l), ins) == circuit_evals_spec(layers, ins) + seq![
            layer_eval(l.gates@, circuit_evals_spec(layers, ins).last()),
        ],
        circuit_evals_spec(layers, ins).len() == layers.len() + 1,
    decreases layers.len(),
{
    if layers.len() == 0 {
        assert(layers.push(l).first() == l);
        assert(layers.push(l).drop_first() =~= Seq::<Layer>::empty());
        assert(circuit_evals_spec(Seq::<Layer>::empty(), layer_eval(l.gates@, ins)) == seq![
            layer_eval(l.gates@, ins),
        ]);
        assert(circuit_evals_spec(layers.push(l), ins) == seq![ins] + seq![
            layer_eval(l.gates@, ins),
        ]);
        assert(circuit_evals_spec(layers, ins) == seq![ins]);
        assert(circuit_evals_spec(layers.push(l), ins) =~= circuit_evals_spec(layers, ins) + seq![
            layer_eval(l.gates@, ins),
        ]);
        assert(circuit_evals_spec(layers, ins).last() == ins);
    } else {
        let next = layer_eval(layers.first().gates@, ins);
        assert(layers.push(l).first() == layers.first());
        assert(layers.push(l).drop_first() =~= layers.drop_first().push(l));
        lemma_circuit_evals_snoc(layers.drop_first(), l, next);
        assert(circuit_evals_spec(layers, ins).last() == circuit_evals_spec(
            layers.drop_first(),
            next,
        ).last());
        assert(circuit_evals_spec(layers.push(l), ins) =~= circuit_evals_spec(layers, ins) + seq![
            layer_eval(l.gates@, circuit_evals_spec(layers, ins).last()),
        ]);
    }
}

/// Structural soundness of a layered circuit: ordered from the layer
/// nearest the inputs to a single-gate output layer, each layer has a
/// power-of-two gate count twice the next layer's, and every gate reads
/// from the layer's input slots and writes its own output slot.
pub open spec fn circuit_wf(layers: Seq<Layer>) -> bool {
    &&& layers.len() >= 1
    &&& layers[layers.len() - 1].gates@.len() == 1
    &&& forall|i: int|
        0 <= i < layers.len() - 1 ==> (#[trigger] layers[i].gates@.len()) == 2 * layers[i
            + 1].gates@.len()
    &&& forall|i: int| 0 <= i < layers.len() ==> is_hypercube_len((#[trigger] layers[i].gates@.len()) as nat)
    &&& forall|i: int|
        0 <= i < layers.len() ==> gates_wf(
            (#[trigger] layers[i].gates@),
            2 * layers[i].gates@.len() as int,
            layers[i].gates@.len() as int,
        )
}

/// A layered arithmetic circuit together with, once evaluated, the list of
/// per-layer evaluations ordered output first.
pub struct Circuit {
    pub layers: Vec<Layer>,
    pub layer_evals: Vec<Vec<FieldElement>>,
}

/// The value lists of a list of evaluation vectors.
pub open spec fn vals2(s: Seq<Vec<FieldElement>>) -> Seq<Seq<nat>> {
    s.map_values(|v: Vec<FieldElement>| vals(v@))
}

impl Circuit {
    pub fn new(layers: Vec<Layer>) -> (r: Circuit)
        ensures
            r.layers@ == layers@,
            r.layer_evals@.len() == 0,
    {
        Circuit { layers, layer_evals: Vec::new() }
    }

    /// Evaluate the circuit layer by layer. Returns the evaluations from
    /// the inputs up to the output layer, and stores the same list
    /// reversed, so that index 0 of `layer_evals` is the output layer.
    pub fn evaluate(&mut self, inputs: &Vec<FieldElement>) -> (r: Vec<Vec<FieldElement>>)
        requires
            circuit_wf(old(self).layers@),
            all_wf(inputs@),
            inputs@.len() == 2 * old(self).layers@[0].gates@.len(),
        ensures
            final(self).layers@ == old(self).layers@,
            vals2(r@) == circuit_evals_spec(old(self).layers@, vals(inputs@)),
            r@.len() == old(self).layers@.len() + 1,
            final(self).layer_evals@.len() == r@.len(),
            forall|i: int|
                0 <= i < r@.len() ==> vals((#[trigger] final(self).layer_evals@[i])@) == vals2(
                    r@,
                )[r@.len() - 1 - i],
            forall|i: int| 0 <= i < r@.len() ==> all_wf((#[trigger] r@[i])@),
    {
        let ghost ivals = vals(inputs@);
        let mut layer_evaluations: Vec<Vec<FieldElement>> = Vec::new();
        let first = crate::univariate::copy_elements(inputs);
        layer_evaluations.push(first);
        let n = self.layers.len();
        proof {
            assert(self.layers@.take(0) =~= Seq::<Layer>::empty());
            assert(vals2(layer_evaluations@) =~= circuit_evals_spec(self.layers@.take(0), ivals));
        }
        for li in 0..n
            invariant
                n == self.layers@.len(),
                self == old(self),
                circuit_wf(self.layers@),
                ivals == vals(inputs@),
                layer_evaluations@.len() == li + 1,
                forall|i: int| 0 <= i < li + 1 ==> all_wf((#[trigger] layer_evaluations@[i])@),
                vals2(layer_evaluations@) == circuit_evals_spec(self.layers@.take(li as int), ivals),
                layer_evaluations@.last()@.len() == 2 * self.layers@[li as int].gates@.len() || li
                    == n,
        {
            let last_index = layer_evaluations.len() - 1;
            let next_output = self.layers[li].evaluate(&layer_evaluations[last_index]);
            proof {
                lemma_circuit_evals_snoc(self.layers@.take(li as int), self.layers@[li as int], ivals);
                assert(self.layers@.take(li as int).push(self.layers@[li as int]) =~= self.layers@.take(
                    li + 1,
                ));
                assert(vals2(layer_evaluations@).last() == circuit_evals_spec(
                    self.layers@.take(li as int),
                    ivals,
                ).last());
                assert(vals2(layer_evaluations@.push(next_output)) =~= vals2(
                    layer_evaluations@,
                ).push(vals(next_output@)));
            }
            layer_evaluations.push(next_output);
            proof {
                assert(vals2(layer_evaluations@) =~= circuit_evals_spec(
                    self.layers@.take(li + 1),
                    ivals,
                ));
                if li + 1 < n {
                    assert(self.layers@[li as int].gates@.len() == 2 * self.layers@[li + 1].gates@.len());
                }
            }
        }
        proof {
            assert(self.layers@.take(n as int) =~= self.layers@);
        }
        let total = layer_evaluations.len();
        let mut reversed: Vec<Vec<FieldElement>> = Vec::new();
        for i in 0..total
            invariant
                total == layer_evaluations@.len(),
                forall|k: int| 0 <= k < total ==> all_wf((#[trigger] layer_evaluations@[k])@),
                reversed@.len() == i,
                forall|k: int|
                    0 <= k < i ==> vals((#[trigger] reversed@[k])@) == vals2(layer_evaluations@)[
                        total - 1 - k],
        {
            let row = crate::univariate::copy_elements(&layer_evaluations[total - 1 - i]);
            reversed.push(row);
        }
        self.layer_evals = reversed;
        layer_evaluations
    }

    /// The multilinear extension of one stored layer evaluation: index 0
    /// is the output layer.
    pub fn w_mle(&self, layer_index: u32) -> (r: MultilinearEvalForm)
        requires
            (layer_index as int) < self.layer_evals@.len(),
            all_wf(self.layer_evals@[layer_index as int]@),
            is_hypercube_len(self.layer_evals@[layer_index as int]@.len() as nat),
            1 <= self.layer_evals@[layer_index as int]@.len() <= 0x8000_0000,
        ensures
            r.wf(),
            r.full(),
            r.evals() == vals(self.layer_evals@[layer_index as int]@),
            r.number_of_variables as nat == lg(self.layer_evals@[layer_index as int]@.len() as nat),
    {
        let row = crate::univariate::copy_elements(&self.layer_evals[layer_index as usize]);
        MultilinearEvalForm::new(row)
    }
}

/// The width in bits of the wiring-predicate domain of a layer with `g`
/// gates: 3 for the singleton output layer, else the bits of one output
/// index plus twice the bits of an input index.
pub open spec fn ami_width(g: nat) -> nat {
    if g == 1 {
        3
    } else {
        2 + 3 * lg(g)
    }
}

/// The concatenated (output, left, right) index of a gate, each input
/// index over `dg` bits.
pub open spec fn gate_combined(gate: Gate, dg: nat) -> nat {
    (gate.output as nat) * pow2(2 * dg) + (gate.left_index as nat) * pow2(dg) + (
    gate.right_index as nat)
}

/// One entry of a wiring predicate: 1 exactly when some gate of the layer
/// has the given operation and its concatenated indices name this entry.
pub open spec fn wiring_indicator(gates: Seq<Gate>, op: GateOperation, dg: nat, idx: int) -> nat {
    if exists|g: int|
        0 <= g < gates.len() && (#[trigger] gates[g]).op == op && gate_combined(gates[g], dg)
            == idx {
        1
    } else {
        0
    }
}

/// Concatenating three `dg`-bit fields gives the combined gate index.
proof fn lemma_combine_three(o: u32, l: u32, rr: u32, dg: nat)
    ensures
        combine_val(seq![o, l, rr], dg) == (o as nat) * pow2(2 * dg) + (l as nat) * pow2(dg) + (
        rr as nat),
{
    let s = seq![o, l, rr];
    assert(s.drop_last() =~= seq![o, l]);
    assert(seq![o, l].drop_last() =~= seq![o]);
    assert(seq![o].drop_last() =~= Seq::<u32>::empty());
    assert(combine_val(Seq::<u32>::empty(), dg) == 0);
    assert(combine_val(seq![o], dg) == o as nat) by {
        vstd::arithmetic::mul::lemma_mul_basics(pow2(dg) as int);
    }
    assert(combine_val(seq![o, l], dg) == (o as nat) * pow2(dg) + l as nat);
    assert(combine_val(s, dg) == ((o as nat) * pow2(dg) + l as nat) * pow2(dg) + rr as nat);
    vstd::arithmetic::mul::lemma_mul_is_distributive_add_other_way(
        pow2(dg) as int,
        ((o as nat) * pow2(dg)) as int,
        l as int,
    );
    vstd::arithmetic::mul::lemma_mul_is_associative(o as int, pow2(dg) as int, pow2(dg) as int);
    vstd::arithmetic::power2::lemma_pow2_adds(dg, dg);
}

/// Every gate of a power-of-two layer combines to an index inside the
/// wiring-predicate domain.
proof fn lemma_gate_combined_bound(gate: Gate, g: nat, dg: nat)
    requires
        dg >= 1,
        g == pow2((dg - 1) as nat),
        (gate.output as nat) < g,
        (gate.left_index as nat) < 2 * g,
        (gate.right_index as nat) < 2 * g,
    ensures
        gate_combined(gate, dg) < pow2(ami_width(g)),
{
    let o = gate.output as nat;
    let l = gate.left_index as nat;
    let rr = gate.right_index as nat;
    vstd::arithmetic::power2::lemma_pow2_pos(dg);
    vstd::arithmetic::power2::lemma_pow2_pos(2 * dg);
    vstd::arithmetic::power2::lemma_pow2_adds((dg - 1) as nat, 2 * dg);
    assert(g * pow2(2 * dg) == pow2((3 * dg - 1) as nat));
    vstd::arithmetic::mul::lemma_mul_inequality(o as int, g as int - 1, pow2(2 * dg) as int);
    vstd::arithmetic::mul::lemma_mul_is_distributive_sub_other_way(
        pow2(2 * dg) as int,
        g as int,
        1,
    );
    assert(o * pow2(2 * dg) <= pow2((3 * dg - 1) as nat) - pow2(2 * dg));
    vstd::arithmetic::power2::lemma_pow2_unfold(dg);
    vstd::arithmetic::power2::lemma_pow2_adds(dg, dg);
    assert(2 * g == pow2(dg));
    vstd::arithmetic::mul::lemma_mul_inequality(l as int, 2 * g as int - 1, pow2(dg) as int);
    vstd::arithmetic::mul::lemma_mul_is_distributive_sub_other_way(
        pow2(dg) as int,
        2 * g as int,
        1,
    );
    assert((2 * g) * pow2(dg) == pow2(2 * dg));
    assert(l * pow2(dg) <= pow2(2 * dg) - pow2(dg));
    assert(rr <= pow2(dg) - 1);
    assert(gate_combined(gate, dg) <= pow2((3 * dg - 1) as nat) - 1);
    if g == 1 {
        assert(dg == 1) by {
            if dg >= 2 {
                vstd::arithmetic::power2::lemma_pow2_strictly_increases(0, (dg - 1) as nat);
                vstd::arithmetic::power2::lemma2_to64();
            }
            vstd::arithmetic::power2::lemma2_to64();
        }
        assert(ami_width(g) == 3);
        assert(pow2(2) <= pow2(3)) by {
            vstd::arithmetic::power2::lemma2_to64();
        }
    } else {
        lemma_lg_pow2((dg - 1) as nat);
        assert(lg(g) == dg - 1);
        assert(ami_width(g) == 3 * dg - 1);
    }
}

/// Doubling shifts the logarithm by one.
proof fn lemma_lg_double(g: nat)
    requires
        g >= 1,
    ensures
        lg(2 * g) == 1 + lg(g),
{
    assert(2 * g >= 2);
    assert((2 * g) / 2 == g);
}

impl Circuit {
    /// The wiring predicates of the layer numbered `layer_index` from the
    /// output: two multilinears over concatenated (output, left, right)
    /// index bits, the first marking the addition gates with 1, the second
    /// the multiplication gates, and 0 everywhere else.
    pub fn add_and_mul_i(&self, layer_index: u32) -> (r: (
        MultilinearEvalForm,
        MultilinearEvalForm,
    ))
        requires
            circuit_wf(self.layers@),
            (layer_index as int) < self.layers@.len(),
            self.layers@[self.layers@.len() - 1 - layer_index as int].gates@.len() <= 512,
        ensures
            ({
                let gates = self.layers@[self.layers@.len() - 1 - layer_index as int].gates@;
                let dg = lg(gates.len() as nat) + 1;
                let w = ami_width(gates.len() as nat);
                &&& r.0.wf() && r.1.wf() && r.0.full() && r.1.full()
                &&& r.0.eval_form@.len() == pow2(w) && r.1.eval_form@.len() == pow2(w)
                &&& r.0.number_of_variables as nat == w && r.1.number_of_variables as nat == w
                &&& forall|idx: int|
                    0 <= idx < pow2(w) ==> #[trigger] r.0.evals()[idx] == wiring_indicator(
                        gates,
                        GateOperation::Add,
                        dg,
                        idx,
                    )
                &&& forall|idx: int|
                    0 <= idx < pow2(w) ==> #[trigger] r.1.evals()[idx] == wiring_indicator(
                        gates,
                        GateOperation::Mul,
                        dg,
                        idx,
                    )
            }),
    {
        let diff = self.layers.len() - 1 - layer_index as usize;
        let ghost gates = self.layers@[diff as int].gates@;
        let no_of_gates = self.layers[diff].gates.len() as u32;
        let ghost gl = no_of_gates as nat;
        let lg_g = to_log2(no_of_gates);
        proof {
            assert(is_hypercube_len(gl));
            assert(pow2(lg(gl)) == gl);
            assert(lg(gl) <= 9) by {
                if lg(gl) >= 10 {
                    vstd::arithmetic::power2::lemma_pow2_strictly_increases(9, lg(gl));
                    vstd::arithmetic::power2::lemma2_to64();
                }
                vstd::arithmetic::power2::lemma2_to64();
            }
        }
        let val: u32 = if no_of_gates == 1 {
            3
        } else {
            2 + 3 * lg_g
        };
        proof {
            assert(lg(1nat) == 0);
            assert(val as nat == ami_width(gl));
            assert(val <= 29);
            assert(pow2(val as nat) <= 0x8000_0000) by {
                if (val as nat) < 31 {
                    vstd::arithmetic::power2::lemma_pow2_strictly_increases(val as nat, 31);
                }
                vstd::arithmetic::power2::lemma2_to64();
            }
        }
        let size = crate::multilinear::pow2_exec(val) as usize;
        let dgu = to_log2(no_of_gates * 2);
        proof {
            lemma_lg_double(gl);
            assert(dgu as nat == lg(gl) + 1);
        }
        let ghost dg = dgu as nat;
        let mut add_eval_form: Vec<FieldElement> = Vec::new();
        let mut mul_eval_form: Vec<FieldElement> = Vec::new();
        for i in 0..size
            invariant
                add_eval_form@.len() == i,
                mul_eval_form@.len() == i,
                all_wf(add_eval_form@),
                all_wf(mul_eval_form@),
                forall|k: int| 0 <= k < i ==> vals(add_eval_form@)[k] == 0,
                forall|k: int| 0 <= k < i ==> vals(mul_eval_form@)[k] == 0,
        {
            let z = FieldElement::zero();
            proof {
                assert(vals(add_eval_form@.push(z)) =~= vals(add_eval_form@).push(z@));
                assert(vals(mul_eval_form@.push(z)) =~= vals(mul_eval_form@).push(z@));
            }
            add_eval_form.push(z);
            mul_eval_form.push(z);
        }
        let gate_count = self.layers[diff].gates.len();
        proof {
            assert(gates.take(0) =~= Seq::<Gate>::empty());
        }
        for gi in 0..gate_count
            invariant
                gate_count == gates.len(),
                gates == self.layers@[diff as int].gates@,
                diff as int == self.layers@.len() - 1 - layer_index as int,
                circuit_wf(self.layers@),
                0 <= (diff as int) && (diff as int) < self.layers@.len(),
                gl == gates.len() as nat,
                1 <= gl <= 512,
                gl == pow2((dg - 1) as nat),
                dg == lg(gl) + 1,
                dgu as nat == dg,
                1 <= dg <= 10,
                size == pow2(ami_width(gl)),
                size <= 0x8000_0000,
                add_eval_form@.len() == size,
                mul_eval_form@.len() == size,
                all_wf(add_eval_form@),
                all_wf(mul_eval_form@),
                forall|k: int|
                    0 <= k < size ==> vals(add_eval_form@)[k] == wiring_indicator(
                        gates.take(gi as int),
                        GateOperation::Add,
                        dg,
                        k,
                    ),
                forall|k: int|
                    0 <= k < size ==> vals(mul_eval_form@)[k] == wiring_indicator(
                        gates.take(gi as int),
                        GateOperation::Mul,
                        dg,
                        k,
                    ),
        {
            let gate = self.layers[diff].gates[gi];
            proof {
                assert(gates_wf(gates, 2 * gates.len() as int, gates.len() as int));
                assert(gates[gi as int].left_index < 2 * gates.len());
                lemma_gate_combined_bound(gate, gl, dg);
                vstd::arithmetic::power2::lemma_pow2_strictly_increases((dg - 1) as nat, dg);
                vstd::arithmetic::power2::lemma2_to64();
                assert(pow2(dg) <= 1024) by {
                    if dg < 10 {
                        vstd::arithmetic::power2::lemma_pow2_strictly_increases(dg, 10);
                    }
                }
            }
            let mut vsel: Vec<u32> = Vec::new();
            vsel.push(gate.output as u32);
            vsel.push(gate.left_index as u32);
            vsel.push(gate.right_index as u32);
            proof {
                assert(vsel@ =~= seq![
                    gate.output as u32,
                    gate.left_index as u32,
                    gate.right_index as u32,
                ]);
                lemma_combine_three(
                    gate.output as u32,
                    gate.left_index as u32,
                    gate.right_index as u32,
                    dg,
                );
                assert(combine_val(vsel@, dg) == gate_combined(gate, dg));
            }
            let index = combine_convert(vsel, dgu as usize) as usize;
            let one = FieldElement::one();
            let ghost pre_add = add_eval_form@;
            let ghost pre_mul = mul_eval_form@;
            if gate.op == GateOperation::Add {
                proof {
                    assert(vals(add_eval_form@.update(index as int, one)) =~= vals(
                        add_eval_form@,
                    ).update(index as int, one@));
                }
                add_eval_form.set(index, one);
            } else {
                proof {
                    assert(vals(mul_eval_form@.update(index as int, one)) =~= vals(
                        mul_eval_form@,
                    ).update(index as int, one@));
                }
                mul_eval_form.set(index, one);
            }
            proof {
                let tk1 = gates.take(gi + 1);
                assert(tk1.drop_last() =~= gates.take(gi as int));
                assert(tk1.last() == gates[gi as int]);
                assert(gates[gi as int] == gate);
                assert forall|k: int| 0 <= k < size implies vals(add_eval_form@)[k]
                    == wiring_indicator(tk1, GateOperation::Add, dg, k) by {
                    lemma_wiring_step(gates, gi as int, GateOperation::Add, dg, k);
                    if gate.op == GateOperation::Add && k == index as int {
                        assert(vals(add_eval_form@)[k] == 1);
                    } else {
                        assert(vals(add_eval_form@)[k] == vals(pre_add)[k]);
                    }
                }
                assert forall|k: int| 0 <= k < size implies vals(mul_eval_form@)[k]
                    == wiring_indicator(tk1, GateOperation::Mul, dg, k) by {
                    lemma_wiring_step(gates, gi as int, GateOperation::Mul, dg, k);
                    if gate.op == GateOperation::Mul && k == index as int {
                        assert(vals(mul_eval_form@)[k] == 1);
                    } else {
                        assert(vals(mul_eval_form@)[k] == vals(pre_mul)[k]);
                    }
                }
            }
        }
        proof {
            assert(gates.take(gate_count as int) =~= gates);
            lemma_lg_pow2(ami_width(gl));
        }
        let add_poly = MultilinearEvalForm::new(add_eval_form);
        let mul_poly = MultilinearEvalForm::new(mul_eval_form);
        (add_poly, mul_poly)
    }

    /// The round polynomial `f_{b,c}` of a layer, as a sum of two product
    /// polynomials: the addition predicate times `W(b) + W(c)`, plus the
    /// multiplication predicate times `W(b) * W(c)`, where `W` is the next
    /// layer's value polynomial and the predicates are already restricted
    /// to the variables `(b, c)`.
    pub fn f_b_c(
        add_i: MultilinearEvalForm,
        mul_i: MultilinearEvalForm,
        w_i: &MultilinearEvalForm,
    ) -> (r: SumPoly)
        requires
            add_i.wf(),
            mul_i.wf(),
            w_i.wf(),
            add_i.full(),
            mul_i.full(),
            w_i.full(),
            add_i.eval_form@.len() == w_i.eval_form@.len() * w_i.eval_form@.len(),
            mul_i.eval_form@.len() == add_i.eval_form@.len(),
            add_i.number_of_variables == 2 * w_i.number_of_variables,
            mul_i.number_of_variables == 2 * w_i.number_of_variables,
            w_i.number_of_variables <= 15,
        ensures
            r.product_polys@.len() == 2,
            r.product_polys@[0].plist() == seq![
                add_i.evals(),
                tensor_vals(w_i.evals(), w_i.evals(), Op::Add),
            ],
            r.product_polys@[1].plist() == seq![
                mul_i.evals(),
                tensor_vals(w_i.evals(), w_i.evals(), Op::Mul),
            ],
            r.wf(),
            r.full(),
            r.product_polys@[0].no_of_vars == add_i.number_of_variables,
    {
        let w_add = MultilinearEvalForm::tensor_add_or_mul(w_i, w_i, Op::Add);
        let w_mul = MultilinearEvalForm::tensor_add_or_mul(w_i, w_i, Op::Mul);
        let mut add_list: Vec<MultilinearEvalForm> = Vec::new();
        let ghost add_evals = add_i.evals();
        let ghost mul_evals = mul_i.evals();
        add_list.push(add_i);
        add_list.push(w_add);
        let add_prod_poly = ProdPoly::new(add_list);
        let mut mul_list: Vec<MultilinearEvalForm> = Vec::new();
        mul_list.push(mul_i);
        mul_list.push(w_mul);
        let mul_prod_poly = ProdPoly::new(mul_list);
        let mut product_polys: Vec<ProdPoly> = Vec::new();
        product_polys.push(add_prod_poly);
        product_polys.push(mul_prod_poly);
        let r = SumPoly { product_polys };
        proof {
            assert(r.product_polys@[0].plist() =~= seq![
                add_evals,
                tensor_vals(w_i.evals(), w_i.evals(), Op::Add),
            ]);
            assert(r.product_polys@[1].plist() =~= seq![
                mul_evals,
                tensor_vals(w_i.evals(), w_i.evals(), Op::Mul),
            ]);
        }
        r
    }
}

/// Appending one gate to a layer flips exactly its own entry of the
/// matching wiring predicate to one and leaves every other entry as it
/// was.
proof fn lemma_wiring_step(gates: Seq<Gate>, gi: int, op: GateOperation, dg: nat, k: int)
    requires
        0 <= gi < gates.len(),
    ensures
        ({
            let tk1 = gates.take(gi + 1);
            let tk = gates.take(gi);
            wiring_indicator(tk1, op, dg, k) == if gates[gi].op == op && gate_combined(
                gates[gi],
                dg,
            ) == k {
                1nat
            } else {
                wiring_indicator(tk, op, dg, k)
            }
        }),
{
    let tk1 = gates.take(gi + 1);
    let tk = gates.take(gi);
    if gates[gi].op == op && gate_combined(gates[gi], dg) == k {
        assert(tk1[gi] == gates[gi]);
        assert(wiring_indicator(tk1, op, dg, k) == 1);
    } else {
        if exists|g: int|
            0 <= g < tk1.len() && (#[trigger] tk1[g]).op == op && gate_combined(tk1[g], dg) == k {
            let g = choose|g: int|
                0 <= g < tk1.len() && (#[trigger] tk1[g]).op == op && gate_combined(tk1[g], dg)
                    == k;
            assert(g < gi);
            assert(tk[g] == tk1[g]);
            assert(wiring_indicator(tk, op, dg, k) == 1);
        } else {
            if exists|g: int|
                0 <= g < tk.len() && (#[trigger] tk[g]).op == op && gate_combined(tk[g], dg)
                    == k {
                let g = choose|g: int|
                    0 <= g < tk.len() && (#[trigger] tk[g]).op == op && gate_combined(tk[g], dg)
                        == k;
                assert(tk1[g] == tk[g]);
                assert(false);
            }
        }
    }
}

/// The base-two logarithm of a positive integer, rounded down.
pub fn to_log2(n: u32) -> (r: u32)
    requires
        n >= 1,
    ensures
        r as nat == lg(n as nat),
        r <= 31,
{
    let mut v: u32 = n;
    let mut e: u32 = 0;
    while v > 1
        invariant
            1 <= v,
            lg(n as nat) == lg(v as nat) + e,
            e <= 31,
            v <= n,
        decreases v,
    {
        proof {
            assert(lg(v as nat) == 1 + lg((v / 2) as nat));
            crate::multilinear::lemma_lg_bounds(n as nat);
            crate::multilinear::lemma_lg_bounds(v as nat);
            if e >= 31 {
                assert(lg(n as nat) >= 32);
                assert(pow2(lg(n as nat)) <= n);
                assert(pow2(32) <= pow2(lg(n as nat))) by {
                    if lg(n as nat) > 32 {
                        vstd::arithmetic::power2::lemma_pow2_strictly_increases(32, lg(n as nat));
                    }
                }
                vstd::arithmetic::power2::lemma2_to64();
                assert(false);
            }
        }
        v = v / 2;
        e = e + 1;
    }
    proof {
        assert(lg(1nat) == 0);
    }
    e
}

} // verus!
