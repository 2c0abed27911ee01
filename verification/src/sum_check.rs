//! The sum-check protocol: a prover claims the sum of a multilinear
//! polynomial over the boolean hypercube, and a verifier checks the claim
//! round by round against Fiat–Shamir challenges.
use vstd::prelude::*;

use crate::field::{
    be_val, f_add, fe_bytes, ie_val, lemma_ie_add, lemma_ie_char, q, FieldElement,
};
use crate::multilinear::{
    all_wf, fe_seq_bytes, is_hypercube_len, lemma_hypercube_halves, lemma_lg_pow2, lg, mle_eval,
    pair_low, pe_each, pe_vals, prod_bytes, prod_mle, prod_reduce, vals, vals_lt_q,
    MultilinearEvalForm, ProdPoly,
};
use crate::univariate::{interp_coeffs, uni_eval, UnivariatePolynomialDense};
use crate::transcript::{keccak256_of, Keccak256Hasher, Transcript};
use vstd::arithmetic::power2::pow2;

verus! {

/// The sum of a sequence of field values, reduced modulo `q`.
pub open spec fn sum_vals(s: Seq<nat>) -> nat
    decreases s.len(),
{
    if s.len() == 0 {
        0
    } else {
        f_add(sum_vals(s.drop_last()), s.last())
    }
}

/// What the honest prover emits from evaluations `e` with the transcript
/// buffer at `buf`: the round polynomials, the final transcript buffer, and
/// the fully reduced evaluations.
pub open spec fn prove_state(e: Seq<nat>, buf: Seq<u8>) -> (Seq<Seq<nat>>, Seq<u8>, Seq<nat>)
    decreases e.len(),
{
    if e.len() < 2 {
        (Seq::empty(), buf, e)
    } else {
        let h = e.len() as int / 2;
        let v0 = sum_vals(e.take(h));
        let v1 = sum_vals(e.skip(h));
        let buf2 = buf + fe_bytes(v0) + fe_bytes(v1);
        let d = keccak256_of(buf2);
        let r = be_val(d) % q();
        let rest = prove_state(pe_vals(e, h, r), d);
        (seq![seq![v0, v1]] + rest.0, rest.1, rest.2)
    }
}

/// What the round checks of the verifier compute from the claimed round
/// polynomials: whether every consistency check passed, the final expected
/// value, the challenges drawn, and the final transcript buffer.
pub open spec fn verify_state(polys: Seq<Seq<nat>>, expected: nat, buf: Seq<u8>) -> (
    bool,
    nat,
    Seq<nat>,
    Seq<u8>,
)
    decreases polys.len(),
{
    if polys.len() == 0 {
        (true, expected, Seq::empty(), buf)
    } else {
        let p = polys.first();
        if sum_vals(p) != expected {
            (false, expected, Seq::empty(), buf)
        } else {
            let buf2 = buf + fe_seq_bytes(p);
            let d = keccak256_of(buf2);
            let r = be_val(d) % q();
            let next = ie_val(p[0], p[1], r);
            let rest = verify_state(polys.drop_first(), next, d);
            (rest.0, rest.1, seq![r] + rest.2, rest.3)
        }
    }
}

/// The whole verifier: round checks seeded by the polynomial's bytes and
/// the claimed sum, then the oracle check of the polynomial at the drawn
/// challenges.
pub open spec fn sumcheck_accepts(sum: nat, polys: Seq<Seq<nat>>, e: Seq<nat>) -> bool {
    let st = verify_state(polys, sum, fe_seq_bytes(e) + fe_bytes(sum));
    st.0 && mle_eval(e, st.2) == st.1
}

/// The round polynomials the honest prover emits for evaluations `e` and
/// claimed sum `s`.
pub open spec fn honest_rounds(e: Seq<nat>, s: nat) -> Seq<Seq<nat>> {
    prove_state(e, fe_seq_bytes(e) + fe_bytes(s)).0
}

/// A sum-check proof: the claimed sum and one round polynomial per
/// variable, each given by its evaluations at 0, 1, ..., d.
#[derive(Debug)]
pub struct Proof {
    pub sum: FieldElement,
    pub polynomials: Vec<Vec<FieldElement>>,
}

impl Proof {
    /// The round polynomials as value sequences.
    pub open spec fn rounds(self) -> Seq<Seq<nat>> {
        self.polynomials@.map_values(|p: Vec<FieldElement>| vals(p@))
    }

    pub open spec fn wf(self) -> bool {
        &&& self.sum.wf()
        &&& forall|j: int| 0 <= j < self.polynomials@.len() ==> all_wf((#[trigger] self.polynomials@[j])@)
    }
}

impl Clone for Proof {
    fn clone(&self) -> (r: Proof)
        ensures
            r.sum == self.sum,
            r.rounds() == self.rounds(),
            r.polynomials@.len() == self.polynomials@.len(),
            self.wf() ==> r.wf(),
    {
        let mut ps: Vec<Vec<FieldElement>> = Vec::new();
        let n = self.polynomials.len();
        for j in 0..n
            invariant
                n == self.polynomials@.len(),
                ps@.len() == j,
                forall|k: int| 0 <= k < j ==> (#[trigger] ps@[k])@ == self.polynomials@[k]@,
        {
            let row = &self.polynomials[j];
            let mut cp: Vec<FieldElement> = Vec::new();
            let m = row.len();
            for i in 0..m
                invariant
                    m == row@.len(),
                    cp@ =~= row@.take(i as int),
            {
                cp.push(row[i]);
                assert(cp@ =~= row@.take(i + 1));
            }
            assert(cp@ =~= row@);
            ps.push(cp);
        }
        let r = Proof { sum: self.sum, polynomials: ps };
        proof {
            assert(r.rounds() =~= self.rounds());
            if self.wf() {
                assert forall|j: int| 0 <= j < n implies all_wf(
                    (#[trigger] r.polynomials@[j])@,
                ) by {
                    assert(all_wf(self.polynomials@[j]@));
                    assert(r.polynomials@[j]@ == self.polynomials@[j]@);
                }
            }
        }
        r
    }
}

/// The sum of the entries of a round polynomial: its value summed over the
/// one-variable boolean hypercube when the polynomial has two entries.
pub fn get_sum_over_hypercube(polynomial: &Vec<FieldElement>) -> (r: FieldElement)
    requires
        all_wf(polynomial@),
    ensures
        r.wf(),
        r@ == sum_vals(vals(polynomial@)),
{
    let mut sum = FieldElement::zero();
    let n = polynomial.len();
    proof {
        assert(vals(polynomial@.take(0)) =~= Seq::<nat>::empty());
    }
    for i in 0..n
        invariant
            n == polynomial@.len(),
            all_wf(polynomial@),
            sum.wf(),
            sum@ == sum_vals(vals(polynomial@.take(i as int))),
    {
        sum = sum.add(&polynomial[i]);
        proof {
            let tk1 = vals(polynomial@.take(i + 1));
            assert(tk1.drop_last() =~= vals(polynomial@.take(i as int)));
            assert(tk1.last() == polynomial@[i as int]@);
        }
    }
    proof {
        assert(polynomial@.take(n as int) =~= polynomial@);
    }
    sum
}

/// The entries of `e` at indices whose bit of weight `s` is clear, in
/// ascending index order.
pub open spec fn split_left(e: Seq<nat>, s: int) -> Seq<nat> {
    Seq::new((e.len() / 2) as nat, |k: int| e[pair_low(k, s)])
}

/// The entries of `e` at indices whose bit of weight `s` is set, in
/// ascending index order.
pub open spec fn split_right(e: Seq<nat>, s: int) -> Seq<nat> {
    Seq::new((e.len() / 2) as nat, |k: int| e[pair_low(k, s) + s])
}

/// Split an evaluation vector by the variable at `var`: the half where
/// that variable is 0, then the half where it is 1, both in index order.
fn split_by_var(arr: &Vec<FieldElement>, var: usize) -> (r: (Vec<FieldElement>, Vec<FieldElement>))
    requires
        all_wf(arr@),
        is_hypercube_len(arr@.len() as nat),
        arr@.len() <= 0x8000_0000,
        1 <= var,
        var as nat <= lg(arr@.len() as nat),
    ensures
        all_wf(r.0@),
        all_wf(r.1@),
        vals(r.0@) == split_left(vals(arr@), pow2((lg(arr@.len() as nat) - var) as nat) as int),
        vals(r.1@) == split_right(vals(arr@), pow2((lg(arr@.len() as nat) - var) as nat) as int),
        r.0@.len() == arr@.len() / 2,
        r.1@.len() == arr@.len() / 2,
{
    let len = arr.len();
    let max_bits = crate::multilinear::get_power_of_two(len as u32);
    let stride = crate::multilinear::pow2_exec(max_bits - var as u32) as usize;
    let ghost s = stride as int;
    proof {
        lemma_lg_pow2((max_bits - var as u32) as nat);
        crate::multilinear::lemma_stride_divides(len as nat, var as nat);
        lemma_hypercube_halves(len as nat);
        assert(pow2((lg(len as nat) - var) as nat) <= pow2((lg(len as nat) - 1) as nat)) by {
            if (lg(len as nat) - var) < (lg(len as nat) - 1) {
                vstd::arithmetic::power2::lemma_pow2_strictly_increases(
                    (lg(len as nat) - var) as nat,
                    (lg(len as nat) - 1) as nat,
                );
            }
        }
        assert(stride as int <= len as int / 2);
    }
    let half = len / 2;
    let mut left: Vec<FieldElement> = Vec::new();
    let mut right: Vec<FieldElement> = Vec::new();
    for k in 0..half
        invariant
            len == arr@.len(),
            half == len / 2,
            all_wf(arr@),
            s == stride as int,
            stride >= 1,
            (len as int) % (2 * s) == 0,
            s <= len as int / 2,
            len <= 0x8000_0000,
            left@.len() == k,
            right@.len() == k,
            all_wf(left@),
            all_wf(right@),
            forall|i: int| 0 <= i < k ==> vals(left@)[i] == vals(arr@)[pair_low(i, s)],
            forall|i: int| 0 <= i < k ==> vals(right@)[i] == vals(arr@)[pair_low(i, s) + s],
    {
        proof {
            crate::multilinear::lemma_pair_low_bounds(k as int, s, len as int);
            vstd::arithmetic::div_mod::lemma_mod_bound(k as int, s);
            assert((k as int / s) * (2 * s) <= pair_low(k as int, s));
            assert(pair_low(k as int, s) + s < len as int);
        }
        let low = (k / stride) * (2 * stride) + (k % stride);
        proof {
            assert(low as int == pair_low(k as int, s));
        }
        let a = arr[low];
        let b = arr[low + stride];
        proof {
            assert(vals(left@.push(a)) =~= vals(left@).push(a@));
            assert(vals(right@.push(b)) =~= vals(right@).push(b@));
        }
        left.push(a);
        right.push(b);
    }
    proof {
        assert(vals(left@) =~= split_left(vals(arr@), s));
        assert(vals(right@) =~= split_right(vals(arr@), s));
    }
    (left, right)
}

/// Sum the half of the hypercube where the variable at `var` is 0, and the
/// half where it is 1: the round polynomial `[v0, v1]` for that variable.
pub fn evaluate_at_two_vars(poly_vec: &Vec<FieldElement>, var: usize) -> (r: Vec<FieldElement>)
    requires
        all_wf(poly_vec@),
        is_hypercube_len(poly_vec@.len() as nat),
        poly_vec@.len() <= 0x8000_0000,
        1 <= var,
        var as nat <= lg(poly_vec@.len() as nat),
    ensures
        r@.len() == 2,
        all_wf(r@),
        vals(r@) == seq![
            sum_vals(split_left(vals(poly_vec@), pow2((lg(poly_vec@.len() as nat) - var) as nat) as int)),
            sum_vals(split_right(vals(poly_vec@), pow2((lg(poly_vec@.len() as nat) - var) as nat) as int)),
        ],
{
    let (left, right) = split_by_var(poly_vec, var);
    let v0 = get_sum_over_hypercube(&left);
    let v1 = get_sum_over_hypercube(&right);
    let mut out: Vec<FieldElement> = Vec::new();
    out.push(v0);
    out.push(v1);
    proof {
        assert(vals(out@) =~= seq![v0@, v1@]);
    }
    out
}

/// Field addition is associative.
pub proof fn lemma_f_add_assoc(x: nat, y: nat, z: nat)
    ensures
        f_add(f_add(x, y), z) == f_add(x, f_add(y, z)),
{
    let qi = q() as int;
    vstd::arithmetic::div_mod::lemma_add_mod_noop((x + y) as int, z as int, qi);
    vstd::arithmetic::div_mod::lemma_mod_twice((x + y) as int, qi);
    vstd::arithmetic::div_mod::lemma_mod_twice(z as int, qi);
    vstd::arithmetic::div_mod::lemma_add_mod_noop_right(x as int, (y + z) as int, qi);
}

/// A folded sum is always a reduced value.
pub proof fn lemma_sum_vals_bound(s: Seq<nat>)
    ensures
        sum_vals(s) < q(),
    decreases s.len(),
{
    if s.len() > 0 {
        lemma_sum_vals_bound(s.drop_last());
    }
}

/// Summing a concatenation sums the parts.
pub proof fn lemma_sum_vals_concat(a: Seq<nat>, b: Seq<nat>)
    ensures
        sum_vals(a + b) == f_add(sum_vals(a), sum_vals(b)),
    decreases b.len(),
{
    if b.len() == 0 {
        assert(a + b =~= a);
        lemma_sum_vals_bound(a);
        vstd::arithmetic::div_mod::lemma_small_mod(sum_vals(a), q());
        assert(f_add(sum_vals(a), 0) == sum_vals(a));
    } else {
        assert((a + b).drop_last() =~= a + b.drop_last());
        assert((a + b).last() == b.last());
        lemma_sum_vals_concat(a, b.drop_last());
        lemma_f_add_assoc(sum_vals(a), sum_vals(b.drop_last()), b.last());
    }
}

/// The sum of a two-entry sequence of reduced values.
pub proof fn lemma_sum_two(v0: nat, v1: nat)
    requires
        v0 < q(),
    ensures
        sum_vals(seq![v0, v1]) == f_add(v0, v1),
{
    let s = seq![v0, v1];
    assert(s.drop_last() =~= seq![v0]);
    assert(seq![v0].drop_last() =~= Seq::<nat>::empty());
    vstd::arithmetic::div_mod::lemma_small_mod(v0, q());
    assert(sum_vals(Seq::<nat>::empty()) == 0);
    assert(sum_vals(seq![v0]) == f_add(0, v0));
    assert(f_add(0, v0) == v0);
}

/// Summing pairwise interpolations interpolates the sums: the image of a
/// linear map of a sum is the sum of the images.
pub proof fn lemma_zip_ie_sum(u: Seq<nat>, v: Seq<nat>, r: nat)
    requires
        u.len() == v.len(),
    ensures
        sum_vals(Seq::new(u.len(), |k: int| ie_val(u[k], v[k], r))) == ie_val(
            sum_vals(u),
            sum_vals(v),
            r,
        ),
    decreases u.len(),
{
    let z = Seq::new(u.len(), |k: int| ie_val(u[k], v[k], r));
    if u.len() == 0 {
        lemma_ie_char(0, 0, r);
        assert(r * 0 == 0) by {
            vstd::arithmetic::mul::lemma_mul_basics(r as int);
        }
        assert(ie_val(0, 0, r) == 0);
    } else {
        let u1 = u.drop_last();
        let v1 = v.drop_last();
        assert(z.drop_last() =~= Seq::new(u1.len(), |k: int| ie_val(u1[k], v1[k], r)));
        lemma_zip_ie_sum(u1, v1, r);
        lemma_ie_add(sum_vals(u1), sum_vals(v1), u.last(), v.last(), r);
        assert(sum_vals(z) == f_add(ie_val(sum_vals(u1), sum_vals(v1), r), ie_val(
            u.last(),
            v.last(),
            r,
        )));
    }
}

/// The first variable's pairing walks the two halves in order.
pub proof fn lemma_split_first_var(e: Seq<nat>)
    requires
        e.len() >= 2,
        e.len() % 2 == 0,
    ensures
        split_left(e, e.len() as int / 2) == e.take(e.len() as int / 2),
        split_right(e, e.len() as int / 2) == e.skip(e.len() as int / 2),
{
    let h = e.len() as int / 2;
    assert forall|k: int| 0 <= k < h implies pair_low(k, h) == k by {
        vstd::arithmetic::div_mod::lemma_fundamental_div_mod_converse_div(k, h, 0, k);
        vstd::arithmetic::div_mod::lemma_fundamental_div_mod_converse_mod(k, h, 0, k);
        assert(k / h == 0 && k % h == k);
        vstd::arithmetic::mul::lemma_mul_basics(2 * h);
    }
    assert(split_left(e, h) =~= e.take(h));
    assert(split_right(e, h) =~= e.skip(h));
}

/// One round of the honest prover is consistent: the two entries of the
/// round polynomial sum to the current hypercube sum, and interpolating
/// them at the challenge gives the sum of the reduced polynomial.
pub proof fn lemma_round_sums(e: Seq<nat>, r: nat)
    requires
        e.len() >= 2,
        e.len() % 2 == 0,
    ensures
        ({
            let h = e.len() as int / 2;
            f_add(sum_vals(e.take(h)), sum_vals(e.skip(h))) == sum_vals(e) && ie_val(
                sum_vals(e.take(h)),
                sum_vals(e.skip(h)),
                r,
            ) == sum_vals(pe_vals(e, h, r))
        }),
{
    let h = e.len() as int / 2;
    assert(e.take(h) + e.skip(h) =~= e);
    lemma_sum_vals_concat(e.take(h), e.skip(h));
    lemma_split_first_var(e);
    assert(pe_vals(e, h, r) =~= Seq::new(
        e.take(h).len(),
        |k: int| ie_val(e.take(h)[k], e.skip(h)[k], r),
    )) by {
        assert forall|k: int| 0 <= k < h implies pair_low(k, h) == k by {
            vstd::arithmetic::div_mod::lemma_fundamental_div_mod_converse_div(k, h, 0, k);
            vstd::arithmetic::div_mod::lemma_fundamental_div_mod_converse_mod(k, h, 0, k);
            vstd::arithmetic::mul::lemma_mul_basics(2 * h);
        }
    }
    lemma_zip_ie_sum(e.take(h), e.skip(h), r);
}

/// The byte encoding of a two-entry round polynomial.
pub proof fn lemma_fe_seq_bytes_two(v0: nat, v1: nat)
    ensures
        fe_seq_bytes(seq![v0, v1]) == fe_bytes(v0) + fe_bytes(v1),
{
    let s = seq![v0, v1];
    assert(s.drop_last() =~= seq![v0]);
    assert(seq![v0].drop_last() =~= Seq::<nat>::empty());
    assert(fe_seq_bytes(Seq::<nat>::empty()) == Seq::<u8>::empty());
    assert(fe_seq_bytes(seq![v0]) == Seq::<u8>::empty() + fe_bytes(v0));
    assert(Seq::<u8>::empty() + fe_bytes(v0) =~= fe_bytes(v0));
}

/// Produce a sum-check proof for a claimed sum over an existing transcript:
/// absorb the claim, then for each variable emit the round polynomial,
/// absorb it, squeeze a challenge and reduce the polynomial by it.
pub fn partial_prove(
    polynomial: &mut MultilinearEvalForm,
    claim_sum: FieldElement,
    transcript: &mut Transcript,
) -> (proof: Proof)
    requires
        old(polynomial).wf(),
        old(polynomial).full(),
        claim_sum.wf(),
    ensures
        proof.wf(),
        proof.sum == claim_sum,
        proof.polynomials@.len() == old(polynomial).number_of_variables,
        ({
            let st = prove_state(old(polynomial).evals(), old(transcript)@ + fe_bytes(claim_sum@));
            proof.rounds() == st.0 && final(transcript)@ == st.1 && final(polynomial).evals()
                == st.2
        }),
        final(polynomial).wf(),
        final(polynomial).number_of_variables == old(polynomial).number_of_variables,
{
    let sum_bytes = claim_sum.to_bytes();
    transcript.append(sum_bytes.as_slice());
    let ghost e0 = polynomial.evals();
    let ghost buf0 = old(transcript)@ + fe_bytes(claim_sum@);
    proof {
        lemma_lg_pow2(old(polynomial).number_of_variables as nat);
        assert(transcript@ == buf0);
    }
    let mut proof = Proof { sum: claim_sum, polynomials: Vec::new() };
    let n = polynomial.number_of_variables;
    for i in 0..n
        invariant
            polynomial.wf(),
            polynomial.number_of_variables == n,
            lg(polynomial.eval_form@.len() as nat) == n - i,
            claim_sum.wf(),
            proof.sum == claim_sum,
            proof.wf(),
            proof.polynomials@.len() == i,
            prove_state(e0, buf0).0 == proof.rounds() + prove_state(
                polynomial.evals(),
                transcript@,
            ).0,
            prove_state(e0, buf0).1 == prove_state(polynomial.evals(), transcript@).1,
            prove_state(e0, buf0).2 == prove_state(polynomial.evals(), transcript@).2,
    {
        let ghost e_cur = polynomial.evals();
        let ghost buf_cur = transcript@;
        proof {
            lemma_lg_bounds_helper(polynomial.eval_form@.len() as nat, (n - i) as nat);
            lemma_hypercube_halves(polynomial.eval_form@.len() as nat);
        }
        let univariate_poly = evaluate_at_two_vars(&polynomial.eval_form, 1);
        let ghost h = e_cur.len() as int / 2;
        proof {
            lemma_split_first_var(e_cur);
            assert(vals(univariate_poly@) == seq![
                sum_vals(e_cur.take(h)),
                sum_vals(e_cur.skip(h)),
            ]);
        }
        let round_bytes = MultilinearEvalForm::to_bytes(&univariate_poly);
        transcript.append(round_bytes.as_slice());
        let challenge = transcript.hash();
        proof {
            lemma_fe_seq_bytes_two(sum_vals(e_cur.take(h)), sum_vals(e_cur.skip(h)));
            assert(buf_cur + fe_seq_bytes(vals(univariate_poly@)) =~= buf_cur + fe_bytes(
                sum_vals(e_cur.take(h)),
            ) + fe_bytes(sum_vals(e_cur.skip(h))));
        }
        proof.polynomials.push(univariate_poly);
        polynomial.partial_evaluate(1, challenge);
        proof {
            let st_cur = prove_state(e_cur, buf_cur);
            let d = keccak256_of(
                buf_cur + fe_bytes(sum_vals(e_cur.take(h))) + fe_bytes(sum_vals(e_cur.skip(h))),
            );
            let r = be_val(d) % q();
            assert(challenge@ == r);
            assert(transcript@ == d);
            assert(polynomial.evals() == pe_vals(e_cur, h, r));
            assert(st_cur.0 == seq![seq![sum_vals(e_cur.take(h)), sum_vals(e_cur.skip(h))]]
                + prove_state(pe_vals(e_cur, h, r), d).0);
            assert(proof.rounds() =~= proof.rounds().drop_last().push(
                vals(univariate_poly@),
            ));
            assert(prove_state(e0, buf0).0 =~= proof.rounds() + prove_state(
                polynomial.evals(),
                transcript@,
            ).0);
        }
    }
    proof {
        assert(polynomial.eval_form@.len() == 1) by {
            assert(lg(polynomial.eval_form@.len() as nat) == 0);
            assert(is_hypercube_len(polynomial.eval_form@.len() as nat));
        }
        assert(prove_state(polynomial.evals(), transcript@).0 =~= Seq::<Seq<nat>>::empty());
        assert(prove_state(e0, buf0).0 =~= proof.rounds());
    }
    proof
}

/// A helper: a hypercube of `2^m` entries with `m >= 1` has at least two of
/// them.
proof fn lemma_lg_bounds_helper(len: nat, m: nat)
    requires
        is_hypercube_len(len),
        lg(len) == m,
        m >= 1,
    ensures
        len >= 2,
        len % 2 == 0,
{
    vstd::arithmetic::power2::lemma_pow2_unfold(m);
    vstd::arithmetic::power2::lemma_pow2_pos((m - 1) as nat);
    lemma_hypercube_halves(len);
}

/// Produce a sum-check proof from a fresh transcript seeded with the
/// polynomial's byte encoding.
pub fn prove(polynomial: &mut MultilinearEvalForm, claim_sum: FieldElement) -> (proof: Proof)
    requires
        old(polynomial).wf(),
        old(polynomial).full(),
        claim_sum.wf(),
    ensures
        proof.wf(),
        proof.sum == claim_sum,
        proof.polynomials@.len() == old(polynomial).number_of_variables,
        proof.rounds() == honest_rounds(old(polynomial).evals(), claim_sum@),
        final(polynomial).wf(),
{
    let mut transcript = Transcript::init(Keccak256Hasher::new());
    let poly_bytes = MultilinearEvalForm::to_bytes(&polynomial.eval_form);
    transcript.append(poly_bytes.as_slice());
    proof {
        assert(Seq::<u8>::empty() + fe_seq_bytes(old(polynomial).evals()) =~= fe_seq_bytes(
            old(polynomial).evals(),
        ));
    }
    partial_prove(polynomial, claim_sum, &mut transcript)
}

/// Run the round checks of the verifier over an existing transcript:
/// absorb the claimed sum, then for each round polynomial check that its
/// entries sum to the expected value, absorb it, squeeze the challenge and
/// interpolate the next expected value.
pub fn partial_verify(transcript: &mut Transcript, proof: Proof) -> (r: (
    bool,
    FieldElement,
    Vec<FieldElement>,
))
    requires
        proof.wf(),
        forall|j: int| 0 <= j < proof.polynomials@.len() ==> (#[trigger] proof.polynomials@[j])@.len() == 2,
    ensures
        ({
            let st = verify_state(proof.rounds(), proof.sum@, old(transcript)@ + fe_bytes(
                proof.sum@,
            ));
            r.0 == st.0 && r.1@ == st.1 && vals(r.2@) == st.2 && final(transcript)@ == st.3
        }),
        r.1.wf(),
        all_wf(r.2@),
        r.0 ==> r.2@.len() == proof.polynomials@.len(),
{
    let sum_bytes = proof.sum.to_bytes();
    transcript.append(sum_bytes.as_slice());
    let ghost rounds = proof.rounds();
    let ghost buf0 = old(transcript)@ + fe_bytes(proof.sum@);
    let mut claimed_sum = proof.sum;
    let mut random_challenges: Vec<FieldElement> = Vec::new();
    let n = proof.polynomials.len();
    proof {
        assert(rounds.skip(0) =~= rounds);
    }
    for k in 0..n
        invariant
            n == proof.polynomials@.len(),
            proof.wf(),
            forall|j: int|
                0 <= j < proof.polynomials@.len() ==> (#[trigger] proof.polynomials@[j])@.len()
                    == 2,
            rounds == proof.rounds(),
            buf0 == old(transcript)@ + fe_bytes(proof.sum@),
            claimed_sum.wf(),
            all_wf(random_challenges@),
            random_challenges@.len() == k,
            verify_state(rounds, proof.sum@, buf0).0 == verify_state(
                rounds.skip(k as int),
                claimed_sum@,
                transcript@,
            ).0,
            verify_state(rounds, proof.sum@, buf0).1 == verify_state(
                rounds.skip(k as int),
                claimed_sum@,
                transcript@,
            ).1,
            verify_state(rounds, proof.sum@, buf0).2 == vals(random_challenges@) + verify_state(
                rounds.skip(k as int),
                claimed_sum@,
                transcript@,
            ).2,
            verify_state(rounds, proof.sum@, buf0).3 == verify_state(
                rounds.skip(k as int),
                claimed_sum@,
                transcript@,
            ).3,
    {
        let univariate_poly = &proof.polynomials[k];
        let verified_sum = get_sum_over_hypercube(univariate_poly);
        let ghost rest = rounds.skip(k as int);
        proof {
            assert(rest.first() == rounds[k as int]);
            assert(rounds[k as int] == vals(proof.polynomials@[k as int]@));
        }
        if claimed_sum != verified_sum {
            proof {
                assert(verify_state(rest, claimed_sum@, transcript@).0 == false);
                assert(vals(random_challenges@) + Seq::<nat>::empty() =~= vals(
                    random_challenges@,
                ));
            }
            return (false, claimed_sum, random_challenges);
        }
        let ghost buf_cur = transcript@;
        let round_bytes = MultilinearEvalForm::to_bytes(univariate_poly);
        transcript.append(round_bytes.as_slice());
        let challenge = transcript.hash();
        claimed_sum = interpolate_and_evaluate_entries(univariate_poly, challenge);
        random_challenges.push(challenge);
        proof {
            assert(rest.drop_first() =~= rounds.skip(k + 1));
            let d = keccak256_of(buf_cur + fe_seq_bytes(rest.first()));
            assert(transcript@ == d);
            assert(challenge@ == be_val(d) % q());
            assert(claimed_sum@ == ie_val(rest.first()[0], rest.first()[1], challenge@));
            assert(vals(random_challenges@) =~= vals(random_challenges@.drop_last()).push(
                challenge@,
            ));
            assert(vals(random_challenges@.drop_last()) + (seq![challenge@] + verify_state(
                rounds.skip(k + 1),
                claimed_sum@,
                transcript@,
            ).2) =~= vals(random_challenges@) + verify_state(
                rounds.skip(k + 1),
                claimed_sum@,
                transcript@,
            ).2);
        }
    }
    proof {
        assert(rounds.skip(n as int) =~= Seq::<Seq<nat>>::empty());
        assert(vals(random_challenges@) + Seq::<nat>::empty() =~= vals(random_challenges@));
    }
    (true, claimed_sum, random_challenges)
}

/// Interpolate the first two entries of a round polynomial at `r`.
fn interpolate_and_evaluate_entries(poly: &Vec<FieldElement>, r: FieldElement) -> (out:
    FieldElement)
    requires
        all_wf(poly@),
        poly@.len() >= 2,
        r.wf(),
    ensures
        out.wf(),
        out@ == ie_val(vals(poly@)[0], vals(poly@)[1], r@),
{
    crate::multilinear::interpolate_and_evaluate((poly[0], poly[1]), r)
}

/// Verify a sum-check proof against the polynomial: run the round checks
/// over a fresh transcript seeded with the polynomial's bytes, then accept
/// only if the polynomial evaluated at the drawn challenges matches the
/// final expected value.
pub fn verify(proof: Proof, polynomial: &mut MultilinearEvalForm) -> (r: bool)
    requires
        old(polynomial).wf(),
        old(polynomial).full(),
        proof.wf(),
        forall|j: int| 0 <= j < proof.polynomials@.len() ==> (#[trigger] proof.polynomials@[j])@.len() == 2,
        proof.polynomials@.len() == old(polynomial).number_of_variables,
    ensures
        r == sumcheck_accepts(proof.sum@, proof.rounds(), old(polynomial).evals()),
        final(polynomial).wf(),
{
    let mut transcript = Transcript::init(Keccak256Hasher::new());
    let poly_bytes = MultilinearEvalForm::to_bytes(&polynomial.eval_form);
    transcript.append(poly_bytes.as_slice());
    proof {
        assert(Seq::<u8>::empty() + fe_seq_bytes(old(polynomial).evals()) =~= fe_seq_bytes(
            old(polynomial).evals(),
        ));
    }
    let (is_partially_verified, claimed_sum, random_challenges) = partial_verify(
        &mut transcript,
        proof,
    );
    if !is_partially_verified {
        return false;
    }
    let derived_sum = polynomial.evaluate(&random_challenges);
    if claimed_sum != derived_sum {
        return false;
    }
    true
}

/// The honest prover and verifier agree round by round: starting from any
/// shared transcript buffer, every consistency check passes, the verifier's
/// final expected value is the polynomial's value at the drawn challenges,
/// and both sides leave the transcript in the same state.
pub proof fn lemma_sumcheck_roundtrip(e: Seq<nat>, buf: Seq<u8>)
    requires
        e.len() >= 1,
        is_hypercube_len(e.len()),
        vals_lt_q(e),
    ensures
        ({
            let pr = prove_state(e, buf);
            let vr = verify_state(pr.0, sum_vals(e), buf);
            vr.0 == true && vr.1 == mle_eval(e, vr.2) && vr.3 == pr.1 && vr.2.len() == pr.0.len()
        }),
    decreases e.len(),
{
    if e.len() == 1 {
        let pr = prove_state(e, buf);
        let vr = verify_state(pr.0, sum_vals(e), buf);
        assert(pr.0 =~= Seq::<Seq<nat>>::empty());
        assert(sum_vals(Seq::<nat>::empty()) == 0);
        assert(e.drop_last() =~= Seq::<nat>::empty());
        vstd::arithmetic::div_mod::lemma_small_mod(e.last(), q());
        assert(sum_vals(e) == e[0]);
        assert(vr.2 =~= Seq::<nat>::empty());
        assert(mle_eval(e, vr.2) == e[0]);
    } else {
        lemma_hypercube_even(e.len());
        let h = e.len() as int / 2;
        let v0 = sum_vals(e.take(h));
        let v1 = sum_vals(e.skip(h));
        let buf2 = buf + fe_bytes(v0) + fe_bytes(v1);
        let d = keccak256_of(buf2);
        let r = be_val(d) % q();
        let e2 = pe_vals(e, h, r);
        let pr = prove_state(e, buf);
        let rest_pr = prove_state(e2, d);
        assert(pr.0 == seq![seq![v0, v1]] + rest_pr.0);
        // the verifier sees the same first round polynomial
        let p = seq![v0, v1];
        assert(pr.0.first() == p);
        lemma_sum_vals_bound(e.take(h));
        lemma_sum_two(v0, v1);
        lemma_round_sums(e, r);
        assert(sum_vals(p) == sum_vals(e));
        lemma_fe_seq_bytes_two(v0, v1);
        assert(buf + fe_seq_bytes(p) =~= buf2);
        assert(p[0] == v0 && p[1] == v1);
        assert(ie_val(p[0], p[1], r) == sum_vals(e2));
        // the reduced polynomial is again a hypercube of reduced values
        assert(e2.len() == h);
        lemma_hypercube_halves(e.len());
        assert(is_hypercube_len(e2.len()));
        assert(vals_lt_q(e2)) by {
            assert forall|i: int| 0 <= i < e2.len() implies #[trigger] e2[i] < q() by {
                assert(e2[i] == ie_val(e[pair_low(i, h)], e[pair_low(i, h) + h], r));
            }
        }
        lemma_sumcheck_roundtrip(e2, d);
        let vr_rest = verify_state(rest_pr.0, sum_vals(e2), d);
        let vr = verify_state(pr.0, sum_vals(e), buf);
        assert(pr.0.drop_first() =~= rest_pr.0);
        assert(vr.0 == vr_rest.0);
        assert(vr.1 == vr_rest.1);
        assert(vr.2 == seq![r] + vr_rest.2);
        assert(vr.3 == vr_rest.3);
        // the oracle value threads through the first challenge
        assert(mle_eval(e, seq![r] + vr_rest.2) == mle_eval(e2, vr_rest.2)) by {
            let xs = seq![r] + vr_rest.2;
            assert(xs.first() == r);
            assert(xs.drop_first() =~= vr_rest.2);
        }
    }
}

/// A hypercube of more than one entry has even length at least two.
pub proof fn lemma_hypercube_even(len: nat)
    requires
        is_hypercube_len(len),
        len >= 2,
    ensures
        len % 2 == 0,
{
    lemma_hypercube_halves(len);
}

/// Round-polynomial completeness: on any multilinear polynomial, the proof
/// the honest prover emits for the true hypercube sum is accepted by the
/// verifier.
pub proof fn lemma_sumcheck_completeness(e: Seq<nat>)
    requires
        e.len() >= 1,
        is_hypercube_len(e.len()),
        vals_lt_q(e),
    ensures
        sumcheck_accepts(sum_vals(e), honest_rounds(e, sum_vals(e)), e),
{
    lemma_sumcheck_roundtrip(e, fe_seq_bytes(e) + fe_bytes(sum_vals(e)));
}

/// Soundness witness: if the claimed sum differs from the true hypercube
/// sum, the verifier rejects the honest prover's proof for that claim.
pub proof fn lemma_sumcheck_soundness_witness(e: Seq<nat>, claimed: nat)
    requires
        e.len() >= 1,
        is_hypercube_len(e.len()),
        vals_lt_q(e),
        claimed != sum_vals(e),
    ensures
        !sumcheck_accepts(claimed, honest_rounds(e, claimed), e),
{
    let buf = fe_seq_bytes(e) + fe_bytes(claimed);
    let pr = prove_state(e, buf);
    let vr = verify_state(pr.0, claimed, buf);
    if e.len() == 1 {
        assert(pr.0 =~= Seq::<Seq<nat>>::empty());
        assert(vr.2 =~= Seq::<nat>::empty());
        assert(sum_vals(Seq::<nat>::empty()) == 0);
        assert(e.drop_last() =~= Seq::<nat>::empty());
        vstd::arithmetic::div_mod::lemma_small_mod(e.last(), q());
        assert(sum_vals(e) == e[0]);
        assert(mle_eval(e, vr.2) == e[0]);
        assert(vr.1 == claimed);
    } else {
        lemma_hypercube_even(e.len());
        let h = e.len() as int / 2;
        let v0 = sum_vals(e.take(h));
        let v1 = sum_vals(e.skip(h));
        assert(pr.0.first() == seq![v0, v1]);
        lemma_sum_vals_bound(e.take(h));
        lemma_sum_two(v0, v1);
        lemma_round_sums(e, 0);
        assert(sum_vals(seq![v0, v1]) == sum_vals(e));
        assert(vr.0 == false);
    }
}

/// Transcript determinism: two provers given the same polynomial and the
/// same claimed sum emit the same claimed sum and the same round
/// polynomials, value for value and hence byte for byte.
pub proof fn lemma_prover_determinism(p1: Proof, p2: Proof, e: Seq<nat>, s: nat)
    requires
        p1.sum@ == s,
        p2.sum@ == s,
        p1.rounds() == honest_rounds(e, s),
        p2.rounds() == honest_rounds(e, s),
    ensures
        p1.sum@ == p2.sum@,
        p1.rounds() == p2.rounds(),
        forall|k: int|
            0 <= k < p1.rounds().len() ==> fe_seq_bytes(#[trigger] p1.rounds()[k]) == fe_seq_bytes(
                p2.rounds()[k],
            ),
{
}

/// Round consistency at the first round: the two entries of the first
/// emitted round polynomial sum to the polynomial's hypercube sum.
pub proof fn lemma_first_round_consistency(e: Seq<nat>, buf: Seq<u8>)
    requires
        e.len() >= 2,
        is_hypercube_len(e.len()),
    ensures
        ({
            let pr = prove_state(e, buf);
            pr.0.len() >= 1 && pr.0[0].len() == 2 && f_add(pr.0[0][0], pr.0[0][1]) == sum_vals(e)
        }),
{
    lemma_hypercube_even(e.len());
    let h = e.len() as int / 2;
    lemma_round_sums(e, 0);
    let pr = prove_state(e, buf);
    assert(pr.0.first() == seq![sum_vals(e.take(h)), sum_vals(e.skip(h))]);
    assert(pr.0[0] == pr.0.first());
}

/// The points `0, 1, ..., m - 1` as field values.
pub open spec fn index_xs(m: int) -> Seq<nat> {
    Seq::new(m as nat, |i: int| i as nat)
}

/// One round polynomial of the product-poly prover: the sum over the
/// remaining hypercube of the product partially evaluated at each of
/// `0, 1, ..., d` in its leading variable.
pub open spec fn prod_round_poly(ps: Seq<Seq<nat>>, h: int, d: int) -> Seq<nat> {
    Seq::new((d + 1) as nat, |j: int| sum_vals(prod_reduce(pe_each(ps, h, j as nat))))
}

/// What the honest product-poly prover emits over `rounds` rounds: the
/// round polynomials and the final transcript buffer.
pub open spec fn prove_prod_state(ps: Seq<Seq<nat>>, buf: Seq<u8>, rounds: nat) -> (
    Seq<Seq<nat>>,
    Seq<u8>,
)
    decreases rounds,
{
    if rounds == 0 {
        (Seq::empty(), buf)
    } else {
        let h = (if ps.len() > 0 {
            ps[0].len()
        } else {
            0
        }) as int / 2;
        let d = ps.len() as int;
        let uni = prod_round_poly(ps, h, d);
        let buf2 = buf + fe_seq_bytes(uni);
        let dg = keccak256_of(buf2);
        let r = be_val(dg) % q();
        let rest = prove_prod_state(pe_each(ps, h, r), dg, (rounds - 1) as nat);
        (seq![uni] + rest.0, rest.1)
    }
}

/// The round checks of the product-poly verifier: the first two entries of
/// each round polynomial must sum to the expected value; the next expected
/// value is the interpolated round polynomial evaluated at the challenge.
pub open spec fn verify_prod_state(polys: Seq<Seq<nat>>, expected: nat, buf: Seq<u8>) -> (
    bool,
    nat,
    Seq<nat>,
    Seq<u8>,
)
    decreases polys.len(),
{
    if polys.len() == 0 {
        (true, expected, Seq::empty(), buf)
    } else {
        let p = polys.first();
        if f_add(p[0], p[1]) != expected {
            (false, expected, Seq::empty(), buf)
        } else {
            let buf2 = buf + fe_seq_bytes(p);
            let dg = keccak256_of(buf2);
            let r = be_val(dg) % q();
            let next = uni_eval(interp_coeffs(index_xs(p.len() as int), p, p.len() as int), r);
            let rest = verify_prod_state(polys.drop_first(), next, dg);
            (rest.0, rest.1, seq![r] + rest.2, rest.3)
        }
    }
}

/// The whole product-poly verifier: round checks seeded with the product
/// polynomial's bytes and the claimed sum, then the oracle check of the
/// product at the drawn challenges.
pub open spec fn prod_sumcheck_accepts(sum: nat, polys: Seq<Seq<nat>>, ps: Seq<Seq<nat>>) -> bool {
    let st = verify_prod_state(polys, sum, prod_bytes(ps) + fe_bytes(sum));
    st.0 && prod_mle(ps, st.2) == st.1
}

/// Produce a product-poly sum-check proof over an existing transcript.
/// Each round polynomial carries one more evaluation than the product has
/// constituents: the degree of the product in one variable.
pub fn partial_prove_prod_poly(
    prod_poly: &mut ProdPoly,
    claim_sum: FieldElement,
    transcript: &mut Transcript,
) -> (proof: Proof)
    requires
        old(prod_poly).wf(),
        old(prod_poly).full(),
        old(prod_poly).polynomials@.len() <= 0x100_0000,
        claim_sum.wf(),
    ensures
        proof.wf(),
        proof.sum == claim_sum,
        proof.polynomials@.len() == old(prod_poly).no_of_vars,
        forall|k: int|
            0 <= k < proof.polynomials@.len() ==> (#[trigger] proof.polynomials@[k])@.len() == old(
                prod_poly,
            ).polynomials@.len() + 1,
        ({
            let st = prove_prod_state(
                old(prod_poly).plist(),
                old(transcript)@ + fe_bytes(claim_sum@),
                old(prod_poly).no_of_vars as nat,
            );
            proof.rounds() == st.0 && final(transcript)@ == st.1
        }),
        final(prod_poly).wf(),
{
    let sum_bytes = claim_sum.to_bytes();
    transcript.append(sum_bytes.as_slice());
    let ghost ps0 = prod_poly.plist();
    let ghost buf0 = old(transcript)@ + fe_bytes(claim_sum@);
    let n = prod_poly.no_of_vars;
    let d = prod_poly.degree();
    proof {
        assert(prod_poly.polynomials@[0].wf());
        assert(prod_poly.polynomials@[0].full());
        lemma_lg_pow2(n as nat);
        assert(lg(prod_poly.cur_len() as nat) == n);
    }
    let mut proof = Proof { sum: claim_sum, polynomials: Vec::new() };
    for i in 0..n
        invariant
            prod_poly.wf(),
            prod_poly.no_of_vars == n,
            prod_poly.polynomials@.len() == d,
            d <= 0x100_0000,
            lg(prod_poly.cur_len() as nat) == n - i,
            claim_sum.wf(),
            proof.sum == claim_sum,
            proof.wf(),
            proof.polynomials@.len() == i,
            forall|k: int|
                0 <= k < proof.polynomials@.len() ==> (#[trigger] proof.polynomials@[k])@.len()
                    == d + 1,
            prove_prod_state(ps0, buf0, n as nat).0 == proof.rounds() + prove_prod_state(
                prod_poly.plist(),
                transcript@,
                (n - i) as nat,
            ).0,
            prove_prod_state(ps0, buf0, n as nat).1 == prove_prod_state(
                prod_poly.plist(),
                transcript@,
                (n - i) as nat,
            ).1,
    {
        let ghost ps_cur = prod_poly.plist();
        let ghost buf_cur = transcript@;
        let ghost cur_len = prod_poly.cur_len();
        let ghost h = cur_len / 2;
        proof {
            assert(prod_poly.polynomials@[0].wf());
            assert(is_hypercube_len(cur_len as nat));
            lemma_lg_bounds_helper(cur_len as nat, (n - i) as nat);
            lemma_hypercube_halves(cur_len as nat);
            assert(pow2((lg(cur_len as nat) - 1) as nat) as int == h);
            assert(ps_cur[0] == prod_poly.polynomials@[0].evals());
            assert(ps_cur[0].len() == cur_len);
        }
        let mut univariate_poly: Vec<FieldElement> = Vec::new();
        let dd = d + 1;
        for j in 0..dd
            invariant
                dd == d + 1,
                prod_poly.wf(),
                prod_poly.no_of_vars == n,
                prod_poly.polynomials@.len() == d,
                ps_cur == prod_poly.plist(),
                cur_len == prod_poly.cur_len(),
                h == cur_len / 2,
                lg(cur_len as nat) == n - i,
                i < n,
                pow2((lg(cur_len as nat) - 1) as nat) as int == h,
                univariate_poly@.len() == j,
                all_wf(univariate_poly@),
                forall|jj: int|
                    0 <= jj < j ==> vals(univariate_poly@)[jj] == sum_vals(
                        prod_reduce(pe_each(ps_cur, h, jj as nat)),
                    ),
        {
            let mut cloned = prod_poly.clone();
            let jf = FieldElement::from_u64(j as u64);
            let partial_evaluation = cloned.partial_evaluate(1, jf);
            let sum = get_sum_over_hypercube(&partial_evaluation);
            proof {
                assert(vals(univariate_poly@.push(sum)) =~= vals(univariate_poly@).push(sum@));
            }
            univariate_poly.push(sum);
        }
        proof {
            assert(vals(univariate_poly@) =~= prod_round_poly(ps_cur, h, d as int));
        }
        let round_bytes = MultilinearEvalForm::to_bytes(&univariate_poly);
        transcript.append(round_bytes.as_slice());
        let challenge = transcript.hash();
        let _ = prod_poly.partial_evaluate(1, challenge);
        proof.polynomials.push(univariate_poly);
        proof {
            let st_cur = prove_prod_state(ps_cur, buf_cur, (n - i) as nat);
            let dg = keccak256_of(buf_cur + fe_seq_bytes(prod_round_poly(ps_cur, h, d as int)));
            let r = be_val(dg) % q();
            assert(challenge@ == r);
            assert(transcript@ == dg);
            assert(prod_poly.plist() == pe_each(ps_cur, h, r));
            assert(st_cur.0 == seq![prod_round_poly(ps_cur, h, d as int)] + prove_prod_state(
                pe_each(ps_cur, h, r),
                dg,
                (n - i - 1) as nat,
            ).0);
            assert(proof.rounds() =~= proof.rounds().drop_last().push(vals(univariate_poly@)));
            assert(prove_prod_state(ps0, buf0, n as nat).0 =~= proof.rounds() + prove_prod_state(
                prod_poly.plist(),
                transcript@,
                (n - i - 1) as nat,
            ).0);
        }
    }
    proof {
        assert(prove_prod_state(prod_poly.plist(), transcript@, 0).0 =~= Seq::<Seq<nat>>::empty());
        assert(prove_prod_state(ps0, buf0, n as nat).0 =~= proof.rounds());
    }
    proof
}

/// Produce a product-poly sum-check proof from a fresh transcript seeded
/// with the product polynomial's byte encoding.
pub fn prove_prod_poly(claim_sum: FieldElement, prod_poly: &mut ProdPoly) -> (proof: Proof)
    requires
        old(prod_poly).wf(),
        old(prod_poly).full(),
        old(prod_poly).polynomials@.len() <= 0x100_0000,
        claim_sum.wf(),
    ensures
        proof.wf(),
        proof.sum == claim_sum,
        proof.polynomials@.len() == old(prod_poly).no_of_vars,
        forall|k: int|
            0 <= k < proof.polynomials@.len() ==> (#[trigger] proof.polynomials@[k])@.len() == old(
                prod_poly,
            ).polynomials@.len() + 1,
        proof.rounds() == prove_prod_state(
            old(prod_poly).plist(),
            prod_bytes(old(prod_poly).plist()) + fe_bytes(claim_sum@),
            old(prod_poly).no_of_vars as nat,
        ).0,
        final(prod_poly).wf(),
{
    let mut transcript = Transcript::init(Keccak256Hasher::new());
    let poly_bytes = prod_poly.to_bytes();
    transcript.append(poly_bytes.as_slice());
    proof {
        assert(Seq::<u8>::empty() + prod_bytes(old(prod_poly).plist()) =~= prod_bytes(
            old(prod_poly).plist(),
        ));
    }
    partial_prove_prod_poly(prod_poly, claim_sum, &mut transcript)
}

/// Interpolate a round polynomial given by its evaluations at
/// `0, 1, ..., d` into dense coefficient form.
pub fn interpolate_to_univariate(poly: &Vec<FieldElement>) -> (r: UnivariatePolynomialDense)
    requires
        all_wf(poly@),
        1 <= poly@.len() <= 0x100_0000,
    ensures
        r.wf(),
        r.cvals() == interp_coeffs(index_xs(poly@.len() as int), vals(poly@), poly@.len() as int),
{
    let n = poly.len();
    let mut x_values: Vec<FieldElement> = Vec::new();
    for i in 0..n
        invariant
            n == poly@.len(),
            x_values@.len() == i,
            all_wf(x_values@),
            forall|k: int| 0 <= k < i ==> vals(x_values@)[k] == k as nat,
    {
        let xf = FieldElement::from_u64(i as u64);
        proof {
            assert(vals(x_values@.push(xf)) =~= vals(x_values@).push(xf@));
        }
        x_values.push(xf);
    }
    proof {
        assert(vals(x_values@) =~= index_xs(n as int));
    }
    let y_values = crate::univariate::copy_elements(poly);
    UnivariatePolynomialDense::interpolate(x_values, y_values)
}

/// Run the round checks of the product-poly verifier over an existing
/// transcript: each round polynomial's first two entries must sum to the
/// expected value; the next expected value is the interpolated round
/// polynomial evaluated at the squeezed challenge.
pub fn partial_verify_prod_poly(transcript: &mut Transcript, proof: Proof) -> (r: (
    bool,
    FieldElement,
    Vec<FieldElement>,
))
    requires
        proof.wf(),
        forall|j: int|
            0 <= j < proof.polynomials@.len() ==> 2 <= (#[trigger] proof.polynomials@[j])@.len()
                <= 0x100_0000,
    ensures
        ({
            let st = verify_prod_state(proof.rounds(), proof.sum@, old(transcript)@ + fe_bytes(
                proof.sum@,
            ));
            r.0 == st.0 && r.1@ == st.1 && vals(r.2@) == st.2 && final(transcript)@ == st.3
        }),
        r.1.wf(),
        all_wf(r.2@),
        r.0 ==> r.2@.len() == proof.polynomials@.len(),
{
    let sum_bytes = proof.sum.to_bytes();
    transcript.append(sum_bytes.as_slice());
    let ghost rounds = proof.rounds();
    let ghost buf0 = old(transcript)@ + fe_bytes(proof.sum@);
    let mut claimed_sum = proof.sum;
    let mut random_challenges: Vec<FieldElement> = Vec::new();
    let n = proof.polynomials.len();
    proof {
        assert(rounds.skip(0) =~= rounds);
    }
    for k in 0..n
        invariant
            n == proof.polynomials@.len(),
            proof.wf(),
            forall|j: int|
                0 <= j < proof.polynomials@.len() ==> 2 <= (#[trigger] proof.polynomials@[j])@.len()
                    <= 0x100_0000,
            rounds == proof.rounds(),
            buf0 == old(transcript)@ + fe_bytes(proof.sum@),
            claimed_sum.wf(),
            all_wf(random_challenges@),
            random_challenges@.len() == k,
            verify_prod_state(rounds, proof.sum@, buf0).0 == verify_prod_state(
                rounds.skip(k as int),
                claimed_sum@,
                transcript@,
            ).0,
            verify_prod_state(rounds, proof.sum@, buf0).1 == verify_prod_state(
                rounds.skip(k as int),
                claimed_sum@,
                transcript@,
            ).1,
            verify_prod_state(rounds, proof.sum@, buf0).2 == vals(random_challenges@)
                + verify_prod_state(rounds.skip(k as int), claimed_sum@, transcript@).2,
            verify_prod_state(rounds, proof.sum@, buf0).3 == verify_prod_state(
                rounds.skip(k as int),
                claimed_sum@,
                transcript@,
            ).3,
    {
        let univariate_poly = &proof.polynomials[k];
        let verified_sum = univariate_poly[0].add(&univariate_poly[1]);
        let ghost rest = rounds.skip(k as int);
        proof {
            assert(rest.first() == rounds[k as int]);
            assert(rounds[k as int] == vals(proof.polynomials@[k as int]@));
            assert(rest.first()[0] == vals(univariate_poly@)[0]);
            assert(rest.first()[1] == vals(univariate_poly@)[1]);
        }
        if claimed_sum != verified_sum {
            proof {
                assert(verify_prod_state(rest, claimed_sum@, transcript@).0 == false);
                assert(vals(random_challenges@) + Seq::<nat>::empty() =~= vals(
                    random_challenges@,
                ));
            }
            return (false, claimed_sum, random_challenges);
        }
        let ghost buf_cur = transcript@;
        let round_bytes = MultilinearEvalForm::to_bytes(univariate_poly);
        transcript.append(round_bytes.as_slice());
        let interpolated_poly = interpolate_to_univariate(univariate_poly);
        let challenge = transcript.hash();
        claimed_sum = interpolated_poly.evaluate(challenge);
        random_challenges.push(challenge);
        proof {
            assert(rest.drop_first() =~= rounds.skip(k + 1));
            let dg = keccak256_of(buf_cur + fe_seq_bytes(rest.first()));
            assert(transcript@ == dg);
            assert(challenge@ == be_val(dg) % q());
            assert(claimed_sum@ == uni_eval(
                interp_coeffs(
                    index_xs(rest.first().len() as int),
                    rest.first(),
                    rest.first().len() as int,
                ),
                challenge@,
            ));
            assert(vals(random_challenges@) =~= vals(random_challenges@.drop_last()).push(
                challenge@,
            ));
            assert(vals(random_challenges@.drop_last()) + (seq![challenge@] + verify_prod_state(
                rounds.skip(k + 1),
                claimed_sum@,
                transcript@,
            ).2) =~= vals(random_challenges@) + verify_prod_state(
                rounds.skip(k + 1),
                claimed_sum@,
                transcript@,
            ).2);
        }
    }
    proof {
        assert(rounds.skip(n as int) =~= Seq::<Seq<nat>>::empty());
        assert(vals(random_challenges@) + Seq::<nat>::empty() =~= vals(random_challenges@));
    }
    (true, claimed_sum, random_challenges)
}

/// Verify a product-poly sum-check proof against the product polynomial:
/// run the round checks over a fresh transcript seeded with the product's
/// bytes, then accept only if the product evaluated at the drawn
/// challenges matches the final expected value.
pub fn verify_prod_poly(proof: Proof, prod_poly: &mut ProdPoly) -> (r: bool)
    requires
        old(prod_poly).wf(),
        old(prod_poly).full(),
        proof.wf(),
        forall|j: int|
            0 <= j < proof.polynomials@.len() ==> 2 <= (#[trigger] proof.polynomials@[j])@.len()
                <= 0x100_0000,
        proof.polynomials@.len() == old(prod_poly).no_of_vars,
    ensures
        r == prod_sumcheck_accepts(proof.sum@, proof.rounds(), old(prod_poly).plist()),
{
    let mut transcript = Transcript::init(Keccak256Hasher::new());
    let poly_bytes = prod_poly.to_bytes();
    transcript.append(poly_bytes.as_slice());
    proof {
        assert(Seq::<u8>::empty() + prod_bytes(old(prod_poly).plist()) =~= prod_bytes(
            old(prod_poly).plist(),
        ));
    }
    let (is_partially_verified, claimed_sum, random_challenges) = partial_verify_prod_poly(
        &mut transcript,
        proof,
    );
    if !is_partially_verified {
        return false;
    }
    let derived_sum = prod_poly.evaluate(&random_challenges);
    if claimed_sum != derived_sum {
        return false;
    }
    true
}


/// Two lists of evaluation vectors that agree pointwise at two chosen
/// indices have equal pointwise products there.
proof fn lemma_prod_fold_pointwise(xs: Seq<Seq<nat>>, ys: Seq<Seq<nat>>, k1: int, k2: int)
    requires
        xs.len() == ys.len(),
        forall|j: int| 0 <= j < xs.len() ==> (#[trigger] xs[j])[k1] == ys[j][k2],
    ensures
        crate::multilinear::prod_fold(xs, k1) == crate::multilinear::prod_fold(ys, k2),
    decreases xs.len(),
{
    if xs.len() > 0 {
        assert(xs.drop_last() =~= xs.take(xs.len() - 1));
        assert(ys.drop_last() =~= ys.take(ys.len() - 1));
        assert forall|j: int| 0 <= j < xs.drop_last().len() implies (#[trigger] xs.drop_last()[j])[
            k1] == ys.drop_last()[j][k2] by {
            assert(xs[j][k1] == ys[j][k2]);
        }
        lemma_prod_fold_pointwise(xs.drop_last(), ys.drop_last(), k1, k2);
        assert(xs.last() == xs[xs.len() - 1]);
        assert(xs.last()[k1] == ys.last()[k2]);
    }
}

/// Round consistency for the product-poly prover: the first two entries of
/// the first emitted round polynomial sum to the product polynomial's
/// hypercube sum.
pub proof fn lemma_prod_first_round_consistency(ps: Seq<Seq<nat>>, buf: Seq<u8>, rounds: nat)
    requires
        rounds >= 1,
        ps.len() >= 1,
        forall|j: int| 0 <= j < ps.len() ==> (#[trigger] ps[j]).len() == ps[0].len(),
        forall|j: int| 0 <= j < ps.len() ==> vals_lt_q(#[trigger] ps[j]),
        ps[0].len() >= 2,
        ps[0].len() % 2 == 0,
    ensures
        ({
            let pr = prove_prod_state(ps, buf, rounds);
            let d = ps.len() as int;
            pr.0.len() >= 1 && pr.0[0].len() == d + 1 && f_add(pr.0[0][0], pr.0[0][1]) == sum_vals(
                prod_reduce(ps),
            )
        }),
{
    let len = ps[0].len() as int;
    let h = len / 2;
    let d = ps.len() as int;
    let pr = prove_prod_state(ps, buf, rounds);
    let uni = prod_round_poly(ps, h, d);
    assert(pr.0[0] == uni);
    let left = prod_reduce(pe_each(ps, h, 0));
    let right = prod_reduce(pe_each(ps, h, 1));
    let full = prod_reduce(ps);
    assert(len == 2 * h);
    vstd::arithmetic::div_mod::lemma_mod_self_0(2 * h);
    // partially evaluating every constituent at 0 keeps the left half of
    // the pointwise product, at 1 the right half
    assert(left =~= full.take(h)) by {
        assert forall|k: int| 0 <= k < h implies left[k] == full[k] by {
            assert forall|j: int| 0 <= j < ps.len() implies (#[trigger] pe_each(ps, h, 0)[j])[k]
                == ps[j][k] by {
                assert(ps[j].len() as int % (2 * h) == 0);
                crate::multilinear::lemma_partial_evaluate_at_zero_one(ps[j], h);
                lemma_pair_low_first(k, h);
                assert(pe_vals(ps[j], h, 0)[k] == ps[j][pair_low(k, h)]);
            }
            lemma_prod_fold_pointwise(pe_each(ps, h, 0), ps, k, k);
        }
    }
    assert(right =~= full.skip(h)) by {
        assert forall|k: int| 0 <= k < h implies right[k] == full[k + h] by {
            assert forall|j: int| 0 <= j < ps.len() implies (#[trigger] pe_each(ps, h, 1)[j])[k]
                == ps[j][k + h] by {
                assert(ps[j].len() as int % (2 * h) == 0);
                crate::multilinear::lemma_partial_evaluate_at_zero_one(ps[j], h);
                lemma_pair_low_first(k, h);
                assert(pe_vals(ps[j], h, 1)[k] == ps[j][pair_low(k, h) + h]);
            }
            lemma_prod_fold_pointwise(pe_each(ps, h, 1), ps, k, k + h);
        }
    }
    assert(full.take(h) + full.skip(h) =~= full);
    lemma_sum_vals_concat(full.take(h), full.skip(h));
    assert(uni[0] == sum_vals(left));
    assert(uni[1] == sum_vals(right));
}

/// For the leading variable's stride, the pairing walks the two halves in
/// order.
proof fn lemma_pair_low_first(k: int, h: int)
    requires
        0 <= k < h,
    ensures
        pair_low(k, h) == k,
{
    vstd::arithmetic::div_mod::lemma_fundamental_div_mod_converse_div(k, h, 0, k);
    vstd::arithmetic::div_mod::lemma_fundamental_div_mod_converse_mod(k, h, 0, k);
    vstd::arithmetic::mul::lemma_mul_basics(2 * h);
}

} // verus!
