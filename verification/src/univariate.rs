//! Univariate polynomials in dense coefficient form, with Lagrange
//! interpolation.
use vstd::prelude::*;

use crate::field::{f_add, f_inv, f_mul, f_neg, f_sub, lemma_f_inv_unique, q, FieldElement};
use crate::multilinear::{all_wf, vals};

verus! {

/// `x` to the power `k` in the field.
pub open spec fn pow_val(x: nat, k: nat) -> nat
    decreases k,
{
    if k == 0 {
        1
    } else {
        f_mul(pow_val(x, (k - 1) as nat), x)
    }
}

/// The value at `x` of the polynomial with coefficients `c` (index is the
/// power): the field sum of `c[i] * x^i`.
pub open spec fn uni_eval(c: Seq<nat>, x: nat) -> nat
    decreases c.len(),
{
    if c.len() == 0 {
        0
    } else {
        f_add(uni_eval(c.drop_last(), x), f_mul(c.last(), pow_val(x, (c.len() - 1) as nat)))
    }
}

/// Coefficientwise sum of two dense polynomials, padded to the longer one.
pub open spec fn uni_add_coeffs(a: Seq<nat>, b: Seq<nat>) -> Seq<nat> {
    Seq::new(
        if a.len() >= b.len() {
            a.len()
        } else {
            b.len()
        },
        |i: int|
            if i < a.len() && i < b.len() {
                f_add(a[i], b[i])
            } else if i < a.len() {
                a[i]
            } else {
                b[i]
            },
    )
}

/// One term of the convolution at output index `k`: the product of `a[i]`
/// and `b[k - i]` when both indices exist, else zero.
pub open spec fn conv_term(a: Seq<nat>, b: Seq<nat>, k: int, i: int) -> nat {
    if 0 <= i < a.len() && 0 <= k - i < b.len() {
        f_mul(a[i], b[k - i])
    } else {
        0
    }
}

/// The convolution at output index `k`, accumulated over the first `i`
/// coefficients of `a`.
pub open spec fn conv_upto(a: Seq<nat>, b: Seq<nat>, k: int, i: int) -> nat
    decreases i,
{
    if i <= 0 {
        0
    } else {
        f_add(conv_upto(a, b, k, i - 1), conv_term(a, b, k, i - 1))
    }
}

/// Coefficientwise product of two dense polynomials: each output
/// coefficient is the convolution of the inputs at that index.
pub open spec fn uni_mul_coeffs(a: Seq<nat>, b: Seq<nat>) -> Seq<nat> {
    Seq::new((a.len() + b.len() - 1) as nat, |k: int| conv_upto(a, b, k, a.len() as int))
}

/// Every coefficient scaled by one field value.
pub open spec fn uni_scale(c: Seq<nat>, s: nat) -> Seq<nat> {
    Seq::new(c.len(), |i: int| f_mul(c[i], s))
}

/// A partial convolution is a reduced field value.
pub proof fn lemma_conv_upto_lt_q(a: Seq<nat>, b: Seq<nat>, k: int, i: int)
    ensures
        conv_upto(a, b, k, i) < q(),
    decreases i,
{
    if i > 0 {
        lemma_conv_upto_lt_q(a, b, k, i - 1);
    }
}

/// A vanishing term leaves the partial convolution unchanged.
pub proof fn lemma_conv_upto_skip(a: Seq<nat>, b: Seq<nat>, k: int, i: int)
    requires
        conv_term(a, b, k, i - 1) == 0,
        i >= 1,
    ensures
        conv_upto(a, b, k, i) == conv_upto(a, b, k, i - 1),
{
    lemma_conv_upto_lt_q(a, b, k, i - 1);
    vstd::arithmetic::div_mod::lemma_small_mod(conv_upto(a, b, k, i - 1), q());
}

/// A univariate polynomial over the field in dense form: coefficient `i`
/// multiplies `x^i`, and the recorded degree is one less than the
/// coefficient count (zero for an empty list).
pub struct UnivariatePolynomialDense {
    pub degree: u64,
    pub coefficients: Vec<FieldElement>,
}

impl UnivariatePolynomialDense {
    pub open spec fn wf(self) -> bool {
        &&& all_wf(self.coefficients@)
        &&& self.degree as int == if self.coefficients@.len() == 0 {
            0
        } else {
            self.coefficients@.len() - 1
        }
    }

    /// The coefficient values.
    pub open spec fn cvals(self) -> Seq<nat> {
        vals(self.coefficients@)
    }

    /// Wrap a coefficient vector; the degree is the index of the last
    /// coefficient.
    pub fn new(coefficients: Vec<FieldElement>) -> (r: UnivariatePolynomialDense)
        requires
            all_wf(coefficients@),
        ensures
            r.wf(),
            r.coefficients@ == coefficients@,
            r.cvals() == vals(coefficients@),
            r.degree as int == if coefficients@.len() == 0 {
                0
            } else {
                coefficients@.len() - 1
            },
    {
        let degree: u64 = if coefficients.len() == 0 {
            0
        } else {
            (coefficients.len() - 1) as u64
        };
        UnivariatePolynomialDense { degree, coefficients }
    }

    /// The polynomial's value at `x`.
    pub fn evaluate(&self, x: FieldElement) -> (r: FieldElement)
        requires
            all_wf(self.coefficients@),
            x.wf(),
        ensures
            r.wf(),
            r@ == uni_eval(self.cvals(), x@),
    {
        let mut val = FieldElement::zero();
        let mut xp = FieldElement::one();
        let n = self.coefficients.len();
        proof {
            assert(vals(self.coefficients@.take(0)) =~= Seq::<nat>::empty());
        }
        for i in 0..n
            invariant
                n == self.coefficients@.len(),
                all_wf(self.coefficients@),
                x.wf(),
                val.wf(),
                xp.wf(),
                val@ == uni_eval(vals(self.coefficients@.take(i as int)), x@),
                xp@ == pow_val(x@, i as nat),
        {
            val = val.add(&self.coefficients[i].mul(&xp));
            xp = xp.mul(&x);
            proof {
                let tk1 = vals(self.coefficients@.take(i + 1));
                assert(tk1.drop_last() =~= vals(self.coefficients@.take(i as int)));
                assert(tk1.last() == self.coefficients@[i as int]@);
            }
        }
        proof {
            assert(self.coefficients@.take(n as int) =~= self.coefficients@);
        }
        val
    }

    /// Coefficientwise sum, padded to the longer polynomial.
    pub fn polynomial_addition(&self, other: &UnivariatePolynomialDense) -> (r:
        UnivariatePolynomialDense)
        requires
            self.wf(),
            other.wf(),
            self.coefficients@.len() >= 1,
            other.coefficients@.len() >= 1,
        ensures
            r.wf(),
            r.cvals() == uni_add_coeffs(self.cvals(), other.cvals()),
            r.coefficients@.len() == if self.coefficients@.len() >= other.coefficients@.len() {
                self.coefficients@.len()
            } else {
                other.coefficients@.len()
            },
    {
        let swap = self.degree <= other.degree;
        let origin: &Vec<FieldElement> = if swap {
            &other.coefficients
        } else {
            &self.coefficients
        };
        let shorter: &Vec<FieldElement> = if swap {
            &self.coefficients
        } else {
            &other.coefficients
        };
        let mut result_coefficients: Vec<FieldElement> = Vec::new();
        let n = origin.len();
        let m = shorter.len();
        for i in 0..n
            invariant
                n == origin@.len(),
                m == shorter@.len(),
                m <= n,
                all_wf(origin@),
                all_wf(shorter@),
                result_coefficients@.len() == i,
                all_wf(result_coefficients@),
                forall|k: int|
                    0 <= k < i ==> vals(result_coefficients@)[k] == (if k < m {
                        f_add(vals(origin@)[k], vals(shorter@)[k])
                    } else {
                        vals(origin@)[k]
                    }),
        {
            let v = if i < m {
                origin[i].add(&shorter[i])
            } else {
                origin[i]
            };
            proof {
                assert(vals(result_coefficients@.push(v)) =~= vals(result_coefficients@).push(v@));
            }
            result_coefficients.push(v);
        }
        let ghost a = self.cvals();
        let ghost b = other.cvals();
        proof {
            assert(vals(result_coefficients@) =~= uni_add_coeffs(a, b));
        }
        let degree: u64 = if self.degree > other.degree {
            self.degree
        } else {
            other.degree
        };
        UnivariatePolynomialDense { degree, coefficients: result_coefficients }
    }

    /// Coefficientwise product: the convolution of the two coefficient
    /// lists.
    pub fn polynomial_multiplication(&self, other: &UnivariatePolynomialDense) -> (r:
        UnivariatePolynomialDense)
        requires
            self.wf(),
            other.wf(),
            self.coefficients@.len() >= 1,
            other.coefficients@.len() >= 1,
            self.coefficients@.len() + other.coefficients@.len() <= 0x1000_0000,
        ensures
            r.wf(),
            r.cvals() == uni_mul_coeffs(self.cvals(), other.cvals()),
            r.coefficients@.len() == self.coefficients@.len() + other.coefficients@.len() - 1,
    {
        let m = self.coefficients.len();
        let n = other.coefficients.len();
        let no_of_coefficients = m + n - 1;
        let ghost a = self.cvals();
        let ghost b = other.cvals();
        let mut prod_array: Vec<FieldElement> = Vec::new();
        for i in 0..no_of_coefficients
            invariant
                prod_array@.len() == i,
                all_wf(prod_array@),
                forall|k: int| 0 <= k < i ==> vals(prod_array@)[k] == 0,
        {
            let z = FieldElement::zero();
            proof {
                assert(vals(prod_array@.push(z)) =~= vals(prod_array@).push(z@));
            }
            prod_array.push(z);
        }
        proof {
            assert forall|k: int| 0 <= k < no_of_coefficients implies vals(prod_array@)[k]
                == conv_upto(a, b, k, 0) by {}
        }
        for i in 0..m
            invariant
                m == self.coefficients@.len(),
                n == other.coefficients@.len(),
                no_of_coefficients == m + n - 1,
                a == self.cvals(),
                b == other.cvals(),
                self.wf(),
                other.wf(),
                prod_array@.len() == no_of_coefficients,
                all_wf(prod_array@),
                forall|k: int|
                    0 <= k < no_of_coefficients ==> vals(prod_array@)[k] == conv_upto(
                        a,
                        b,
                        k,
                        i as int,
                    ),
        {
            for j in 0..n
                invariant
                    m == self.coefficients@.len(),
                    n == other.coefficients@.len(),
                    no_of_coefficients == m + n - 1,
                    i < m,
                    a == self.cvals(),
                    b == other.cvals(),
                    self.wf(),
                    other.wf(),
                    prod_array@.len() == no_of_coefficients,
                    all_wf(prod_array@),
                    forall|k: int|
                        0 <= k < no_of_coefficients ==> vals(prod_array@)[k] == conv_upto(
                            a,
                            b,
                            k,
                            if i <= k < i + j {
                                i as int + 1
                            } else {
                                i as int
                            },
                        ),
            {
                let t = prod_array[i + j].add(&self.coefficients[i].mul(&other.coefficients[j]));
                proof {
                    let k = i + j;
                    assert(conv_term(a, b, k as int, i as int) == f_mul(a[i as int], b[j as int]));
                    assert(conv_upto(a, b, k as int, i as int + 1) == f_add(
                        conv_upto(a, b, k as int, i as int),
                        conv_term(a, b, k as int, i as int),
                    ));
                    assert(vals(prod_array@)[k as int] == conv_upto(a, b, k as int, i as int));
                    assert(a[i as int] == self.coefficients@[i as int]@);
                    assert(b[j as int] == other.coefficients@[j as int]@);
                    assert(t@ == conv_upto(a, b, k as int, i as int + 1));
                    assert(vals(prod_array@.update(k as int, t)) =~= vals(prod_array@).update(
                        k as int,
                        t@,
                    ));
                }
                prod_array.set(i + j, t);
                proof {
                    assert forall|kk: int| 0 <= kk < no_of_coefficients implies vals(
                        prod_array@,
                    )[kk] == conv_upto(
                        a,
                        b,
                        kk,
                        if i <= kk < i + j + 1 {
                            i as int + 1
                        } else {
                            i as int
                        },
                    ) by {
                        if kk == i + j {
                            assert(vals(prod_array@)[kk] == t@);
                        } else {
                            assert(vals(prod_array@)[kk] == conv_upto(
                                a,
                                b,
                                kk,
                                if i <= kk < i + j {
                                    i as int + 1
                                } else {
                                    i as int
                                },
                            ));
                        }
                    }
                }
            }
            proof {
                assert forall|k: int| 0 <= k < no_of_coefficients implies vals(prod_array@)[k]
                    == conv_upto(a, b, k, i as int + 1) by {
                    if !(i <= k < i + n) {
                        assert(conv_term(a, b, k, i as int) == 0);
                        lemma_conv_upto_skip(a, b, k, i as int + 1);
                    }
                }
            }
        }
        proof {
            assert(vals(prod_array@) =~= uni_mul_coeffs(a, b));
        }
        UnivariatePolynomialDense::new(prod_array)
    }

    /// Every coefficient multiplied by `scalar`; the degree is unchanged.
    pub fn scalar_multiplication(&self, scalar: FieldElement) -> (r: UnivariatePolynomialDense)
        requires
            self.wf(),
            scalar.wf(),
        ensures
            r.wf(),
            r.cvals() == uni_scale(self.cvals(), scalar@),
            r.coefficients@.len() == self.coefficients@.len(),
            r.degree == self.degree,
    {
        let mut product: Vec<FieldElement> = Vec::new();
        let n = self.coefficients.len();
        for i in 0..n
            invariant
                n == self.coefficients@.len(),
                all_wf(self.coefficients@),
                scalar.wf(),
                product@.len() == i,
                all_wf(product@),
                forall|k: int|
                    0 <= k < i ==> vals(product@)[k] == f_mul(vals(self.coefficients@)[k], scalar@),
        {
            let v = self.coefficients[i].mul(&scalar);
            proof {
                assert(vals(product@.push(v)) =~= vals(product@).push(v@));
            }
            product.push(v);
        }
        proof {
            assert(vals(product@) =~= uni_scale(self.cvals(), scalar@));
        }
        UnivariatePolynomialDense { degree: self.degree, coefficients: product }
    }
}

/// The numerator of the Lagrange basis polynomial for `focus`: the product
/// of `(x - x_j)` over the interpolating points other than the focus.
pub open spec fn basis_numer(xs: Seq<nat>, focus: nat) -> Seq<nat>
    decreases xs.len(),
{
    if xs.len() == 0 {
        seq![1nat]
    } else {
        let rest = basis_numer(xs.drop_last(), focus);
        if xs.last() != focus {
            uni_mul_coeffs(rest, seq![f_neg(xs.last()), 1nat])
        } else {
            rest
        }
    }
}

/// The product of the inverses of `(focus - x_j)` over the interpolating
/// points other than the focus: the inverse of the basis denominator.
pub open spec fn inv_factor_prod(xs: Seq<nat>, focus: nat) -> nat
    decreases xs.len(),
{
    if xs.len() == 0 {
        1
    } else {
        let rest = inv_factor_prod(xs.drop_last(), focus);
        if xs.last() != focus {
            f_mul(rest, f_inv(f_sub(focus, xs.last())))
        } else {
            rest
        }
    }
}

/// The coefficients of the scaled Lagrange basis polynomial through
/// `(focus, y)` that vanishes at every other interpolating point.
pub open spec fn basis_coeffs(xs: Seq<nat>, focus: nat, y: nat) -> Seq<nat> {
    uni_scale(basis_numer(xs, focus), f_mul(y, inv_factor_prod(xs, focus)))
}

/// The basis numerator always has at least one coefficient, and at most one
/// more than the number of points.
pub proof fn lemma_basis_numer_len(xs: Seq<nat>, focus: nat)
    ensures
        1 <= basis_numer(xs, focus).len() <= xs.len() + 1,
    decreases xs.len(),
{
    if xs.len() > 0 {
        lemma_basis_numer_len(xs.drop_last(), focus);
    }
}

/// The coefficients of the interpolating polynomial built from the first
/// `upto` points: the running sum of the scaled basis polynomials.
pub open spec fn interp_coeffs(xs: Seq<nat>, ys: Seq<nat>, upto: int) -> Seq<nat>
    decreases upto,
{
    if upto <= 0 {
        seq![0nat]
    } else {
        uni_add_coeffs(
            interp_coeffs(xs, ys, upto - 1),
            basis_coeffs(xs, xs[upto - 1], ys[upto - 1]),
        )
    }
}

/// The running interpolation sum keeps between one coefficient and one more
/// than the number of points.
pub proof fn lemma_interp_coeffs_len(xs: Seq<nat>, ys: Seq<nat>, upto: int)
    ensures
        1 <= interp_coeffs(xs, ys, upto).len(),
        interp_coeffs(xs, ys, upto).len() <= xs.len() + 1,
    decreases upto,
{
    if upto <= 0 {
    } else {
        lemma_interp_coeffs_len(xs, ys, upto - 1);
        lemma_basis_numer_len(xs, xs[upto - 1]);
    }
}

/// A fresh copy of a coefficient vector.
pub(crate) fn copy_elements(v: &Vec<FieldElement>) -> (r: Vec<FieldElement>)
    ensures
        r@ == v@,
{
    let mut out: Vec<FieldElement> = Vec::new();
    let n = v.len();
    for i in 0..n
        invariant
            n == v@.len(),
            out@ =~= v@.take(i as int),
    {
        out.push(v[i]);
        assert(out@ =~= v@.take(i + 1));
    }
    proof {
        assert(out@ =~= v@);
    }
    out
}

impl UnivariatePolynomialDense {
    /// The Lagrange basis polynomial through `(focus_point, y_value)` that
    /// vanishes at every other point of the interpolating set: the product
    /// of `(x - x_j)` over the other points, scaled by `y_value` times the
    /// inverse of that product's value at the focus point.
    pub fn lagrange_basis(
        interpolating_set: Vec<FieldElement>,
        focus_point: FieldElement,
        y_value: FieldElement,
    ) -> (r: UnivariatePolynomialDense)
        requires
            all_wf(interpolating_set@),
            focus_point.wf(),
            y_value.wf(),
            interpolating_set@.len() <= 0x100_0000,
        ensures
            r.wf(),
            r.cvals() == basis_coeffs(vals(interpolating_set@), focus_point@, y_value@),
            1 <= r.coefficients@.len() <= interpolating_set@.len() + 1,
    {
        let mut ones: Vec<FieldElement> = Vec::new();
        ones.push(FieldElement::one());
        let mut basis_poly_numerator = UnivariatePolynomialDense::new(ones);
        let mut denominator_inverse = FieldElement::one();
        let n = interpolating_set.len();
        proof {
            assert(vals(interpolating_set@.take(0)) =~= Seq::<nat>::empty());
            assert(basis_poly_numerator.cvals() =~= seq![1nat]);
        }
        for i in 0..n
            invariant
                n == interpolating_set@.len(),
                n <= 0x100_0000,
                all_wf(interpolating_set@),
                focus_point.wf(),
                y_value.wf(),
                basis_poly_numerator.wf(),
                denominator_inverse.wf(),
                basis_poly_numerator.cvals() == basis_numer(
                    vals(interpolating_set@.take(i as int)),
                    focus_point@,
                ),
                denominator_inverse@ == inv_factor_prod(
                    vals(interpolating_set@.take(i as int)),
                    focus_point@,
                ),
                1 <= basis_poly_numerator.coefficients@.len() <= i + 1,
        {
            let ghost prev = vals(interpolating_set@.take(i as int));
            let ghost cur = vals(interpolating_set@.take(i + 1));
            proof {
                assert(cur.drop_last() =~= prev);
                assert(cur.last() == interpolating_set@[i as int]@);
            }
            let x_value = interpolating_set[i];
            if x_value != focus_point {
                let mut factor: Vec<FieldElement> = Vec::new();
                factor.push(x_value.neg());
                factor.push(FieldElement::one());
                let univariate_poly = UnivariatePolynomialDense::new(factor);
                proof {
                    assert(univariate_poly.cvals() =~= seq![
                        crate::field::f_neg(x_value@),
                        1nat,
                    ]);
                }
                basis_poly_numerator = basis_poly_numerator.polynomial_multiplication(
                    &univariate_poly,
                );
                let diff = focus_point.sub(&x_value);
                proof {
                    crate::field::lemma_f_sub_zero_iff(focus_point@, x_value@);
                }
                let diff_inverse = diff.inverse();
                proof {
                    lemma_f_inv_unique(diff@, diff_inverse@);
                }
                denominator_inverse = denominator_inverse.mul(&diff_inverse);
            }
        }
        proof {
            assert(interpolating_set@.take(n as int) =~= interpolating_set@);
        }
        basis_poly_numerator.scalar_multiplication(y_value.mul(&denominator_inverse))
    }

    /// The least-degree polynomial through the given points: the sum of one
    /// scaled Lagrange basis polynomial per point.
    pub fn interpolate(x_values: Vec<FieldElement>, y_values: Vec<FieldElement>) -> (r:
        UnivariatePolynomialDense)
        requires
            x_values@.len() == y_values@.len(),
            all_wf(x_values@),
            all_wf(y_values@),
            x_values@.len() <= 0x100_0000,
        ensures
            r.wf(),
            r.cvals() == interp_coeffs(
                vals(x_values@),
                vals(y_values@),
                x_values@.len() as int,
            ),
            1 <= r.coefficients@.len() <= x_values@.len() + 1,
    {
        let mut zeros: Vec<FieldElement> = Vec::new();
        zeros.push(FieldElement::zero());
        let mut polynomial_sum = UnivariatePolynomialDense::new(zeros);
        let n = x_values.len();
        proof {
            assert(polynomial_sum.cvals() =~= seq![0nat]);
        }
        for i in 0..n
            invariant
                n == x_values@.len(),
                n == y_values@.len(),
                n <= 0x100_0000,
                all_wf(x_values@),
                all_wf(y_values@),
                polynomial_sum.wf(),
                polynomial_sum.cvals() == interp_coeffs(
                    vals(x_values@),
                    vals(y_values@),
                    i as int,
                ),
                1 <= polynomial_sum.coefficients@.len() <= n + 1,
        {
            let set_copy = copy_elements(&x_values);
            let single_basis_poly = UnivariatePolynomialDense::lagrange_basis(
                set_copy,
                x_values[i],
                y_values[i],
            );
            proof {
                assert(vals(x_values@)[i as int] == x_values@[i as int]@);
                assert(vals(y_values@)[i as int] == y_values@[i as int]@);
            }
            polynomial_sum = polynomial_sum.polynomial_addition(&single_basis_poly);
        }
        polynomial_sum
    }
}

} // verus!
