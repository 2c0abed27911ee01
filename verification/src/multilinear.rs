//! Multilinear polynomials in evaluation form over the boolean hypercube,
//! with products and sums of such polynomials.
use vstd::prelude::*;

use crate::field::{f_add, f_mul, fe_bytes, ie_val, q, FieldElement};

verus! {

/// The integer values of a sequence of field elements.
pub open spec fn vals(s: Seq<FieldElement>) -> Seq<nat> {
    s.map_values(|x: FieldElement| x@)
}

/// Every element of the sequence is well-formed.
pub open spec fn all_wf(s: Seq<FieldElement>) -> bool {
    forall|i: int| 0 <= i < s.len() ==> (#[trigger] s[i]).wf()
}

/// Every value of the sequence is a reduced field value.
pub open spec fn vals_lt_q(s: Seq<nat>) -> bool {
    forall|i: int| 0 <= i < s.len() ==> #[trigger] s[i] < q()
}

/// The floor of the base-two logarithm.
pub open spec fn lg(n: nat) -> nat
    decreases n,
{
    if n <= 1 {
        0
    } else {
        1 + lg(n / 2)
    }
}

use vstd::arithmetic::power2::pow2;

/// A hypercube length: an exact power of two.
pub open spec fn is_hypercube_len(n: nat) -> bool {
    n == pow2(lg(n))
}

/// The lower index of the `k`-th pair when pairing indices that differ only
/// in the bit of weight `s`: the `k`-th integer whose bit of weight `s` is
/// clear, in ascending order.
pub open spec fn pair_low(k: int, s: int) -> int {
    (k / s) * (2 * s) + (k % s)
}

/// Partial evaluation over values: pair the entries at distance `s`, and
/// interpolate each pair at `r`.
pub open spec fn pe_vals(e: Seq<nat>, s: int, r: nat) -> Seq<nat> {
    Seq::new((e.len() / 2) as nat, |k: int| ie_val(e[pair_low(k, s)], e[pair_low(k, s) + s], r))
}

/// The value of the multilinear polynomial with hypercube evaluations `e`
/// at the point `xs`: successively partial-evaluate the leading variable.
pub open spec fn mle_eval(e: Seq<nat>, xs: Seq<nat>) -> nat
    decreases xs.len(),
{
    if xs.len() == 0 {
        if e.len() >= 1 {
            e[0]
        } else {
            0
        }
    } else {
        mle_eval(pe_vals(e, e.len() as int / 2, xs.first()), xs.drop_first())
    }
}

/// The byte encoding of a sequence of field values: each value's canonical
/// 32-byte big-endian encoding, concatenated in order.
pub open spec fn fe_seq_bytes(s: Seq<nat>) -> Seq<u8>
    decreases s.len(),
{
    if s.len() == 0 {
        Seq::empty()
    } else {
        fe_seq_bytes(s.drop_last()) + fe_bytes(s.last())
    }
}

/// `lg` inverts `pow2`.
pub proof fn lemma_lg_pow2(e: nat)
    ensures
        lg(pow2(e)) == e,
        pow2(e) >= 1,
    decreases e,
{
    vstd::arithmetic::power2::lemma_pow2_pos(e);
    if e > 0 {
        lemma_lg_pow2((e - 1) as nat);
        vstd::arithmetic::power2::lemma_pow2_unfold(e);
        assert(pow2(e) == 2 * pow2((e - 1) as nat));
        assert(pow2(e) / 2 == pow2((e - 1) as nat));
        assert(pow2(e) >= 2);
        assert(lg(pow2(e)) == 1 + lg(pow2(e) / 2));
    } else {
        assert(pow2(0) == 1) by {
            vstd::arithmetic::power2::lemma2_to64();
        }
        assert(lg(1nat) == 0);
    }
}

/// A power of two of positive exponent halves to the next power down.
pub proof fn lemma_hypercube_halves(n: nat)
    requires
        is_hypercube_len(n),
        n >= 2,
    ensures
        n % 2 == 0,
        is_hypercube_len(n / 2),
        lg(n / 2) == lg(n) - 1,
        n / 2 == pow2((lg(n) - 1) as nat),
{
    vstd::arithmetic::power2::lemma_pow2_unfold(lg(n));
    assert(n == 2 * pow2((lg(n) - 1) as nat));
    lemma_lg_pow2((lg(n) - 1) as nat);
}

/// Both bounds of the floor logarithm.
pub proof fn lemma_lg_bounds(n: nat)
    requires
        n >= 1,
    ensures
        pow2(lg(n)) <= n < pow2(lg(n) + 1),
    decreases n,
{
    if n == 1 {
        assert(pow2(0) == 1 && pow2(1) == 2) by {
            vstd::arithmetic::power2::lemma2_to64();
        }
    } else {
        lemma_lg_bounds(n / 2);
        vstd::arithmetic::power2::lemma_pow2_unfold(lg(n));
        vstd::arithmetic::power2::lemma_pow2_unfold(lg(n) + 1);
    }
}

/// 2 to the power `e`, as a machine integer.
pub(crate) fn pow2_exec(e: u32) -> (r: u32)
    requires
        e <= 31,
    ensures
        r as nat == pow2(e as nat),
        r >= 1,
{
    let mut acc: u32 = 1;
    let mut i: u32 = 0;
    proof {
        vstd::arithmetic::power2::lemma2_to64();
    }
    while i < e
        invariant
            i <= e <= 31,
            acc as nat == pow2(i as nat),
            acc >= 1,
        decreases e - i,
    {
        proof {
            vstd::arithmetic::power2::lemma_pow2_unfold(i as nat + 1);
            vstd::arithmetic::power2::lemma_pow2_strictly_increases(i as nat + 1, 32);
            vstd::arithmetic::power2::lemma2_to64();
        }
        acc = acc * 2;
        i = i + 1;
    }
    acc
}

/// The exponent of a power of two: given a value `2^x`, returns `x`.
pub fn get_power_of_two(value: u32) -> (r: u32)
    requires
        value >= 1,
        is_hypercube_len(value as nat),
    ensures
        r as nat == lg(value as nat),
        pow2(r as nat) == value as nat,
        r <= 31,
{
    let mut v: u32 = value;
    let mut e: u32 = 0;
    proof {
        vstd::arithmetic::power2::lemma2_to64();
    }
    while v > 1
        invariant
            1 <= v,
            is_hypercube_len(v as nat),
            lg(value as nat) == lg(v as nat) + e,
            value as nat == pow2(e as nat) * (v as nat),
            e <= 31,
        decreases v,
    {
        proof {
            lemma_hypercube_halves(v as nat);
            vstd::arithmetic::power2::lemma_pow2_unfold(e as nat + 1);
            vstd::arithmetic::mul::lemma_mul_is_associative(
                pow2(e as nat) as int,
                2,
                (v as nat / 2) as int,
            );
            assert(pow2(e as nat) * (v as nat) == pow2(e as nat + 1) * (v as nat / 2)) by {
                assert(v as nat == 2 * (v as nat / 2));
                vstd::arithmetic::mul::lemma_mul_is_associative(pow2(e as nat) as int, 2, (v as nat
                    / 2) as int);
            }
            if e as nat + 1 > 31 {
                assert(e as nat + 1 == 32);
                vstd::arithmetic::power2::lemma2_to64();
                vstd::arithmetic::mul::lemma_mul_ordering(
                    pow2(32) as int,
                    (v as nat / 2) as int,
                );
                assert(false);
            }
        }
        v = v / 2;
        e = e + 1;
    }
    proof {
        assert(lg(1nat) == 0);
    }
    e
}

/// The integer denoted by concatenating the `digit`-bit big-endian binary
/// representations of the given values.
pub open spec fn combine_val(vs: Seq<u32>, digit: nat) -> nat
    decreases vs.len(),
{
    if vs.len() == 0 {
        0
    } else {
        combine_val(vs.drop_last(), digit) * pow2(digit) + (vs.last() as nat)
    }
}

/// Concatenating `digit`-bit values stays below `2^(count * digit)`.
pub proof fn lemma_combine_val_bound(vs: Seq<u32>, digit: nat)
    requires
        forall|i: int| 0 <= i < vs.len() ==> (#[trigger] vs[i]) < pow2(digit),
    ensures
        combine_val(vs, digit) < pow2(vs.len() * digit) || vs.len() == 0,
        combine_val(vs, digit) < pow2(vs.len() * digit) + 1,
    decreases vs.len(),
{
    vstd::arithmetic::power2::lemma_pow2_pos(digit);
    vstd::arithmetic::power2::lemma_pow2_pos(vs.len() * digit);
    if vs.len() > 0 {
        let dl = vs.drop_last();
        lemma_combine_val_bound(dl, digit);
        assert(vs.last() == vs[vs.len() - 1]);
        assert(vs.last() < pow2(digit));
        vstd::arithmetic::power2::lemma_pow2_adds(dl.len() * digit, digit);
        assert(dl.len() * digit + digit == vs.len() * digit) by {
            vstd::arithmetic::mul::lemma_mul_is_distributive_add_other_way(
                digit as int,
                dl.len() as int,
                1,
            );
        }
        if dl.len() == 0 {
            assert(combine_val(vs, digit) == vs.last() as nat);
            vstd::arithmetic::power2::lemma_pow2_pos(0);
            vstd::arithmetic::mul::lemma_mul_basics(digit as int);
            assert(vs.len() * digit == digit);
            assert(combine_val(vs, digit) < pow2(vs.len() * digit));
        } else {
            assert(combine_val(dl, digit) <= pow2(dl.len() * digit) - 1);
            vstd::arithmetic::mul::lemma_mul_inequality(
                combine_val(dl, digit) as int,
                pow2(dl.len() * digit) as int - 1,
                pow2(digit) as int,
            );
            vstd::arithmetic::mul::lemma_mul_is_distributive_sub_other_way(
                pow2(digit) as int,
                pow2(dl.len() * digit) as int,
                1,
            );
            assert((pow2(dl.len() * digit) - 1) * pow2(digit) == pow2(vs.len() * digit) - pow2(
                digit,
            ));
        }
    }
}

/// Concatenate the `digit`-bit big-endian binary representations of the
/// given values and read the result as an integer.
pub fn combine_convert(values: Vec<u32>, digit: usize) -> (r: u32)
    requires
        digit >= 1,
        digit <= 31,
        values@.len() * digit <= 32,
        forall|i: int| 0 <= i < values@.len() ==> (#[trigger] values@[i]) < pow2(digit as nat),
    ensures
        r as nat == combine_val(values@, digit as nat),
{
    let p: u64 = pow2_exec(digit as u32) as u64;
    let mut acc: u64 = 0;
    let n = values.len();
    proof {
        assert(values@.take(0) =~= Seq::<u32>::empty());
    }
    for i in 0..n
        invariant
            n == values@.len(),
            n * digit <= 32,
            digit >= 1,
            p == pow2(digit as nat),
            forall|k: int| 0 <= k < n ==> (#[trigger] values@[k]) < pow2(digit as nat),
            acc == combine_val(values@.take(i as int), digit as nat),
            acc < pow2((i * digit) as nat) + 1,
            i * digit <= 32,
            acc <= 0x1_0000_0000,
    {
        proof {
            let tk = values@.take(i as int);
            let tk1 = values@.take(i + 1);
            assert(tk1.drop_last() =~= tk);
            assert(tk1.last() == values@[i as int]);
            lemma_combine_val_bound(tk1, digit as nat);
            assert(tk1.len() * digit <= 32) by {
                vstd::arithmetic::mul::lemma_mul_inequality(
                    (i + 1) as int,
                    n as int,
                    digit as int,
                );
            }
            assert(pow2((tk1.len() * digit) as nat) <= pow2(32)) by {
                if tk1.len() * digit < 32 {
                    vstd::arithmetic::power2::lemma_pow2_strictly_increases(
                        (tk1.len() * digit) as nat,
                        32,
                    );
                }
            }
            vstd::arithmetic::power2::lemma2_to64();
            assert(pow2(32) == 0x1_0000_0000);
            assert(acc * p + values@[i as int] == combine_val(tk1, digit as nat));
        }
        acc = acc * p + (values[i] as u64);
        proof {
            vstd::arithmetic::mul::lemma_mul_is_distributive_add_other_way(
                digit as int,
                i as int,
                1,
            );
        }
    }
    proof {
        assert(values@.take(n as int) =~= values@);
        assert(acc < 0x1_0000_0000) by {
            lemma_combine_val_bound(values@, digit as nat);
            assert(pow2(n as nat * digit as nat) <= pow2(32)) by {
                if (n as nat * digit as nat) < 32 {
                    vstd::arithmetic::power2::lemma_pow2_strictly_increases(
                        n as nat * digit as nat,
                        32,
                    );
                }
            }
            vstd::arithmetic::power2::lemma2_to64();
            if n == 0 {
            }
        }
    }
    acc as u32
}

/// How many pairs the pairing walk has emitted after scanning the first `i`
/// indices: one for each index seen whose bit of weight `t` is clear.
pub open spec fn pair_count(i: int, t: int) -> int {
    (i / (2 * t)) * t + (if i % (2 * t) < t {
        i % (2 * t)
    } else {
        t
    })
}

/// One scanning step either emits the pair whose lower index is the current
/// one (bit clear) or emits nothing (bit set).
pub proof fn lemma_pair_count_step(i: int, t: int)
    requires
        t >= 1,
        i >= 0,
    ensures
        i % (2 * t) < t ==> pair_count(i + 1, t) == pair_count(i, t) + 1 && pair_low(
            pair_count(i, t),
            t,
        ) == i,
        i % (2 * t) >= t ==> pair_count(i + 1, t) == pair_count(i, t),
{
    let d = 2 * t;
    let a = i / d;
    let b = i % d;
    vstd::arithmetic::div_mod::lemma_fundamental_div_mod(i, d);
    vstd::arithmetic::div_mod::lemma_mod_bound(i, d);
    assert(i == d * a + b);
    vstd::arithmetic::mul::lemma_mul_is_commutative(d, a);
    if b + 1 < d {
        vstd::arithmetic::div_mod::lemma_fundamental_div_mod_converse_div(i + 1, d, a, b + 1);
        vstd::arithmetic::div_mod::lemma_fundamental_div_mod_converse_mod(i + 1, d, a, b + 1);
        assert((i + 1) / d == a && (i + 1) % d == b + 1);
    } else {
        assert(b + 1 == d);
        assert(i + 1 == (a + 1) * d + 0) by {
            vstd::arithmetic::mul::lemma_mul_is_distributive_add_other_way(d, a, 1);
        }
        vstd::arithmetic::div_mod::lemma_fundamental_div_mod_converse_div(i + 1, d, a + 1, 0);
        vstd::arithmetic::div_mod::lemma_fundamental_div_mod_converse_mod(i + 1, d, a + 1, 0);
        assert((i + 1) / d == a + 1 && (i + 1) % d == 0);
        vstd::arithmetic::mul::lemma_mul_is_distributive_add_other_way(t, a, 1);
        assert((a + 1) * t == a * t + t);
    }
    if b < t {
        // the pair with lower index i is the (a * t + b)-th one emitted
        let k = a * t + b;
        assert(pair_count(i, t) == k);
        vstd::arithmetic::div_mod::lemma_fundamental_div_mod_converse_div(k, t, a, b);
        vstd::arithmetic::div_mod::lemma_fundamental_div_mod_converse_mod(k, t, a, b);
        assert(k / t == a && k % t == b);
        assert(pair_low(k, t) == a * (2 * t) + b);
        vstd::arithmetic::mul::lemma_mul_is_commutative(a, 2 * t);
        assert(pair_low(k, t) == i);
    }
}

/// After scanning a whole hypercube of indices, half of them were emitted.
pub proof fn lemma_pair_count_total(len: int, t: int)
    requires
        t >= 1,
        len >= 0,
        len % (2 * t) == 0,
    ensures
        pair_count(len, t) == len / 2,
{
    let d = 2 * t;
    let a = len / d;
    vstd::arithmetic::div_mod::lemma_fundamental_div_mod(len, d);
    assert(len == d * a);
    vstd::arithmetic::mul::lemma_mul_is_commutative(d, a);
    assert(pair_count(len, t) == a * t);
    assert(len == (a * t) * 2 + 0) by {
        vstd::arithmetic::mul::lemma_mul_is_associative(a, 2, t);
        vstd::arithmetic::mul::lemma_mul_is_commutative(2, t);
        vstd::arithmetic::mul::lemma_mul_is_associative(a, t, 2);
        vstd::arithmetic::mul::lemma_mul_is_commutative(a * t, 2);
    }
    vstd::arithmetic::div_mod::lemma_fundamental_div_mod_converse_div(len, 2, a * t, 0);
}

/// Every emitted pair lies inside the hypercube.
pub proof fn lemma_pair_low_bounds(k: int, t: int, len: int)
    requires
        t >= 1,
        len % (2 * t) == 0,
        0 <= k < len / 2,
    ensures
        0 <= pair_low(k, t),
        pair_low(k, t) + t < len,
{
    let d = 2 * t;
    let m = len / d;
    vstd::arithmetic::div_mod::lemma_fundamental_div_mod(len, d);
    assert(len == d * m);
    vstd::arithmetic::mul::lemma_mul_is_commutative(d, m);
    assert(len == (m * t) * 2 + 0) by {
        vstd::arithmetic::mul::lemma_mul_is_associative(m, 2, t);
        vstd::arithmetic::mul::lemma_mul_is_commutative(2, t);
        vstd::arithmetic::mul::lemma_mul_is_associative(m, t, 2);
        vstd::arithmetic::mul::lemma_mul_is_commutative(m * t, 2);
    }
    vstd::arithmetic::div_mod::lemma_fundamental_div_mod_converse_div(len, 2, m * t, 0);
    assert(len / 2 == m * t);
    let a = k / t;
    let b = k % t;
    vstd::arithmetic::div_mod::lemma_fundamental_div_mod(k, t);
    vstd::arithmetic::div_mod::lemma_mod_bound(k, t);
    assert(k == t * a + b);
    vstd::arithmetic::mul::lemma_mul_is_commutative(t, a);
    assert(k < m * t);
    assert(m * t == (m - 1) * t + t) by {
        vstd::arithmetic::mul::lemma_mul_is_distributive_sub_other_way(t, m, 1);
    }
    assert(a * t + b < m * t);
    assert(a <= m - 1) by {
        if a >= m {
            vstd::arithmetic::mul::lemma_mul_inequality(m, a, t);
            assert(m * t <= a * t);
        }
    }
    assert(pair_low(k, t) == a * (2 * t) + b);
    vstd::arithmetic::mul::lemma_mul_inequality(a, m - 1, 2 * t);
    assert(a * (2 * t) <= (m - 1) * (2 * t));
    assert((m - 1) * (2 * t) == len - 2 * t) by {
        vstd::arithmetic::mul::lemma_mul_is_distributive_sub_other_way(2 * t, m, 1);
        vstd::arithmetic::mul::lemma_mul_is_commutative(m, 2 * t);
    }
    assert(a * (2 * t) >= 0) by {
        vstd::arithmetic::mul::lemma_mul_nonnegative(a, 2 * t);
    }
}

/// In a hypercube of `2^n` entries, twice the stride of variable `v`
/// divides the length evenly.
pub proof fn lemma_stride_divides(len: nat, v: nat)
    requires
        is_hypercube_len(len),
        1 <= v <= lg(len),
    ensures
        (len as int) % (2 * (pow2((lg(len) - v) as nat) as int)) == 0,
        pow2((lg(len) - v) as nat) >= 1,
{
    let n = lg(len);
    let t = pow2((n - v) as nat) as int;
    vstd::arithmetic::power2::lemma_pow2_pos((n - v) as nat);
    vstd::arithmetic::power2::lemma_pow2_adds((v - 1) as nat, (n - v + 1) as nat);
    vstd::arithmetic::power2::lemma_pow2_unfold((n - v + 1) as nat);
    assert(len as int == pow2((v - 1) as nat) * (2 * t));
    vstd::arithmetic::div_mod::lemma_mod_multiples_basic(pow2((v - 1) as nat) as int, 2 * t);
}

/// Pair the entries of the boolean hypercube whose indices differ only in
/// one bit: for a power-of-two `target`, the pairs `(a, a ^ target)` with
/// the target bit of `a` clear, in ascending order of `a`.
pub fn find_pairs_with_xor(nums: &[u32], target: u32) -> (r: Vec<(u32, u32)>)
    requires
        forall|i: int| 0 <= i < nums@.len() ==> nums@[i] == i,
        nums@.len() <= 0x8000_0000,
        is_hypercube_len(nums@.len() as nat),
        is_hypercube_len(target as nat),
        1 <= target,
        2 * (target as int) <= nums@.len(),
    ensures
        r@.len() == nums@.len() / 2,
        forall|k: int|
            0 <= k < r@.len() ==> (#[trigger] r@[k]).0 == pair_low(k, target as int) && r@[k].1
                == pair_low(k, target as int) + target,
{
    let ghost t = target as int;
    let ghost j = lg(target as nat);
    let ghost jj: u32 = j as u32;
    proof {
        // target is 2^j with j at most 30, so it is also 1 << j
        assert(pow2(j) == target);
        if j > 30 {
            vstd::arithmetic::power2::lemma_pow2_strictly_increases(31, j + 1);
            vstd::arithmetic::power2::lemma2_to64();
            assert(pow2(j) >= pow2(31)) by {
                if j > 31 {
                    vstd::arithmetic::power2::lemma_pow2_strictly_increases(31, j);
                }
            }
            assert(false);
        }
        vstd::bits::lemma_u32_shl_is_mul(1u32, jj);
        assert((1u32 << jj) == target);
        // a hypercube length is divisible by twice the stride
        let n = lg(nums@.len() as nat);
        assert(pow2(n) == nums@.len());
        assert(pow2(j + 1) <= pow2(n)) by {
            vstd::arithmetic::power2::lemma_pow2_unfold(j + 1);
            if j + 1 > n {
                vstd::arithmetic::power2::lemma_pow2_strictly_increases(n, j + 1);
            }
        }
        assert(j + 1 <= n) by {
            if j + 1 > n {
                vstd::arithmetic::power2::lemma_pow2_strictly_increases(n, j + 1);
            }
        }
        vstd::arithmetic::power2::lemma_pow2_adds((n - j - 1) as nat, j + 1);
        vstd::arithmetic::power2::lemma_pow2_unfold(j + 1);
        assert(pow2(n) == pow2((n - j - 1) as nat) * (2 * pow2(j)));
        vstd::arithmetic::div_mod::lemma_mod_multiples_basic(
            pow2((n - j - 1) as nat) as int,
            2 * t,
        );
        assert((nums@.len() as int) % (2 * t) == 0);
    }
    let mut result: Vec<(u32, u32)> = Vec::new();
    let n = nums.len();
    proof {
        vstd::arithmetic::div_mod::lemma_fundamental_div_mod_converse_div(0, 2 * t, 0, 0);
        vstd::arithmetic::div_mod::lemma_fundamental_div_mod_converse_mod(0, 2 * t, 0, 0);
        assert(pair_count(0, t) == 0);
    }
    for idx in 0..n
        invariant
            n == nums@.len(),
            forall|i: int| 0 <= i < nums@.len() ==> nums@[i] == i,
            n <= 0x8000_0000,
            1 <= target,
            2 * t <= n,
            t == target as int,
            jj < 31,
            target == (1u32 << jj),
            (n as int) % (2 * t) == 0,
            result@.len() == pair_count(idx as int, t),
            forall|k: int|
                0 <= k < result@.len() ==> (#[trigger] result@[k]).0 == pair_low(k, t)
                    && result@[k].1 == pair_low(k, t) + target,
    {
        let v = nums[idx];
        proof {
            lemma_pair_count_step(idx as int, t);
            assert((v & target == 0) <==> (v as int) % (2 * (target as int)) < target as int)
                by (bit_vector)
                requires
                    target == (1u32 << jj) && jj < 31,
            ;
        }
        if v & target == 0 {
            proof {
                assert((v ^ target) as int == v as int + target as int) by (bit_vector)
                    requires
                        v & target == 0 && target == (1u32 << jj) && jj < 31,
                ;
                assert(pair_low(pair_count(idx as int, t), t) == idx);
            }
            result.push((v, v ^ target));
        }
    }
    proof {
        lemma_pair_count_total(n as int, t);
    }
    result
}

/// Interpolate the degree-one polynomial through `(0, y0)` and `(1, y1)`
/// and evaluate it at `r`: returns `y0 + r * (y1 - y0)`.
pub fn interpolate_and_evaluate(y_values: (FieldElement, FieldElement), r: FieldElement) -> (out:
    FieldElement)
    requires
        y_values.0.wf(),
        y_values.1.wf(),
        r.wf(),
    ensures
        out.wf(),
        out@ == ie_val(y_values.0@, y_values.1@, r@),
{
    y_values.0.add(&r.mul(&y_values.1.sub(&y_values.0)))
}

/// Whether a tensor entry combines its operands by addition or by
/// multiplication.
pub enum Op {
    Add,
    Mul,
}

/// The field operation an `Op` stands for.
pub open spec fn op_val(op: Op, a: nat, b: nat) -> nat {
    match op {
        Op::Add => f_add(a, b),
        Op::Mul => f_mul(a, b),
    }
}

/// The tensor combination of two evaluation vectors of equal length `L`:
/// entry `i * L + j` combines `a[i]` with `b[j]`.
pub open spec fn tensor_vals(a: Seq<nat>, b: Seq<nat>, op: Op) -> Seq<nat> {
    Seq::new(a.len() * b.len(), |idx: int| op_val(op, a[idx / (b.len() as int)], b[idx % (b.len() as int)]))
}

/// A polynomial of `n` variables, multilinear in each, represented by its
/// `2^n` evaluations over the boolean hypercube. Entry `i` is the value at
/// the big-endian bit pattern of `i`, so variable 1 is the most significant
/// bit. `number_of_variables` records the count at construction; partial
/// evaluation halves `eval_form` and leaves the record unchanged.
pub struct MultilinearEvalForm {
    pub number_of_variables: u32,
    pub eval_form: Vec<FieldElement>,
    pub boolean_hypercube: Vec<u32>,
}

impl MultilinearEvalForm {
    /// Structural soundness: a power-of-two number of reduced field values,
    /// no longer than the recorded variable count allows, with the hypercube
    /// index list alongside.
    pub open spec fn wf(self) -> bool {
        &&& is_hypercube_len(self.eval_form@.len() as nat)
        &&& 1 <= self.eval_form@.len() <= 0x8000_0000
        &&& lg(self.eval_form@.len() as nat) <= self.number_of_variables
        &&& self.number_of_variables <= 31
        &&& all_wf(self.eval_form@)
        &&& self.boolean_hypercube@.len() == self.eval_form@.len()
        &&& forall|i: int|
            0 <= i < self.boolean_hypercube@.len() ==> self.boolean_hypercube@[i] == i
    }

    /// The polynomial still spans all its recorded variables: no partial
    /// evaluation has been applied since construction.
    pub open spec fn full(self) -> bool {
        self.eval_form@.len() == pow2(self.number_of_variables as nat)
    }

    /// The hypercube evaluations, as integers.
    pub open spec fn evals(self) -> Seq<nat> {
        vals(self.eval_form@)
    }

    /// Wrap a power-of-two-length evaluation vector; the variable count is
    /// the base-two logarithm of the length.
    pub fn new(eval_form: Vec<FieldElement>) -> (r: MultilinearEvalForm)
        requires
            1 <= eval_form@.len() <= 0x8000_0000,
            is_hypercube_len(eval_form@.len() as nat),
            all_wf(eval_form@),
        ensures
            r.wf(),
            r.full(),
            r.eval_form@ == eval_form@,
            r.evals() == vals(eval_form@),
            r.number_of_variables as nat == lg(eval_form@.len() as nat),
    {
        let n = eval_form.len() as u32;
        let no_of_vars = get_power_of_two(n);
        let mut bh: Vec<u32> = Vec::new();
        let len = eval_form.len();
        for i in 0..len
            invariant
                bh@.len() == i,
                forall|k: int| 0 <= k < i ==> bh@[k] == k,
                len <= 0x8000_0000,
        {
            bh.push(i as u32);
        }
        MultilinearEvalForm { eval_form, number_of_variables: no_of_vars, boolean_hypercube: bh }
    }

    /// Substitute `value` for the variable at `variable_position` (1 is the
    /// most significant remaining variable): each pair of entries whose
    /// indices differ only in that variable's bit is interpolated at
    /// `value`, in ascending index order. Returns the reduced evaluations.
    pub fn partial_evaluate(&mut self, variable_position: u32, value: FieldElement) -> (r: Vec<
        FieldElement,
    >)
        requires
            old(self).wf(),
            value.wf(),
            1 <= variable_position,
            variable_position as nat <= lg(old(self).eval_form@.len() as nat),
        ensures
            final(self).wf(),
            final(self).number_of_variables == old(self).number_of_variables,
            final(self).eval_form@.len() == old(self).eval_form@.len() / 2,
            final(self).evals() == pe_vals(
                old(self).evals(),
                pow2((lg(old(self).eval_form@.len() as nat) - variable_position as nat) as nat) as int,
                value@,
            ),
            r@ == final(self).eval_form@,
    {
        let ghost old_vals = self.evals();
        let len = self.eval_form.len();
        let ghost n_cur_spec = lg(len as nat);
        let n_cur = get_power_of_two(len as u32);
        let target = pow2_exec(n_cur - variable_position);
        let ghost t = target as int;
        proof {
            lemma_lg_pow2((n_cur - variable_position) as nat);
            // the stride divides the length evenly in pairs
            assert(pow2((n_cur_spec - variable_position as nat + 1) as nat) <= pow2(n_cur_spec))
                by {
                if n_cur_spec - variable_position as nat + 1 < n_cur_spec {
                    vstd::arithmetic::power2::lemma_pow2_strictly_increases(
                        (n_cur_spec - variable_position as nat + 1) as nat,
                        n_cur_spec,
                    );
                }
            }
            vstd::arithmetic::power2::lemma_pow2_adds(
                (variable_position - 1) as nat,
                (n_cur_spec - variable_position as nat + 1) as nat,
            );
            vstd::arithmetic::power2::lemma_pow2_unfold(
                (n_cur_spec - variable_position as nat + 1) as nat,
            );
            assert(len as int == pow2((variable_position - 1) as nat) * (2 * t));
            vstd::arithmetic::div_mod::lemma_mod_multiples_basic(
                pow2((variable_position - 1) as nat) as int,
                2 * t,
            );
            assert((len as int) % (2 * t) == 0);
        }
        let pairings = find_pairs_with_xor(self.boolean_hypercube.as_slice(), target);
        let mut new_vec: Vec<FieldElement> = Vec::new();
        let m = pairings.len();
        for pidx in 0..m
            invariant
                m == pairings@.len(),
                m == len / 2,
                len == self.eval_form@.len(),
                (len as int) % (2 * t) == 0,
                t >= 1,
                t == target as int,
                self == old(self),
                old(self).wf(),
                value.wf(),
                old_vals == old(self).evals(),
                forall|k: int|
                    0 <= k < m ==> (#[trigger] pairings@[k]).0 == pair_low(k, t)
                        && pairings@[k].1 == pair_low(k, t) + target,
                new_vec@.len() == pidx,
                all_wf(new_vec@),
                forall|k: int|
                    0 <= k < pidx ==> vals(new_vec@)[k] == ie_val(
                        old_vals[pair_low(k, t)],
                        old_vals[pair_low(k, t) + t],
                        value@,
                    ),
        {
            proof {
                lemma_pair_low_bounds(pidx as int, t, len as int);
                assert(pairings@[pidx as int].0 == pair_low(pidx as int, t));
                assert(pairings@[pidx as int].1 == pair_low(pidx as int, t) + t);
                assert(0 <= pair_low(pidx as int, t) + t < len as int);
            }
            let pair = pairings[pidx];
            let index_one = pair.0 as usize;
            let index_two = pair.1 as usize;
            let v = interpolate_and_evaluate(
                (self.eval_form[index_one], self.eval_form[index_two]),
                value,
            );
            proof {
                assert(vals(new_vec@.push(v)) =~= vals(new_vec@).push(v@));
            }
            new_vec.push(v);
        }
        self.eval_form = new_vec;
        let new_len = self.eval_form.len();
        let mut bh: Vec<u32> = Vec::new();
        for i in 0..new_len
            invariant
                bh@.len() == i,
                forall|k: int| 0 <= k < i ==> bh@[k] == k,
                new_len <= 0x8000_0000,
        {
            bh.push(i as u32);
        }
        self.boolean_hypercube = bh;
        proof {
            assert(self.evals() =~= pe_vals(old_vals, t, value@));
            lemma_hypercube_halves(len as nat);
        }
        self.eval_form.clone()
    }

    /// Evaluate the polynomial at a full point: substitute the leading
    /// variable with each coordinate in turn and read off the remaining
    /// constant.
    pub fn evaluate(&mut self, variables: &Vec<FieldElement>) -> (r: FieldElement)
        requires
            old(self).wf(),
            old(self).full(),
            all_wf(variables@),
            variables@.len() == old(self).number_of_variables,
        ensures
            r.wf(),
            r@ == mle_eval(old(self).evals(), vals(variables@)),
            final(self).wf(),
    {
        let ghost e0 = self.evals();
        let ghost xs = vals(variables@);
        let n = variables.len();
        proof {
            lemma_lg_pow2(old(self).number_of_variables as nat);
            assert(lg(self.eval_form@.len() as nat) == n);
            assert(xs.skip(0) =~= xs);
        }
        for i in 0..n
            invariant
                n == variables@.len(),
                n == self.number_of_variables,
                xs == vals(variables@),
                all_wf(variables@),
                self.wf(),
                self.number_of_variables == old(self).number_of_variables,
                lg(self.eval_form@.len() as nat) == n - i,
                mle_eval(e0, xs) == mle_eval(self.evals(), xs.skip(i as int)),
        {
            let ghost before = self.evals();
            proof {
                lemma_lg_bounds(self.eval_form@.len() as nat);
                vstd::arithmetic::power2::lemma_pow2_unfold((n - i) as nat);
                lemma_hypercube_halves(self.eval_form@.len() as nat);
            }
            self.partial_evaluate(1, variables[i]);
            proof {
                assert(xs.skip(i as int).first() == xs[i as int]);
                assert(xs.skip(i as int).drop_first() =~= xs.skip(i + 1));
                assert(self.evals() == pe_vals(before, before.len() as int / 2, xs[i as int]));
            }
        }
        proof {
            assert(xs.skip(n as int) =~= Seq::<nat>::empty());
            assert(self.eval_form@.len() == 1) by {
                assert(lg(self.eval_form@.len() as nat) == 0);
                assert(is_hypercube_len(self.eval_form@.len() as nat));
            }
            assert(mle_eval(self.evals(), Seq::<nat>::empty()) == self.evals()[0]);
        }
        self.eval_form[0]
    }

    /// The tensor combination of two polynomials over disjoint variable
    /// sets: for equal lengths `L`, entry `i * L + j` of the result is
    /// `a[i] op b[j]`, a polynomial over the concatenated variables.
    pub fn tensor_add_or_mul(
        w_b: &MultilinearEvalForm,
        w_c: &MultilinearEvalForm,
        op: Op,
    ) -> (r: MultilinearEvalForm)
        requires
            w_b.wf(),
            w_c.wf(),
            w_b.full(),
            w_c.full(),
            w_b.eval_form@.len() == w_c.eval_form@.len(),
            w_b.number_of_variables <= 15,
        ensures
            r.wf(),
            r.full(),
            r.eval_form@.len() == w_b.eval_form@.len() * w_c.eval_form@.len(),
            r.number_of_variables == 2 * w_b.number_of_variables,
            r.evals() == tensor_vals(w_b.evals(), w_c.evals(), op),
    {
        let length = w_b.eval_form.len();
        let ghost li = length as int;
        let mut result: Vec<FieldElement> = Vec::new();
        proof {
            vstd::arithmetic::mul::lemma_mul_nonnegative(li, li);
            vstd::arithmetic::power2::lemma_pow2_adds(
                w_b.number_of_variables as nat,
                w_b.number_of_variables as nat,
            );
            vstd::arithmetic::power2::lemma2_to64();
            assert(pow2(2 * w_b.number_of_variables as nat) == li * li);
            assert(li * li <= 0x40000000) by {
                if (2 * w_b.number_of_variables as nat) < 30 {
                    vstd::arithmetic::power2::lemma_pow2_strictly_increases(
                        2 * w_b.number_of_variables as nat,
                        30,
                    );
                }
            }
            lemma_lg_pow2(2 * w_b.number_of_variables as nat);
            vstd::arithmetic::mul::lemma_mul_basics(li);
        }
        for i in 0..length
            invariant
                length == w_b.eval_form@.len(),
                length == w_c.eval_form@.len(),
                li == length as int,
                w_b.wf(),
                w_c.wf(),
                li * li <= 0x40000000,
                result@.len() == i * li,
                all_wf(result@),
                forall|idx: int|
                    0 <= idx < i * li ==> vals(result@)[idx] == tensor_vals(
                        w_b.evals(),
                        w_c.evals(),
                        op,
                    )[idx],
        {
            proof {
                vstd::arithmetic::mul::lemma_mul_inequality(i as int + 1, li, li);
                vstd::arithmetic::mul::lemma_mul_is_distributive_add_other_way(li, i as int, 1);
                vstd::arithmetic::mul::lemma_mul_nonnegative(i as int, li);
            }
            for jx in 0..length
                invariant
                    length == w_b.eval_form@.len(),
                    length == w_c.eval_form@.len(),
                    li == length as int,
                    w_b.wf(),
                    w_c.wf(),
                    li * li <= 0x40000000,
                    i < length,
                    (i as int + 1) * li <= li * li,
                    (i as int) * li + li == (i as int + 1) * li,
                    (i as int) * li >= 0,
                    result@.len() == i * li + jx,
                    all_wf(result@),
                    forall|idx: int|
                        0 <= idx < i * li + jx ==> vals(result@)[idx] == tensor_vals(
                            w_b.evals(),
                            w_c.evals(),
                            op,
                        )[idx],
            {
                let v = match op {
                    Op::Add => w_b.eval_form[i].add(&w_c.eval_form[jx]),
                    Op::Mul => w_b.eval_form[i].mul(&w_c.eval_form[jx]),
                };
                proof {
                    let idx = (i as int) * li + jx;
                    vstd::arithmetic::div_mod::lemma_fundamental_div_mod_converse_div(
                        idx,
                        li,
                        i as int,
                        jx as int,
                    );
                    vstd::arithmetic::div_mod::lemma_fundamental_div_mod_converse_mod(
                        idx,
                        li,
                        i as int,
                        jx as int,
                    );
                    assert(tensor_vals(w_b.evals(), w_c.evals(), op)[idx] == op_val(
                        op,
                        w_b.evals()[i as int],
                        w_c.evals()[jx as int],
                    ));
                    assert(vals(result@.push(v)) =~= vals(result@).push(v@));
                }
                result.push(v);
            }
        }
        proof {
            assert(result@.len() == li * li);
            assert(vals(result@) =~= tensor_vals(w_b.evals(), w_c.evals(), op));
            assert(is_hypercube_len(result@.len() as nat));
        }
        MultilinearEvalForm::new(result)
    }

    /// The concatenated canonical byte encodings of the evaluations, in
    /// index order.
    pub fn to_bytes(polynomial: &Vec<FieldElement>) -> (r: Vec<u8>)
        requires
            all_wf(polynomial@),
        ensures
            r@ == fe_seq_bytes(vals(polynomial@)),
    {
        let mut out: Vec<u8> = Vec::new();
        let n = polynomial.len();
        proof {
            assert(vals(polynomial@.take(0)) =~= Seq::<nat>::empty());
        }
        for i in 0..n
            invariant
                n == polynomial@.len(),
                all_wf(polynomial@),
                out@ == fe_seq_bytes(vals(polynomial@.take(i as int))),
        {
            let b = polynomial[i].to_bytes();
            let m = b.len();
            for k in 0..m
                invariant
                    m == b@.len(),
                    out@ == fe_seq_bytes(vals(polynomial@.take(i as int))) + b@.take(k as int),
            {
                out.push(b[k]);
                assert(out@ =~= fe_seq_bytes(vals(polynomial@.take(i as int))) + b@.take(k + 1));
            }
            proof {
                let tk1 = vals(polynomial@.take(i + 1));
                assert(tk1.drop_last() =~= vals(polynomial@.take(i as int)));
                assert(tk1.last() == polynomial@[i as int]@);
                assert(b@.take(m as int) =~= b@);
                assert(out@ == fe_seq_bytes(vals(polynomial@.take(i as int))) + fe_bytes(
                    polynomial@[i as int]@,
                ));
            }
        }
        proof {
            assert(polynomial@.take(n as int) =~= polynomial@);
        }
        out
    }
}

impl Clone for MultilinearEvalForm {
    fn clone(&self) -> (r: MultilinearEvalForm)
        ensures
            r.number_of_variables == self.number_of_variables,
            r.eval_form@ == self.eval_form@,
            r.boolean_hypercube@ == self.boolean_hypercube@,
    {
        let mut ef: Vec<FieldElement> = Vec::new();
        let n = self.eval_form.len();
        for i in 0..n
            invariant
                n == self.eval_form@.len(),
                ef@ =~= self.eval_form@.take(i as int),
        {
            ef.push(self.eval_form[i]);
            assert(ef@ =~= self.eval_form@.take(i + 1));
        }
        let mut bh: Vec<u32> = Vec::new();
        let m = self.boolean_hypercube.len();
        for i in 0..m
            invariant
                m == self.boolean_hypercube@.len(),
                bh@ =~= self.boolean_hypercube@.take(i as int),
        {
            bh.push(self.boolean_hypercube[i]);
            assert(bh@ =~= self.boolean_hypercube@.take(i + 1));
        }
        proof {
            assert(ef@ =~= self.eval_form@);
            assert(bh@ =~= self.boolean_hypercube@);
        }
        MultilinearEvalForm {
            number_of_variables: self.number_of_variables,
            eval_form: ef,
            boolean_hypercube: bh,
        }
    }
}

/// The evaluation vectors of a list of multilinear polynomials.
pub open spec fn evals_list(ps: Seq<MultilinearEvalForm>) -> Seq<Seq<nat>> {
    ps.map_values(|p: MultilinearEvalForm| p.evals())
}

/// The pointwise product at index `i` across a list of evaluation vectors,
/// folded in list order from the constant one.
pub open spec fn prod_fold(ps: Seq<Seq<nat>>, i: int) -> nat
    decreases ps.len(),
{
    if ps.len() == 0 {
        1
    } else {
        f_mul(prod_fold(ps.drop_last(), i), ps.last()[i])
    }
}

/// The pointwise product of a list of evaluation vectors.
pub open spec fn prod_reduce(ps: Seq<Seq<nat>>) -> Seq<nat> {
    Seq::new(
        if ps.len() > 0 {
            ps[0].len()
        } else {
            0
        },
        |i: int| prod_fold(ps, i),
    )
}

/// The product of the values of a list of multilinears at one point.
pub open spec fn prod_mle(ps: Seq<Seq<nat>>, xs: Seq<nat>) -> nat
    decreases ps.len(),
{
    if ps.len() == 0 {
        1
    } else {
        f_mul(prod_mle(ps.drop_last(), xs), mle_eval(ps.last(), xs))
    }
}

/// Partial evaluation applied to each vector of a list.
pub open spec fn pe_each(ps: Seq<Seq<nat>>, s: int, r: nat) -> Seq<Seq<nat>> {
    ps.map_values(|p: Seq<nat>| pe_vals(p, s, r))
}

/// The concatenated byte encodings of a list of evaluation vectors.
pub open spec fn prod_bytes(ps: Seq<Seq<nat>>) -> Seq<u8>
    decreases ps.len(),
{
    if ps.len() == 0 {
        Seq::empty()
    } else {
        prod_bytes(ps.drop_last()) + fe_seq_bytes(ps.last())
    }
}

/// A product of multilinear polynomials over one shared variable set:
/// the polynomial `p_1(x) * ... * p_k(x)`.
pub struct ProdPoly {
    pub polynomials: Vec<MultilinearEvalForm>,
    pub no_of_vars: u32,
}

impl ProdPoly {
    /// A nonempty list of well-formed constituents over the same variables,
    /// all reduced to the same current length.
    pub open spec fn wf(self) -> bool {
        &&& self.polynomials@.len() >= 1
        &&& forall|j: int|
            0 <= j < self.polynomials@.len() ==> (#[trigger] self.polynomials@[j]).wf()
        &&& forall|j: int|
            0 <= j < self.polynomials@.len() ==> (#[trigger] self.polynomials@[j]).number_of_variables
                == self.no_of_vars
        &&& forall|j: int|
            0 <= j < self.polynomials@.len() ==> (#[trigger] self.polynomials@[j]).eval_form@.len()
                == self.polynomials@[0].eval_form@.len()
    }

    /// No constituent has been partially evaluated since construction.
    pub open spec fn full(self) -> bool {
        forall|j: int| 0 <= j < self.polynomials@.len() ==> (#[trigger] self.polynomials@[j]).full()
    }

    /// The constituents' evaluation vectors.
    pub open spec fn plist(self) -> Seq<Seq<nat>> {
        evals_list(self.polynomials@)
    }

    /// The shared current evaluation-vector length.
    pub open spec fn cur_len(self) -> int {
        self.polynomials@[0].eval_form@.len() as int
    }

    pub fn new(polynomials: Vec<MultilinearEvalForm>) -> (r: ProdPoly)
        requires
            polynomials@.len() >= 1,
            forall|j: int| 0 <= j < polynomials@.len() ==> (#[trigger] polynomials@[j]).wf(),
            forall|j: int|
                0 <= j < polynomials@.len() ==> (#[trigger] polynomials@[j]).number_of_variables
                    == polynomials@[0].number_of_variables,
            forall|j: int|
                0 <= j < polynomials@.len() ==> (#[trigger] polynomials@[j]).eval_form@.len()
                    == polynomials@[0].eval_form@.len(),
        ensures
            r.wf(),
            r.polynomials@ == polynomials@,
            r.no_of_vars == polynomials@[0].number_of_variables,
            r.plist() == evals_list(polynomials@),
    {
        let no_of_vars = polynomials[0].number_of_variables;
        ProdPoly { polynomials, no_of_vars }
    }

    /// The number of constituents: the degree of the product in any one
    /// variable.
    pub fn degree(&self) -> (r: usize)
        ensures
            r == self.polynomials@.len(),
    {
        self.polynomials.len()
    }

    /// Substitute `value` for the variable at `variable_position` in every
    /// constituent, then return the pointwise product of the reduced
    /// vectors.
    pub fn partial_evaluate(&mut self, variable_position: u32, value: FieldElement) -> (r: Vec<
        FieldElement,
    >)
        requires
            old(self).wf(),
            value.wf(),
            1 <= variable_position,
            variable_position as nat <= lg(old(self).cur_len() as nat),
        ensures
            final(self).wf(),
            final(self).no_of_vars == old(self).no_of_vars,
            final(self).polynomials@.len() == old(self).polynomials@.len(),
            final(self).plist() == pe_each(
                old(self).plist(),
                pow2((lg(old(self).cur_len() as nat) - variable_position as nat) as nat) as int,
                value@,
            ),
            final(self).cur_len() == old(self).cur_len() / 2,
            all_wf(r@),
            vals(r@) == prod_reduce(final(self).plist()),
    {
        let ghost s = pow2(
            (lg(old(self).cur_len() as nat) - variable_position as nat) as nat,
        ) as int;
        let mut new_polys: Vec<MultilinearEvalForm> = Vec::new();
        let n = self.polynomials.len();
        for j in 0..n
            invariant
                n == self.polynomials@.len(),
                self == old(self),
                old(self).wf(),
                value.wf(),
                1 <= variable_position,
                variable_position as nat <= lg(old(self).cur_len() as nat),
                s == pow2(
                    (lg(old(self).cur_len() as nat) - variable_position as nat) as nat,
                ) as int,
                new_polys@.len() == j,
                forall|k: int| 0 <= k < j ==> (#[trigger] new_polys@[k]).wf(),
                forall|k: int|
                    0 <= k < j ==> (#[trigger] new_polys@[k]).number_of_variables == old(
                        self,
                    ).no_of_vars,
                forall|k: int|
                    0 <= k < j ==> (#[trigger] new_polys@[k]).eval_form@.len() == old(
                        self,
                    ).cur_len() / 2,
                forall|k: int|
                    0 <= k < j ==> (#[trigger] new_polys@[k]).evals() == pe_vals(
                        old(self).plist()[k],
                        s,
                        value@,
                    ),
        {
            let mut p = self.polynomials[j].clone();
            proof {
                assert(p.evals() == old(self).plist()[j as int]);
                assert(lg(p.eval_form@.len() as nat) == lg(old(self).cur_len() as nat));
            }
            p.partial_evaluate(variable_position, value);
            new_polys.push(p);
        }
        self.polynomials = new_polys;
        proof {
            assert(self.plist() =~= pe_each(old(self).plist(), s, value@));
        }
        self.reduce()
    }

    /// The product of the constituents' values at one point.
    pub fn evaluate(&mut self, variables: &Vec<FieldElement>) -> (r: FieldElement)
        requires
            old(self).wf(),
            old(self).full(),
            all_wf(variables@),
            variables@.len() == old(self).no_of_vars,
        ensures
            r.wf(),
            r@ == prod_mle(old(self).plist(), vals(variables@)),
            *final(self) == *old(self),
    {
        let mut product = FieldElement::one();
        let n = self.polynomials.len();
        proof {
            assert(old(self).plist().take(0) =~= Seq::<Seq<nat>>::empty());
        }
        for j in 0..n
            invariant
                n == self.polynomials@.len(),
                self == old(self),
                old(self).wf(),
                old(self).full(),
                all_wf(variables@),
                variables@.len() == old(self).no_of_vars,
                product.wf(),
                product@ == prod_mle(old(self).plist().take(j as int), vals(variables@)),
        {
            let mut p = self.polynomials[j].clone();
            let e = p.evaluate(variables);
            product = product.mul(&e);
            proof {
                let tk1 = old(self).plist().take(j + 1);
                assert(tk1.drop_last() =~= old(self).plist().take(j as int));
                assert(tk1.last() == old(self).plist()[j as int]);
            }
        }
        proof {
            assert(old(self).plist().take(n as int) =~= old(self).plist());
        }
        product
    }

    /// The concatenated byte encodings of the constituents.
    pub fn to_bytes(&self) -> (r: Vec<u8>)
        requires
            self.wf(),
        ensures
            r@ == prod_bytes(self.plist()),
    {
        let mut out: Vec<u8> = Vec::new();
        let n = self.polynomials.len();
        proof {
            assert(self.plist().take(0) =~= Seq::<Seq<nat>>::empty());
        }
        for j in 0..n
            invariant
                n == self.polynomials@.len(),
                self.wf(),
                out@ == prod_bytes(self.plist().take(j as int)),
        {
            let b = MultilinearEvalForm::to_bytes(&self.polynomials[j].eval_form);
            let m = b.len();
            for k in 0..m
                invariant
                    m == b@.len(),
                    out@ == prod_bytes(self.plist().take(j as int)) + b@.take(k as int),
            {
                out.push(b[k]);
                assert(out@ =~= prod_bytes(self.plist().take(j as int)) + b@.take(k + 1));
            }
            proof {
                let tk1 = self.plist().take(j + 1);
                assert(tk1.drop_last() =~= self.plist().take(j as int));
                assert(tk1.last() == self.plist()[j as int]);
                assert(b@.take(m as int) =~= b@);
            }
        }
        proof {
            assert(self.plist().take(n as int) =~= self.plist());
        }
        out
    }

    /// The pointwise product of the constituents over the hypercube: the
    /// product polynomial in plain evaluation form.
    pub fn reduce(&self) -> (r: Vec<FieldElement>)
        requires
            self.wf(),
        ensures
            r@.len() == self.cur_len(),
            all_wf(r@),
            vals(r@) == prod_reduce(self.plist()),
    {
        let end = self.polynomials[0].eval_form.len();
        let mut output: Vec<FieldElement> = Vec::new();
        for i in 0..end
            invariant
                output@.len() == i,
                all_wf(output@),
                forall|k: int| 0 <= k < i ==> vals(output@)[k] == 1,
        {
            let one = FieldElement::one();
            proof {
                assert(vals(output@.push(one)) =~= vals(output@).push(one@));
            }
            output.push(one);
        }
        let n = self.polynomials.len();
        proof {
            assert(self.plist().take(0) =~= Seq::<Seq<nat>>::empty());
            assert(forall|k: int| prod_fold(Seq::<Seq<nat>>::empty(), k) == 1);
        }
        for j in 0..n
            invariant
                n == self.polynomials@.len(),
                self.wf(),
                end == self.polynomials@[0].eval_form@.len(),
                output@.len() == end,
                all_wf(output@),
                forall|k: int|
                    0 <= k < end ==> vals(output@)[k] == prod_fold(
                        self.plist().take(j as int),
                        k,
                    ),
        {
            for i in 0..end
                invariant
                    n == self.polynomials@.len(),
                    j < n,
                    self.wf(),
                    end == self.polynomials@[0].eval_form@.len(),
                    output@.len() == end,
                    all_wf(output@),
                    forall|k: int|
                        0 <= k < i ==> vals(output@)[k] == prod_fold(self.plist().take(j + 1), k),
                    forall|k: int|
                        i <= k < end ==> vals(output@)[k] == prod_fold(
                            self.plist().take(j as int),
                            k,
                        ),
            {
                let t = output[i].mul(&self.polynomials[j].eval_form[i]);
                proof {
                    let tk1 = self.plist().take(j + 1);
                    assert(tk1.drop_last() =~= self.plist().take(j as int));
                    assert(tk1.last() == self.plist()[j as int]);
                    assert(self.plist()[j as int][i as int] == self.polynomials@[j as int].evals()[i as int]);
                    assert(vals(output@)[i as int] == prod_fold(self.plist().take(j as int), i as int));
                    assert(prod_fold(tk1, i as int) == f_mul(
                        prod_fold(tk1.drop_last(), i as int),
                        tk1.last()[i as int],
                    ));
                    assert(t@ == prod_fold(tk1, i as int));
                    assert(vals(output@.update(i as int, t)) =~= vals(output@).update(
                        i as int,
                        t@,
                    ));
                }
                output.set(i, t);
            }
        }
        proof {
            assert(self.plist().take(n as int) =~= self.plist());
            assert(vals(output@) =~= prod_reduce(self.plist()));
        }
        output
    }
}

impl Clone for ProdPoly {
    fn clone(&self) -> (r: ProdPoly)
        ensures
            r.no_of_vars == self.no_of_vars,
            r.polynomials@.len() == self.polynomials@.len(),
            forall|j: int|
                0 <= j < self.polynomials@.len() ==> (#[trigger] r.polynomials@[j]).eval_form@
                    == self.polynomials@[j].eval_form@ && r.polynomials@[j].number_of_variables
                    == self.polynomials@[j].number_of_variables && r.polynomials@[j].boolean_hypercube@
                    == self.polynomials@[j].boolean_hypercube@,
            r.plist() == self.plist(),
            self.wf() ==> r.wf(),
            self.full() ==> r.full(),
    {
        let mut ps: Vec<MultilinearEvalForm> = Vec::new();
        let n = self.polynomials.len();
        for j in 0..n
            invariant
                n == self.polynomials@.len(),
                ps@.len() == j,
                forall|k: int|
                    0 <= k < j ==> (#[trigger] ps@[k]).eval_form@ == self.polynomials@[k].eval_form@
                        && ps@[k].number_of_variables == self.polynomials@[k].number_of_variables
                        && ps@[k].boolean_hypercube@ == self.polynomials@[k].boolean_hypercube@,
        {
            ps.push(self.polynomials[j].clone());
        }
        let r = ProdPoly { polynomials: ps, no_of_vars: self.no_of_vars };
        proof {
            assert(r.plist() =~= self.plist());
            if self.wf() {
                assert forall|j: int| 0 <= j < r.polynomials@.len() implies (#[trigger] r.polynomials@[j]).wf() by {
                    assert(self.polynomials@[j].wf());
                }
                assert(r.wf());
            }
            if self.full() {
                assert forall|j: int| 0 <= j < r.polynomials@.len() implies (#[trigger] r.polynomials@[j]).full() by {
                    assert(self.polynomials@[j].full());
                }
            }
        }
        r
    }
}

/// A sum of product polynomials over one shared variable set: the
/// polynomial `sum_j prod_k p_{j,k}(x)`.
pub struct SumPoly {
    pub product_polys: Vec<ProdPoly>,
}

/// The sum at index `i` of the pointwise products of a list of
/// product-polynomial evaluation lists.
pub open spec fn sum_reduce_at(qs: Seq<Seq<Seq<nat>>>, i: int) -> nat
    decreases qs.len(),
{
    if qs.len() == 0 {
        0
    } else {
        f_add(sum_reduce_at(qs.drop_last(), i), prod_fold(qs.last(), i))
    }
}

/// The sum of the products' values at one point.
pub open spec fn sum_mle(qs: Seq<Seq<Seq<nat>>>, xs: Seq<nat>) -> nat
    decreases qs.len(),
{
    if qs.len() == 0 {
        0
    } else {
        f_add(sum_mle(qs.drop_last(), xs), prod_mle(qs.last(), xs))
    }
}

impl SumPoly {
    /// A nonempty list of well-formed product polynomials over the same
    /// variables, all at the same current length.
    pub open spec fn wf(self) -> bool {
        &&& self.product_polys@.len() >= 1
        &&& forall|j: int|
            0 <= j < self.product_polys@.len() ==> (#[trigger] self.product_polys@[j]).wf()
        &&& forall|j: int|
            0 <= j < self.product_polys@.len() ==> (#[trigger] self.product_polys@[j]).no_of_vars
                == self.product_polys@[0].no_of_vars
        &&& forall|j: int|
            0 <= j < self.product_polys@.len() ==> (#[trigger] self.product_polys@[j]).cur_len()
                == self.product_polys@[0].cur_len()
    }

    /// No product has been partially evaluated since construction.
    pub open spec fn full(self) -> bool {
        forall|j: int| 0 <= j < self.product_polys@.len() ==> (#[trigger] self.product_polys@[j]).full()
    }

    /// The products' evaluation lists.
    pub open spec fn qlists(self) -> Seq<Seq<Seq<nat>>> {
        self.product_polys@.map_values(|p: ProdPoly| p.plist())
    }

    pub fn new(product_polys: Vec<ProdPoly>) -> (r: SumPoly)
        requires
            product_polys@.len() >= 1,
        ensures
            r.product_polys@ == product_polys@,
    {
        SumPoly { product_polys }
    }

    /// Substitute `value` for the variable at `variable_position` in every
    /// product polynomial.
    pub fn partial_evaluate(&mut self, variable_position: u32, value: FieldElement)
        requires
            old(self).wf(),
            value.wf(),
            1 <= variable_position,
            variable_position as nat <= lg(old(self).product_polys@[0].cur_len() as nat),
        ensures
            final(self).wf(),
            final(self).product_polys@.len() == old(self).product_polys@.len(),
            ({
                let fp = final(self).product_polys@;
                let op = old(self).product_polys@;
                let s = pow2(
                    (lg(op[0].cur_len() as nat) - variable_position as nat) as nat,
                ) as int;
                forall|j: int|
                    0 <= j < op.len() ==> (#[trigger] fp[j]).plist() == pe_each(
                        op[j].plist(),
                        s,
                        value@,
                    ) && fp[j].no_of_vars == op[j].no_of_vars
            }),
    {
        let ghost s = pow2(
            (lg(old(self).product_polys@[0].cur_len() as nat) - variable_position as nat) as nat,
        ) as int;
        let mut new_polys: Vec<ProdPoly> = Vec::new();
        let n = self.product_polys.len();
        for j in 0..n
            invariant
                n == self.product_polys@.len(),
                self == old(self),
                old(self).wf(),
                value.wf(),
                1 <= variable_position,
                variable_position as nat <= lg(old(self).product_polys@[0].cur_len() as nat),
                s == pow2(
                    (lg(old(self).product_polys@[0].cur_len() as nat)
                        - variable_position as nat) as nat,
                ) as int,
                new_polys@.len() == j,
                forall|k: int| 0 <= k < j ==> (#[trigger] new_polys@[k]).wf(),
                forall|k: int|
                    0 <= k < j ==> (#[trigger] new_polys@[k]).plist() == pe_each(
                        old(self).product_polys@[k].plist(),
                        s,
                        value@,
                    ) && new_polys@[k].no_of_vars == old(self).product_polys@[k].no_of_vars
                        && new_polys@[k].cur_len() == old(self).product_polys@[0].cur_len() / 2,
        {
            let mut p = self.product_polys[j].clone();
            p.partial_evaluate(variable_position, value);
            new_polys.push(p);
        }
        self.product_polys = new_polys;
    }

    /// The sum of the products' values at one point.
    pub fn evaluate(&mut self, variables: &Vec<FieldElement>) -> (r: FieldElement)
        requires
            old(self).wf(),
            old(self).full(),
            all_wf(variables@),
            variables@.len() == old(self).product_polys@[0].no_of_vars,
        ensures
            r.wf(),
            r@ == sum_mle(old(self).qlists(), vals(variables@)),
            *final(self) == *old(self),
    {
        let mut result = FieldElement::zero();
        let n = self.product_polys.len();
        proof {
            assert(old(self).qlists().take(0) =~= Seq::<Seq<Seq<nat>>>::empty());
        }
        for j in 0..n
            invariant
                n == self.product_polys@.len(),
                self == old(self),
                old(self).wf(),
                old(self).full(),
                all_wf(variables@),
                variables@.len() == old(self).product_polys@[0].no_of_vars,
                result.wf(),
                result@ == sum_mle(old(self).qlists().take(j as int), vals(variables@)),
        {
            let mut p = self.product_polys[j].clone();
            let m = p.evaluate(variables);
            result = result.add(&m);
            proof {
                let tk1 = old(self).qlists().take(j + 1);
                assert(tk1.drop_last() =~= old(self).qlists().take(j as int));
                assert(tk1.last() == old(self).qlists()[j as int]);
            }
        }
        proof {
            assert(old(self).qlists().take(n as int) =~= old(self).qlists());
        }
        result
    }

    /// The pointwise sum over the hypercube of the products' reductions:
    /// the sum polynomial in plain evaluation form.
    pub fn reduce(&self) -> (r: Vec<FieldElement>)
        requires
            self.wf(),
            self.full(),
        ensures
            r@.len() == pow2(self.product_polys@[0].no_of_vars as nat),
            all_wf(r@),
            forall|i: int|
                0 <= i < r@.len() ==> vals(r@)[i] == sum_reduce_at(self.qlists(), i),
    {
        let length = self.product_polys[0].no_of_vars;
        proof {
            assert(self.product_polys@[0].wf());
            assert(self.product_polys@[0].polynomials@[0].wf());
            assert(self.product_polys@[0].polynomials@[0].number_of_variables == length);
            assert(length <= 31);
            assert(self.product_polys@[0].polynomials@[0].full());
            assert(self.product_polys@[0].cur_len() == pow2(length as nat));
        }
        let end = pow2_exec(length);
        let mut result: Vec<FieldElement> = Vec::new();
        for i in 0..end as usize
            invariant
                result@.len() == i,
                all_wf(result@),
                forall|k: int| 0 <= k < i ==> vals(result@)[k] == 0,
        {
            let z = FieldElement::zero();
            proof {
                assert(vals(result@.push(z)) =~= vals(result@).push(z@));
            }
            result.push(z);
        }
        let n = self.product_polys.len();
        proof {
            assert(self.qlists().take(0) =~= Seq::<Seq<Seq<nat>>>::empty());
        }
        for j in 0..n
            invariant
                n == self.product_polys@.len(),
                self.wf(),
                self.full(),
                end as int == self.product_polys@[0].cur_len(),
                result@.len() == end,
                all_wf(result@),
                forall|k: int|
                    0 <= k < end ==> vals(result@)[k] == sum_reduce_at(
                        self.qlists().take(j as int),
                        k,
                    ),
        {
            let reduced_form = self.product_polys[j].reduce();
            for i in 0..end as usize
                invariant
                    n == self.product_polys@.len(),
                    j < n,
                    self.wf(),
                    self.full(),
                    end as int == self.product_polys@[0].cur_len(),
                    result@.len() == end,
                    all_wf(result@),
                    reduced_form@.len() == end,
                    all_wf(reduced_form@),
                    vals(reduced_form@) == prod_reduce(self.product_polys@[j as int].plist()),
                    forall|k: int|
                        0 <= k < i ==> vals(result@)[k] == sum_reduce_at(
                            self.qlists().take(j + 1),
                            k,
                        ),
                    forall|k: int|
                        i <= k < end ==> vals(result@)[k] == sum_reduce_at(
                            self.qlists().take(j as int),
                            k,
                        ),
            {
                let t = result[i].add(&reduced_form[i]);
                proof {
                    let tk1 = self.qlists().take(j + 1);
                    assert(tk1.drop_last() =~= self.qlists().take(j as int));
                    assert(tk1.last() == self.qlists()[j as int]);
                    assert(vals(result@)[i as int] == sum_reduce_at(self.qlists().take(j as int), i as int));
                    assert(vals(reduced_form@)[i as int] == prod_fold(self.qlists()[j as int], i as int));
                    assert(sum_reduce_at(tk1, i as int) == f_add(
                        sum_reduce_at(tk1.drop_last(), i as int),
                        prod_fold(tk1.last(), i as int),
                    ));
                    assert(t@ == sum_reduce_at(tk1, i as int));
                    assert(vals(result@.update(i as int, t)) =~= vals(result@).update(
                        i as int,
                        t@,
                    ));
                }
                result.set(i, t);
            }
        }
        proof {
            assert(self.qlists().take(n as int) =~= self.qlists());
        }
        result
    }

    /// The shared variable count of the constituent products.
    pub fn get_no_of_vars(&self) -> (r: u32)
        requires
            self.product_polys@.len() >= 1,
        ensures
            r == self.product_polys@[0].no_of_vars,
    {
        self.product_polys[0].no_of_vars
    }
}


/// Partially evaluating at 0 selects the half-hypercube where the variable
/// is 0, at 1 the half where it is 1, and their pointwise field sum is the
/// polynomial summed over that variable.
pub proof fn lemma_partial_evaluate_at_zero_one(e: Seq<nat>, s: int)
    requires
        s >= 1,
        (e.len() as int) % (2 * s) == 0,
        vals_lt_q(e),
    ensures
        forall|k: int|
            0 <= k < e.len() / 2 ==> #[trigger] pe_vals(e, s, 0)[k] == e[pair_low(k, s)],
        forall|k: int|
            0 <= k < e.len() / 2 ==> #[trigger] pe_vals(e, s, 1)[k] == e[pair_low(k, s) + s],
        forall|k: int|
            0 <= k < e.len() / 2 ==> f_add(
                #[trigger] pe_vals(e, s, 0)[k],
                pe_vals(e, s, 1)[k],
            ) == f_add(e[pair_low(k, s)], e[pair_low(k, s) + s]),
{
    assert forall|k: int| 0 <= k < e.len() / 2 implies #[trigger] pe_vals(e, s, 0)[k] == e[pair_low(
        k,
        s,
    )] by {
        lemma_pair_low_bounds(k, s, e.len() as int);
        let a = e[pair_low(k, s)];
        let b = e[pair_low(k, s) + s];
        crate::field::lemma_ie_ends(a, b);
        vstd::arithmetic::div_mod::lemma_small_mod(a, q());
    }
    assert forall|k: int| 0 <= k < e.len() / 2 implies #[trigger] pe_vals(e, s, 1)[k] == e[pair_low(
        k,
        s,
    ) + s] by {
        lemma_pair_low_bounds(k, s, e.len() as int);
        let a = e[pair_low(k, s)];
        let b = e[pair_low(k, s) + s];
        crate::field::lemma_ie_ends(a, b);
        vstd::arithmetic::div_mod::lemma_small_mod(b, q());
    }
}

/// Partial evaluation is linear in the substituted value: substituting `r`
/// gives, entry by entry, `(1 - r)` times the value at 0 plus `r` times the
/// value at 1.
pub proof fn lemma_partial_evaluate_linear(e: Seq<nat>, s: int, r: nat)
    requires
        s >= 1,
        (e.len() as int) % (2 * s) == 0,
        vals_lt_q(e),
    ensures
        forall|k: int|
            0 <= k < e.len() / 2 ==> #[trigger] pe_vals(e, s, r)[k] == f_add(
                f_mul(crate::field::f_sub(1, r), pe_vals(e, s, 0)[k]),
                f_mul(r, pe_vals(e, s, 1)[k]),
            ),
{
    lemma_partial_evaluate_at_zero_one(e, s);
    assert forall|k: int| 0 <= k < e.len() / 2 implies #[trigger] pe_vals(e, s, r)[k] == f_add(
        f_mul(crate::field::f_sub(1, r), pe_vals(e, s, 0)[k]),
        f_mul(r, pe_vals(e, s, 1)[k]),
    ) by {
        lemma_pair_low_bounds(k, s, e.len() as int);
        let a = e[pair_low(k, s)];
        let b = e[pair_low(k, s) + s];
        let qi = q() as int;
        let ri = r as int;
        crate::field::lemma_ie_char(a, b, r);
        assert(pe_vals(e, s, r)[k] == ((a + ri * b - ri * a) % qi) as nat);
        // expand (1 - r) * a + r * b modulo q
        let c = crate::field::f_sub(1, r);
        assert(c as int == (1 - ri) % qi);
        vstd::arithmetic::div_mod::lemma_mul_mod_noop_left((1 - ri), a as int, qi);
        assert(f_mul(c, a) == (((1 - ri) * a) % qi) as nat) by {
            vstd::arithmetic::div_mod::lemma_mul_mod_noop_left(1 - ri, a as int, qi);
        }
        vstd::arithmetic::mul::lemma_mul_is_distributive_sub_other_way(a as int, 1, ri);
        vstd::arithmetic::mul::lemma_mul_basics(a as int);
        assert((1 - ri) * a == a - ri * a);
        vstd::arithmetic::div_mod::lemma_add_mod_noop((a - ri * a), (ri * b), qi);
        assert(f_add(f_mul(c, a), f_mul(r, b)) == (((a - ri * a) + ri * b) % qi) as nat);
        assert(pe_vals(e, s, 0)[k] == a && pe_vals(e, s, 1)[k] == b);
    }
}

/// Evaluation proceeds by substituting the leading variable with each
/// coordinate in turn: one step of `mle_eval` is one partial evaluation of
/// variable 1.
pub proof fn lemma_evaluate_by_successive_partials(e: Seq<nat>, xs: Seq<nat>)
    requires
        xs.len() >= 1,
    ensures
        mle_eval(e, xs) == mle_eval(pe_vals(e, e.len() as int / 2, xs.first()), xs.drop_first()),
{
}

/// The u64 values of a u32 sequence.
pub open spec fn u32_vals(s: Seq<u32>) -> Seq<nat> {
    s.map_values(|x: u32| x as nat)
}

/// Field elements carrying the given small integers.
pub fn convert_to_fq_elements(values: Vec<u32>) -> (r: Vec<FieldElement>)
    ensures
        r@.len() == values@.len(),
        all_wf(r@),
        vals(r@) =~= u32_vals(values@),
{
    let mut out: Vec<FieldElement> = Vec::new();
    let n = values.len();
    for i in 0..n
        invariant
            n == values@.len(),
            out@.len() == i,
            all_wf(out@),
            forall|k: int| 0 <= k < i ==> vals(out@)[k] == values@[k] as nat,
    {
        out.push(FieldElement::from_u64(values[i] as u64));
    }
    out
}

/// `n` field elements drawn uniformly at random.
pub fn gen_random_vars(n: u32) -> (r: Vec<FieldElement>)
    ensures
        r@.len() == n,
        all_wf(r@),
{
    let mut out: Vec<FieldElement> = Vec::new();
    for i in 0..n
        invariant
            out@.len() == i,
            all_wf(out@),
    {
        out.push(FieldElement::random());
    }
    out
}

/// `2^n` field elements drawn uniformly at random: one per hypercube vertex.
pub fn gen_based_on_two(n: u32) -> (r: Vec<FieldElement>)
    requires
        n <= 31,
    ensures
        r@.len() == pow2(n as nat),
        all_wf(r@),
{
    let to_pow_two = pow2_exec(n);
    gen_random_vars(to_pow_two)
}

} // verus!
