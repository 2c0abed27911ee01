//! Prime-field scalars of the BN254 base field, held in canonical big-endian
//! form so that every contract can speak of the integer value of an element.
use vstd::prelude::*;

use ark_bn254::Fq;
use ark_ff::{BigInteger, Field, PrimeField, UniformRand};

verus! {

/// The BN254 base-field modulus: the order of the prime field that every
/// polynomial in this crate is defined over.
pub open spec fn q() -> nat {
    21888242871839275222246405745257275088696311157297823662689037894645226208583nat
}

/// The integer a big-endian byte string denotes.
pub open spec fn be_val(s: Seq<u8>) -> nat
    decreases s.len(),
{
    if s.len() == 0 {
        0
    } else {
        be_val(s.drop_last()) * 256 + (s.last() as nat)
    }
}

/// The canonical 32-byte big-endian encoding of a value below `2^256`.
pub open spec fn fe_bytes(x: nat) -> Seq<u8> {
    choose|s: Seq<u8>| s.len() == 32 && be_val(s) == x
}

/// Sum in the field: addition modulo `q`.
pub open spec fn f_add(a: nat, b: nat) -> nat {
    (a + b) % q()
}

/// Difference in the field: subtraction modulo `q`.
pub open spec fn f_sub(a: nat, b: nat) -> nat {
    (((a as int) - (b as int)) % (q() as int)) as nat
}

/// Product in the field: multiplication modulo `q`.
pub open spec fn f_mul(a: nat, b: nat) -> nat {
    (a * b) % q()
}

/// Additive inverse in the field.
pub open spec fn f_neg(a: nat) -> nat {
    f_sub(0, a)
}

/// The multiplicative inverse of `x` modulo `q`, where one exists.
pub open spec fn f_inv(x: nat) -> nat {
    choose|y: nat| y < q() && #[trigger] ((x * y) % q()) == 1
}

/// The straight-line interpolation `a + r * (b - a)`, the value at `r` of the
/// degree-one polynomial through `(0, a)` and `(1, b)`.
pub open spec fn ie_val(a: nat, b: nat, r: nat) -> nat {
    f_add(a, f_mul(r, f_sub(b, a)))
}

/// An element of the BN254 base field, stored as its canonical 32-byte
/// big-endian encoding.
#[derive(Clone, Copy, Debug)]
pub struct FieldElement {
    bytes: [u8; 32],
}

impl View for FieldElement {
    type V = nat;

    closed spec fn view(&self) -> nat {
        be_val(self.bytes@)
    }
}

impl FieldElement {
    /// A well-formed element carries a canonical (reduced) value.
    pub open spec fn wf(self) -> bool {
        self@ < q()
    }

    /// Relies on ark_ff's field addition on ark_bn254::Fq: the canonical
    /// representative of the sum is the sum of the representatives modulo q.
    #[verifier::external_body]
    pub fn add(&self, other: &FieldElement) -> (r: FieldElement)
        requires
            self.wf(),
            other.wf(),
        ensures
            r.wf(),
            r@ == f_add(self@, other@),
    {
        let a = Fq::from_be_bytes_mod_order(&self.bytes);
        let b = Fq::from_be_bytes_mod_order(&other.bytes);
        let v = (a + b).into_bigint().to_bytes_be();
        let mut bytes = [0u8; 32];
        bytes.copy_from_slice(&v);
        FieldElement { bytes }
    }

    /// Relies on ark_ff's field subtraction on ark_bn254::Fq: subtraction of
    /// canonical representatives modulo q.
    #[verifier::external_body]
    pub fn sub(&self, other: &FieldElement) -> (r: FieldElement)
        requires
            self.wf(),
            other.wf(),
        ensures
            r.wf(),
            r@ == f_sub(self@, other@),
    {
        let a = Fq::from_be_bytes_mod_order(&self.bytes);
        let b = Fq::from_be_bytes_mod_order(&other.bytes);
        let v = (a - b).into_bigint().to_bytes_be();
        let mut bytes = [0u8; 32];
        bytes.copy_from_slice(&v);
        FieldElement { bytes }
    }

    /// Relies on ark_ff's field multiplication on ark_bn254::Fq:
    /// multiplication of canonical representatives modulo q.
    #[verifier::external_body]
    pub fn mul(&self, other: &FieldElement) -> (r: FieldElement)
        requires
            self.wf(),
            other.wf(),
        ensures
            r.wf(),
            r@ == f_mul(self@, other@),
    {
        let a = Fq::from_be_bytes_mod_order(&self.bytes);
        let b = Fq::from_be_bytes_mod_order(&other.bytes);
        let v = (a * b).into_bigint().to_bytes_be();
        let mut bytes = [0u8; 32];
        bytes.copy_from_slice(&v);
        FieldElement { bytes }
    }

    /// Relies on ark_ff's field negation on ark_bn254::Fq.
    #[verifier::external_body]
    pub fn neg(&self) -> (r: FieldElement)
        requires
            self.wf(),
        ensures
            r.wf(),
            r@ == f_neg(self@),
    {
        let a = Fq::from_be_bytes_mod_order(&self.bytes);
        let v = (-a).into_bigint().to_bytes_be();
        let mut bytes = [0u8; 32];
        bytes.copy_from_slice(&v);
        FieldElement { bytes }
    }

    /// Relies on ark_ff's Field::inverse on ark_bn254::Fq: for a nonzero
    /// element it returns the multiplicative inverse, so the product of the
    /// result with the argument is one.
    #[verifier::external_body]
    pub fn inverse(&self) -> (r: FieldElement)
        requires
            self.wf(),
            self@ != 0,
        ensures
            r.wf(),
            (self@ * r@) % q() == 1,
    {
        let a = Fq::from_be_bytes_mod_order(&self.bytes);
        let v = (a.inverse().unwrap()).into_bigint().to_bytes_be();
        let mut bytes = [0u8; 32];
        bytes.copy_from_slice(&v);
        FieldElement { bytes }
    }

    /// Relies on ark_ff's From<u64> embedding into ark_bn254::Fq; every u64
    /// is below the modulus, so the value is carried exactly.
    #[verifier::external_body]
    pub fn from_u64(x: u64) -> (r: FieldElement)
        ensures
            r.wf(),
            r@ == x as nat,
    {
        let v = (Fq::from(x)).into_bigint().to_bytes_be();
        let mut bytes = [0u8; 32];
        bytes.copy_from_slice(&v);
        FieldElement { bytes }
    }

    /// Relies on ark_ff's PrimeField::from_be_bytes_mod_order: the bytes are
    /// read as a big-endian integer and reduced modulo q.
    #[verifier::external_body]
    pub fn from_be_bytes_mod_order(data: &[u8]) -> (r: FieldElement)
        ensures
            r.wf(),
            r@ == be_val(data@) % q(),
    {
        let v = (Fq::from_be_bytes_mod_order(data)).into_bigint().to_bytes_be();
        let mut bytes = [0u8; 32];
        bytes.copy_from_slice(&v);
        FieldElement { bytes }
    }

    /// Relies on ark_ff's UniformRand sampling over ark_bn254::Fq; nothing is
    /// promised of the value beyond well-formedness.
    #[verifier::external_body]
    pub fn random() -> (r: FieldElement)
        ensures
            r.wf(),
    {
        let mut rng = rand::thread_rng();
        let v = (Fq::rand(&mut rng)).into_bigint().to_bytes_be();
        let mut bytes = [0u8; 32];
        bytes.copy_from_slice(&v);
        FieldElement { bytes }
    }

    pub fn zero() -> (r: FieldElement)
        ensures
            r.wf(),
            r@ == 0,
    {
        FieldElement::from_u64(0)
    }

    pub fn one() -> (r: FieldElement)
        ensures
            r.wf(),
            r@ == 1,
    {
        FieldElement::from_u64(1)
    }

    /// The canonical big-endian byte encoding of the element.
    pub fn to_bytes(&self) -> (r: Vec<u8>)
        ensures
            r@.len() == 32,
            be_val(r@) == self@,
            r@ == fe_bytes(self@),
    {
        let mut out: Vec<u8> = Vec::new();
        for i in 0..32
            invariant
                out@.len() == i,
                out@ =~= self.bytes@.take(i as int),
        {
            out.push(self.bytes[i]);
            assert(out@ =~= self.bytes@.take(i + 1));
        }
        assert(out@ =~= self.bytes@);
        proof {
            lemma_fe_bytes_canonical(self.bytes@);
        }
        out
    }
}

impl PartialEq for FieldElement {
    fn eq(&self, other: &FieldElement) -> (r: bool) {
        let mut same = true;
        for i in 0..32
            invariant
                same <==> (forall|k: int|
                    0 <= k < i ==> self.bytes@[k] == other.bytes@[k]),
        {
            if self.bytes[i] != other.bytes[i] {
                same = false;
            }
        }
        proof {
            if same {
                assert(self.bytes@ =~= other.bytes@);
            }
            if self@ == other@ {
                lemma_be_val_injective(self.bytes@, other.bytes@);
            }
        }
        same
    }
}

impl vstd::std_specs::cmp::PartialEqSpecImpl for FieldElement {
    open spec fn obeys_eq_spec() -> bool {
        true
    }

    open spec fn eq_spec(&self, other: &FieldElement) -> bool {
        self@ == other@
    }
}

/// Byte strings of equal length that denote the same integer are equal.
pub proof fn lemma_be_val_injective(s: Seq<u8>, t: Seq<u8>)
    requires
        s.len() == t.len(),
        be_val(s) == be_val(t),
    ensures
        s == t,
    decreases s.len(),
{
    if s.len() > 0 {
        assert(be_val(s) == be_val(s.drop_last()) * 256 + s.last());
        assert(be_val(t) == be_val(t.drop_last()) * 256 + t.last());
        vstd::arithmetic::div_mod::lemma_mod_multiples_vanish(
            be_val(s.drop_last()) as int,
            s.last() as int,
            256,
        );
        vstd::arithmetic::div_mod::lemma_mod_multiples_vanish(
            be_val(t.drop_last()) as int,
            t.last() as int,
            256,
        );
        vstd::arithmetic::div_mod::lemma_small_mod(s.last() as nat, 256);
        vstd::arithmetic::div_mod::lemma_small_mod(t.last() as nat, 256);
        assert(be_val(s) % 256 == s.last());
        assert(be_val(t) % 256 == t.last());
        assert(s.last() == t.last());
        assert(be_val(s.drop_last()) * 256 == be_val(t.drop_last()) * 256);
        assert(be_val(s.drop_last()) == be_val(t.drop_last()));
        lemma_be_val_injective(s.drop_last(), t.drop_last());
        assert(s =~= s.drop_last().push(s.last()));
        assert(t =~= t.drop_last().push(t.last()));
    } else {
        assert(s =~= t);
    }
}

/// A 32-byte string is the canonical encoding of the integer it denotes.
pub proof fn lemma_fe_bytes_canonical(s: Seq<u8>)
    requires
        s.len() == 32,
    ensures
        fe_bytes(be_val(s)) == s,
{
    assert(s.len() == 32 && be_val(s) == be_val(s));
    let t = choose|t: Seq<u8>| t.len() == 32 && be_val(t) == be_val(s);
    lemma_be_val_injective(s, t);
}

/// Replacing a summand by one congruent to it modulo `m` keeps the sum's
/// residue.
pub proof fn lemma_mod_add_subst(x1: int, x2: int, y: int, m: int)
    requires
        m > 0,
        x1 % m == x2 % m,
    ensures
        (x1 + y) % m == (x2 + y) % m,
{
    vstd::arithmetic::div_mod::lemma_add_mod_noop(x1, y, m);
    vstd::arithmetic::div_mod::lemma_add_mod_noop(x2, y, m);
}

/// Replacing a subtrahend by one congruent to it modulo `m` keeps the
/// difference's residue.
pub proof fn lemma_mod_sub_subst(y: int, x1: int, x2: int, m: int)
    requires
        m > 0,
        x1 % m == x2 % m,
    ensures
        (y - x1) % m == (y - x2) % m,
{
    vstd::arithmetic::div_mod::lemma_sub_mod_noop(y, x1, m);
    vstd::arithmetic::div_mod::lemma_sub_mod_noop(y, x2, m);
}

/// `ie_val` computed through the field operations equals the plain integer
/// expression `a + r*b - r*a` reduced modulo `q`.
pub proof fn lemma_ie_char(a: nat, b: nat, r: nat)
    ensures
        ie_val(a, b, r) == ((a + r * b - r * a) % (q() as int)) as nat,
{
    let qi = q() as int;
    let ai = a as int;
    let bi = b as int;
    let ri = r as int;
    assert(f_sub(b, a) == ((bi - ai) % qi) as nat);
    vstd::arithmetic::div_mod::lemma_mul_mod_noop_right(ri, bi - ai, qi);
    assert(f_mul(r, f_sub(b, a)) == ((ri * (bi - ai)) % qi) as nat);
    vstd::arithmetic::mul::lemma_mul_is_distributive_sub(ri, bi, ai);
    assert(ri * (bi - ai) == ri * bi - ri * ai);
    vstd::arithmetic::div_mod::lemma_add_mod_noop_right(ai, ri * bi - ri * ai, qi);
    assert(ie_val(a, b, r) == ((ai + (ri * bi - ri * ai)) % qi) as nat);
}

/// Interpolation at 0 and at 1 recovers the two interpolated values.
pub proof fn lemma_ie_ends(a: nat, b: nat)
    ensures
        forall|r: nat| #[trigger] ie_val(a, b, r) == ((a + r * b - r * a) % (q() as int)) as nat,
        ie_val(a, b, 0) == a % q(),
        ie_val(a, b, 1) == b % q(),
{
    assert forall|r: nat| #[trigger] ie_val(a, b, r) == ((a + r * b - r * a) % (q() as int)) as nat
        by {
        lemma_ie_char(a, b, r);
    }
    lemma_ie_char(a, b, 0);
    lemma_ie_char(a, b, 1);
    let qi = q() as int;
    assert(a + 0 * b - 0 * a == a as int);
    assert(a + 1 * b - 1 * a == b as int);
}

/// Interpolation distributes over field addition of the interpolated pairs.
pub proof fn lemma_ie_add(a1: nat, b1: nat, a2: nat, b2: nat, r: nat)
    ensures
        f_add(ie_val(a1, b1, r), ie_val(a2, b2, r)) == ie_val(f_add(a1, a2), f_add(b1, b2), r),
{
    let qi = q() as int;
    let ri = r as int;
    lemma_ie_char(a1, b1, r);
    lemma_ie_char(a2, b2, r);
    let x1 = a1 + ri * b1 - ri * a1;
    let x2 = a2 + ri * b2 - ri * a2;
    // left side: (x1 % q + x2 % q) % q == (x1 + x2) % q
    vstd::arithmetic::div_mod::lemma_add_mod_noop(x1, x2, qi);
    assert(f_add(ie_val(a1, b1, r), ie_val(a2, b2, r)) == ((x1 + x2) % qi) as nat);
    // right side
    let s = f_add(a1, a2);
    let t = f_add(b1, b2);
    lemma_ie_char(s, t, r);
    let si = s as int;
    let ti = t as int;
    vstd::arithmetic::div_mod::lemma_mod_twice((a1 + a2) as int, qi);
    vstd::arithmetic::div_mod::lemma_mod_twice((b1 + b2) as int, qi);
    assert(si % qi == ((a1 + a2) as int) % qi);
    assert(ti % qi == ((b1 + b2) as int) % qi);
    lemma_mod_add_subst(si, (a1 + a2) as int, ri * ti - ri * si, qi);
    assert((si + ri * ti - ri * si) % qi == ((a1 + a2) + (ri * ti - ri * si)) % qi);
    vstd::arithmetic::div_mod::lemma_mul_mod_noop_right(ri, (a1 + a2) as int, qi);
    vstd::arithmetic::div_mod::lemma_mul_mod_noop_right(ri, (b1 + b2) as int, qi);
    assert((ri * ti) % qi == (ri * ((b1 + b2) as int)) % qi) by {
        vstd::arithmetic::div_mod::lemma_mul_mod_noop_right(ri, ti, qi);
    }
    assert((ri * si) % qi == (ri * ((a1 + a2) as int)) % qi) by {
        vstd::arithmetic::div_mod::lemma_mul_mod_noop_right(ri, si, qi);
    }
    lemma_mod_add_subst(ri * ti, ri * ((b1 + b2) as int), (a1 + a2) - ri * si, qi);
    assert(((a1 + a2) + ri * ti - ri * si) % qi == ((a1 + a2) + ri * ((b1 + b2) as int) - ri * si)
        % qi);
    lemma_mod_sub_subst((a1 + a2) + ri * ((b1 + b2) as int), ri * si, ri * ((a1 + a2) as int), qi);
    assert(((a1 + a2) + ri * ((b1 + b2) as int) - ri * si) % qi == ((a1 + a2) + ri * ((b1 + b2)
        as int) - ri * ((a1 + a2) as int)) % qi);
    vstd::arithmetic::mul::lemma_mul_is_distributive_add(ri, b1 as int, b2 as int);
    vstd::arithmetic::mul::lemma_mul_is_distributive_add(ri, a1 as int, a2 as int);
    assert((a1 + a2) + ri * ((b1 + b2) as int) - ri * ((a1 + a2) as int) == x1 + x2);
}

/// For reduced values, the field difference vanishes exactly on equal
/// values.
pub proof fn lemma_f_sub_zero_iff(a: nat, b: nat)
    requires
        a < q(),
        b < q(),
    ensures
        (f_sub(a, b) == 0) <==> (a == b),
{
    let qi = q() as int;
    let d = a as int - b as int;
    if d >= 0 {
        vstd::arithmetic::div_mod::lemma_small_mod(d as nat, q());
        assert(d % qi == d);
    } else {
        vstd::arithmetic::div_mod::lemma_mod_multiples_vanish(1, d, qi);
        assert((qi + d) % qi == d % qi);
        vstd::arithmetic::div_mod::lemma_small_mod((qi + d) as nat, q());
        assert(d % qi == qi + d);
    }
}

/// A multiplicative inverse modulo `q` is unique, so any witness equals
/// `f_inv`.
pub proof fn lemma_f_inv_unique(x: nat, y: nat)
    requires
        y < q(),
        (x * y) % q() == 1,
    ensures
        f_inv(x) == y,
{
    let z = f_inv(x);
    assert(z < q() && (x * z) % q() == 1);
    // y == y * (x * z) == (y * x) * z == (x * y) * z == z (mod q)
    let qi = q() as int;
    vstd::arithmetic::div_mod::lemma_mul_mod_noop_right(y as int, (x * z) as int, qi);
    assert((y * ((x * z) % q())) % q() == (y * (x * z)) % q());
    vstd::arithmetic::div_mod::lemma_small_mod(y, q());
    assert((y * 1) % q() == y % q());
    assert(y * ((x * z) as int % qi) == y * 1) by {
        assert((x * z) % q() == 1);
    }
    assert((y * (x * z)) % q() == y);
    vstd::arithmetic::mul::lemma_mul_is_associative(y as int, x as int, z as int);
    vstd::arithmetic::mul::lemma_mul_is_commutative(y as int, x as int);
    assert(y * (x * z) == (x * y) * z);
    vstd::arithmetic::div_mod::lemma_mul_mod_noop_left((x * y) as int, z as int, qi);
    assert(((x * y) % q() * z) % q() == ((x * y) * z) % q());
    assert((1 * z) % q() == z % q());
    vstd::arithmetic::div_mod::lemma_small_mod(z, q());
    assert(y == z);
}

} // verus!
