//! Fiat–Shamir transcript: an absorbing hash state from which verifier
//! challenges are squeezed deterministically.
use vstd::prelude::*;

use crate::field::{be_val, q, FieldElement};
use sha3::{Digest, Keccak256};

verus! {

/// The Keccak-256 digest of a byte string: a function of the input alone.
pub uninterp spec fn keccak256_of(data: Seq<u8>) -> Seq<u8>;

/// Relies on sha3's Keccak256: a 32-byte digest that depends on the input
/// bytes alone.
#[verifier::external_body]
fn keccak256_digest(data: &Vec<u8>) -> (r: Vec<u8>)
    ensures
        r@ == keccak256_of(data@),
        r@.len() == 32,
{
    Keccak256::digest(data.as_slice()).to_vec()
}

/// The interface a transcript hash must offer: absorb bytes, squeeze a
/// 32-byte digest.
pub trait HasherTrait {
    fn absorb(&mut self, data: &[u8]);

    fn squeeze(&mut self) -> Vec<u8>;
}

/// A Keccak-256 sponge. The bytes absorbed since the last squeeze are
/// buffered; a squeeze digests them and folds the digest back into the
/// state, so two consecutive squeezes give different outputs.
pub struct Keccak256Hasher {
    buf: Vec<u8>,
}

impl View for Keccak256Hasher {
    type V = Seq<u8>;

    closed spec fn view(&self) -> Seq<u8> {
        self.buf@
    }
}

impl Keccak256Hasher {
    pub fn new() -> (r: Keccak256Hasher)
        ensures
            r@ == Seq::<u8>::empty(),
    {
        Keccak256Hasher { buf: Vec::new() }
    }

    pub fn absorb(&mut self, data: &[u8])
        ensures
            final(self)@ == old(self)@ + data@,
    {
        let n = data.len();
        for i in 0..n
            invariant
                n == data@.len(),
                self.buf@ =~= old(self).buf@ + data@.take(i as int),
        {
            self.buf.push(data[i]);
            assert(self.buf@ =~= old(self).buf@ + data@.take(i + 1));
        }
        assert(self.buf@ =~= old(self).buf@ + data@);
    }

    pub fn squeeze(&mut self) -> (r: Vec<u8>)
        ensures
            r@ == keccak256_of(old(self)@),
            r@.len() == 32,
            final(self)@ == r@,
    {
        let digest = keccak256_digest(&self.buf);
        let mut copy: Vec<u8> = Vec::new();
        for i in 0..digest.len()
            invariant
                copy@ =~= digest@.take(i as int),
        {
            copy.push(digest[i]);
            assert(copy@ =~= digest@.take(i + 1));
        }
        assert(copy@ =~= digest@);
        self.buf = copy;
        digest
    }
}

impl HasherTrait for Keccak256Hasher {
    fn absorb(&mut self, data: &[u8]) {
        Keccak256Hasher::absorb(self, data)
    }

    fn squeeze(&mut self) -> Vec<u8> {
        Keccak256Hasher::squeeze(self)
    }
}

/// A Fiat–Shamir transcript over the Keccak-256 sponge. The view is the
/// byte string the next squeeze will digest, so every challenge is a pure
/// function of what has been absorbed.
pub struct Transcript {
    hasher: Keccak256Hasher,
}

impl View for Transcript {
    type V = Seq<u8>;

    closed spec fn view(&self) -> Seq<u8> {
        self.hasher@
    }
}

impl Transcript {
    pub fn init(hash_function: Keccak256Hasher) -> (r: Transcript)
        ensures
            r@ == hash_function@,
    {
        Transcript { hasher: hash_function }
    }

    /// Append bytes to the hash state.
    pub fn append(&mut self, data: &[u8])
        ensures
            final(self)@ == old(self)@ + data@,
    {
        self.hasher.absorb(data);
    }

    /// Squeeze a challenge: digest the state, fold the digest back in, and
    /// reduce the digest to a field element big-endian modulo q.
    pub fn hash(&mut self) -> (r: FieldElement)
        ensures
            r.wf(),
            r@ == be_val(keccak256_of(old(self)@)) % q(),
            final(self)@ == keccak256_of(old(self)@),
    {
        let digest = self.hasher.squeeze();
        FieldElement::from_be_bytes_mod_order(digest.as_slice())
    }
}

} // verus!
