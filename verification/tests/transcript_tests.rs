use gkr_sumcheck::field::FieldElement;
use gkr_sumcheck::transcript::{Keccak256Hasher, Transcript};

fn fq(x: u64) -> FieldElement {
    FieldElement::from_u64(x)
}

#[test]
fn test_hash() {
    let mut transcript = Transcript::init(Keccak256Hasher::new());
    transcript.append(b"test data 1");
    transcript.append(fq(7).to_bytes().as_slice());
    transcript.append(b"test data 2");
    let hash = transcript.hash();
    let hash2 = transcript.hash();
    let hash3 = transcript.hash();
    assert_ne!(hash, hash2);
    assert_ne!(hash, hash3);
    assert_ne!(hash2, hash3);
}

// The squeeze is a pure function of the absorbed bytes: equal transcripts
// give equal challenges, and different absorbed bytes give different ones.
#[test]
fn test_hash_deterministic() {
    let mut t1 = Transcript::init(Keccak256Hasher::new());
    t1.append(b"abc");
    let mut t2 = Transcript::init(Keccak256Hasher::new());
    t2.append(b"abc");
    assert_eq!(t1.hash(), t2.hash());

    let mut t3 = Transcript::init(Keccak256Hasher::new());
    t3.append(b"abd");
    let mut t4 = Transcript::init(Keccak256Hasher::new());
    t4.append(b"abc");
    assert_ne!(t3.hash(), t4.hash());
}

// Field arithmetic through the wrappers: concrete identities that pin the
// operations down.
#[test]
fn test_field_arithmetic() {
    assert_eq!(fq(3).add(&fq(4)), fq(7));
    assert_eq!(fq(10).sub(&fq(4)), fq(6));
    assert_eq!(fq(3).mul(&fq(4)), fq(12));
    assert_eq!(fq(0).sub(&fq(1)).add(&fq(1)), fq(0));
    assert_eq!(fq(5).neg().add(&fq(5)), fq(0));
    assert_eq!(fq(2).inverse().mul(&fq(2)), FieldElement::one());
    assert_eq!(FieldElement::zero(), fq(0));
    assert_eq!(FieldElement::one(), fq(1));
}

// Big-endian modular reduction of bytes: two bytes [1, 0] denote 256.
#[test]
fn test_from_be_bytes_mod_order() {
    let two_bytes = [1u8, 0u8];
    assert_eq!(FieldElement::from_be_bytes_mod_order(&two_bytes), fq(256));
    let encoded = fq(77).to_bytes();
    assert_eq!(encoded.len(), 32);
    assert_eq!(FieldElement::from_be_bytes_mod_order(encoded.as_slice()), fq(77));
}
