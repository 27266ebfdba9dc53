//! Keys of the table: each key is known by its byte representation, which is
//! what gets hashed and compared.
use std::collections::hash_map::DefaultHasher;
use std::hash::Hasher;
use vstd::prelude::*;
use vstd::std_specs::hash::DefaultHasherAdditionalSpecFns;

verus! {

/// A type whose values can serve as keys: two keys are the same key exactly
/// when their byte representations are equal.
pub trait HashKey {
    /// The byte representation of the key.
    spec fn key_bytes(&self) -> Seq<u8>;

    /// Borrows the byte representation of the key.
    fn as_key_bytes(&self) -> (r: &[u8])
        ensures
            r@ == self.key_bytes(),
    ;
}

impl<'a> HashKey for &'a str {
    open spec fn key_bytes(&self) -> Seq<u8> {
        vstd::utf8::encode_utf8((**self)@)
    }

    fn as_key_bytes(&self) -> (r: &[u8]) {
        (**self).as_bytes()
    }
}

impl HashKey for String {
    open spec fn key_bytes(&self) -> Seq<u8> {
        vstd::utf8::encode_utf8(self@)
    }

    fn as_key_bytes(&self) -> (r: &[u8]) {
        self.as_str().as_bytes()
    }
}

impl HashKey for Vec<u8> {
    open spec fn key_bytes(&self) -> Seq<u8> {
        self@
    }

    fn as_key_bytes(&self) -> (r: &[u8]) {
        self.as_slice()
    }
}

/// The hash of a byte string: the digest of a default hasher fed the bytes in
/// one write.
pub open spec fn hash_of(b: Seq<u8>) -> u64 {
    DefaultHasher::spec_finish(seq![b])
}

/// Hashes the bytes with a freshly made default hasher.
pub fn hash_bytes(b: &[u8]) -> (r: u64)
    ensures
        r == hash_of(b@),
{
    let mut h = DefaultHasher::new();
    h.write(b);
    proof {
        assert(h@ =~= seq![b@]);
    }
    h.finish()
}

/// Compares two byte strings.
pub fn bytes_eq(a: &[u8], b: &[u8]) -> (r: bool)
    ensures
        r == (a@ == b@),
{
    if a.len() != b.len() {
        return false;
    }
    let mut i: usize = 0;
    while i < a.len()
        invariant
            a@.len() == b@.len(),
            0 <= i <= a@.len(),
            forall|j: int| 0 <= j < i ==> a@[j] == b@[j],
        decreases a@.len() - i,
    {
        if a[i] != b[i] {
            return false;
        }
        i = i + 1;
    }
    proof {
        assert(a@ =~= b@);
    }
    true
}

} // verus!
