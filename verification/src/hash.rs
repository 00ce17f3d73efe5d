//! The FNV-1a-64 byte hasher used for message identifiers, frame hashes,
//! dedup keys, and session-id derivation.
use vstd::prelude::*;

use crate::bytes::spec_u64_be;

verus! {

pub const FNV_OFFSET_BASIS: u64 = 0xcbf29ce484222325;

pub const FNV_PRIME: u64 = 0x100000001b3;

/// One FNV-1a round: xor the byte in, then multiply by the prime mod 2^64.
pub open spec fn fnv1a_step(h: u64, b: u8) -> u64 {
    (h ^ (b as u64)).wrapping_mul(FNV_PRIME)
}

/// The FNV-1a state after absorbing `s`, starting from state `h`.
pub open spec fn spec_fnv1a_from(h: u64, s: Seq<u8>) -> u64
    decreases s.len(),
{
    if s.len() == 0 {
        h
    } else {
        fnv1a_step(spec_fnv1a_from(h, s.drop_last()), s.last())
    }
}

/// The FNV-1a-64 hash of `s`.
pub open spec fn spec_fnv1a64(s: Seq<u8>) -> u64 {
    spec_fnv1a_from(FNV_OFFSET_BASIS, s)
}

/// The FNV-1a state after absorbing every part of `parts` in order,
/// starting from state `h`.
pub open spec fn spec_fnv1a_parts(h: u64, parts: Seq<Seq<u8>>) -> u64
    decreases parts.len(),
{
    if parts.len() == 0 {
        h
    } else {
        spec_fnv1a_from(spec_fnv1a_parts(h, parts.drop_last()), parts.last())
    }
}

/// The message identifier of a multipart message: FNV-1a-64 over the
/// concatenation of the parts followed by the nonce, big-endian.
pub open spec fn spec_message_id(parts: Seq<Seq<u8>>, nonce: u64) -> u64 {
    spec_fnv1a_from(spec_fnv1a_parts(FNV_OFFSET_BASIS, parts), spec_u64_be(nonce))
}

/// Absorbing two byte runs in turn is absorbing their concatenation.
pub proof fn lemma_fnv1a_append(h: u64, a: Seq<u8>, b: Seq<u8>)
    ensures
        spec_fnv1a_from(spec_fnv1a_from(h, a), b) == spec_fnv1a_from(h, a + b),
    decreases b.len(),
{
    if b.len() == 0 {
        assert(a + b =~= a);
    } else {
        lemma_fnv1a_append(h, a, b.drop_last());
        assert((a + b).drop_last() =~= a + b.drop_last());
        assert((a + b).last() == b.last());
    }
}

pub struct Fnv1a64 {
    hash: u64,
}

impl Fnv1a64 {
    /// The hasher state.
    pub closed spec fn spec_state(&self) -> u64 {
        self.hash
    }

    pub fn new() -> (r: Fnv1a64)
        ensures
            r.spec_state() == FNV_OFFSET_BASIS,
    {
        Fnv1a64 { hash: FNV_OFFSET_BASIS }
    }

    /// Absorbs `data` into the hasher state, one FNV-1a round per byte.
    pub fn write(&mut self, data: &[u8])
        ensures
            final(self).spec_state() == spec_fnv1a_from(old(self).spec_state(), data@),
    {
        let ghost h0 = self.hash;
        let mut i: usize = 0;
        while i < data.len()
            invariant
                i <= data@.len(),
                self.hash == spec_fnv1a_from(h0, data@.take(i as int)),
            decreases data@.len() - i,
        {
            let b = data[i];
            self.hash = (self.hash ^ (b as u64)).wrapping_mul(FNV_PRIME);
            i = i + 1;
            proof {
                assert(data@.take(i as int).drop_last() =~= data@.take(i as int - 1));
                assert(data@.take(i as int).last() == b);
            }
        }
        proof {
            assert(data@.take(data@.len() as int) =~= data@);
        }
    }

    /// The current hash value.
    pub fn finish(&self) -> (r: u64)
        ensures
            r == self.spec_state(),
    {
        self.hash
    }
}

/// The FNV-1a-64 hash of a byte vector.
pub fn fnv1a64(data: &Vec<u8>) -> (r: u64)
    ensures
        r == spec_fnv1a64(data@),
{
    let mut hasher = Fnv1a64::new();
    hasher.write(data.as_slice());
    hasher.finish()
}

/// The message identifier for `data` with nonce `nonce`: the hash of the
/// parts in order, followed by the big-endian nonce.
pub fn message_id(data: &Vec<Vec<u8>>, nonce: u64) -> (r: u64)
    ensures
        r == spec_message_id(data.deep_view(), nonce),
{
    let mut hasher = Fnv1a64::new();
    let mut i: usize = 0;
    while i < data.len()
        invariant
            i <= data@.len(),
            hasher.spec_state() == spec_fnv1a_parts(FNV_OFFSET_BASIS, data.deep_view().take(i as int)),
        decreases data@.len() - i,
    {
        hasher.write(data[i].as_slice());
        i = i + 1;
        proof {
            assert(data.deep_view().take(i as int).drop_last() =~= data.deep_view().take(
                i as int - 1,
            ));
            assert(data.deep_view().take(i as int).last() == data@[i - 1]@);
        }
    }
    proof {
        assert(data.deep_view().take(data@.len() as int) =~= data.deep_view());
    }
    let nonce_bytes = crate::bytes::u64_be_vec(nonce);
    hasher.write(nonce_bytes.as_slice());
    hasher.finish()
}

} // verus!
