//! The FNV-1a hash function over byte strings.
use vstd::prelude::*;

verus! {

/// The FNV-1a offset basis.
pub const FNV_OFFSET_BASIS: u64 = 0xcbf29ce484222325;

/// The FNV-1a prime.
pub const FNV_PRIME: u64 = 0x100000001b3;

/// One FNV-1a round: fold a byte into the state.
pub open spec fn fnv1a_step(state: u64, byte: u8) -> u64 {
    (((state ^ (byte as u64)) as int * (FNV_PRIME as int)) % 0x1_0000_0000_0000_0000) as u64
}

/// The FNV-1a state after absorbing `bytes`, starting from `state`.
pub open spec fn fnv1a_update(state: u64, bytes: Seq<u8>) -> u64
    decreases bytes.len(),
{
    if bytes.len() == 0 {
        state
    } else {
        fnv1a_step(fnv1a_update(state, bytes.drop_last()), bytes.last())
    }
}

/// An FNV-1a hasher.
#[derive(Debug)]
pub struct FNV1A(u64);

impl FNV1A {
    /// The current hash state.
    pub closed spec fn state(self) -> u64 {
        self.0
    }

    /// Absorb `bytes` into the hash state.
    #[verifier::loop_isolation(false)]
    pub fn write(&mut self, bytes: &[u8])
        ensures
            final(self).state() == fnv1a_update(old(self).state(), bytes@),
    {
        let ghost s0 = self.0;
        let n = bytes.len();
        let mut i: usize = 0;
        proof {
            assert(bytes@.take(0) =~= Seq::<u8>::empty());
        }
        while i < n
            invariant
                i <= n,
                self.0 == fnv1a_update(s0, bytes@.take(i as int)),
            decreases n - i,
        {
            proof {
                assert(bytes@.take(i + 1 as int).drop_last() =~= bytes@.take(i as int));
                assert(bytes@.take(i + 1 as int).last() == bytes@[i as int]);
            }
            let tmp = self.0 ^ (bytes[i] as u64);
            let prod: u128 = (tmp as u128) * (FNV_PRIME as u128);
            self.0 = #[verifier::truncate] (prod as u64);
            proof {
                assert((tmp as u128) * (FNV_PRIME as u128) == (tmp as int) * (FNV_PRIME as int));
                assert((prod as u64) as int == (prod as int) % 0x1_0000_0000_0000_0000) by (
                bit_vector);
            }
            i += 1;
        }
        proof {
            assert(bytes@.take(n as int) =~= bytes@);
        }
    }

    /// The accumulated hash value.
    pub fn finish(&self) -> (r: u64)
        ensures
            r == self.state(),
    {
        self.0
    }
}

impl Default for FNV1A {
    /// A hasher primed with the FNV offset basis.
    fn default() -> (r: Self)
        ensures
            r.state() == FNV_OFFSET_BASIS,
    {
        FNV1A(FNV_OFFSET_BASIS)
    }
}

} // verus!
