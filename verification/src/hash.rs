//! The hash function shared by the builder and the reader.
use vstd::prelude::*;

verus! {

/// The value every hash computation starts from.
pub const HASH_SEED: u32 = 5381;

/// One step of the hash: `h * 33 XOR b`, truncated to 32 bits.
pub open spec fn hash_step(h: u32, b: u8) -> u32 {
    (((h << 5) as u32).wrapping_add(h)) ^ (b as u32)
}

/// The hash of a byte string: the seed folded over its bytes from left to right.
pub open spec fn hash_spec(key: Seq<u8>) -> u32
    decreases key.len(),
{
    if key.len() == 0 {
        HASH_SEED
    } else {
        hash_step(hash_spec(key.drop_last()), key.last())
    }
}

/// Computes the hash of `key`.
pub fn cdb_hash(key: &[u8]) -> (h: u32)
    ensures
        h == hash_spec(key@),
{
    let mut h: u32 = HASH_SEED;
    let mut i: usize = 0;
    while i < key.len()
        invariant
            i <= key.len(),
            h == hash_spec(key@.take(i as int)),
        decreases key.len() - i,
    {
        let b: u8 = key[i];
        proof {
            assert(key@.take(i + 1).drop_last() =~= key@.take(i as int));
        }
        h = (h << 5).wrapping_add(h) ^ (b as u32);
        i += 1;
    }
    proof {
        assert(key@.take(i as int) =~= key@);
    }
    h
}

} // verus!
