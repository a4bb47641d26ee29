//! The hash of map keys: 64-bit FNV-1a over the key's bytes. It is part of
//! the wire form, since readers replay the probe sequence from it.
use vstd::prelude::*;

verus! {

/// Starting state of the hash.
pub const FNV_OFFSET: u64 = 0xcbf2_9ce4_8422_2325;

/// Multiplier of the hash.
pub const FNV_PRIME: u64 = 0x0000_0100_0000_01b3;

/// One step of the hash: mix in byte `b`.
pub open spec fn fnv_step(h: u64, b: u8) -> u64 {
    (((h ^ (b as u64)) as nat * FNV_PRIME as nat) % 0x1_0000_0000_0000_0000) as u64
}

/// Hash of the byte string `s`.
pub open spec fn fnv(s: Seq<u8>) -> u64
    decreases s.len(),
{
    if s.len() == 0 {
        FNV_OFFSET
    } else {
        fnv_step(fnv(s.drop_last()), s.last())
    }
}

/// Hash of the byte string `s`.
pub fn hash_bytes(s: &[u8]) -> (r: u64)
    ensures
        r == fnv(s@),
{
    let mut h: u64 = FNV_OFFSET;
    let mut i: usize = 0;
    while i < s.len()
        invariant
            i <= s@.len(),
            h == fnv(s@.take(i as int)),
        decreases s@.len() - i,
    {
        let x: u64 = h ^ (s[i] as u64);
        assert((x as u128) * (FNV_PRIME as u128) < 0x1_0000_0000_0000_0000_0000_0000_0000_0000)
            by (nonlinear_arith)
            requires
                x < 0x1_0000_0000_0000_0000u128,
        ;
        let prod: u128 = (x as u128) * (FNV_PRIME as u128);
        h = (prod % 0x1_0000_0000_0000_0000) as u64;
        proof {
            assert(s@.take(i + 1).drop_last() =~= s@.take(i as int));
        }
        i = i + 1;
    }
    assert(s@.take(s@.len() as int) =~= s@);
    h
}

} // verus!
