use vstd::prelude::*;

verus! {

/// FNV-1a offset basis for 32-bit hashes.
pub const FNV_OFFSET_BASIS: u32 = 0x811c9dc5u32;

/// FNV-1a prime for 32-bit hashes.
pub const FNV_PRIME: u32 = 0x01000193u32;

/// One FNV-1a step: xor the byte in, then multiply by the prime modulo 2^32.
pub open spec fn fnv1a32_step(hash: u32, b: u8) -> u32 {
    (((hash ^ (b as u32)) as nat * FNV_PRIME as nat) % 0x1_0000_0000nat) as u32
}

/// FNV-1a over all bytes of `data`, starting from `hash`.
pub open spec fn fnv1a32_fold(hash: u32, data: Seq<u8>) -> u32
    decreases data.len(),
{
    if data.len() == 0 {
        hash
    } else {
        fnv1a32_fold(fnv1a32_step(hash, data[0]), data.drop_first())
    }
}

/// The 32-bit FNV-1a hash, except that empty input hashes to 0.
pub open spec fn spec_fnv1a32(data: Seq<u8>) -> u32 {
    if data.len() == 0 {
        0
    } else {
        fnv1a32_fold(FNV_OFFSET_BASIS, data)
    }
}

proof fn lemma_fold_snoc(hash: u32, data: Seq<u8>, b: u8)
    ensures
        fnv1a32_fold(hash, data.push(b)) == fnv1a32_step(fnv1a32_fold(hash, data), b),
    decreases data.len(),
{
    if data.len() == 0 {
        assert(data.push(b).drop_first() =~= Seq::<u8>::empty());
        assert(fnv1a32_fold(fnv1a32_step(hash, b), Seq::<u8>::empty()) == fnv1a32_step(hash, b));
    } else {
        assert(data.push(b).drop_first() =~= data.drop_first().push(b));
        lemma_fold_snoc(fnv1a32_step(hash, data[0]), data.drop_first(), b);
    }
}

/// 32-bit FNV-1a hash of `data`; the empty input hashes to 0.
pub fn fnv1a32(data: &[u8]) -> (h: u32)
    ensures
        h == spec_fnv1a32(data@),
{
    if data.len() == 0 {
        return 0;
    }
    let mut hash: u32 = FNV_OFFSET_BASIS;
    let mut i: usize = 0;
    while i < data.len()
        invariant
            0 <= i <= data.len(),
            hash == fnv1a32_fold(FNV_OFFSET_BASIS, data@.take(i as int)),
        decreases data.len() - i,
    {
        proof {
            lemma_fold_snoc(FNV_OFFSET_BASIS, data@.take(i as int), data@[i as int]);
            assert(data@.take(i as int).push(data@[i as int]) =~= data@.take(i + 1));
        }
        hash = (hash ^ (data[i] as u32)).wrapping_mul(FNV_PRIME);
        i = i + 1;
    }
    assert(data@.take(data.len() as int) =~= data@);
    hash
}

} // verus!
