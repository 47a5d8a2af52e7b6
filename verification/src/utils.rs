use vstd::prelude::*;

verus! {

/// One step of djb2: the hash times 33, plus the byte, modulo 2^64.
pub open spec fn hash_step(h: u64, b: u8) -> u64 {
    ((h as nat * 33 + b as nat) % 0x1_0000_0000_0000_0000) as u64
}

/// djb2 over the bytes, starting from `h`.
pub open spec fn hash_bytes(h: u64, bytes: Seq<u8>) -> u64
    decreases bytes.len(),
{
    if bytes.len() == 0 {
        h
    } else {
        hash_step(hash_bytes(h, bytes.drop_last()), bytes.last())
    }
}

proof fn lemma_step(h: u64, b: u8)
    ensures
        vstd::wrapping::u64_specs::wrapping_add(vstd::wrapping::u64_specs::wrapping_add(h << 5u64, h), b as u64) == hash_step(h, b),
{
    assert(vstd::wrapping::u64_specs::wrapping_add(vstd::wrapping::u64_specs::wrapping_add(h << 5u64, h), b as u64)
        == ((h as nat * 33 + b as nat) % 0x1_0000_0000_0000_0000) as u64) by (bit_vector);
}

/// A progressive djb2: the hash `h` of what came before goes on over the serialized bytes of
/// the next value, as though one value were hashed throughout.
pub fn progressive_hash(h: u32, bytes: &[u8]) -> (r: u64)
    ensures
        r == hash_bytes(h as u64, bytes@),
{
    let mut acc: u64 = h as u64;
    let mut i: usize = 0;
    while i < bytes.len()
        invariant
            i <= bytes@.len(),
            acc == hash_bytes(h as u64, bytes@.take(i as int)),
        decreases bytes@.len() - i,
    {
        let b = bytes[i];
        proof {
            lemma_step(acc, b);
            assert(bytes@.take(i + 1).drop_last() =~= bytes@.take(i as int));
        }
        acc = (acc << 5u64).wrapping_add(acc).wrapping_add(b as u64);
        i = i + 1;
    }
    assert(bytes@.take(bytes@.len() as int) =~= bytes@);
    acc
}

/// Hashing goes on where it left off: hashing `a` and then `b` from the result is hashing
/// `a` followed by `b`.
pub proof fn law_hash_progressive(h: u64, a: Seq<u8>, b: Seq<u8>)
    ensures
        hash_bytes(hash_bytes(h, a), b) == hash_bytes(h, a + b),
    decreases b.len(),
{
    if b.len() == 0 {
        assert(a + b =~= a);
    } else {
        law_hash_progressive(h, a, b.drop_last());
        assert((a + b).drop_last() =~= a + b.drop_last());
    }
}

} // verus!
