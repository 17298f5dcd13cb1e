//! CRC-32, the checksum Roland stores per record in SVZ areas.
//!
//! The standard reflected polynomial (`0xEDB88320`), with initial value and final xor `0xFFFFFFFF`,
//! computed over the record's bytes.

use vstd::prelude::*;

verus! {

/// The reflected CRC-32 polynomial used by zlib, PNG, and Roland's SVZ record table.
pub const POLYNOMIAL: u32 = 0xEDB8_8320;

/// One bit of the reflected CRC register update.
pub open spec fn crc_bit(crc: u32) -> u32 {
    if crc & 1 == 1 {
        (crc >> 1) ^ POLYNOMIAL
    } else {
        crc >> 1
    }
}

/// `n` bit updates in a row.
pub open spec fn crc_bits(crc: u32, n: nat) -> u32
    decreases n,
{
    if n == 0 {
        crc
    } else {
        crc_bits(crc_bit(crc), (n - 1) as nat)
    }
}

/// The register after absorbing one byte.
pub open spec fn crc_byte(crc: u32, byte: u8) -> u32 {
    crc_bits(crc ^ (byte as u32), 8)
}

/// The register after absorbing every byte of `bytes`, starting from all ones.
pub open spec fn crc_register(bytes: Seq<u8>) -> u32
    decreases bytes.len(),
{
    if bytes.len() == 0 {
        0xFFFF_FFFFu32
    } else {
        crc_byte(crc_register(bytes.drop_last()), bytes.last())
    }
}

/// The CRC-32 of a byte sequence: the final register, inverted.
pub open spec fn spec_crc32(bytes: Seq<u8>) -> u32 {
    !crc_register(bytes)
}

/// CRC-32 of `bytes`.
pub fn crc32(bytes: &[u8]) -> (sum: u32)
    ensures
        sum == spec_crc32(bytes@),
{
    let mut crc: u32 = 0xFFFF_FFFF;
    let mut i: usize = 0;
    while i < bytes.len()
        invariant
            i <= bytes@.len(),
            crc == crc_register(bytes@.subrange(0, i as int)),
        decreases bytes@.len() - i,
    {
        let ghost before = crc;
        crc = crc ^ (bytes[i] as u32);
        let mut k: usize = 0;
        while k < 8
            invariant
                k <= 8,
                crc_bits(crc, (8 - k) as nat) == crc_byte(before, bytes@[i as int]),
            decreases 8 - k,
        {
            if crc & 1 == 1 {
                crc = (crc >> 1) ^ POLYNOMIAL;
            } else {
                crc = crc >> 1;
            }
            k = k + 1;
        }
        proof {
            assert(bytes@.subrange(0, i + 1).drop_last() =~= bytes@.subrange(0, i as int));
        }
        i = i + 1;
    }
    proof {
        assert(bytes@.subrange(0, bytes@.len() as int) =~= bytes@);
    }
    !crc
}

} // verus!

verus! {

proof fn lemma_bit_injective(a: u32, b: u32)
    requires
        crc_bit(a) == crc_bit(b),
    ensures
        a == b,
{
    assert(crc_bit(a) == crc_bit(b) ==> a == b) by (bit_vector);
}

proof fn lemma_bits_injective(a: u32, b: u32, n: nat)
    requires
        crc_bits(a, n) == crc_bits(b, n),
    ensures
        a == b,
    decreases n,
{
    if n > 0 {
        lemma_bits_injective(crc_bit(a), crc_bit(b), (n - 1) as nat);
        lemma_bit_injective(a, b);
    }
}

proof fn lemma_byte_injective(s1: u32, b1: u8, s2: u32, b2: u8)
    requires
        crc_byte(s1, b1) == crc_byte(s2, b2),
        s1 == s2 || b1 == b2,
    ensures
        s1 == s2 && b1 == b2,
{
    lemma_bits_injective(s1 ^ (b1 as u32), s2 ^ (b2 as u32), 8);
    assert(s1 ^ (b1 as u32) == s2 ^ (b2 as u32) && (s1 == s2 || b1 == b2) ==> s1 == s2 && b1 == b2)
        by (bit_vector);
}

proof fn lemma_registers_differ(x: Seq<u8>, y: Seq<u8>, k: int, n: int)
    requires
        x.len() == y.len(),
        0 <= k < n <= x.len(),
        x[k] != y[k],
        forall|i: int| 0 <= i < x.len() && i != k ==> x[i] == y[i],
    ensures
        crc_register(x.take(n)) != crc_register(y.take(n)),
    decreases n,
{
    assert(x.take(n).drop_last() =~= x.take(n - 1));
    assert(y.take(n).drop_last() =~= y.take(n - 1));
    if n - 1 == k {
        assert forall|i: int| 0 <= i < k implies x.take(k)[i] == y.take(k)[i] by {}
        assert(x.take(k) =~= y.take(k));
        if crc_register(x.take(n)) == crc_register(y.take(n)) {
            lemma_byte_injective(crc_register(x.take(k)), x[k], crc_register(y.take(k)), y[k]);
        }
    } else {
        lemma_registers_differ(x, y, k, n - 1);
        if crc_register(x.take(n)) == crc_register(y.take(n)) {
            lemma_byte_injective(crc_register(x.take(n - 1)), x[n - 1], crc_register(y.take(n - 1)), y[n - 1]);
        }
    }
}

/// Changing one byte of a record always changes its CRC-32: a record edited in one byte never
/// keeps its checksum.
pub proof fn law_one_byte_changes_checksum(x: Seq<u8>, y: Seq<u8>, k: int)
    requires
        x.len() == y.len(),
        0 <= k < x.len(),
        x[k] != y[k],
        forall|i: int| 0 <= i < x.len() && i != k ==> x[i] == y[i],
    ensures
        spec_crc32(x) != spec_crc32(y),
{
    lemma_registers_differ(x, y, k, x.len() as int);
    assert(x.take(x.len() as int) =~= x);
    assert(y.take(y.len() as int) =~= y);
    let a = crc_register(x);
    let b = crc_register(y);
    assert(a != b ==> !a != !b) by (bit_vector);
}

} // verus!
