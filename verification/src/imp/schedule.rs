//! Key schedule: the round keys a master key gives rise to.

use vstd::prelude::*;

verus! {

/// Odd multiplier applied to every shifted key byte.
pub const KEY_MULTIPLIER: u8 = 113;

/// Inverse of [`KEY_MULTIPLIER`] modulo 256.
pub const INV_KEY_MULTIPLIER: u8 = 145;

/// One byte of a round key: the master key byte shifted left by the round
/// index, times 113 modulo 256.
pub open spec fn round_key_byte(k: u8, round: u32) -> u8 {
    (k << round).wrapping_mul(KEY_MULTIPLIER)
}

/// Round key `round` of a 16-byte master key.
pub open spec fn round_key_128(master: Seq<u8>, round: int) -> Seq<u8> {
    Seq::new(16, |j: int| round_key_byte(master[j], round as u32))
}

/// Round key `round` of a 32-byte master key: the two halves are expanded
/// on their own and folded into one key by exclusive or.
pub open spec fn round_key_256(master: Seq<u8>, round: int) -> Seq<u8> {
    Seq::new(
        16,
        |j: int|
            round_key_byte(master[j + 16], round as u32) ^ round_key_byte(master[j], round as u32),
    )
}

/// The five round keys of a 16-byte master key, in round order.
pub open spec fn schedule_128(master: Seq<u8>) -> Seq<Seq<u8>> {
    Seq::new(5, |i: int| round_key_128(master, i))
}

/// The eight round keys of a 32-byte master key, in round order.
pub open spec fn schedule_256(master: Seq<u8>) -> Seq<Seq<u8>> {
    Seq::new(8, |i: int| round_key_256(master, i))
}

/// The stored round keys as sequences of bytes.
pub open spec fn rows(keys: Seq<[u8; 16]>) -> Seq<Seq<u8>> {
    Seq::new(keys.len(), |i: int| keys[i]@)
}

/// In round 0 no key bit is shifted out, and the multiplication is undone
/// by its inverse: the first round key determines the master key byte.
pub proof fn lemma_round_key_byte_bijective(k: u8)
    ensures
        round_key_byte(k, 0).wrapping_mul(INV_KEY_MULTIPLIER) == k,
{
    assert(k << 0u32 == k) by (bit_vector);
    crate::imp::primitives::lemma_mul_inverse_mod(
        k as int,
        KEY_MULTIPLIER as int,
        INV_KEY_MULTIPLIER as int,
        0x100,
    );
}

/// Expands one master key byte for round `round`.
pub fn expand_key_byte(k: u8, round: u32) -> (r: u8)
    requires
        round < 8,
    ensures
        r == round_key_byte(k, round),
{
    (k << round).wrapping_mul(KEY_MULTIPLIER)
}

/// Derives the five round keys of the 128-bit cipher.
pub fn derive_128(master: &[u8; 16]) -> (keys: [[u8; 16]; 5])
    ensures
        rows(keys@) == schedule_128(master@),
{
    let mut keys: [[u8; 16]; 5] = [[0u8; 16]; 5];
    for i in 0..5usize
        invariant
            forall|t: int| 0 <= t < i ==> (#[trigger] keys@[t])@ == round_key_128(master@, t),
    {
        let mut ki: [u8; 16] = [0u8; 16];
        for j in 0..16usize
            invariant
                i < 5,
                forall|u: int| 0 <= u < j ==> ki@[u] == round_key_byte(master@[u], i as u32),
        {
            ki[j] = expand_key_byte(master[j], i as u32);
        }
        assert(ki@ =~= round_key_128(master@, i as int));
        keys[i] = ki;
    }
    assert(rows(keys@) =~= schedule_128(master@));
    keys
}

/// Derives the eight round keys of the 256-bit cipher.
pub fn derive_256(master: &[u8; 32]) -> (keys: [[u8; 16]; 8])
    ensures
        rows(keys@) == schedule_256(master@),
{
    let mut keys: [[u8; 16]; 8] = [[0u8; 16]; 8];
    for i in 0..8usize
        invariant
            forall|t: int| 0 <= t < i ==> (#[trigger] keys@[t])@ == round_key_256(master@, t),
    {
        let mut lo: [u8; 16] = [0u8; 16];
        for j in 0..16usize
            invariant
                i < 8,
                forall|u: int|
                    0 <= u < j ==> lo@[u] == round_key_byte(master@[u + 16], i as u32)
                        ^ round_key_byte(master@[u], i as u32),
        {
            let hi: u8 = expand_key_byte(master[j], i as u32);
            lo[j] = expand_key_byte(master[j + 16], i as u32) ^ hi;
        }
        assert(lo@ =~= round_key_256(master@, i as int));
        keys[i] = lo;
    }
    assert(rows(keys@) =~= schedule_256(master@));
    keys
}

} // verus!
