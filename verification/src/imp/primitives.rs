//! The layers of a round and the round itself, for both lane widths, each
//! with its exact inverse.

use vstd::arithmetic::div_mod::{lemma_mul_mod_noop_left, lemma_mul_mod_noop_right};
use vstd::prelude::*;

use crate::imp::lanes::{
    and_b, and_i, from_wide, from_words, lemma_pack_wide_inverse, lemma_pack_words_inverse,
    lemma_permute_lanes_inverse, lemma_rotate_lanes_inverse, mul_b, mul_i, mul_lanes_b,
    mul_lanes_i, mul_lanes_wide, mul_wide, not_b, not_i, or_i, pack_wide, pack_words,
    permute_lanes, rotate_lanes_left, rotate_lanes_right, rotate_left_b, rotate_left_i,
    rotate_right_b, rotate_right_i, shl_b, shl_i, shr_b, shr_i, splat_b, splat_i, swizzle_b,
    swizzle_i, tables_invert, to_wide, to_words, unpack_wide, unpack_words, xor_b, xor_i,
    xor_lanes_b, xor_lanes_i,
};
use crate::imp::{Flags, Mode, Permute};

verus! {

// ---------------------------------------------------------------------------
// Fixed data
// ---------------------------------------------------------------------------

/// Lane table of the byte permutation layer.
pub const P: [usize; 16] = [5, 6, 7, 4, 9, 10, 11, 8, 13, 14, 15, 12, 1, 2, 3, 0];

/// Inverse of [`P`].
pub const INV_P: [usize; 16] = [15, 12, 13, 14, 3, 0, 1, 2, 7, 4, 5, 6, 11, 8, 9, 10];

/// Lane table of the word permutation layer.
pub const PI: [usize; 4] = [1, 3, 0, 2];

/// Inverse of [`PI`].
pub const INV_PI: [usize; 4] = [2, 0, 3, 1];

/// Substitution multiplier for byte lanes.
pub const S: u8 = 191;

/// Inverse of [`S`] modulo 256.
pub const INV_S: u8 = 63;

/// Substitution multiplier for word lanes.
pub const SI: u32 = 1_347_249_345;

/// Inverse of [`SI`] modulo 2^32.
pub const INV_SI: u32 = 112_012_097;

/// Expansion multiplier for 64-bit lanes.
pub const E: u64 = 0x7FBF_7FBF_7FBF_7FBF;

/// Inverse of [`E`] modulo 2^64.
pub const INV_E: u64 = 2_218_482_843_833_888_831;

/// Bit mask of the masked diffusion: the even bits of a byte lane.
pub const M1B: u8 = 0x55;

/// Bit mask of the masked diffusion: the low bit pair of each nibble.
pub const M2B: u8 = 0x33;

/// Bit mask of the masked diffusion: the low nibble.
pub const M3B: u8 = 0x0F;

/// Lane mask of the masked diffusion: the byte lanes with an odd index.
pub const M4B: [u8; 16] = [
    0x00, 0xFF, 0x00, 0xFF, 0x00, 0xFF, 0x00, 0xFF, 0x00, 0xFF, 0x00, 0xFF, 0x00, 0xFF, 0x00, 0xFF,
];

/// Lane mask of the masked diffusion: the upper lane pair of each group of four.
pub const M5B: [u8; 16] = [
    0x00, 0x00, 0xFF, 0xFF, 0x00, 0x00, 0xFF, 0xFF, 0x00, 0x00, 0xFF, 0xFF, 0x00, 0x00, 0xFF, 0xFF,
];

/// Lane mask of the masked diffusion: the upper four lanes of each group of eight.
pub const M6B: [u8; 16] = [
    0x00, 0x00, 0x00, 0x00, 0xFF, 0xFF, 0xFF, 0xFF, 0x00, 0x00, 0x00, 0x00, 0xFF, 0xFF, 0xFF, 0xFF,
];

/// Lane mask of the masked diffusion: the upper eight lanes.
pub const M7B: [u8; 16] = [
    0x00, 0x00, 0x00, 0x00, 0x00, 0x00, 0x00, 0x00, 0xFF, 0xFF, 0xFF, 0xFF, 0xFF, 0xFF, 0xFF, 0xFF,
];

/// Bit mask of the masked diffusion: the even bits of a word lane.
pub const M1I: u32 = 0x5555_5555;

/// Bit mask of the masked diffusion: the low bit pair of each nibble.
pub const M2I: u32 = 0x3333_3333;

/// Bit mask of the masked diffusion: the low nibble of each byte.
pub const M3I: u32 = 0x0F0F_0F0F;

/// Bit mask of the masked diffusion: the low byte of each half word.
pub const M4I: u32 = 0x00FF_00FF;

/// Bit mask of the masked diffusion: the low half word.
pub const M5I: u32 = 0x0000_FFFF;

/// Lane mask of the masked diffusion: the word lanes with an odd index.
pub const M6I: [u32; 4] = [0x0000_0000, 0xFFFF_FFFF, 0x0000_0000, 0xFFFF_FFFF];

/// Lane mask of the masked diffusion: the upper two word lanes.
pub const M7I: [u32; 4] = [0x0000_0000, 0x0000_0000, 0xFFFF_FFFF, 0xFFFF_FFFF];

/// Lanes by which the byte rotation layer turns the state.
pub const ROTATION_B: usize = 7;

/// Lanes by which the word rotation layer turns the state.
pub const ROTATION_I: usize = 1;

/// The fixed tables and multipliers are consistent: each table is undone by
/// its declared inverse, each multiplier is odd, is neither 1 nor -1, and
/// gives 1 when multiplied by its declared inverse.
pub proof fn lemma_fixed_data_consistent()
    ensures
        tables_invert(P@, INV_P@),
        tables_invert(PI@, INV_PI@),
        S % 2 == 1 && 1 < S < 255 && (S * INV_S) % 0x100 == 1,
        SI % 2 == 1 && 1 < SI < 0xFFFF_FFFF && (SI * INV_SI) % 0x1_0000_0000 == 1,
        E % 2 == 1 && 1 < E < 0xFFFF_FFFF_FFFF_FFFF && (E * INV_E) % 0x1_0000_0000_0000_0000 == 1,
{
}

// ---------------------------------------------------------------------------
// Substitution
// ---------------------------------------------------------------------------

/// Multiplying by `s` and then by `t` modulo `m` changes nothing when
/// `s * t` is 1 modulo `m`.
pub proof fn lemma_mul_inverse_mod(x: int, s: int, t: int, m: int)
    requires
        0 <= x < m,
        (s * t) % m == 1,
    ensures
        (((x * s) % m) * t) % m == x,
{
    lemma_mul_mod_noop_left(x * s, t, m);
    assert((x * s) * t == x * (s * t)) by (nonlinear_arith);
    lemma_mul_mod_noop_right(x, s * t, m);
    vstd::arithmetic::div_mod::lemma_small_mod(x as nat, m as nat);
}

/// The substitution of one byte lane.
pub open spec fn substitute_lane_b(x: u8) -> u8 {
    x.wrapping_mul(S)
}

/// The inverse substitution of one byte lane.
pub open spec fn inverse_substitute_lane_b(x: u8) -> u8 {
    x.wrapping_mul(INV_S)
}

/// The substitution of one word lane.
pub open spec fn substitute_lane_i(x: u32) -> u32 {
    x.wrapping_mul(SI)
}

/// The inverse substitution of one word lane.
pub open spec fn inverse_substitute_lane_i(x: u32) -> u32 {
    x.wrapping_mul(INV_SI)
}

/// Substitution is a bijection of the byte values: the inverse substitution
/// undoes it on every byte, and it undoes the inverse substitution.
pub proof fn lemma_substitute_lane_b_inverse(x: u8)
    ensures
        inverse_substitute_lane_b(substitute_lane_b(x)) == x,
        substitute_lane_b(inverse_substitute_lane_b(x)) == x,
{
    lemma_mul_inverse_mod(x as int, S as int, INV_S as int, 0x100);
    lemma_mul_inverse_mod(x as int, INV_S as int, S as int, 0x100);
}

/// Substitution is a bijection of the word values: the inverse substitution
/// undoes it on every word, and it undoes the inverse substitution.
pub proof fn lemma_substitute_lane_i_inverse(x: u32)
    ensures
        inverse_substitute_lane_i(substitute_lane_i(x)) == x,
        substitute_lane_i(inverse_substitute_lane_i(x)) == x,
{
    lemma_mul_inverse_mod(x as int, SI as int, INV_SI as int, 0x1_0000_0000);
    lemma_mul_inverse_mod(x as int, INV_SI as int, SI as int, 0x1_0000_0000);
}

/// Multiplying a 64-bit lane by `E` and by `INV_E`, in either order, changes nothing.
pub proof fn lemma_expand_lane_inverse(x: u64)
    ensures
        x.wrapping_mul(E).wrapping_mul(INV_E) == x,
        x.wrapping_mul(INV_E).wrapping_mul(E) == x,
{
    lemma_mul_inverse_mod(x as int, E as int, INV_E as int, 0x1_0000_0000_0000_0000);
    lemma_mul_inverse_mod(x as int, INV_E as int, E as int, 0x1_0000_0000_0000_0000);
}

/// Substitution layer on byte lanes: every lane times `S` modulo 256.
pub fn substitute_b(a: [u8; 16]) -> (r: [u8; 16])
    ensures
        r@ == mul_lanes_b(a@, S),
{
    mul_b(a, S)
}

/// Inverse substitution layer on byte lanes: every lane times `INV_S` modulo 256.
pub fn inverse_substitute_b(a: [u8; 16]) -> (r: [u8; 16])
    ensures
        r@ == mul_lanes_b(a@, INV_S),
{
    mul_b(a, INV_S)
}

/// Substitution layer on word lanes: every lane times `SI` modulo 2^32.
pub fn substitute_i(a: [u32; 4]) -> (r: [u32; 4])
    ensures
        r@ == mul_lanes_i(a@, SI),
{
    mul_i(a, SI)
}

/// Inverse substitution layer on word lanes: every lane times `INV_SI` modulo 2^32.
pub fn inverse_substitute_i(a: [u32; 4]) -> (r: [u32; 4])
    ensures
        r@ == mul_lanes_i(a@, INV_SI),
{
    mul_i(a, INV_SI)
}

/// The inverse substitution layer undoes the substitution layer on every
/// byte vector, and the other way round.
pub proof fn lemma_substitute_b_inverse(a: Seq<u8>)
    ensures
        mul_lanes_b(mul_lanes_b(a, S), INV_S) == a,
        mul_lanes_b(mul_lanes_b(a, INV_S), S) == a,
{
    assert forall|i: int| 0 <= i < a.len() implies mul_lanes_b(mul_lanes_b(a, S), INV_S)[i]
        == a[i] by {
        lemma_substitute_lane_b_inverse(a[i]);
    }
    assert forall|i: int| 0 <= i < a.len() implies mul_lanes_b(mul_lanes_b(a, INV_S), S)[i]
        == a[i] by {
        lemma_substitute_lane_b_inverse(a[i]);
    }
    assert(mul_lanes_b(mul_lanes_b(a, S), INV_S) =~= a);
    assert(mul_lanes_b(mul_lanes_b(a, INV_S), S) =~= a);
}

/// The inverse substitution layer undoes the substitution layer on every
/// word vector, and the other way round.
pub proof fn lemma_substitute_i_inverse(a: Seq<u32>)
    ensures
        mul_lanes_i(mul_lanes_i(a, SI), INV_SI) == a,
        mul_lanes_i(mul_lanes_i(a, INV_SI), SI) == a,
{
    assert forall|i: int| 0 <= i < a.len() implies mul_lanes_i(mul_lanes_i(a, SI), INV_SI)[i]
        == a[i] by {
        lemma_substitute_lane_i_inverse(a[i]);
    }
    assert forall|i: int| 0 <= i < a.len() implies mul_lanes_i(mul_lanes_i(a, INV_SI), SI)[i]
        == a[i] by {
        lemma_substitute_lane_i_inverse(a[i]);
    }
    assert(mul_lanes_i(mul_lanes_i(a, SI), INV_SI) =~= a);
    assert(mul_lanes_i(mul_lanes_i(a, INV_SI), SI) =~= a);
}

// ---------------------------------------------------------------------------
// Odd-multiplier expansion
// ---------------------------------------------------------------------------

/// The state read as two little-endian 64-bit lanes, each multiplied by `m`
/// modulo 2^64, written back as bytes.
pub open spec fn scale_wide(a: Seq<u8>, m: u64) -> Seq<u8> {
    unpack_wide(mul_lanes_wide(pack_wide(a), m))
}

/// Expansion layer: the state as two 64-bit lanes, each times `E` modulo 2^64.
pub fn expansion_b(a: [u8; 16]) -> (r: [u8; 16])
    ensures
        r@ == scale_wide(a@, E),
{
    from_wide(mul_wide(to_wide(a), E))
}

/// Inverse expansion layer: the state as two 64-bit lanes, each times
/// `INV_E` modulo 2^64.
pub fn inv_expansion_b(a: [u8; 16]) -> (r: [u8; 16])
    ensures
        r@ == scale_wide(a@, INV_E),
{
    from_wide(mul_wide(to_wide(a), INV_E))
}

/// The inverse expansion undoes the expansion on every state, and the other
/// way round.
pub proof fn lemma_expansion_b_inverse(a: Seq<u8>)
    requires
        a.len() == 16,
    ensures
        scale_wide(scale_wide(a, E), INV_E) == a,
        scale_wide(scale_wide(a, INV_E), E) == a,
{
    let w = pack_wide(a);
    let we = mul_lanes_wide(w, E);
    let wi = mul_lanes_wide(w, INV_E);
    lemma_pack_wide_inverse(a, we);
    lemma_pack_wide_inverse(a, wi);
    assert forall|j: int| 0 <= j < 2 implies mul_lanes_wide(we, INV_E)[j] == w[j] by {
        lemma_expand_lane_inverse(w[j]);
    }
    assert forall|j: int| 0 <= j < 2 implies mul_lanes_wide(wi, E)[j] == w[j] by {
        lemma_expand_lane_inverse(w[j]);
    }
    assert(mul_lanes_wide(we, INV_E) =~= w);
    assert(mul_lanes_wide(wi, E) =~= w);
}

// ---------------------------------------------------------------------------
// Rotation and permutation
// ---------------------------------------------------------------------------

/// A 32-bit lane with its bits rotated right by one byte.
pub open spec fn ror8(w: u32) -> u32 {
    (w >> 8) | (w << 24)
}

/// A 32-bit lane with its bits rotated left by one byte.
pub open spec fn rol8(w: u32) -> u32 {
    (w << 8) | (w >> 24)
}

/// The word rotation layer: lanes turned by one towards lane 0, then every
/// lane turned right by one byte.
pub open spec fn rotate_i_spec(a: Seq<u32>) -> Seq<u32> {
    Seq::new(a.len(), |i: int| ror8(rotate_lanes_left(a, 1)[i]))
}

/// The inverse word rotation layer: lanes turned by one away from lane 0,
/// then every lane turned left by one byte.
pub open spec fn inverse_rotate_i_spec(a: Seq<u32>) -> Seq<u32> {
    Seq::new(a.len(), |i: int| rol8(rotate_lanes_right(a, 1)[i]))
}

/// Rotation layer on byte lanes: the lanes turned by seven towards lane 0.
pub fn rotate_b(a: [u8; 16]) -> (r: [u8; 16])
    ensures
        r@ == rotate_lanes_left(a@, 7),
{
    rotate_left_b(a, ROTATION_B)
}

/// Inverse rotation layer on byte lanes: the lanes turned by seven away from lane 0.
pub fn inverse_rotate_b(a: [u8; 16]) -> (r: [u8; 16])
    ensures
        r@ == rotate_lanes_right(a@, 7),
{
    rotate_right_b(a, ROTATION_B)
}

/// Rotation layer on word lanes.
pub fn rotate_i(a: [u32; 4]) -> (r: [u32; 4])
    ensures
        r@ == rotate_i_spec(a@),
{
    let b = rotate_left_i(a, ROTATION_I);
    let r = or_i(shr_i(b, 8), shl_i(b, 24));
    assert(r@ =~= rotate_i_spec(a@));
    r
}

/// Inverse rotation layer on word lanes.
pub fn inverse_rotate_i(a: [u32; 4]) -> (r: [u32; 4])
    ensures
        r@ == inverse_rotate_i_spec(a@),
{
    let b = rotate_right_i(a, ROTATION_I);
    let r = or_i(shl_i(b, 8), shr_i(b, 24));
    assert(r@ =~= inverse_rotate_i_spec(a@));
    r
}

/// Permutation layer on byte lanes: lane `i` of the result is lane `P[i]`.
pub fn permute_b(a: [u8; 16]) -> (r: [u8; 16])
    ensures
        r@ == permute_lanes(a@, P@),
{
    swizzle_b(a, &P)
}

/// Inverse permutation layer on byte lanes.
pub fn inverse_permute_b(a: [u8; 16]) -> (r: [u8; 16])
    ensures
        r@ == permute_lanes(a@, INV_P@),
{
    swizzle_b(a, &INV_P)
}

/// Permutation layer on word lanes: lane `i` of the result is lane `PI[i]`.
pub fn permute_i(a: [u32; 4]) -> (r: [u32; 4])
    ensures
        r@ == permute_lanes(a@, PI@),
{
    swizzle_i(a, &PI)
}

/// Inverse permutation layer on word lanes.
pub fn inverse_permute_i(a: [u32; 4]) -> (r: [u32; 4])
    ensures
        r@ == permute_lanes(a@, INV_PI@),
{
    swizzle_i(a, &INV_PI)
}

/// Turning a word right and then left by one byte changes nothing, and the
/// other way round.
pub proof fn lemma_byte_turns_inverse(w: u32)
    ensures
        rol8(ror8(w)) == w,
        ror8(rol8(w)) == w,
{
    assert((((w >> 8) | (w << 24)) << 8) | (((w >> 8) | (w << 24)) >> 24) == w) by (bit_vector);
    assert((((w << 8) | (w >> 24)) >> 8) | (((w << 8) | (w >> 24)) << 24) == w) by (bit_vector);
}

/// The inverse word rotation undoes the word rotation on every vector of
/// four lanes, and the other way round.
pub proof fn lemma_rotate_i_inverse(a: Seq<u32>)
    requires
        a.len() == 4,
    ensures
        inverse_rotate_i_spec(rotate_i_spec(a)) == a,
        rotate_i_spec(inverse_rotate_i_spec(a)) == a,
{
    let f = rotate_i_spec(a);
    let g = inverse_rotate_i_spec(a);
    assert forall|i: int| 0 <= i < 4 implies inverse_rotate_i_spec(f)[i] == a[i] by {
        let j = (i + 4 - 1) % 4;
        assert(rotate_lanes_right(f, 1)[i] == f[j]);
        assert(f[j] == ror8(rotate_lanes_left(a, 1)[j]));
        assert((j + 1) % 4 == i);
        assert(rotate_lanes_left(a, 1)[j] == a[i]);
        lemma_byte_turns_inverse(a[i]);
    }
    assert forall|i: int| 0 <= i < 4 implies rotate_i_spec(g)[i] == a[i] by {
        let j = (i + 1) % 4;
        assert(rotate_lanes_left(g, 1)[i] == g[j]);
        assert(g[j] == rol8(rotate_lanes_right(a, 1)[j]));
        assert((j + 4 - 1) % 4 == i);
        assert(rotate_lanes_right(a, 1)[j] == a[i]);
        lemma_byte_turns_inverse(a[i]);
    }
    assert(inverse_rotate_i_spec(f) =~= a);
    assert(rotate_i_spec(g) =~= a);
}

// ---------------------------------------------------------------------------
// Masked diffusion
// ---------------------------------------------------------------------------

/// `acc` with `v` mixed in by exclusive or when `present` holds.
pub open spec fn fold_in_b(acc: u8, present: bool, v: u8) -> u8 {
    if present {
        acc ^ v
    } else {
        acc
    }
}

/// `acc` with `v` mixed in by exclusive or when `present` holds.
pub open spec fn fold_in_i(acc: u32, present: bool, v: u32) -> u32 {
    if present {
        acc ^ v
    } else {
        acc
    }
}

/// What the forward diffusion mixes into a byte lane from the lane itself:
/// every bit group selected by a bit mask, moved up by the width of the group.
pub open spec fn mix_up_b(v: u8) -> u8 {
    ((v & M1B) << 1) ^ ((v & M2B) << 2) ^ ((v & M3B) << 4)
}

/// What the inverse-direction diffusion mixes into a byte lane from the lane
/// itself: every bit group left out by a bit mask, moved down by the width
/// of the group.
pub open spec fn mix_down_b(v: u8) -> u8 {
    ((v & !M1B) >> 1) ^ ((v & !M2B) >> 2) ^ ((v & !M3B) >> 4)
}

/// Lane `i` of the masked diffusion of sixteen byte lanes. Forward, the lane
/// takes in its own bits moved up and, for each bit of `i` that is clear,
/// the lane whose index has that bit set. With `inverse`, it takes in its
/// own bits moved down and, for each bit of `i` that is set, the lane whose
/// index has that bit clear.
pub open spec fn diffusion_b_lane(a: Seq<u8>, i: int, inverse: bool) -> u8 {
    if !inverse {
        fold_in_b(
            fold_in_b(
                fold_in_b(
                    fold_in_b(a[i] ^ mix_up_b(a[i]), i % 2 == 0, a[i + 1]),
                    (i / 2) % 2 == 0,
                    a[i + 2],
                ),
                (i / 4) % 2 == 0,
                a[i + 4],
            ),
            (i / 8) % 2 == 0,
            a[i + 8],
        )
    } else {
        fold_in_b(
            fold_in_b(
                fold_in_b(
                    fold_in_b(a[i] ^ mix_down_b(a[i]), i % 2 == 1, a[i - 1]),
                    (i / 2) % 2 == 1,
                    a[i - 2],
                ),
                (i / 4) % 2 == 1,
                a[i - 4],
            ),
            (i / 8) % 2 == 1,
            a[i - 8],
        )
    }
}

/// The masked diffusion of sixteen byte lanes.
pub open spec fn diffusion_b_spec(a: Seq<u8>, inverse: bool) -> Seq<u8> {
    Seq::new(16, |i: int| diffusion_b_lane(a, i, inverse))
}

/// What the forward diffusion mixes into a word lane from the lane itself.
pub open spec fn mix_up_i(v: u32) -> u32 {
    ((v & M1I) << 1) ^ ((v & M2I) << 2) ^ ((v & M3I) << 4) ^ ((v & M4I) << 8) ^ ((v & M5I) << 16)
}

/// What the inverse-direction diffusion mixes into a word lane from the lane itself.
pub open spec fn mix_down_i(v: u32) -> u32 {
    ((v & !M1I) >> 1) ^ ((v & !M2I) >> 2) ^ ((v & !M3I) >> 4) ^ ((v & !M4I) >> 8) ^ ((v & !M5I)
        >> 16)
}

/// Lane `i` of the masked diffusion of four word lanes; see [`diffusion_b_lane`].
pub open spec fn diffusion_i_lane(a: Seq<u32>, i: int, inverse: bool) -> u32 {
    if !inverse {
        fold_in_i(
            fold_in_i(a[i] ^ mix_up_i(a[i]), i % 2 == 0, a[i + 1]),
            (i / 2) % 2 == 0,
            a[i + 2],
        )
    } else {
        fold_in_i(
            fold_in_i(a[i] ^ mix_down_i(a[i]), i % 2 == 1, a[i - 1]),
            (i / 2) % 2 == 1,
            a[i - 2],
        )
    }
}

/// The masked diffusion of four word lanes.
pub open spec fn diffusion_i_spec(a: Seq<u32>, inverse: bool) -> Seq<u32> {
    Seq::new(4, |i: int| diffusion_i_lane(a, i, inverse))
}

/// Mixing in a lane under a lane mask that is all ones or all zeros is
/// mixing it in or leaving it out.
proof fn lemma_masked_fold_b(acc: u8, v: u8, m: u8)
    requires
        m == 0x00 || m == 0xFF,
    ensures
        acc ^ (v & m) == fold_in_b(acc, m == 0xFF, v),
        acc ^ (v & !m) == fold_in_b(acc, m == 0x00, v),
{
    assert(acc ^ (v & 0xFFu8) == acc ^ v) by (bit_vector);
    assert(acc ^ (v & 0x00u8) == acc) by (bit_vector);
    assert(!0x00u8 == 0xFFu8 && !0xFFu8 == 0x00u8) by (bit_vector);
}

/// Mixing in a lane under a lane mask that is all ones or all zeros is
/// mixing it in or leaving it out.
proof fn lemma_masked_fold_i(acc: u32, v: u32, m: u32)
    requires
        m == 0x0000_0000 || m == 0xFFFF_FFFF,
    ensures
        acc ^ (v & m) == fold_in_i(acc, m == 0xFFFF_FFFF, v),
        acc ^ (v & !m) == fold_in_i(acc, m == 0x0000_0000, v),
{
    assert(acc ^ (v & 0xFFFF_FFFFu32) == acc ^ v) by (bit_vector);
    assert(acc ^ (v & 0x0000_0000u32) == acc) by (bit_vector);
    assert(!0x0000_0000u32 == 0xFFFF_FFFFu32 && !0xFFFF_FFFFu32 == 0x0000_0000u32)
        by (bit_vector);
}

/// What the lane masks hold: all ones in the lanes whose index has the
/// mask's bit set, zero in the others.
proof fn lemma_lane_masks_b()
    ensures
        forall|j: int| 0 <= j < 16 ==> #[trigger] M4B@[j] == if j % 2 == 1 { 0xFFu8 } else { 0x00u8 },
        forall|j: int|
            0 <= j < 16 ==> #[trigger] M5B@[j] == if (j / 2) % 2 == 1 { 0xFFu8 } else { 0x00u8 },
        forall|j: int|
            0 <= j < 16 ==> #[trigger] M6B@[j] == if (j / 4) % 2 == 1 { 0xFFu8 } else { 0x00u8 },
        forall|j: int|
            0 <= j < 16 ==> #[trigger] M7B@[j] == if (j / 8) % 2 == 1 { 0xFFu8 } else { 0x00u8 },
{
}

/// Lane `i` of the forward masked diffusion as the lane operators compute it.
proof fn lemma_diffusion_b_lane_up(a: Seq<u8>, i: int, r: u8)
    requires
        a.len() == 16,
        0 <= i < 16,
        r == a[i] ^ ((a[i] & M1B) << 1) ^ ((a[i] & M2B) << 2) ^ ((a[i] & M3B) << 4) ^ (a[(i + 1)
            % 16] & M4B@[(i + 1) % 16]) ^ (a[(i + 2) % 16] & M5B@[(i + 2) % 16]) ^ (a[(i + 4) % 16]
            & M6B@[(i + 4) % 16]) ^ (a[(i + 8) % 16] & M7B@[(i + 8) % 16]),
    ensures
        r == diffusion_b_lane(a, i, false),
{
    lemma_lane_masks_b();
    let v = a[i];
    let t3 = v ^ ((v & M1B) << 1) ^ ((v & M2B) << 2) ^ ((v & M3B) << 4);
    assert(t3 == v ^ mix_up_b(v)) by (bit_vector)
        requires
            t3 == v ^ ((v & 0x55u8) << 1) ^ ((v & 0x33u8) << 2) ^ ((v & 0x0Fu8) << 4),
    ;
    let j4 = (i + 1) % 16;
    let j5 = (i + 2) % 16;
    let j6 = (i + 4) % 16;
    let j7 = (i + 8) % 16;
    let t4 = t3 ^ (a[j4] & M4B@[j4]);
    let t5 = t4 ^ (a[j5] & M5B@[j5]);
    let t6 = t5 ^ (a[j6] & M6B@[j6]);
    lemma_masked_fold_b(t3, a[j4], M4B@[j4]);
    lemma_masked_fold_b(t4, a[j5], M5B@[j5]);
    lemma_masked_fold_b(t5, a[j6], M6B@[j6]);
    lemma_masked_fold_b(t6, a[j7], M7B@[j7]);
    assert(t4 == fold_in_b(t3, i % 2 == 0, a[i + 1]));
    assert(t5 == fold_in_b(t4, (i / 2) % 2 == 0, a[i + 2]));
    assert(t6 == fold_in_b(t5, (i / 4) % 2 == 0, a[i + 4]));
    assert(r == fold_in_b(t6, (i / 8) % 2 == 0, a[i + 8]));
}

/// Lane `i` of the inverse-direction masked diffusion as the lane operators
/// compute it.
proof fn lemma_diffusion_b_lane_down(a: Seq<u8>, i: int, r: u8)
    requires
        a.len() == 16,
        0 <= i < 16,
        r == a[i] ^ ((a[i] & !M1B) >> 1) ^ ((a[i] & !M2B) >> 2) ^ ((a[i] & !M3B) >> 4) ^ (a[(i + 16
            - 1) % 16] & !M4B@[(i + 16 - 1) % 16]) ^ (a[(i + 16 - 2) % 16] & !M5B@[(i + 16 - 2)
            % 16]) ^ (a[(i + 16 - 4) % 16] & !M6B@[(i + 16 - 4) % 16]) ^ (a[(i + 16 - 8) % 16]
            & !M7B@[(i + 16 - 8) % 16]),
    ensures
        r == diffusion_b_lane(a, i, true),
{
    lemma_lane_masks_b();
    let v = a[i];
    let t3 = v ^ ((v & !M1B) >> 1) ^ ((v & !M2B) >> 2) ^ ((v & !M3B) >> 4);
    assert(t3 == v ^ mix_down_b(v)) by (bit_vector)
        requires
            t3 == v ^ ((v & !0x55u8) >> 1) ^ ((v & !0x33u8) >> 2) ^ ((v & !0x0Fu8) >> 4),
    ;
    let j4 = (i + 16 - 1) % 16;
    let j5 = (i + 16 - 2) % 16;
    let j6 = (i + 16 - 4) % 16;
    let j7 = (i + 16 - 8) % 16;
    let t4 = t3 ^ (a[j4] & !M4B@[j4]);
    let t5 = t4 ^ (a[j5] & !M5B@[j5]);
    let t6 = t5 ^ (a[j6] & !M6B@[j6]);
    lemma_masked_fold_b(t3, a[j4], M4B@[j4]);
    lemma_masked_fold_b(t4, a[j5], M5B@[j5]);
    lemma_masked_fold_b(t5, a[j6], M6B@[j6]);
    lemma_masked_fold_b(t6, a[j7], M7B@[j7]);
    assert(t4 == fold_in_b(t3, i % 2 == 1, a[i - 1]));
    assert(t5 == fold_in_b(t4, (i / 2) % 2 == 1, a[i - 2]));
    assert(t6 == fold_in_b(t5, (i / 4) % 2 == 1, a[i - 4]));
    assert(r == fold_in_b(t6, (i / 8) % 2 == 1, a[i - 8]));
}

/// Masked diffusion on byte lanes, forward or, with `inverse`, with shift
/// directions and mask polarity swapped. Each direction undoes itself; the
/// two directions do not undo each other.
pub fn diffusion_b(a: [u8; 16], inverse: bool) -> (r: [u8; 16])
    ensures
        r@ == diffusion_b_spec(a@, inverse),
{
    if !inverse {
        let q1 = shl_b(and_b(a, splat_b(M1B)), 1);
        let q2 = shl_b(and_b(a, splat_b(M2B)), 2);
        let q3 = shl_b(and_b(a, splat_b(M3B)), 4);
        let q4 = rotate_left_b(and_b(a, M4B), 1);
        let q5 = rotate_left_b(and_b(a, M5B), 2);
        let q6 = rotate_left_b(and_b(a, M6B), 4);
        let q7 = rotate_left_b(and_b(a, M7B), 8);
        let r = xor_b(xor_b(xor_b(xor_b(xor_b(xor_b(xor_b(a, q1), q2), q3), q4), q5), q6), q7);
        proof {
            assert forall|i: int| 0 <= i < 16 implies r@[i] == diffusion_b_lane(a@, i, false) by {
                lemma_diffusion_b_lane_up(a@, i, r@[i]);
            }
            assert(r@ =~= diffusion_b_spec(a@, false));
        }
        r
    } else {
        let q1 = shr_b(and_b(a, splat_b(!M1B)), 1);
        let q2 = shr_b(and_b(a, splat_b(!M2B)), 2);
        let q3 = shr_b(and_b(a, splat_b(!M3B)), 4);
        let q4 = rotate_right_b(and_b(a, not_b(M4B)), 1);
        let q5 = rotate_right_b(and_b(a, not_b(M5B)), 2);
        let q6 = rotate_right_b(and_b(a, not_b(M6B)), 4);
        let q7 = rotate_right_b(and_b(a, not_b(M7B)), 8);
        let r = xor_b(xor_b(xor_b(xor_b(xor_b(xor_b(xor_b(a, q1), q2), q3), q4), q5), q6), q7);
        proof {
            assert forall|i: int| 0 <= i < 16 implies r@[i] == diffusion_b_lane(a@, i, true) by {
                lemma_diffusion_b_lane_down(a@, i, r@[i]);
            }
            assert(r@ =~= diffusion_b_spec(a@, true));
        }
        r
    }
}

/// What the lane masks hold: all ones in the lanes whose index has the
/// mask's bit set, zero in the others.
proof fn lemma_lane_masks_i()
    ensures
        forall|j: int|
            0 <= j < 4 ==> #[trigger] M6I@[j] == if j % 2 == 1 {
                0xFFFF_FFFFu32
            } else {
                0x0000_0000u32
            },
        forall|j: int|
            0 <= j < 4 ==> #[trigger] M7I@[j] == if (j / 2) % 2 == 1 {
                0xFFFF_FFFFu32
            } else {
                0x0000_0000u32
            },
{
}

/// Lane `i` of the forward masked diffusion as the lane operators compute it.
proof fn lemma_diffusion_i_lane_up(a: Seq<u32>, i: int, r: u32)
    requires
        a.len() == 4,
        0 <= i < 4,
        r == a[i] ^ ((a[i] & M1I) << 1) ^ ((a[i] & M2I) << 2) ^ ((a[i] & M3I) << 4) ^ ((a[i] & M4I)
            << 8) ^ ((a[i] & M5I) << 16) ^ (a[(i + 1) % 4] & M6I@[(i + 1) % 4]) ^ (a[(i + 2) % 4]
            & M7I@[(i + 2) % 4]),
    ensures
        r == diffusion_i_lane(a, i, false),
{
    lemma_lane_masks_i();
    let v = a[i];
    let t5 = v ^ ((v & M1I) << 1) ^ ((v & M2I) << 2) ^ ((v & M3I) << 4) ^ ((v & M4I) << 8) ^ ((v
        & M5I) << 16);
    assert(t5 == v ^ mix_up_i(v)) by (bit_vector)
        requires
            t5 == v ^ ((v & 0x5555_5555u32) << 1) ^ ((v & 0x3333_3333u32) << 2) ^ ((v
                & 0x0F0F_0F0Fu32) << 4) ^ ((v & 0x00FF_00FFu32) << 8) ^ ((v & 0x0000_FFFFu32)
                << 16),
    ;
    let j6 = (i + 1) % 4;
    let j7 = (i + 2) % 4;
    let t6 = t5 ^ (a[j6] & M6I@[j6]);
    lemma_masked_fold_i(t5, a[j6], M6I@[j6]);
    lemma_masked_fold_i(t6, a[j7], M7I@[j7]);
    assert(t6 == fold_in_i(t5, i % 2 == 0, a[i + 1]));
    assert(r == fold_in_i(t6, (i / 2) % 2 == 0, a[i + 2]));
}

/// Lane `i` of the inverse-direction masked diffusion as the lane operators
/// compute it.
proof fn lemma_diffusion_i_lane_down(a: Seq<u32>, i: int, r: u32)
    requires
        a.len() == 4,
        0 <= i < 4,
        r == a[i] ^ ((a[i] & !M1I) >> 1) ^ ((a[i] & !M2I) >> 2) ^ ((a[i] & !M3I) >> 4) ^ ((a[i]
            & !M4I) >> 8) ^ ((a[i] & !M5I) >> 16) ^ (a[(i + 4 - 1) % 4] & !M6I@[(i + 4 - 1) % 4])
            ^ (a[(i + 4 - 2) % 4] & !M7I@[(i + 4 - 2) % 4]),
    ensures
        r == diffusion_i_lane(a, i, true),
{
    lemma_lane_masks_i();
    let v = a[i];
    let t5 = v ^ ((v & !M1I) >> 1) ^ ((v & !M2I) >> 2) ^ ((v & !M3I) >> 4) ^ ((v & !M4I) >> 8) ^ ((
    v & !M5I) >> 16);
    assert(t5 == v ^ mix_down_i(v)) by (bit_vector)
        requires
            t5 == v ^ ((v & !0x5555_5555u32) >> 1) ^ ((v & !0x3333_3333u32) >> 2) ^ ((v
                & !0x0F0F_0F0Fu32) >> 4) ^ ((v & !0x00FF_00FFu32) >> 8) ^ ((v & !0x0000_FFFFu32)
                >> 16),
    ;
    let j6 = (i + 4 - 1) % 4;
    let j7 = (i + 4 - 2) % 4;
    let t6 = t5 ^ (a[j6] & !M6I@[j6]);
    lemma_masked_fold_i(t5, a[j6], M6I@[j6]);
    lemma_masked_fold_i(t6, a[j7], M7I@[j7]);
    assert(t6 == fold_in_i(t5, i % 2 == 1, a[i - 1]));
    assert(r == fold_in_i(t6, (i / 2) % 2 == 1, a[i - 2]));
}

/// Masked diffusion on word lanes, forward or, with `inverse`, with shift
/// directions and mask polarity swapped. Each direction undoes itself; the
/// two directions do not undo each other.
pub fn diffusion_i(a: [u32; 4], inverse: bool) -> (r: [u32; 4])
    ensures
        r@ == diffusion_i_spec(a@, inverse),
{
    if !inverse {
        let q1 = shl_i(and_i(a, splat_i(M1I)), 1);
        let q2 = shl_i(and_i(a, splat_i(M2I)), 2);
        let q3 = shl_i(and_i(a, splat_i(M3I)), 4);
        let q4 = shl_i(and_i(a, splat_i(M4I)), 8);
        let q5 = shl_i(and_i(a, splat_i(M5I)), 16);
        let q6 = rotate_left_i(and_i(a, M6I), 1);
        let q7 = rotate_left_i(and_i(a, M7I), 2);
        let r = xor_i(xor_i(xor_i(xor_i(xor_i(xor_i(xor_i(a, q1), q2), q3), q4), q5), q6), q7);
        proof {
            assert forall|i: int| 0 <= i < 4 implies r@[i] == diffusion_i_lane(a@, i, false) by {
                lemma_diffusion_i_lane_up(a@, i, r@[i]);
            }
            assert(r@ =~= diffusion_i_spec(a@, false));
        }
        r
    } else {
        let q1 = shr_i(and_i(a, splat_i(!M1I)), 1);
        let q2 = shr_i(and_i(a, splat_i(!M2I)), 2);
        let q3 = shr_i(and_i(a, splat_i(!M3I)), 4);
        let q4 = shr_i(and_i(a, splat_i(!M4I)), 8);
        let q5 = shr_i(and_i(a, splat_i(!M5I)), 16);
        let q6 = rotate_right_i(and_i(a, not_i(M6I)), 1);
        let q7 = rotate_right_i(and_i(a, not_i(M7I)), 2);
        let r = xor_i(xor_i(xor_i(xor_i(xor_i(xor_i(xor_i(a, q1), q2), q3), q4), q5), q6), q7);
        proof {
            assert forall|i: int| 0 <= i < 4 implies r@[i] == diffusion_i_lane(a@, i, true) by {
                lemma_diffusion_i_lane_down(a@, i, r@[i]);
            }
            assert(r@ =~= diffusion_i_spec(a@, true));
        }
        r
    }
}

/// A lane that takes in the lanes `x1 .. x8` and, from itself, `u0`, where
/// each of those lanes takes in their common neighbours in the same way,
/// comes back to `x0` when the taking in is done twice. `y0` is the lane
/// after the first pass, `uy0` what it then takes in from itself, `y1 .. y8`
/// the neighbours after the first pass, and `b1 .. b8` say which neighbours
/// take part.
proof fn lemma_fold_twice_b(
    x0: u8,
    x1: u8,
    x2: u8,
    x4: u8,
    x8: u8,
    x3: u8,
    x5: u8,
    x9: u8,
    x6: u8,
    x10: u8,
    x12: u8,
    u0: u8,
    u1: u8,
    u2: u8,
    u4: u8,
    u8: u8,
    y0: u8,
    uy0: u8,
    y1: u8,
    y2: u8,
    y4: u8,
    y8: u8,
    b1: bool,
    b2: bool,
    b4: bool,
    b8: bool,
)
    by (bit_vector)
    requires
        y0 == fold_in_b(fold_in_b(fold_in_b(fold_in_b(x0 ^ u0, b1, x1), b2, x2), b4, x4), b8, x8),
        uy0 == fold_in_b(fold_in_b(fold_in_b(fold_in_b(u0, b1, u1), b2, u2), b4, u4), b8, u8),
        b1 ==> y1 == fold_in_b(fold_in_b(fold_in_b(x1 ^ u1, b2, x3), b4, x5), b8, x9),
        b2 ==> y2 == fold_in_b(fold_in_b(fold_in_b(x2 ^ u2, b1, x3), b4, x6), b8, x10),
        b4 ==> y4 == fold_in_b(fold_in_b(fold_in_b(x4 ^ u4, b1, x5), b2, x6), b8, x12),
        b8 ==> y8 == fold_in_b(fold_in_b(fold_in_b(x8 ^ u8, b1, x9), b2, x10), b4, x12),
    ensures
        fold_in_b(fold_in_b(fold_in_b(fold_in_b(y0 ^ uy0, b1, y1), b2, y2), b4, y4), b8, y8) == x0,
{
}

/// What a byte lane takes in from itself is additive over exclusive or and
/// vanishes when taken twice, in both directions.
proof fn lemma_mix_b_linear(a: u8, b: u8)
    ensures
        mix_up_b(a ^ b) == mix_up_b(a) ^ mix_up_b(b),
        mix_up_b(a ^ mix_up_b(a)) == mix_up_b(a),
        mix_down_b(a ^ b) == mix_down_b(a) ^ mix_down_b(b),
        mix_down_b(a ^ mix_down_b(a)) == mix_down_b(a),
{
    assert(mix_up_b(a ^ b) == mix_up_b(a) ^ mix_up_b(b) && mix_up_b(a ^ mix_up_b(a)) == mix_up_b(a))
        by (bit_vector);
    assert(mix_down_b(a ^ b) == mix_down_b(a) ^ mix_down_b(b) && mix_down_b(a ^ mix_down_b(a))
        == mix_down_b(a)) by (bit_vector);
}

/// What a lane takes in from itself after a neighbour was mixed in.
proof fn lemma_mix_b_fold(acc: u8, present: bool, v: u8)
    ensures
        mix_up_b(fold_in_b(acc, present, v)) == fold_in_b(mix_up_b(acc), present, mix_up_b(v)),
        mix_down_b(fold_in_b(acc, present, v)) == fold_in_b(
            mix_down_b(acc),
            present,
            mix_down_b(v),
        ),
{
    lemma_mix_b_linear(acc, v);
}

/// The masked diffusion on byte lanes is its own inverse in each direction:
/// applied twice with the same `inverse` it restores every state.
pub proof fn lemma_diffusion_b_involution(a: Seq<u8>, inverse: bool)
    requires
        a.len() == 16,
    ensures
        diffusion_b_spec(diffusion_b_spec(a, inverse), inverse) == a,
{
    let f = diffusion_b_spec(a, inverse);
    assert forall|i: int| 0 <= i < 16 implies diffusion_b_lane(f, i, inverse) == a[i] by {
        if !inverse {
            let b1 = i % 2 == 0;
            let b2 = (i / 2) % 2 == 0;
            let b4 = (i / 4) % 2 == 0;
            let b8 = (i / 8) % 2 == 0;
            let t0 = a[i] ^ mix_up_b(a[i]);
            let t1 = fold_in_b(t0, b1, a[i + 1]);
            let t2 = fold_in_b(t1, b2, a[i + 2]);
            let t4 = fold_in_b(t2, b4, a[i + 4]);
            lemma_mix_b_linear(a[i], a[i]);
            lemma_mix_b_fold(t0, b1, a[i + 1]);
            lemma_mix_b_fold(t1, b2, a[i + 2]);
            lemma_mix_b_fold(t2, b4, a[i + 4]);
            lemma_mix_b_fold(t4, b8, a[i + 8]);
            lemma_fold_twice_b(
                a[i],
                a[i + 1],
                a[i + 2],
                a[i + 4],
                a[i + 8],
                a[i + 3],
                a[i + 5],
                a[i + 9],
                a[i + 6],
                a[i + 10],
                a[i + 12],
                mix_up_b(a[i]),
                mix_up_b(a[i + 1]),
                mix_up_b(a[i + 2]),
                mix_up_b(a[i + 4]),
                mix_up_b(a[i + 8]),
                f[i],
                mix_up_b(f[i]),
                f[i + 1],
                f[i + 2],
                f[i + 4],
                f[i + 8],
                b1,
                b2,
                b4,
                b8,
            );
        } else {
            let b1 = i % 2 == 1;
            let b2 = (i / 2) % 2 == 1;
            let b4 = (i / 4) % 2 == 1;
            let b8 = (i / 8) % 2 == 1;
            let t0 = a[i] ^ mix_down_b(a[i]);
            let t1 = fold_in_b(t0, b1, a[i - 1]);
            let t2 = fold_in_b(t1, b2, a[i - 2]);
            let t4 = fold_in_b(t2, b4, a[i - 4]);
            lemma_mix_b_linear(a[i], a[i]);
            lemma_mix_b_fold(t0, b1, a[i - 1]);
            lemma_mix_b_fold(t1, b2, a[i - 2]);
            lemma_mix_b_fold(t2, b4, a[i - 4]);
            lemma_mix_b_fold(t4, b8, a[i - 8]);
            lemma_fold_twice_b(
                a[i],
                a[i - 1],
                a[i - 2],
                a[i - 4],
                a[i - 8],
                a[i - 3],
                a[i - 5],
                a[i - 9],
                a[i - 6],
                a[i - 10],
                a[i - 12],
                mix_down_b(a[i]),
                mix_down_b(a[i - 1]),
                mix_down_b(a[i - 2]),
                mix_down_b(a[i - 4]),
                mix_down_b(a[i - 8]),
                f[i],
                mix_down_b(f[i]),
                f[i - 1],
                f[i - 2],
                f[i - 4],
                f[i - 8],
                b1,
                b2,
                b4,
                b8,
            );
        }
    }
    assert(diffusion_b_spec(f, inverse) =~= a);
}

/// The word-lane form of [`lemma_fold_twice_b`].
proof fn lemma_fold_twice_i(
    x0: u32,
    x1: u32,
    x2: u32,
    x3: u32,
    u0: u32,
    u1: u32,
    u2: u32,
    y0: u32,
    uy0: u32,
    y1: u32,
    y2: u32,
    b1: bool,
    b2: bool,
)
    by (bit_vector)
    requires
        y0 == fold_in_i(fold_in_i(x0 ^ u0, b1, x1), b2, x2),
        uy0 == fold_in_i(fold_in_i(u0, b1, u1), b2, u2),
        b1 ==> y1 == fold_in_i(x1 ^ u1, b2, x3),
        b2 ==> y2 == fold_in_i(x2 ^ u2, b1, x3),
    ensures
        fold_in_i(fold_in_i(y0 ^ uy0, b1, y1), b2, y2) == x0,
{
}

/// What a word lane takes in from itself is additive over exclusive or and
/// vanishes when taken twice, in both directions.
proof fn lemma_mix_i_linear(a: u32, b: u32)
    ensures
        mix_up_i(a ^ b) == mix_up_i(a) ^ mix_up_i(b),
        mix_up_i(a ^ mix_up_i(a)) == mix_up_i(a),
        mix_down_i(a ^ b) == mix_down_i(a) ^ mix_down_i(b),
        mix_down_i(a ^ mix_down_i(a)) == mix_down_i(a),
{
    assert(mix_up_i(a ^ b) == mix_up_i(a) ^ mix_up_i(b) && mix_up_i(a ^ mix_up_i(a)) == mix_up_i(a))
        by (bit_vector);
    assert(mix_down_i(a ^ b) == mix_down_i(a) ^ mix_down_i(b) && mix_down_i(a ^ mix_down_i(a))
        == mix_down_i(a)) by (bit_vector);
}

/// What a lane takes in from itself after a neighbour was mixed in.
proof fn lemma_mix_i_fold(acc: u32, present: bool, v: u32)
    ensures
        mix_up_i(fold_in_i(acc, present, v)) == fold_in_i(mix_up_i(acc), present, mix_up_i(v)),
        mix_down_i(fold_in_i(acc, present, v)) == fold_in_i(
            mix_down_i(acc),
            present,
            mix_down_i(v),
        ),
{
    lemma_mix_i_linear(acc, v);
}

/// The masked diffusion on word lanes is its own inverse in each direction:
/// applied twice with the same `inverse` it restores every state.
pub proof fn lemma_diffusion_i_involution(a: Seq<u32>, inverse: bool)
    requires
        a.len() == 4,
    ensures
        diffusion_i_spec(diffusion_i_spec(a, inverse), inverse) == a,
{
    let f = diffusion_i_spec(a, inverse);
    assert forall|i: int| 0 <= i < 4 implies diffusion_i_lane(f, i, inverse) == a[i] by {
        if !inverse {
            let b1 = i % 2 == 0;
            let b2 = (i / 2) % 2 == 0;
            let t0 = a[i] ^ mix_up_i(a[i]);
            let t1 = fold_in_i(t0, b1, a[i + 1]);
            lemma_mix_i_linear(a[i], a[i]);
            lemma_mix_i_fold(t0, b1, a[i + 1]);
            lemma_mix_i_fold(t1, b2, a[i + 2]);
            lemma_fold_twice_i(
                a[i],
                a[i + 1],
                a[i + 2],
                a[i + 3],
                mix_up_i(a[i]),
                mix_up_i(a[i + 1]),
                mix_up_i(a[i + 2]),
                f[i],
                mix_up_i(f[i]),
                f[i + 1],
                f[i + 2],
                b1,
                b2,
            );
        } else {
            let b1 = i % 2 == 1;
            let b2 = (i / 2) % 2 == 1;
            let t0 = a[i] ^ mix_down_i(a[i]);
            let t1 = fold_in_i(t0, b1, a[i - 1]);
            lemma_mix_i_linear(a[i], a[i]);
            lemma_mix_i_fold(t0, b1, a[i - 1]);
            lemma_mix_i_fold(t1, b2, a[i - 2]);
            lemma_fold_twice_i(
                a[i],
                a[i - 1],
                a[i - 2],
                a[i - 3],
                mix_down_i(a[i]),
                mix_down_i(a[i - 1]),
                mix_down_i(a[i - 2]),
                f[i],
                mix_down_i(f[i]),
                f[i - 1],
                f[i - 2],
                b1,
                b2,
            );
        }
    }
    assert(diffusion_i_spec(f, inverse) =~= a);
}

/// The all-zero state of sixteen byte lanes.
pub open spec fn zero_state_b() -> Seq<u8> {
    Seq::new(16, |i: int| 0u8)
}

/// The all-zero state of four word lanes.
pub open spec fn zero_state_i() -> Seq<u32> {
    Seq::new(4, |i: int| 0u32)
}

/// The two directions of the masked diffusion on byte lanes, applied one
/// after the other in either order, leave the all-zero state as it is.
pub proof fn lemma_diffusion_b_directions_on_zero()
    ensures
        diffusion_b_spec(diffusion_b_spec(zero_state_b(), true), false) == zero_state_b(),
        diffusion_b_spec(diffusion_b_spec(zero_state_b(), false), true) == zero_state_b(),
{
    let z = zero_state_b();
    assert(0u8 ^ mix_up_b(0u8) == 0u8 && 0u8 ^ mix_down_b(0u8) == 0u8 && 0u8 ^ 0u8 == 0u8)
        by (bit_vector);
    assert(diffusion_b_spec(z, true) =~= z);
    assert(diffusion_b_spec(z, false) =~= z);
}

/// The two directions of the masked diffusion on word lanes, applied one
/// after the other in either order, leave the all-zero state as it is.
pub proof fn lemma_diffusion_i_directions_on_zero()
    ensures
        diffusion_i_spec(diffusion_i_spec(zero_state_i(), true), false) == zero_state_i(),
        diffusion_i_spec(diffusion_i_spec(zero_state_i(), false), true) == zero_state_i(),
{
    let z = zero_state_i();
    assert(0u32 ^ mix_up_i(0u32) == 0u32 && 0u32 ^ mix_down_i(0u32) == 0u32 && 0u32 ^ 0u32 == 0u32)
        by (bit_vector);
    assert(diffusion_i_spec(z, true) =~= z);
    assert(diffusion_i_spec(z, false) =~= z);
}

/// The rotating form of the masked diffusion: every lane takes in the bit
/// groups of its upper neighbour, each moved up by the width of the group.
pub open spec fn diffusion_spec(a: Seq<u8>) -> Seq<u8> {
    Seq::new(a.len(), |i: int| a[i] ^ mix_up_b(a[(i + 1) % (a.len() as int)]))
}

/// Rotating masked diffusion: a copy of the state, rotated by one lane, is
/// split by the bit masks, each group is shifted by its width, and all
/// groups are mixed back into the state.
pub fn diffusion(a: [u8; 16]) -> (r: [u8; 16])
    ensures
        r@ == diffusion_spec(a@),
{
    let a2 = rotate_left_b(a, 1);
    let q1 = shl_b(and_b(a2, splat_b(M1B)), 1);
    let q2 = shl_b(and_b(a2, splat_b(M2B)), 2);
    let q3 = shl_b(and_b(a2, splat_b(M3B)), 4);
    let r = xor_b(xor_b(xor_b(a, q1), q2), q3);
    proof {
        assert forall|i: int| 0 <= i < 16 implies r@[i] == a@[i] ^ mix_up_b(a@[(i + 1) % 16]) by {
            let x = a@[i];
            let v = a@[(i + 1) % 16];
            assert(x ^ ((v & 0x55u8) << 1) ^ ((v & 0x33u8) << 2) ^ ((v & 0x0Fu8) << 4) == x ^ (((v
                & 0x55u8) << 1) ^ ((v & 0x33u8) << 2) ^ ((v & 0x0Fu8) << 4))) by (bit_vector);
        }
        assert(r@ =~= diffusion_spec(a@));
    }
    r
}

/// The rotating masked diffusion is its own inverse: applied twice it
/// restores every state.
pub proof fn lemma_diffusion_involution(a: Seq<u8>)
    requires
        a.len() > 0,
    ensures
        diffusion_spec(diffusion_spec(a)) == a,
{
    let n = a.len() as int;
    let f = diffusion_spec(a);
    assert forall|i: int| 0 <= i < n implies diffusion_spec(f)[i] == a[i] by {
        let j = (i + 1) % n;
        let k = (j + 1) % n;
        let x = a[i];
        let y = a[j];
        let z = a[k];
        assert((x ^ mix_up_b(y)) ^ mix_up_b(y ^ mix_up_b(z)) == x) by (bit_vector);
    }
    assert(diffusion_spec(f) =~= a);
}

// ---------------------------------------------------------------------------
// Rounds
// ---------------------------------------------------------------------------

/// The lane-scattering layer that closes a byte round.
pub open spec fn scatter_b(s: Seq<u8>, style: Permute) -> Seq<u8> {
    match style {
        Permute::PERMUTE => permute_lanes(s, P@),
        Permute::ROTATE => rotate_lanes_left(s, 7),
    }
}

/// The inverse of [`scatter_b`].
pub open spec fn gather_b(s: Seq<u8>, style: Permute) -> Seq<u8> {
    match style {
        Permute::PERMUTE => permute_lanes(s, INV_P@),
        Permute::ROTATE => rotate_lanes_right(s, 7),
    }
}

/// The lane-scattering layer that closes a word round.
pub open spec fn scatter_i(s: Seq<u32>, style: Permute) -> Seq<u32> {
    match style {
        Permute::PERMUTE => permute_lanes(s, PI@),
        Permute::ROTATE => rotate_i_spec(s),
    }
}

/// The inverse of [`scatter_i`].
pub open spec fn gather_i(s: Seq<u32>, style: Permute) -> Seq<u32> {
    match style {
        Permute::PERMUTE => permute_lanes(s, INV_PI@),
        Permute::ROTATE => inverse_rotate_i_spec(s),
    }
}

/// A forward round on byte lanes: mix in the round key, expand, substitute,
/// scatter.
pub open spec fn encrypt_round_b_spec(state: Seq<u8>, key: Seq<u8>, flags: Flags) -> Seq<u8> {
    scatter_b(mul_lanes_b(scale_wide(xor_lanes_b(state, key), E), S), flags.permute)
}

/// A reverse round on byte lanes: gather, substitute back, contract, mix
/// out the round key.
pub open spec fn decrypt_round_b_spec(state: Seq<u8>, key: Seq<u8>, flags: Flags) -> Seq<u8> {
    xor_lanes_b(scale_wide(mul_lanes_b(gather_b(state, flags.permute), INV_S), INV_E), key)
}

/// A forward round on word lanes: mix in the round key, read as
/// little-endian words, substitute, scatter.
pub open spec fn encrypt_round_i_spec(state: Seq<u32>, key: Seq<u8>, flags: Flags) -> Seq<u32> {
    scatter_i(mul_lanes_i(xor_lanes_i(state, pack_words(key)), SI), flags.permute)
}

/// A reverse round on word lanes: gather, substitute back, mix out the
/// round key.
pub open spec fn decrypt_round_i_spec(state: Seq<u32>, key: Seq<u8>, flags: Flags) -> Seq<u32> {
    xor_lanes_i(mul_lanes_i(gather_i(state, flags.permute), INV_SI), pack_words(key))
}

/// Forward round on byte lanes.
pub fn encrypt_round_b(state: [u8; 16], key: [u8; 16], flags: &Flags) -> (r: [u8; 16])
    ensures
        r@ == encrypt_round_b_spec(state@, key@, *flags),
{
    let mut s = xor_b(state, key);
    s = expansion_b(s);
    s = substitute_b(s);
    match flags.permute {
        Permute::PERMUTE => permute_b(s),
        Permute::ROTATE => rotate_b(s),
    }
}

/// Reverse round on byte lanes.
pub fn decrypt_round_b(state: [u8; 16], key: [u8; 16], flags: &Flags) -> (r: [u8; 16])
    ensures
        r@ == decrypt_round_b_spec(state@, key@, *flags),
{
    let mut s = match flags.permute {
        Permute::PERMUTE => inverse_permute_b(state),
        Permute::ROTATE => inverse_rotate_b(state),
    };
    s = inverse_substitute_b(s);
    s = inv_expansion_b(s);
    xor_b(s, key)
}

/// Forward round on word lanes.
pub fn encrypt_round_i(state: [u32; 4], key: [u8; 16], flags: &Flags) -> (r: [u32; 4])
    ensures
        r@ == encrypt_round_i_spec(state@, key@, *flags),
{
    let mut s = xor_i(state, to_words(key));
    s = substitute_i(s);
    match flags.permute {
        Permute::PERMUTE => permute_i(s),
        Permute::ROTATE => rotate_i(s),
    }
}

/// Reverse round on word lanes.
pub fn decrypt_round_i(state: [u32; 4], key: [u8; 16], flags: &Flags) -> (r: [u32; 4])
    ensures
        r@ == decrypt_round_i_spec(state@, key@, *flags),
{
    let mut s = match flags.permute {
        Permute::PERMUTE => inverse_permute_i(state),
        Permute::ROTATE => inverse_rotate_i(state),
    };
    s = inverse_substitute_i(s);
    xor_i(s, to_words(key))
}

/// Mixing the same key into a byte vector twice changes nothing.
pub proof fn lemma_xor_b_twice(s: Seq<u8>, k: Seq<u8>)
    ensures
        xor_lanes_b(xor_lanes_b(s, k), k) == s,
{
    assert forall|i: int| 0 <= i < s.len() implies xor_lanes_b(xor_lanes_b(s, k), k)[i] == s[i] by {
        let a = s[i];
        let b = k[i];
        assert((a ^ b) ^ b == a) by (bit_vector);
    }
    assert(xor_lanes_b(xor_lanes_b(s, k), k) =~= s);
}

/// Mixing the same key into a word vector twice changes nothing.
pub proof fn lemma_xor_i_twice(s: Seq<u32>, k: Seq<u32>)
    ensures
        xor_lanes_i(xor_lanes_i(s, k), k) == s,
{
    assert forall|i: int| 0 <= i < s.len() implies xor_lanes_i(xor_lanes_i(s, k), k)[i] == s[i] by {
        let a = s[i];
        let b = k[i];
        assert((a ^ b) ^ b == a) by (bit_vector);
    }
    assert(xor_lanes_i(xor_lanes_i(s, k), k) =~= s);
}

/// Gathering undoes scattering on every byte state, and the other way round.
pub proof fn lemma_scatter_b_inverse(s: Seq<u8>, style: Permute)
    requires
        s.len() == 16,
    ensures
        gather_b(scatter_b(s, style), style) == s,
        scatter_b(gather_b(s, style), style) == s,
{
    lemma_fixed_data_consistent();
    lemma_permute_lanes_inverse(s, P@, INV_P@);
    lemma_rotate_lanes_inverse(s, 7);
}

/// Gathering undoes scattering on every word state, and the other way round.
pub proof fn lemma_scatter_i_inverse(s: Seq<u32>, style: Permute)
    requires
        s.len() == 4,
    ensures
        gather_i(scatter_i(s, style), style) == s,
        scatter_i(gather_i(s, style), style) == s,
{
    lemma_fixed_data_consistent();
    lemma_permute_lanes_inverse(s, PI@, INV_PI@);
    lemma_rotate_i_inverse(s);
}

/// A reverse round undoes a forward round under the same key and
/// configuration, on every byte state and key; and a forward round undoes a
/// reverse round.
pub proof fn lemma_round_b_inverse(state: Seq<u8>, key: Seq<u8>, flags: Flags)
    requires
        state.len() == 16,
    ensures
        encrypt_round_b_spec(state, key, flags).len() == 16,
        decrypt_round_b_spec(state, key, flags).len() == 16,
        decrypt_round_b_spec(encrypt_round_b_spec(state, key, flags), key, flags) == state,
        encrypt_round_b_spec(decrypt_round_b_spec(state, key, flags), key, flags) == state,
{
    // forward, then back
    let x = xor_lanes_b(state, key);
    let e = scale_wide(x, E);
    let m = mul_lanes_b(e, S);
    lemma_scatter_b_inverse(m, flags.permute);
    lemma_substitute_b_inverse(e);
    lemma_expansion_b_inverse(x);
    lemma_xor_b_twice(state, key);
    // back, then forward
    let g = gather_b(state, flags.permute);
    let n = mul_lanes_b(g, INV_S);
    let c = scale_wide(n, INV_E);
    lemma_xor_b_twice(c, key);
    lemma_expansion_b_inverse(n);
    lemma_substitute_b_inverse(g);
    lemma_scatter_b_inverse(state, flags.permute);
}

/// A reverse round undoes a forward round under the same key and
/// configuration, on every word state and key; and a forward round undoes a
/// reverse round.
pub proof fn lemma_round_i_inverse(state: Seq<u32>, key: Seq<u8>, flags: Flags)
    requires
        state.len() == 4,
    ensures
        encrypt_round_i_spec(state, key, flags).len() == 4,
        decrypt_round_i_spec(state, key, flags).len() == 4,
        decrypt_round_i_spec(encrypt_round_i_spec(state, key, flags), key, flags) == state,
        encrypt_round_i_spec(decrypt_round_i_spec(state, key, flags), key, flags) == state,
{
    let k = pack_words(key);
    let x = xor_lanes_i(state, k);
    let m = mul_lanes_i(x, SI);
    lemma_scatter_i_inverse(m, flags.permute);
    lemma_substitute_i_inverse(x);
    lemma_xor_i_twice(state, k);
    let g = gather_i(state, flags.permute);
    let n = mul_lanes_i(g, INV_SI);
    lemma_xor_i_twice(n, k);
    lemma_substitute_i_inverse(g);
    lemma_scatter_i_inverse(state, flags.permute);
}

/// A forward round on a block, on the lane width of the configuration.
pub open spec fn encrypt_round_spec(state: Seq<u8>, key: Seq<u8>, flags: Flags) -> Seq<u8> {
    match flags.mode {
        Mode::BYTE => encrypt_round_b_spec(state, key, flags),
        Mode::INT => unpack_words(encrypt_round_i_spec(pack_words(state), key, flags)),
    }
}

/// A reverse round on a block, on the lane width of the configuration.
pub open spec fn decrypt_round_spec(state: Seq<u8>, key: Seq<u8>, flags: Flags) -> Seq<u8> {
    match flags.mode {
        Mode::BYTE => decrypt_round_b_spec(state, key, flags),
        Mode::INT => unpack_words(decrypt_round_i_spec(pack_words(state), key, flags)),
    }
}

/// Forward round on a block: the state is read as byte lanes or as
/// little-endian word lanes, as the configuration says.
pub fn encrypt_round(state: [u8; 16], key: [u8; 16], flags: &Flags) -> (r: [u8; 16])
    ensures
        r@ == encrypt_round_spec(state@, key@, *flags),
{
    match flags.mode {
        Mode::BYTE => encrypt_round_b(state, key, flags),
        Mode::INT => from_words(encrypt_round_i(to_words(state), key, flags)),
    }
}

/// Reverse round on a block: the state is read as byte lanes or as
/// little-endian word lanes, as the configuration says.
pub fn decrypt_round(state: [u8; 16], key: [u8; 16], flags: &Flags) -> (r: [u8; 16])
    ensures
        r@ == decrypt_round_spec(state@, key@, *flags),
{
    match flags.mode {
        Mode::BYTE => decrypt_round_b(state, key, flags),
        Mode::INT => from_words(decrypt_round_i(to_words(state), key, flags)),
    }
}

/// A reverse round undoes a forward round under the same key and
/// configuration, for every state, every key and every configuration; and
/// a forward round undoes a reverse round.
pub proof fn lemma_round_inverse(state: Seq<u8>, key: Seq<u8>, flags: Flags)
    requires
        state.len() == 16,
    ensures
        encrypt_round_spec(state, key, flags).len() == 16,
        decrypt_round_spec(state, key, flags).len() == 16,
        decrypt_round_spec(encrypt_round_spec(state, key, flags), key, flags) == state,
        encrypt_round_spec(decrypt_round_spec(state, key, flags), key, flags) == state,
{
    match flags.mode {
        Mode::BYTE => {
            lemma_round_b_inverse(state, key, flags);
        },
        Mode::INT => {
            let w = pack_words(state);
            lemma_round_i_inverse(w, key, flags);
            lemma_pack_words_inverse(state, encrypt_round_i_spec(w, key, flags));
            lemma_pack_words_inverse(state, decrypt_round_i_spec(w, key, flags));
        },
    }
}

} // verus!
