//! Lane vectors: a 128-bit state seen as sixteen 8-bit lanes or as four
//! 32-bit lanes, with the lane-wise operators the round function is built
//! from. Every operator is specified over the sequence of its lanes.

use vstd::arithmetic::div_mod::lemma_fundamental_div_mod_converse;
use vstd::prelude::*;

verus! {

// ---------------------------------------------------------------------------
// Lane movement, for any lane type
// ---------------------------------------------------------------------------

/// Cyclic rotation towards lane 0: lane `i` of the result is lane `i + k`
/// of `s`, counted modulo the lane count.
pub open spec fn rotate_lanes_left<T>(s: Seq<T>, k: int) -> Seq<T> {
    Seq::new(s.len(), |i: int| s[(i + k) % (s.len() as int)])
}

/// Cyclic rotation away from lane 0: lane `i + k` of the result, counted
/// modulo the lane count, is lane `i` of `s`.
pub open spec fn rotate_lanes_right<T>(s: Seq<T>, k: int) -> Seq<T> {
    Seq::new(s.len(), |i: int| s[(i + s.len() - k) % (s.len() as int)])
}

/// Table-driven permutation: lane `i` of the result is lane `table[i]` of `s`.
pub open spec fn permute_lanes<T>(s: Seq<T>, table: Seq<usize>) -> Seq<T> {
    Seq::new(s.len(), |i: int| s[table[i] as int])
}

/// Every entry of `table` names a lane of a vector with `n` lanes.
pub open spec fn table_in_range(table: Seq<usize>, n: int) -> bool {
    table.len() == n && forall|i: int| 0 <= i < n ==> (#[trigger] table[i]) < n
}

/// `inverse` undoes `table`: following `table` and then `inverse` leads
/// back to every lane, and the other way round.
pub open spec fn tables_invert(table: Seq<usize>, inverse: Seq<usize>) -> bool {
    &&& table_in_range(table, table.len() as int)
    &&& table_in_range(inverse, table.len() as int)
    &&& forall|i: int| 0 <= i < table.len() ==> inverse[(#[trigger] table[i]) as int] == i
    &&& forall|i: int| 0 <= i < table.len() ==> table[(#[trigger] inverse[i]) as int] == i
}

/// The residue of a number below `2 * n` is the number itself or the number
/// less `n`.
proof fn lemma_mod_wrap(x: int, n: int)
    requires
        0 < n,
        0 <= x < 2 * n,
    ensures
        x % n == if x < n { x } else { x - n },
{
    if x < n {
        lemma_fundamental_div_mod_converse(x, n, 0, x);
    } else {
        lemma_fundamental_div_mod_converse(x, n, 1, x - n);
    }
}

/// Rotating right by `k` undoes rotating left by `k`, and the other way round.
pub proof fn lemma_rotate_lanes_inverse<T>(s: Seq<T>, k: int)
    requires
        0 <= k < s.len(),
    ensures
        rotate_lanes_right(rotate_lanes_left(s, k), k) == s,
        rotate_lanes_left(rotate_lanes_right(s, k), k) == s,
{
    let n = s.len() as int;
    let l = rotate_lanes_left(s, k);
    let r = rotate_lanes_right(s, k);
    assert forall|i: int| 0 <= i < n implies rotate_lanes_right(l, k)[i] == s[i] by {
        let j = (i + n - k) % n;
        lemma_mod_wrap(i + n - k, n);
        lemma_mod_wrap(j + k, n);
    }
    assert forall|i: int| 0 <= i < n implies rotate_lanes_left(r, k)[i] == s[i] by {
        let j = (i + k) % n;
        lemma_mod_wrap(i + k, n);
        lemma_mod_wrap(j + n - k, n);
    }
    assert(rotate_lanes_right(l, k) =~= s);
    assert(rotate_lanes_left(r, k) =~= s);
}

/// Permuting by a table and then by its inverse restores every lane
/// arrangement, in either order.
pub proof fn lemma_permute_lanes_inverse<T>(s: Seq<T>, table: Seq<usize>, inverse: Seq<usize>)
    requires
        table.len() == s.len(),
        tables_invert(table, inverse),
    ensures
        permute_lanes(permute_lanes(s, table), inverse) == s,
        permute_lanes(permute_lanes(s, inverse), table) == s,
{
    let n = s.len() as int;
    let p = permute_lanes(s, table);
    let q = permute_lanes(s, inverse);
    assert forall|i: int| 0 <= i < n implies permute_lanes(p, inverse)[i] == s[i] by {
        assert(table[inverse[i] as int] == i);
    }
    assert forall|i: int| 0 <= i < n implies permute_lanes(q, table)[i] == s[i] by {
        assert(inverse[table[i] as int] == i);
    }
    assert(permute_lanes(p, inverse) =~= s);
    assert(permute_lanes(q, table) =~= s);
}

// ---------------------------------------------------------------------------
// Lane-wise arithmetic on 8-bit lanes
// ---------------------------------------------------------------------------

/// Lane-wise exclusive or.
pub open spec fn xor_lanes_b(a: Seq<u8>, b: Seq<u8>) -> Seq<u8> {
    Seq::new(a.len(), |i: int| a[i] ^ b[i])
}

/// Lane-wise and.
pub open spec fn and_lanes_b(a: Seq<u8>, b: Seq<u8>) -> Seq<u8> {
    Seq::new(a.len(), |i: int| a[i] & b[i])
}

/// Lane-wise complement.
pub open spec fn not_lanes_b(a: Seq<u8>) -> Seq<u8> {
    Seq::new(a.len(), |i: int| !a[i])
}

/// Every lane shifted left by `n` bits; bits leaving a lane are dropped.
pub open spec fn shl_lanes_b(a: Seq<u8>, n: u32) -> Seq<u8> {
    Seq::new(a.len(), |i: int| a[i] << n)
}

/// Every lane shifted right by `n` bits.
pub open spec fn shr_lanes_b(a: Seq<u8>, n: u32) -> Seq<u8> {
    Seq::new(a.len(), |i: int| a[i] >> n)
}

/// Every lane multiplied by `m` modulo 256.
pub open spec fn mul_lanes_b(a: Seq<u8>, m: u8) -> Seq<u8> {
    Seq::new(a.len(), |i: int| a[i].wrapping_mul(m))
}

/// The vector whose sixteen lanes all hold `v`.
pub fn splat_b(v: u8) -> (r: [u8; 16])
    ensures
        r@ == Seq::new(16, |i: int| v),
{
    let r: [u8; 16] = [v; 16];
    assert(r@ =~= Seq::new(16, |i: int| v));
    r
}

/// Lane-wise exclusive or of two byte vectors.
pub fn xor_b(a: [u8; 16], b: [u8; 16]) -> (r: [u8; 16])
    ensures
        r@ == xor_lanes_b(a@, b@),
{
    let mut out: [u8; 16] = a;
    for i in 0..16usize
        invariant
            forall|j: int| 0 <= j < i ==> out@[j] == a@[j] ^ b@[j],
    {
        out[i] = a[i] ^ b[i];
    }
    assert(out@ =~= xor_lanes_b(a@, b@));
    out
}

/// Lane-wise and of a byte vector with a mask vector.
pub fn and_b(a: [u8; 16], mask: [u8; 16]) -> (r: [u8; 16])
    ensures
        r@ == and_lanes_b(a@, mask@),
{
    let mut out: [u8; 16] = a;
    for i in 0..16usize
        invariant
            forall|j: int| 0 <= j < i ==> out@[j] == a@[j] & mask@[j],
    {
        out[i] = a[i] & mask[i];
    }
    assert(out@ =~= and_lanes_b(a@, mask@));
    out
}

/// Lane-wise complement of a byte vector.
pub fn not_b(a: [u8; 16]) -> (r: [u8; 16])
    ensures
        r@ == not_lanes_b(a@),
{
    let mut out: [u8; 16] = a;
    for i in 0..16usize
        invariant
            forall|j: int| 0 <= j < i ==> out@[j] == !a@[j],
    {
        out[i] = !a[i];
    }
    assert(out@ =~= not_lanes_b(a@));
    out
}

/// Shifts every byte lane left by `n` bits.
pub fn shl_b(a: [u8; 16], n: u32) -> (r: [u8; 16])
    requires
        n < 8,
    ensures
        r@ == shl_lanes_b(a@, n),
{
    let mut out: [u8; 16] = a;
    for i in 0..16usize
        invariant
            n < 8,
            forall|j: int| 0 <= j < i ==> out@[j] == a@[j] << n,
    {
        out[i] = a[i] << n;
    }
    assert(out@ =~= shl_lanes_b(a@, n));
    out
}

/// Shifts every byte lane right by `n` bits.
pub fn shr_b(a: [u8; 16], n: u32) -> (r: [u8; 16])
    requires
        n < 8,
    ensures
        r@ == shr_lanes_b(a@, n),
{
    let mut out: [u8; 16] = a;
    for i in 0..16usize
        invariant
            n < 8,
            forall|j: int| 0 <= j < i ==> out@[j] == a@[j] >> n,
    {
        out[i] = a[i] >> n;
    }
    assert(out@ =~= shr_lanes_b(a@, n));
    out
}

/// Multiplies every byte lane by `m` modulo 256.
pub fn mul_b(a: [u8; 16], m: u8) -> (r: [u8; 16])
    ensures
        r@ == mul_lanes_b(a@, m),
{
    let mut out: [u8; 16] = a;
    for i in 0..16usize
        invariant
            forall|j: int| 0 <= j < i ==> out@[j] == a@[j].wrapping_mul(m),
    {
        out[i] = a[i].wrapping_mul(m);
    }
    assert(out@ =~= mul_lanes_b(a@, m));
    out
}

/// Rotates the byte lanes cyclically by `k` towards lane 0.
pub fn rotate_left_b(a: [u8; 16], k: usize) -> (r: [u8; 16])
    requires
        k < 16,
    ensures
        r@ == rotate_lanes_left(a@, k as int),
{
    let mut out: [u8; 16] = a;
    for i in 0..16usize
        invariant
            k < 16,
            forall|j: int| 0 <= j < i ==> out@[j] == a@[(j + k) % 16],
    {
        out[i] = a[(i + k) % 16];
    }
    assert(out@ =~= rotate_lanes_left(a@, k as int));
    out
}

/// Rotates the byte lanes cyclically by `k` away from lane 0.
pub fn rotate_right_b(a: [u8; 16], k: usize) -> (r: [u8; 16])
    requires
        k < 16,
    ensures
        r@ == rotate_lanes_right(a@, k as int),
{
    let mut out: [u8; 16] = a;
    for i in 0..16usize
        invariant
            k < 16,
            forall|j: int| 0 <= j < i ==> out@[j] == a@[(j + 16 - k) % 16],
    {
        out[i] = a[(i + 16 - k) % 16];
    }
    assert(out@ =~= rotate_lanes_right(a@, k as int));
    out
}

/// Permutes the byte lanes by `table`.
pub fn swizzle_b(a: [u8; 16], table: &[usize; 16]) -> (r: [u8; 16])
    requires
        table_in_range(table@, 16),
    ensures
        r@ == permute_lanes(a@, table@),
{
    let mut out: [u8; 16] = a;
    for i in 0..16usize
        invariant
            table_in_range(table@, 16),
            forall|j: int| 0 <= j < i ==> out@[j] == a@[table@[j] as int],
    {
        out[i] = a[table[i]];
    }
    assert(out@ =~= permute_lanes(a@, table@));
    out
}

// ---------------------------------------------------------------------------
// Lane-wise arithmetic on 32-bit lanes
// ---------------------------------------------------------------------------

/// Lane-wise exclusive or.
pub open spec fn xor_lanes_i(a: Seq<u32>, b: Seq<u32>) -> Seq<u32> {
    Seq::new(a.len(), |i: int| a[i] ^ b[i])
}

/// Lane-wise and.
pub open spec fn and_lanes_i(a: Seq<u32>, b: Seq<u32>) -> Seq<u32> {
    Seq::new(a.len(), |i: int| a[i] & b[i])
}

/// Lane-wise or.
pub open spec fn or_lanes_i(a: Seq<u32>, b: Seq<u32>) -> Seq<u32> {
    Seq::new(a.len(), |i: int| a[i] | b[i])
}

/// Lane-wise complement.
pub open spec fn not_lanes_i(a: Seq<u32>) -> Seq<u32> {
    Seq::new(a.len(), |i: int| !a[i])
}

/// Every lane shifted left by `n` bits; bits leaving a lane are dropped.
pub open spec fn shl_lanes_i(a: Seq<u32>, n: u32) -> Seq<u32> {
    Seq::new(a.len(), |i: int| a[i] << n)
}

/// Every lane shifted right by `n` bits.
pub open spec fn shr_lanes_i(a: Seq<u32>, n: u32) -> Seq<u32> {
    Seq::new(a.len(), |i: int| a[i] >> n)
}

/// Every lane multiplied by `m` modulo 2^32.
pub open spec fn mul_lanes_i(a: Seq<u32>, m: u32) -> Seq<u32> {
    Seq::new(a.len(), |i: int| a[i].wrapping_mul(m))
}

/// The vector whose four lanes all hold `v`.
pub fn splat_i(v: u32) -> (r: [u32; 4])
    ensures
        r@ == Seq::new(4, |i: int| v),
{
    let r: [u32; 4] = [v; 4];
    assert(r@ =~= Seq::new(4, |i: int| v));
    r
}

/// Lane-wise exclusive or of two word vectors.
pub fn xor_i(a: [u32; 4], b: [u32; 4]) -> (r: [u32; 4])
    ensures
        r@ == xor_lanes_i(a@, b@),
{
    let mut out: [u32; 4] = a;
    for i in 0..4usize
        invariant
            forall|j: int| 0 <= j < i ==> out@[j] == a@[j] ^ b@[j],
    {
        out[i] = a[i] ^ b[i];
    }
    assert(out@ =~= xor_lanes_i(a@, b@));
    out
}

/// Lane-wise and of a word vector with a mask vector.
pub fn and_i(a: [u32; 4], mask: [u32; 4]) -> (r: [u32; 4])
    ensures
        r@ == and_lanes_i(a@, mask@),
{
    let mut out: [u32; 4] = a;
    for i in 0..4usize
        invariant
            forall|j: int| 0 <= j < i ==> out@[j] == a@[j] & mask@[j],
    {
        out[i] = a[i] & mask[i];
    }
    assert(out@ =~= and_lanes_i(a@, mask@));
    out
}

/// Lane-wise or of two word vectors.
pub fn or_i(a: [u32; 4], b: [u32; 4]) -> (r: [u32; 4])
    ensures
        r@ == or_lanes_i(a@, b@),
{
    let mut out: [u32; 4] = a;
    for i in 0..4usize
        invariant
            forall|j: int| 0 <= j < i ==> out@[j] == a@[j] | b@[j],
    {
        out[i] = a[i] | b[i];
    }
    assert(out@ =~= or_lanes_i(a@, b@));
    out
}

/// Lane-wise complement of a word vector.
pub fn not_i(a: [u32; 4]) -> (r: [u32; 4])
    ensures
        r@ == not_lanes_i(a@),
{
    let mut out: [u32; 4] = a;
    for i in 0..4usize
        invariant
            forall|j: int| 0 <= j < i ==> out@[j] == !a@[j],
    {
        out[i] = !a[i];
    }
    assert(out@ =~= not_lanes_i(a@));
    out
}

/// Shifts every word lane left by `n` bits.
pub fn shl_i(a: [u32; 4], n: u32) -> (r: [u32; 4])
    requires
        n < 32,
    ensures
        r@ == shl_lanes_i(a@, n),
{
    let mut out: [u32; 4] = a;
    for i in 0..4usize
        invariant
            n < 32,
            forall|j: int| 0 <= j < i ==> out@[j] == a@[j] << n,
    {
        out[i] = a[i] << n;
    }
    assert(out@ =~= shl_lanes_i(a@, n));
    out
}

/// Shifts every word lane right by `n` bits.
pub fn shr_i(a: [u32; 4], n: u32) -> (r: [u32; 4])
    requires
        n < 32,
    ensures
        r@ == shr_lanes_i(a@, n),
{
    let mut out: [u32; 4] = a;
    for i in 0..4usize
        invariant
            n < 32,
            forall|j: int| 0 <= j < i ==> out@[j] == a@[j] >> n,
    {
        out[i] = a[i] >> n;
    }
    assert(out@ =~= shr_lanes_i(a@, n));
    out
}

/// Multiplies every word lane by `m` modulo 2^32.
pub fn mul_i(a: [u32; 4], m: u32) -> (r: [u32; 4])
    ensures
        r@ == mul_lanes_i(a@, m),
{
    let mut out: [u32; 4] = a;
    for i in 0..4usize
        invariant
            forall|j: int| 0 <= j < i ==> out@[j] == a@[j].wrapping_mul(m),
    {
        out[i] = a[i].wrapping_mul(m);
    }
    assert(out@ =~= mul_lanes_i(a@, m));
    out
}

/// Rotates the word lanes cyclically by `k` towards lane 0.
pub fn rotate_left_i(a: [u32; 4], k: usize) -> (r: [u32; 4])
    requires
        k < 4,
    ensures
        r@ == rotate_lanes_left(a@, k as int),
{
    let mut out: [u32; 4] = a;
    for i in 0..4usize
        invariant
            k < 4,
            forall|j: int| 0 <= j < i ==> out@[j] == a@[(j + k) % 4],
    {
        out[i] = a[(i + k) % 4];
    }
    assert(out@ =~= rotate_lanes_left(a@, k as int));
    out
}

/// Rotates the word lanes cyclically by `k` away from lane 0.
pub fn rotate_right_i(a: [u32; 4], k: usize) -> (r: [u32; 4])
    requires
        k < 4,
    ensures
        r@ == rotate_lanes_right(a@, k as int),
{
    let mut out: [u32; 4] = a;
    for i in 0..4usize
        invariant
            k < 4,
            forall|j: int| 0 <= j < i ==> out@[j] == a@[(j + 4 - k) % 4],
    {
        out[i] = a[(i + 4 - k) % 4];
    }
    assert(out@ =~= rotate_lanes_right(a@, k as int));
    out
}

/// Permutes the word lanes by `table`.
pub fn swizzle_i(a: [u32; 4], table: &[usize; 4]) -> (r: [u32; 4])
    requires
        table_in_range(table@, 4),
    ensures
        r@ == permute_lanes(a@, table@),
{
    let mut out: [u32; 4] = a;
    for i in 0..4usize
        invariant
            table_in_range(table@, 4),
            forall|j: int| 0 <= j < i ==> out@[j] == a@[table@[j] as int],
    {
        out[i] = a[table[i]];
    }
    assert(out@ =~= permute_lanes(a@, table@));
    out
}

// ---------------------------------------------------------------------------
// Little-endian packing of bytes into wider lanes
// ---------------------------------------------------------------------------

/// The 32-bit word whose bytes, least significant first, are `b0 .. b3`.
pub open spec fn word_from_le(b0: u8, b1: u8, b2: u8, b3: u8) -> u32 {
    (b0 as u32) | ((b1 as u32) << 8) | ((b2 as u32) << 16) | ((b3 as u32) << 24)
}

/// Byte `k` of `w`, counted from the least significant byte.
pub open spec fn byte_of_word(w: u32, k: int) -> u8 {
    if k == 0 {
        w as u8
    } else if k == 1 {
        (w >> 8) as u8
    } else if k == 2 {
        (w >> 16) as u8
    } else {
        (w >> 24) as u8
    }
}

/// The 64-bit word whose bytes, least significant first, are `b0 .. b7`.
pub open spec fn wide_from_le(
    b0: u8,
    b1: u8,
    b2: u8,
    b3: u8,
    b4: u8,
    b5: u8,
    b6: u8,
    b7: u8,
) -> u64 {
    (b0 as u64) | ((b1 as u64) << 8) | ((b2 as u64) << 16) | ((b3 as u64) << 24) | ((b4 as u64)
        << 32) | ((b5 as u64) << 40) | ((b6 as u64) << 48) | ((b7 as u64) << 56)
}

/// Byte `k` of `w`, counted from the least significant byte.
pub open spec fn byte_of_wide(w: u64, k: int) -> u8 {
    if k == 0 {
        w as u8
    } else if k == 1 {
        (w >> 8) as u8
    } else if k == 2 {
        (w >> 16) as u8
    } else if k == 3 {
        (w >> 24) as u8
    } else if k == 4 {
        (w >> 32) as u8
    } else if k == 5 {
        (w >> 40) as u8
    } else if k == 6 {
        (w >> 48) as u8
    } else {
        (w >> 56) as u8
    }
}

/// The bytes of a state read as little-endian 32-bit lanes.
pub open spec fn pack_words(s: Seq<u8>) -> Seq<u32> {
    Seq::new(
        s.len() / 4,
        |j: int| word_from_le(s[4 * j], s[4 * j + 1], s[4 * j + 2], s[4 * j + 3]),
    )
}

/// The bytes of a vector of 32-bit lanes, each lane least significant byte first.
pub open spec fn unpack_words(w: Seq<u32>) -> Seq<u8> {
    Seq::new(4 * w.len(), |i: int| byte_of_word(w[i / 4], i % 4))
}

/// The bytes of a state read as little-endian 64-bit lanes.
pub open spec fn pack_wide(s: Seq<u8>) -> Seq<u64> {
    Seq::new(
        s.len() / 8,
        |j: int|
            wide_from_le(
                s[8 * j],
                s[8 * j + 1],
                s[8 * j + 2],
                s[8 * j + 3],
                s[8 * j + 4],
                s[8 * j + 5],
                s[8 * j + 6],
                s[8 * j + 7],
            ),
    )
}

/// The bytes of a vector of 64-bit lanes, each lane least significant byte first.
pub open spec fn unpack_wide(w: Seq<u64>) -> Seq<u8> {
    Seq::new(8 * w.len(), |i: int| byte_of_wide(w[i / 8], i % 8))
}

/// Every 64-bit lane multiplied by `m` modulo 2^64.
pub open spec fn mul_lanes_wide(a: Seq<u64>, m: u64) -> Seq<u64> {
    Seq::new(a.len(), |i: int| a[i].wrapping_mul(m))
}

/// Splitting a 32-bit word into bytes and joining them again changes nothing.
pub proof fn lemma_word_bytes(w: u32)
    ensures
        word_from_le(byte_of_word(w, 0), byte_of_word(w, 1), byte_of_word(w, 2), byte_of_word(w, 3))
            == w,
{
    assert((w as u8 as u32) | (((w >> 8) as u8 as u32) << 8) | (((w >> 16) as u8 as u32) << 16) | ((
    (w >> 24) as u8 as u32) << 24) == w) by (bit_vector);
}

/// Each byte joined into a 32-bit word is found again at its place.
pub proof fn lemma_bytes_word(b0: u8, b1: u8, b2: u8, b3: u8)
    ensures
        byte_of_word(word_from_le(b0, b1, b2, b3), 0) == b0,
        byte_of_word(word_from_le(b0, b1, b2, b3), 1) == b1,
        byte_of_word(word_from_le(b0, b1, b2, b3), 2) == b2,
        byte_of_word(word_from_le(b0, b1, b2, b3), 3) == b3,
{
    let w = word_from_le(b0, b1, b2, b3);
    assert(w as u8 == b0 && (w >> 8) as u8 == b1 && (w >> 16) as u8 == b2 && (w >> 24) as u8 == b3)
        by (bit_vector)
        requires
            w == (b0 as u32) | ((b1 as u32) << 8) | ((b2 as u32) << 16) | ((b3 as u32) << 24),
    ;
}

/// Splitting a 64-bit word into bytes and joining them again changes nothing.
pub proof fn lemma_wide_bytes(w: u64)
    ensures
        wide_from_le(
            byte_of_wide(w, 0),
            byte_of_wide(w, 1),
            byte_of_wide(w, 2),
            byte_of_wide(w, 3),
            byte_of_wide(w, 4),
            byte_of_wide(w, 5),
            byte_of_wide(w, 6),
            byte_of_wide(w, 7),
        ) == w,
{
    assert((w as u8 as u64) | (((w >> 8) as u8 as u64) << 8) | (((w >> 16) as u8 as u64) << 16) | ((
    (w >> 24) as u8 as u64) << 24) | (((w >> 32) as u8 as u64) << 32) | (((w >> 40) as u8 as u64)
        << 40) | (((w >> 48) as u8 as u64) << 48) | (((w >> 56) as u8 as u64) << 56) == w)
        by (bit_vector);
}

/// Each byte joined into a 64-bit word is found again at its place.
pub proof fn lemma_bytes_wide(b0: u8, b1: u8, b2: u8, b3: u8, b4: u8, b5: u8, b6: u8, b7: u8)
    ensures
        byte_of_wide(wide_from_le(b0, b1, b2, b3, b4, b5, b6, b7), 0) == b0,
        byte_of_wide(wide_from_le(b0, b1, b2, b3, b4, b5, b6, b7), 1) == b1,
        byte_of_wide(wide_from_le(b0, b1, b2, b3, b4, b5, b6, b7), 2) == b2,
        byte_of_wide(wide_from_le(b0, b1, b2, b3, b4, b5, b6, b7), 3) == b3,
        byte_of_wide(wide_from_le(b0, b1, b2, b3, b4, b5, b6, b7), 4) == b4,
        byte_of_wide(wide_from_le(b0, b1, b2, b3, b4, b5, b6, b7), 5) == b5,
        byte_of_wide(wide_from_le(b0, b1, b2, b3, b4, b5, b6, b7), 6) == b6,
        byte_of_wide(wide_from_le(b0, b1, b2, b3, b4, b5, b6, b7), 7) == b7,
{
    let w = wide_from_le(b0, b1, b2, b3, b4, b5, b6, b7);
    assert(w as u8 == b0 && (w >> 8) as u8 == b1 && (w >> 16) as u8 == b2 && (w >> 24) as u8 == b3
        && (w >> 32) as u8 == b4 && (w >> 40) as u8 == b5 && (w >> 48) as u8 == b6 && (w >> 56) as u8
        == b7) by (bit_vector)
        requires
            w == (b0 as u64) | ((b1 as u64) << 8) | ((b2 as u64) << 16) | ((b3 as u64) << 24) | ((
            b4 as u64) << 32) | ((b5 as u64) << 40) | ((b6 as u64) << 48) | ((b7 as u64) << 56),
    ;
}

/// Packing sixteen bytes into words and unpacking them restores the bytes,
/// and unpacking four words and packing them restores the words.
pub proof fn lemma_pack_words_inverse(s: Seq<u8>, w: Seq<u32>)
    requires
        s.len() == 16,
        w.len() == 4,
    ensures
        unpack_words(pack_words(s)) == s,
        pack_words(unpack_words(w)) == w,
{
    let p = pack_words(s);
    assert forall|i: int| 0 <= i < 16 implies unpack_words(p)[i] == s[i] by {
        let j = i / 4;
        lemma_bytes_word(s[4 * j], s[4 * j + 1], s[4 * j + 2], s[4 * j + 3]);
    }
    assert(unpack_words(p) =~= s);
    let u = unpack_words(w);
    assert forall|j: int| 0 <= j < 4 implies pack_words(u)[j] == w[j] by {
        lemma_word_bytes(w[j]);
        assert(u[4 * j] == byte_of_word(w[j], 0));
        assert(u[4 * j + 1] == byte_of_word(w[j], 1));
        assert(u[4 * j + 2] == byte_of_word(w[j], 2));
        assert(u[4 * j + 3] == byte_of_word(w[j], 3));
    }
    assert(pack_words(u) =~= w);
}

/// Packing sixteen bytes into 64-bit lanes and unpacking them restores the
/// bytes, and unpacking two lanes and packing them restores the lanes.
pub proof fn lemma_pack_wide_inverse(s: Seq<u8>, w: Seq<u64>)
    requires
        s.len() == 16,
        w.len() == 2,
    ensures
        unpack_wide(pack_wide(s)) == s,
        pack_wide(unpack_wide(w)) == w,
{
    let p = pack_wide(s);
    assert forall|i: int| 0 <= i < 16 implies unpack_wide(p)[i] == s[i] by {
        let j = i / 8;
        lemma_bytes_wide(
            s[8 * j],
            s[8 * j + 1],
            s[8 * j + 2],
            s[8 * j + 3],
            s[8 * j + 4],
            s[8 * j + 5],
            s[8 * j + 6],
            s[8 * j + 7],
        );
    }
    assert(unpack_wide(p) =~= s);
    let u = unpack_wide(w);
    assert forall|j: int| 0 <= j < 2 implies pack_wide(u)[j] == w[j] by {
        lemma_wide_bytes(w[j]);
        assert(u[8 * j] == byte_of_wide(w[j], 0));
        assert(u[8 * j + 1] == byte_of_wide(w[j], 1));
        assert(u[8 * j + 2] == byte_of_wide(w[j], 2));
        assert(u[8 * j + 3] == byte_of_wide(w[j], 3));
        assert(u[8 * j + 4] == byte_of_wide(w[j], 4));
        assert(u[8 * j + 5] == byte_of_wide(w[j], 5));
        assert(u[8 * j + 6] == byte_of_wide(w[j], 6));
        assert(u[8 * j + 7] == byte_of_wide(w[j], 7));
    }
    assert(pack_wide(u) =~= w);
}

/// Reads a block as four little-endian 32-bit lanes.
pub fn to_words(b: [u8; 16]) -> (r: [u32; 4])
    ensures
        r@ == pack_words(b@),
{
    let mut out: [u32; 4] = [0u32; 4];
    for j in 0..4usize
        invariant
            forall|t: int|
                0 <= t < j ==> out@[t] == word_from_le(
                    b@[4 * t],
                    b@[4 * t + 1],
                    b@[4 * t + 2],
                    b@[4 * t + 3],
                ),
    {
        out[j] = (b[4 * j] as u32) | ((b[4 * j + 1] as u32) << 8) | ((b[4 * j + 2] as u32) << 16)
            | ((b[4 * j + 3] as u32) << 24);
    }
    assert(out@ =~= pack_words(b@));
    out
}

/// Writes four 32-bit lanes as a block, each lane least significant byte first.
pub fn from_words(w: [u32; 4]) -> (r: [u8; 16])
    ensures
        r@ == unpack_words(w@),
{
    let mut out: [u8; 16] = [0u8; 16];
    for j in 0..4usize
        invariant
            forall|t: int| 0 <= t < 4 * j ==> out@[t] == byte_of_word(w@[t / 4], t % 4),
    {
        let x: u32 = w[j];
        out[4 * j] = #[verifier::truncate] (x as u8);
        out[4 * j + 1] = #[verifier::truncate] ((x >> 8) as u8);
        out[4 * j + 2] = #[verifier::truncate] ((x >> 16) as u8);
        out[4 * j + 3] = #[verifier::truncate] ((x >> 24) as u8);
    }
    assert(out@ =~= unpack_words(w@));
    out
}

/// Reads a block as two little-endian 64-bit lanes.
pub fn to_wide(b: [u8; 16]) -> (r: [u64; 2])
    ensures
        r@ == pack_wide(b@),
{
    let mut out: [u64; 2] = [0u64; 2];
    for j in 0..2usize
        invariant
            forall|t: int|
                0 <= t < j ==> out@[t] == wide_from_le(
                    b@[8 * t],
                    b@[8 * t + 1],
                    b@[8 * t + 2],
                    b@[8 * t + 3],
                    b@[8 * t + 4],
                    b@[8 * t + 5],
                    b@[8 * t + 6],
                    b@[8 * t + 7],
                ),
    {
        out[j] = (b[8 * j] as u64) | ((b[8 * j + 1] as u64) << 8) | ((b[8 * j + 2] as u64) << 16)
            | ((b[8 * j + 3] as u64) << 24) | ((b[8 * j + 4] as u64) << 32) | ((b[8 * j
            + 5] as u64) << 40) | ((b[8 * j + 6] as u64) << 48) | ((b[8 * j + 7] as u64) << 56);
    }
    assert(out@ =~= pack_wide(b@));
    out
}

/// Writes two 64-bit lanes as a block, each lane least significant byte first.
pub fn from_wide(w: [u64; 2]) -> (r: [u8; 16])
    ensures
        r@ == unpack_wide(w@),
{
    let mut out: [u8; 16] = [0u8; 16];
    for j in 0..2usize
        invariant
            forall|t: int| 0 <= t < 8 * j ==> out@[t] == byte_of_wide(w@[t / 8], t % 8),
    {
        let x: u64 = w[j];
        out[8 * j] = #[verifier::truncate] (x as u8);
        out[8 * j + 1] = #[verifier::truncate] ((x >> 8) as u8);
        out[8 * j + 2] = #[verifier::truncate] ((x >> 16) as u8);
        out[8 * j + 3] = #[verifier::truncate] ((x >> 24) as u8);
        out[8 * j + 4] = #[verifier::truncate] ((x >> 32) as u8);
        out[8 * j + 5] = #[verifier::truncate] ((x >> 40) as u8);
        out[8 * j + 6] = #[verifier::truncate] ((x >> 48) as u8);
        out[8 * j + 7] = #[verifier::truncate] ((x >> 56) as u8);
    }
    assert(out@ =~= unpack_wide(w@));
    out
}

/// Multiplies both 64-bit lanes by `m` modulo 2^64.
pub fn mul_wide(a: [u64; 2], m: u64) -> (r: [u64; 2])
    ensures
        r@ == mul_lanes_wide(a@, m),
{
    let mut out: [u64; 2] = a;
    for i in 0..2usize
        invariant
            forall|j: int| 0 <= j < i ==> out@[j] == a@[j].wrapping_mul(m),
    {
        out[i] = a[i].wrapping_mul(m);
    }
    assert(out@ =~= mul_lanes_wide(a@, m));
    out
}

} // verus!
