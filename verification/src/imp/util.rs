//! The statistics harness and the number tools used to choose the cipher's
//! constants.

use vstd::arithmetic::div_mod::{
    lemma_fundamental_div_mod, lemma_fundamental_div_mod_converse, lemma_mod_pos_bound,
};
use vstd::arithmetic::mul::{lemma_mul_inequality, lemma_mul_is_commutative};
use vstd::arithmetic::power2::lemma2_to64;
use vstd::prelude::*;

use crate::imp::b128::Tekton128;
use crate::imp::b256::Tekton256;
use crate::imp::bridge::{
    binary_digits, bit_reader, bits_be, format_binary, integer_sqrt, is_prime_decimal,
    miller_rabin_verdict, random_u64, read_bit, unread_bits,
};
use crate::imp::modular::{inverse_modulo, inverse_spec, lemma_inverse_of_odd};

verus! {

// ---------------------------------------------------------------------------
// Histogram
// ---------------------------------------------------------------------------

/// Width of one bin of a histogram with `bins` bins over the 128-bit range.
pub open spec fn bin_width(bins: nat) -> nat {
    if bins == 0 {
        0
    } else {
        (u128::MAX as nat) / bins
    }
}

/// Upper milestone of bin `i`: the least value that lies above the bin.
pub open spec fn mark_spec(bins: nat, i: nat) -> nat {
    (i + 1) * bin_width(bins)
}

/// `i` is the first bin whose upper milestone exceeds `num`.
pub open spec fn is_first_bin(bins: nat, num: nat, i: int) -> bool {
    &&& 0 <= i < bins
    &&& num < mark_spec(bins, i as nat)
    &&& forall|j: int| 0 <= j < i ==> num >= #[trigger] mark_spec(bins, j as nat)
}

/// The value of a byte sequence read as a big-endian number.
pub open spec fn be_value(bytes: Seq<u8>) -> nat
    decreases bytes.len(),
{
    if bytes.len() == 0 {
        0
    } else {
        be_value(bytes.drop_last()) * 256 + bytes.last() as nat
    }
}

/// 256 to the power `n`.
pub open spec fn pow256(n: nat) -> nat
    decreases n,
{
    if n == 0 {
        1
    } else {
        256 * pow256((n - 1) as nat)
    }
}

/// A big-endian number of `n` bytes lies below 256 to the `n`.
pub proof fn lemma_be_value_bound(bytes: Seq<u8>)
    ensures
        be_value(bytes) < pow256(bytes.len()),
    decreases bytes.len(),
{
    if bytes.len() > 0 {
        lemma_be_value_bound(bytes.drop_last());
    }
}

/// The bin that counts `num`: the first bin whose upper milestone exceeds
/// it, if there is one.
pub open spec fn bin_of(bins: nat, num: nat) -> Option<int> {
    if exists|i: int| is_first_bin(bins, num, i) {
        Some(choose|i: int| is_first_bin(bins, num, i))
    } else {
        None
    }
}

/// The counts of a histogram with `bins` bins that has counted nothing.
pub open spec fn empty_counts(bins: nat) -> Seq<u32> {
    Seq::new(bins, |i: int| 0u32)
}

/// The counts after one more value was counted: the bin of the value, if
/// it has one, is one higher, and a full bin starts again at zero.
pub open spec fn counted(counts: Seq<u32>, num: nat) -> Seq<u32> {
    match bin_of(counts.len(), num) {
        Some(i) => counts.update(i, counts[i].wrapping_add(1)),
        None => counts,
    }
}

/// The sum of the counts.
pub open spec fn sum_counts(counts: Seq<u32>) -> nat
    decreases counts.len(),
{
    if counts.len() == 0 {
        0
    } else {
        sum_counts(counts.drop_last()) + counts.last() as nat
    }
}

/// Every count is below 2^32, so the sum is at most that often the number
/// of bins.
pub proof fn lemma_sum_counts_bound(counts: Seq<u32>)
    ensures
        sum_counts(counts) <= counts.len() * 0xFFFF_FFFF,
    decreases counts.len(),
{
    if counts.len() > 0 {
        lemma_sum_counts_bound(counts.drop_last());
    }
}

/// The distance between two numbers.
pub open spec fn distance(a: nat, b: nat) -> nat {
    if a >= b {
        (a - b) as nat
    } else {
        (b - a) as nat
    }
}

/// The deviation of the counts from the uniform share, scaled to whole
/// numbers: the sum over the first `n` bins of the distance between
/// `count * bins` and `total`. Divided by `total * bins` it is the sum of
/// the distances between each bin's share of the total and `1 / bins`.
pub open spec fn deviation_sum(counts: Seq<u32>, total: nat, n: nat) -> nat
    decreases n,
{
    if n == 0 {
        0
    } else {
        deviation_sum(counts, total, (n - 1) as nat) + distance(
            counts[n - 1] as nat * counts.len(),
            total,
        )
    }
}

/// The deviation is 0 exactly when every one of the first `n` bins holds
/// the uniform share of the total.
pub proof fn lemma_deviation_zero(counts: Seq<u32>, total: nat, n: nat)
    ensures
        deviation_sum(counts, total, n) == 0 <==> forall|i: int|
            0 <= i < n ==> (#[trigger] counts[i]) as nat * counts.len() == total,
    decreases n,
{
    if n > 0 {
        lemma_deviation_zero(counts, total, (n - 1) as nat);
        if deviation_sum(counts, total, n) == 0 {
            assert forall|i: int| 0 <= i < n implies (#[trigger] counts[i]) as nat * counts.len()
                == total by {
                if i == n - 1 {
                    assert(distance(counts[n - 1] as nat * counts.len(), total) == 0);
                }
            }
        } else if deviation_sum(counts, total, (n - 1) as nat) == 0 {
            assert(counts[n - 1] as nat * counts.len() != total);
        }
    }
}

/// A value falls into bin `num / width`, when that is a bin, and into no
/// bin otherwise.
pub proof fn lemma_bin_of(bins: nat, num: nat)
    requires
        bins > 0,
        bin_width(bins) > 0,
    ensures
        bin_of(bins, num) == if num / bin_width(bins) < bins {
            Some((num / bin_width(bins)) as int)
        } else {
            None
        },
{
    let w = bin_width(bins) as int;
    let q = (num as int) / w;
    lemma_fundamental_div_mod(num as int, w);
    assert(q * w == w * q) by (nonlinear_arith);
    assert(0 <= q) by (nonlinear_arith)
        requires
            0 <= num,
            w > 0,
            q == (num as int) / w,
    ;
    assert forall|j: int| 0 <= j < q && j < bins implies num >= #[trigger] mark_spec(
        bins,
        j as nat,
    ) by {
        lemma_mul_inequality(j + 1, q, w);
    }
    if q < bins {
        assert((q + 1) * w == q * w + w) by (nonlinear_arith);
        assert(is_first_bin(bins, num, q));
        let c = choose|i: int| is_first_bin(bins, num, i);
        if c < q {
            assert(num >= mark_spec(bins, c as nat));
        } else if c > q {
            assert(num >= mark_spec(bins, q as nat));
        }
    } else {
        assert forall|i: int| !is_first_bin(bins, num, i) by {
            if 0 <= i < bins {
                assert(num >= mark_spec(bins, i as nat));
            }
        }
    }
}

/// Counts of 128-bit values over `F` bins of equal width.
pub struct Histogram<const F: usize> {
    bins: Vec<u32>,
}

impl<const F: usize> Histogram<F> {
    /// There are `F` bins.
    #[verifier::type_invariant]
    spec fn well_formed(self) -> bool {
        self.bins@.len() == F
    }

    /// The count of every bin.
    pub closed spec fn counts(&self) -> Seq<u32> {
        self.bins@
    }

    /// A histogram with every bin empty.
    pub fn new() -> (h: Histogram<F>)
        ensures
            h.counts() == empty_counts(F as nat),
    {
        let mut bins: Vec<u32> = Vec::new();
        for i in 0..F
            invariant
                bins@.len() == i,
                forall|j: int| 0 <= j < i ==> bins@[j] == 0u32,
        {
            bins.push(0);
        }
        assert(bins@ =~= empty_counts(F as nat));
        Histogram { bins }
    }

    /// Upper milestone of bin `i`.
    pub fn mark(i: usize) -> (m: u128)
        requires
            i < F,
        ensures
            m as nat == mark_spec(F as nat, i as nat),
    {
        let width: u128 = u128::MAX / (F as u128);
        proof {
            let f = F as int;
            let w = width as int;
            lemma_fundamental_div_mod(u128::MAX as int, f);
            lemma_mul_is_commutative(f, w);
            lemma_mul_inequality(i as int + 1, f, w);
        }
        (i as u128 + 1) * width
    }

    /// Counts `payload`, read as a big-endian number, in the first bin
    /// whose upper milestone exceeds it. A value above every milestone is
    /// not counted. A full bin starts again at zero.
    pub fn update(&mut self, payload: [u8; 16])
        ensures
            final(self).counts() == counted(old(self).counts(), be_value(payload@)),
            final(self).counts().len() == F,
    {
        proof {
            use_type_invariant(&*self);
        }
        let num = big_endian(&payload);
        if F == 0 {
            assert(bin_of(F as nat, be_value(payload@)) is None);
            return ;
        }
        let width: u128 = u128::MAX / (F as u128);
        assert(width > 0) by {
            lemma_fundamental_div_mod(u128::MAX as int, F as int);
            lemma_mod_pos_bound(u128::MAX as int, F as int);
        }
        let idx: u128 = num / width;
        proof {
            lemma_bin_of(F as nat, num as nat);
        }
        if idx < F as u128 {
            let i = idx as usize;
            let bumped = self.bins[i].wrapping_add(1);
            self.bins[i] = bumped;
        }
    }

    /// The counts of the bins, in bin order.
    pub fn bins(&self) -> (r: &Vec<u32>)
        ensures
            r@ == self.counts(),
    {
        &self.bins
    }

    /// The sum of the counts: the number of values counted, as long as no
    /// bin has started again at zero.
    pub fn total(&self) -> (t: u128)
        ensures
            t == sum_counts(self.counts()),
    {
        let mut t: u128 = 0;
        let n = self.bins.len();
        for i in 0..n
            invariant
                n == self.bins@.len(),
                t == sum_counts(self.bins@.take(i as int)),
                t <= i * 0xFFFF_FFFF,
        {
            assert(self.bins@.take(i + 1).drop_last() =~= self.bins@.take(i as int));
            t += self.bins[i] as u128;
        }
        assert(self.bins@.take(n as int) =~= self.bins@);
        t
    }

    /// The deviation from uniformity in whole numbers: the sum over the
    /// bins of the distance between `count * F` and the total. It is 0
    /// when every bin holds the same count, and divided by `total * F` it
    /// is the sum of the distances between each bin's share and `1 / F`.
    pub fn deviation(&self) -> (d: u128)
        requires
            F <= 0xFFFF_FFFF,
        ensures
            d == deviation_sum(self.counts(), sum_counts(self.counts()), F as nat),
    {
        proof {
            use_type_invariant(self);
        }
        let total = self.total();
        let n = self.bins.len();
        let mut d: u128 = 0;
        proof {
            lemma_sum_counts_bound(self.bins@);
        }
        for i in 0..n
            invariant
                n == F,
                F <= 0xFFFF_FFFF,
                n == self.bins@.len(),
                total <= n * 0xFFFF_FFFF,
                d == deviation_sum(self.bins@, total as nat, i as nat),
                d <= i * 0x1_0000_0000_0000_0000,
        {
            assert(self.bins@[i as int] * n <= 0xFFFF_FFFF * 0xFFFF_FFFF && total <= 0xFFFF_FFFF
                * 0xFFFF_FFFF) by (nonlinear_arith)
                requires
                    self.bins@[i as int] <= 0xFFFF_FFFF,
                    total <= n * 0xFFFF_FFFF,
                    n <= 0xFFFF_FFFF,
            ;
            let scaled: u128 = (self.bins[i] as u128) * (n as u128);
            let term: u128 = if scaled >= total {
                scaled - total
            } else {
                total - scaled
            };
            d += term;
        }
        d
    }
}

/// Reads sixteen bytes as a big-endian number.
pub fn big_endian(bytes: &[u8; 16]) -> (r: u128)
    ensures
        r as nat == be_value(bytes@),
{
    let mut acc: u128 = 0;
    proof {
        reveal_with_fuel(pow256, 17);
    }
    for i in 0..16usize
        invariant
            acc as nat == be_value(bytes@.take(i as int)),
    {
        proof {
            lemma_be_value_bound(bytes@.take(i as int));
            reveal_with_fuel(pow256, 17);
            assert(pow256(i as nat) <= pow256(15));
            assert(bytes@.take(i + 1).drop_last() =~= bytes@.take(i as int));
        }
        acc = acc * 256 + bytes[i] as u128;
    }
    assert(bytes@.take(16) =~= bytes@);
    acc
}

// ---------------------------------------------------------------------------
// Bit counting
// ---------------------------------------------------------------------------

/// How many of the first `n` positions hold different bits in `a` and `b`.
pub open spec fn differing(a: Seq<bool>, b: Seq<bool>, n: nat) -> nat
    decreases n,
{
    if n == 0 {
        0
    } else {
        differing(a, b, (n - 1) as nat) + if a[n - 1] != b[n - 1] {
            1nat
        } else {
            0nat
        }
    }
}

/// How many of the first `n` bits of `a` are set.
pub open spec fn ones(a: Seq<bool>, n: nat) -> nat
    decreases n,
{
    if n == 0 {
        0
    } else {
        ones(a, (n - 1) as nat) + if a[n - 1] {
            1nat
        } else {
            0nat
        }
    }
}

/// At most `n` of the first `n` positions differ.
pub proof fn lemma_differing_bound(a: Seq<bool>, b: Seq<bool>, n: nat)
    ensures
        differing(a, b, n) <= n,
    decreases n,
{
    if n > 0 {
        lemma_differing_bound(a, b, (n - 1) as nat);
    }
}

/// At most `n` of the first `n` bits are set.
pub proof fn lemma_ones_bound(a: Seq<bool>, n: nat)
    ensures
        ones(a, n) <= n,
    decreases n,
{
    if n > 0 {
        lemma_ones_bound(a, (n - 1) as nat);
    }
}

/// The Hamming distance of two byte strings of one length: the number of
/// bit positions at which they differ.
pub fn hamming_bytes(a: &[u8], b: &[u8]) -> (d: u32)
    requires
        a@.len() == b@.len(),
        a@.len() <= 0x1000_0000,
    ensures
        d == differing(bits_be(a@), bits_be(b@), 8 * a@.len()),
{
    let n: usize = 8 * a.len();
    let mut ra = bit_reader(a);
    let mut rb = bit_reader(b);
    let mut count: u32 = 0;
    let ghost bits_a = bits_be(a@);
    let ghost bits_b = bits_be(b@);
    for i in 0..n
        invariant
            n == 8 * a@.len(),
            n <= 0x8000_0000,
            bits_a.len() == n,
            bits_b.len() == n,
            unread_bits(ra) == bits_a.skip(i as int),
            unread_bits(rb) == bits_b.skip(i as int),
            count == differing(bits_a, bits_b, i as nat),
            count <= i,
    {
        let bit_a = read_bit(&mut ra);
        let bit_b = read_bit(&mut rb);
        proof {
            assert(bits_a.skip(i as int).drop_first() =~= bits_a.skip(i + 1));
            assert(bits_b.skip(i as int).drop_first() =~= bits_b.skip(i + 1));
            assert(bits_a.skip(i as int)[0] == bits_a[i as int]);
            assert(bits_b.skip(i as int)[0] == bits_b[i as int]);
        }
        let differ = match (bit_a, bit_b) {
            (Some(x), Some(y)) => x != y,
            (None, None) => false,
            _ => true,
        };
        if differ {
            count += 1;
        }
    }
    count
}

/// The number of set bits of a byte string.
pub fn count_ones(a: &[u8]) -> (c: u32)
    requires
        a@.len() <= 0x1000_0000,
    ensures
        c == ones(bits_be(a@), 8 * a@.len()),
{
    let n: usize = 8 * a.len();
    let mut ra = bit_reader(a);
    let mut count: u32 = 0;
    let ghost bits_a = bits_be(a@);
    for i in 0..n
        invariant
            n == 8 * a@.len(),
            n <= 0x8000_0000,
            bits_a.len() == n,
            unread_bits(ra) == bits_a.skip(i as int),
            count == ones(bits_a, i as nat),
            count <= i,
    {
        let bit = read_bit(&mut ra);
        proof {
            assert(bits_a.skip(i as int).drop_first() =~= bits_a.skip(i + 1));
            assert(bits_a.skip(i as int)[0] == bits_a[i as int]);
        }
        let set = match bit {
            Some(x) => x,
            None => false,
        };
        if set {
            count += 1;
        }
    }
    count
}

// ---------------------------------------------------------------------------
// Number tools
// ---------------------------------------------------------------------------

/// The two bytes of a 16-bit number, most significant first.
pub open spec fn be_bytes_u16(x: u16) -> Seq<u8> {
    seq![(x >> 8) as u8, (x & 0xFF) as u8]
}

/// The numbers below `n` that multiplication by `p` modulo `m` leaves
/// where they are, in ascending order.
pub open spec fn fixed_points(p: nat, m: nat, n: nat) -> Seq<nat>
    decreases n,
{
    if n == 0 {
        Seq::empty()
    } else {
        let rest = fixed_points(p, m, (n - 1) as nat);
        if ((n - 1) * p) % (m as int) == n - 1 {
            rest.push((n - 1) as nat)
        } else {
            rest
        }
    }
}

/// Tools for choosing and checking a substitution multiplier.
pub trait NumUtil<T> {
    /// The number of bit positions at which `self` and `other` differ.
    spec fn distance_to(&self, other: &T) -> nat;

    /// The lane values that multiplication by `self` leaves unchanged, in
    /// ascending order.
    spec fn fixed_lanes(&self) -> Seq<T>;

    /// The binary numeral of `self`, without leading zeros.
    spec fn binary_text(&self) -> Seq<char>;

    /// What the Miller-Rabin test says of `self`.
    spec fn prime_verdict(&self) -> bool;

    /// The residue that the extended Euclidean algorithm finds for `self`
    /// modulo the number of lane values: for odd `self`, its inverse.
    spec fn inverse_value(&self) -> T;

    /// The Hamming distance between `self` and `other`.
    fn hamming_distance(&self, other: &T) -> (d: i32)
        ensures
            d == self.distance_to(other),
    ;

    /// The lane values that multiplication by `self` leaves unchanged.
    fn sbox_sanity(&self) -> (fixed: Vec<T>)
        ensures
            fixed@ == self.fixed_lanes(),
    ;

    /// The binary numeral of `self`.
    fn print_binary(&self) -> (text: String)
        ensures
            text@ == self.binary_text(),
    ;

    /// Whether the Miller-Rabin test takes `self` for a prime.
    fn is_prime(&self) -> (verdict: bool)
        ensures
            verdict == self.prime_verdict(),
    ;

    /// The multiplier that undoes multiplication by `self`, for odd `self`.
    fn inverse(&self) -> (r: T)
        ensures
            r == self.inverse_value(),
    ;
}

impl NumUtil<u8> for u8 {
    open spec fn distance_to(&self, other: &u8) -> nat {
        differing(bits_be(seq![*self]), bits_be(seq![*other]), 8)
    }

    open spec fn fixed_lanes(&self) -> Seq<u8> {
        fixed_points(*self as nat, 256, 256).map_values(|x: nat| x as u8)
    }

    open spec fn binary_text(&self) -> Seq<char> {
        binary_digits(*self as nat)
    }

    open spec fn prime_verdict(&self) -> bool {
        miller_rabin_verdict(*self as u16)
    }

    open spec fn inverse_value(&self) -> u8 {
        inverse_spec(*self as nat, 256) as u8
    }

    fn hamming_distance(&self, other: &u8) -> (d: i32) {
        let s: [u8; 1] = [*self];
        let o: [u8; 1] = [*other];
        assert(s@ =~= seq![*self]);
        assert(o@ =~= seq![*other]);
        proof {
            lemma_differing_bound(bits_be(s@), bits_be(o@), 8);
        }
        hamming_bytes(&s, &o) as i32
    }

    fn sbox_sanity(&self) -> (fixed: Vec<u8>) {
        let p: u16 = *self as u16;
        let mut fixed: Vec<u8> = Vec::new();
        for i in 0..256u16
            invariant
                p == *self,
                fixed@ == fixed_points(p as nat, 256, i as nat).map_values(|x: nat| x as u8),
        {
            assert(i * p <= 255 * 255) by (nonlinear_arith)
                requires
                    i <= 255,
                    p <= 255,
            ;
            let r: u16 = (i * p) % 256;
            let ghost before = fixed_points(p as nat, 256, i as nat);
            if r == i {
                fixed.push(i as u8);
                assert(before.push(i as nat).map_values(|x: nat| x as u8) =~= before.map_values(
                    |x: nat| x as u8,
                ).push(i as u8));
            }
        }
        fixed
    }

    fn print_binary(&self) -> (text: String) {
        format_binary(*self as u16)
    }

    fn is_prime(&self) -> (verdict: bool) {
        is_prime_decimal(*self as u16)
    }

    fn inverse(&self) -> (r: u8) {
        inverse_modulo(*self as u128, 256) as u8
    }
}

impl NumUtil<u16> for u16 {
    open spec fn distance_to(&self, other: &u16) -> nat {
        differing(bits_be(be_bytes_u16(*self)), bits_be(be_bytes_u16(*other)), 16)
    }

    open spec fn fixed_lanes(&self) -> Seq<u16> {
        fixed_points(*self as nat, 65536, 65536).map_values(|x: nat| x as u16)
    }

    open spec fn binary_text(&self) -> Seq<char> {
        binary_digits(*self as nat)
    }

    open spec fn prime_verdict(&self) -> bool {
        miller_rabin_verdict(*self)
    }

    open spec fn inverse_value(&self) -> u16 {
        inverse_spec(*self as nat, 65536) as u16
    }

    fn hamming_distance(&self, other: &u16) -> (d: i32) {
        let s: [u8; 2] = [(*self >> 8) as u8, (*self & 0xFF) as u8];
        let o: [u8; 2] = [(*other >> 8) as u8, (*other & 0xFF) as u8];
        assert(s@ =~= be_bytes_u16(*self));
        assert(o@ =~= be_bytes_u16(*other));
        proof {
            lemma_differing_bound(bits_be(s@), bits_be(o@), 16);
        }
        hamming_bytes(&s, &o) as i32
    }

    fn sbox_sanity(&self) -> (fixed: Vec<u16>) {
        let p: u32 = *self as u32;
        let mut fixed: Vec<u16> = Vec::new();
        for i in 0..65536u32
            invariant
                p == *self,
                fixed@ == fixed_points(p as nat, 65536, i as nat).map_values(|x: nat| x as u16),
        {
            assert(i * p <= 65535 * 65535) by (nonlinear_arith)
                requires
                    i <= 65535,
                    p <= 65535,
            ;
            let r: u32 = (i * p) % 65536;
            let ghost before = fixed_points(p as nat, 65536, i as nat);
            if r == i {
                fixed.push(i as u16);
                assert(before.push(i as nat).map_values(|x: nat| x as u16) =~= before.map_values(
                    |x: nat| x as u16,
                ).push(i as u16));
            }
        }
        fixed
    }

    fn print_binary(&self) -> (text: String) {
        format_binary(*self)
    }

    fn is_prime(&self) -> (verdict: bool) {
        is_prime_decimal(*self)
    }

    fn inverse(&self) -> (r: u16) {
        inverse_modulo(*self as u128, 65536) as u16
    }
}

/// For an odd byte, `inverse` gives the multiplier that undoes
/// multiplication by it modulo 256.
pub proof fn lemma_inverse_u8(x: u8)
    requires
        x % 2 == 1,
    ensures
        (x * x.inverse_value()) % 256 == 1,
        x.wrapping_mul(x.inverse_value()) == 1,
{
    lemma2_to64();
    lemma_inverse_of_odd(x as nat, 8);
}

/// For an odd 16-bit number, `inverse` gives the multiplier that undoes
/// multiplication by it modulo 65536.
pub proof fn lemma_inverse_u16(x: u16)
    requires
        x % 2 == 1,
    ensures
        (x * x.inverse_value()) % 65536 == 1,
        x.wrapping_mul(x.inverse_value()) == 1,
{
    lemma2_to64();
    lemma_inverse_of_odd(x as nat, 16);
}

// ---------------------------------------------------------------------------
// Sieve
// ---------------------------------------------------------------------------

/// The sieve strikes `n` as a multiple of `i`: `n` lies below 256 and is
/// `i` times a number from 2 on.
pub open spec fn struck(n: nat, i: nat) -> bool {
    n < 256 && i >= 2 && n % i == 0 && n >= 2 * i
}

/// The sieve strikes `n` as a multiple of a number from 2 up to, but not
/// including, `bound`.
pub open spec fn crossed(n: nat, bound: nat) -> bool
    decreases bound,
{
    bound > 2 && (crossed(n, (bound - 1) as nat) || struck(n, (bound - 1) as nat))
}

/// The numbers from 2 up to, but not including, `n` that the sieve with
/// the bound `root` leaves standing, in ascending order.
pub open spec fn survivors(root: nat, n: nat) -> Seq<i32>
    decreases n,
{
    if n == 0 {
        Seq::empty()
    } else {
        let rest = survivors(root, (n - 1) as nat);
        if n - 1 >= 2 && !crossed((n - 1) as nat, root) {
            rest.push((n - 1) as i32)
        } else {
            rest
        }
    }
}

/// `r` is the truncated square root of `n`.
pub open spec fn is_root(r: nat, n: nat) -> bool {
    r * r <= n < (r + 1) * (r + 1)
}

/// Between two neighbouring multiples of `i` lies no multiple of `i`.
proof fn lemma_next_multiple(n: nat, i: nat, it: nat)
    requires
        i >= 2,
        n % i == 0,
        it * i < n,
    ensures
        (it + 1) * i <= n,
{
    let q = n / i;
    lemma_fundamental_div_mod(n as int, i as int);
    assert((it + 1) * i <= n) by (nonlinear_arith)
        requires
            n == i * q,
            it * i < n,
            i >= 2,
    ;
}

/// The numbers below `L` that survive a sieve of the multiples, below 256,
/// of the numbers from 2 up to, but not including, the truncated square
/// root of `L`. For `L == 256` these are the primes below 256.
pub fn primes<const L: usize>() -> (list: Vec<i32>)
    requires
        L < 9 || L >= 256,
        L <= 0x8000_0000,
    ensures
        forall|root: nat| #[trigger] is_root(root, L as nat) ==> list@ == survivors(root, L as nat),
{
    let mut table: Vec<i32> = Vec::new();
    for i in 0..L
        invariant
            L <= 0x8000_0000,
            table@.len() == i,
            forall|n: int| 0 <= n < i ==> table@[n] == n,
    {
        table.push(i as i32);
    }
    let root = integer_sqrt(L);
    assert(root >= 3 ==> L >= 9) by (nonlinear_arith)
        requires
            root * root <= L,
    ;
    assert(root <= 0x8000_0000) by (nonlinear_arith)
        requires
            root * root <= L,
            L <= 0x8000_0000,
    ;
    let mut i: usize = 2;
    while i < root
        invariant
            2 <= i,
            i <= root || root < 2,
            root < 2 ==> i == 2,
            root <= 0x8000_0000,
            root >= 3 ==> L >= 256,
            table@.len() == L,
            forall|n: int|
                0 <= n < L ==> #[trigger] table@[n] == if crossed(n as nat, i as nat) {
                    0
                } else {
                    n
                },
        decreases root - i,
    {
        let mut it: u64 = 2;
        assert(forall|t: u64| t <= 256 ==> #[trigger] (t * (i as u64)) <= 256 * 0x8000_0000) by {
            assert forall|t: u64| t <= 256 implies #[trigger] (t * (i as u64)) <= 256
                * 0x8000_0000 by {
                assert(t * (i as u64) <= 256 * 0x8000_0000) by (nonlinear_arith)
                    requires
                        t <= 256,
                        i <= 0x8000_0000,
                ;
            }
        }
        while it * (i as u64) < 256
            invariant
                forall|t: u64| t <= 256 ==> #[trigger] (t * (i as u64)) <= 256 * 0x8000_0000,
                2 <= i < root,
                root <= 0x8000_0000,
                L >= 256,
                2 <= it <= 256,
                table@.len() == L,
                forall|n: int|
                    0 <= n < L ==> #[trigger] table@[n] == if crossed(n as nat, i as nat) || (
                    struck(n as nat, i as nat) && n < it * i) {
                        0
                    } else {
                        n
                    },
            decreases 256 - it,
        {
            let at: usize = (it * (i as u64)) as usize;
            proof {
                vstd::arithmetic::div_mod::lemma_mod_multiples_basic(it as int, i as int);
                assert(it * i >= 2 * i) by (nonlinear_arith)
                    requires
                        it >= 2,
                        i >= 0,
                ;
                assert((it + 1) * i == it * i + i) by (nonlinear_arith);
                assert forall|n: int| 0 <= n < L && n != at implies (#[trigger] struck(
                    n as nat,
                    i as nat,
                ) && n < (it + 1) * i) == (struck(n as nat, i as nat) && n < it * i) by {
                    if struck(n as nat, i as nat) && n < (it + 1) * i && n > it * i {
                        lemma_next_multiple(n as nat, i as nat, it as nat);
                    }
                }
            }
            table[at] = 0;
            it += 1;
        }
        i += 1;
    }
    let mut list: Vec<i32> = Vec::new();
    for k in 0..L
        invariant
            L <= 0x8000_0000,
            table@.len() == L,
            root < 3 || i == root,
            i == 2 || i == root,
            forall|n: int|
                0 <= n < L ==> #[trigger] table@[n] == if crossed(n as nat, i as nat) {
                    0
                } else {
                    n
                },
            list@ == survivors(i as nat, k as nat),
    {
        let x = table[k];
        if x != 1 && x != 0 {
            list.push(x);
        }
    }
    proof {
        assert forall|r: nat| #[trigger] is_root(r, L as nat) implies list@ == survivors(
            r,
            L as nat,
        ) by {
            assert(r == root) by (nonlinear_arith)
                requires
                    r * r <= L < (r + 1) * (r + 1),
                    root * root <= L < (root + 1) * (root + 1),
            ;
            if root < 3 {
                lemma_survivors_small(root as nat, L as nat);
            }
        }
    }
    list
}

/// A sieve with a bound below 3 strikes nothing.
proof fn lemma_survivors_small(root: nat, n: nat)
    requires
        root < 3,
    ensures
        survivors(root, n) == survivors(2, n),
    decreases n,
{
    if n > 0 {
        lemma_survivors_small(root, (n - 1) as nat);
        reveal_with_fuel(crossed, 3);
    }
}

/// `n` is a prime number.
pub open spec fn is_prime_number(n: nat) -> bool {
    n >= 2 && forall|d: nat| 2 <= d < n ==> #[trigger] (n % d) != 0
}

/// A number that the sieve strikes is struck as a multiple of some number
/// below the bound: the result is such a number.
pub proof fn lemma_crossed_by(n: nat, bound: nat) -> (i: nat)
    requires
        crossed(n, bound),
    ensures
        2 <= i < bound,
        struck(n, i),
    decreases bound,
{
    if struck(n, (bound - 1) as nat) {
        (bound - 1) as nat
    } else {
        lemma_crossed_by(n, (bound - 1) as nat)
    }
}

/// The sieve strikes every multiple, below 256, of a number below the bound.
pub proof fn lemma_struck_is_crossed(n: nat, i: nat, bound: nat)
    requires
        2 <= i < bound,
        struck(n, i),
    ensures
        crossed(n, bound),
    decreases bound,
{
    if i < bound - 1 {
        lemma_struck_is_crossed(n, i, (bound - 1) as nat);
    }
}

/// Below 256 the sieve with the bound 16 leaves exactly the primes standing.
pub proof fn lemma_sieve_leaves_primes(n: nat)
    requires
        2 <= n < 256,
    ensures
        !crossed(n, 16) <==> is_prime_number(n),
{
    if crossed(n, 16) {
        let i = lemma_crossed_by(n, 16);
        assert(n % i == 0);
    } else if !is_prime_number(n) {
        let d = choose|d: nat| 2 <= d < n && #[trigger] (n % d) == 0;
        let e = n / d;
        lemma_fundamental_div_mod(n as int, d as int);
        assert(n == d * e);
        assert(e >= 2 && e < n) by (nonlinear_arith)
            requires
                n == d * e,
                2 <= d < n,
        ;
        let f = if d <= e {
            d
        } else {
            e
        };
        let g = if d <= e {
            e
        } else {
            d
        };
        assert(n == f * g) by (nonlinear_arith)
            requires
                n == d * e,
                (f == d && g == e) || (f == e && g == d),
        ;
        assert(f < 16) by (nonlinear_arith)
            requires
                n == f * g,
                f <= g,
                n < 256,
                f >= 0,
        ;
        assert(n >= 2 * f) by (nonlinear_arith)
            requires
                n == f * g,
                g >= 2,
                f >= 0,
        ;
        lemma_fundamental_div_mod_converse(n as int, f as int, g as int, 0);
        lemma_struck_is_crossed(n, f, 16);
    }
}

/// What the sieve leaves standing below `n`: the numbers from 2 on that it
/// does not strike.
pub proof fn lemma_survivors_contains(root: nat, n: nat, x: nat)
    requires
        n <= 0x8000_0000,
        x <= 0x7FFF_FFFF,
    ensures
        survivors(root, n).contains(x as i32) <==> 2 <= x < n && !crossed(x, root),
    decreases n,
{
    if n > 0 {
        let rest = survivors(root, (n - 1) as nat);
        lemma_survivors_contains(root, (n - 1) as nat, x);
        if n - 1 >= 2 && !crossed((n - 1) as nat, root) {
            let last = (n - 1) as i32;
            assert(rest.push(last).last() == last);
            assert forall|k: int| 0 <= k < rest.len() implies rest.push(last)[k] == rest[k] by {}
            if rest.push(last).contains(x as i32) {
                let k = choose|k: int| 0 <= k < rest.len() + 1 && rest.push(last)[k] == x as i32;
                if k < rest.len() {
                    assert(rest[k] == x as i32);
                }
            }
            if rest.contains(x as i32) {
                let k = choose|k: int| 0 <= k < rest.len() && rest[k] == x as i32;
                assert(rest.push(last)[k] == x as i32);
            }
            if x == n - 1 {
                assert(rest.push(last)[rest.len() as int] == x as i32);
            }
        }
    }
}

/// The list that `primes::<256>()` returns holds exactly the primes below 256.
pub proof fn lemma_primes_256(x: nat)
    requires
        x <= 0x7FFF_FFFF,
    ensures
        survivors(16, 256).contains(x as i32) <==> x < 256 && is_prime_number(x),
        is_root(16, 256),
{
    lemma_survivors_contains(16, 256, x);
    if 2 <= x < 256 {
        lemma_sieve_leaves_primes(x);
    }
    assert(is_root(16, 256)) by (nonlinear_arith);
}

// ---------------------------------------------------------------------------
// Multiplier fitness
// ---------------------------------------------------------------------------

/// The eight bytes of a 64-bit number, most significant first.
pub open spec fn be_bytes_u64(x: u64) -> Seq<u8> {
    seq![
        (x >> 56) as u8,
        ((x >> 48) & 0xFF) as u8,
        ((x >> 40) & 0xFF) as u8,
        ((x >> 32) & 0xFF) as u8,
        ((x >> 24) & 0xFF) as u8,
        ((x >> 16) & 0xFF) as u8,
        ((x >> 8) & 0xFF) as u8,
        (x & 0xFF) as u8,
    ]
}

/// How balanced a 64-bit word with `set` bits set is: 32 when half of the
/// bits are set, less by one for every bit more or fewer.
pub open spec fn balance(set: nat) -> int {
    if set >= 32 {
        64 - set
    } else {
        set as int
    }
}

/// The fitness of the multiplier `p` on the sample `num`: the balance of
/// the bits of `num * p` modulo 2^64.
pub fn fitness_score(num: u64, p: u64) -> (score: u32)
    ensures
        score == balance(ones(bits_be(be_bytes_u64(num.wrapping_mul(p))), 64)),
        score <= 32,
{
    let ri = num.wrapping_mul(p);
    let bytes: [u8; 8] = [
        (ri >> 56) as u8,
        ((ri >> 48) & 0xFF) as u8,
        ((ri >> 40) & 0xFF) as u8,
        ((ri >> 32) & 0xFF) as u8,
        ((ri >> 24) & 0xFF) as u8,
        ((ri >> 16) & 0xFF) as u8,
        ((ri >> 8) & 0xFF) as u8,
        (ri & 0xFF) as u8,
    ];
    assert(bytes@ =~= be_bytes_u64(ri));
    proof {
        lemma_ones_bound(bits_be(bytes@), 64);
    }
    let set = count_ones(&bytes);
    if set >= 32 {
        64 - set
    } else {
        set
    }
}

/// The sum of the fitness of `p` on the first `n` of `samples`.
pub open spec fn fitness_total(samples: Seq<u64>, p: u64, n: nat) -> int
    decreases n,
{
    if n == 0 {
        0
    } else {
        fitness_total(samples, p, (n - 1) as nat) + balance(
            ones(bits_be(be_bytes_u64(samples[n - 1].wrapping_mul(p))), 64),
        )
    }
}

/// The fitness of the multiplier `p` summed over `samples`.
pub fn fitness_over(samples: &[u64], p: u64) -> (total: u64)
    requires
        samples@.len() <= 0xFFFF_FFFF,
    ensures
        total == fitness_total(samples@, p, samples@.len()),
        total <= 32 * samples@.len(),
{
    let mut total: u64 = 0;
    let n = samples.len();
    for i in 0..n
        invariant
            n == samples@.len(),
            n <= 0xFFFF_FFFF,
            total == fitness_total(samples@, p, i as nat),
            total <= 32 * i,
    {
        total += fitness_score(samples[i], p) as u64;
    }
    total
}

/// The fitness of the multiplier `p` summed over a thousand random
/// samples: the sum that `fitness_over` gives for the samples drawn.
pub fn fitness_sum(p: u64) -> (total: u32)
    ensures
        exists|samples: Seq<u64>|
            samples.len() == 1000 && total == #[trigger] fitness_total(samples, p, 1000),
        total <= 32_000,
{
    let mut samples: Vec<u64> = Vec::new();
    for i in 0..1000u32
        invariant
            samples@.len() == i,
    {
        samples.push(random_u64());
    }
    let total = fitness_over(samples.as_slice(), p);
    assert(samples@.len() == 1000 && total == fitness_total(samples@, p, 1000));
    total as u32
}

// ---------------------------------------------------------------------------
// Avalanche probe
// ---------------------------------------------------------------------------

/// Anything that encrypts 16-byte blocks in place: the capability the
/// avalanche probe measures.
pub trait BlockEncryptor {
    /// The ciphertext of `block`.
    spec fn ciphertext(&self, block: Seq<u8>) -> Seq<u8>;

    /// Encrypts `block` in place.
    fn encrypt_block(&self, block: &mut [u8; 16])
        ensures
            final(block)@ == self.ciphertext(old(block)@),
    ;
}

impl BlockEncryptor for Tekton128 {
    open spec fn ciphertext(&self, block: Seq<u8>) -> Seq<u8> {
        self.encrypted(block)
    }

    fn encrypt_block(&self, block: &mut [u8; 16]) {
        self.encrypt(block);
    }
}

impl BlockEncryptor for Tekton256 {
    open spec fn ciphertext(&self, block: Seq<u8>) -> Seq<u8> {
        self.encrypted(block)
    }

    fn encrypt_block(&self, block: &mut [u8; 16]) {
        self.encrypt(block);
    }
}

/// `block` with bit `i` set or cleared, where bit `i` is bit `i % 8`,
/// counted from the least significant, of byte `i / 8`.
pub open spec fn with_bit(block: Seq<u8>, i: int, set: bool) -> Seq<u8> {
    block.update(
        i / 8,
        if set {
            block[i / 8] | (1u8 << ((i % 8) as u8))
        } else {
            block[i / 8] & !(1u8 << ((i % 8) as u8))
        },
    )
}

/// The output bits that change when bit `i` of `block` goes from clear to set.
pub open spec fn avalanche_at<C: BlockEncryptor>(cipher: &C, block: Seq<u8>, i: int) -> nat {
    differing(
        bits_be(cipher.ciphertext(with_bit(block, i, false))),
        bits_be(cipher.ciphertext(with_bit(block, i, true))),
        128,
    )
}

/// The sum of [`avalanche_at`] over the first `n` bit positions.
pub open spec fn avalanche_sum<C: BlockEncryptor>(cipher: &C, block: Seq<u8>, n: nat) -> nat
    decreases n,
{
    if n == 0 {
        0
    } else {
        avalanche_sum(cipher, block, (n - 1) as nat) + avalanche_at(cipher, block, n - 1)
    }
}

/// The number of bit positions at which two blocks differ.
pub fn differing_bits(a: &[u8; 16], b: &[u8; 16]) -> (d: u32)
    ensures
        d == differing(bits_be(a@), bits_be(b@), 128),
        d <= 128,
{
    proof {
        lemma_differing_bound(bits_be(a@), bits_be(b@), 128);
    }
    hamming_bytes(a, b)
}

/// The avalanche probe: for each of the 128 bit positions of `plaintext`,
/// encrypts the block with that bit cleared and with that bit set and
/// counts the ciphertext bits that differ. Returns the sum over all
/// positions; a sound cipher gives about 64 per position.
pub fn avalanche<C: BlockEncryptor>(cipher: &C, plaintext: [u8; 16]) -> (total: u32)
    ensures
        total == avalanche_sum(cipher, plaintext@, 128),
        total <= 16384,
{
    let mut total: u32 = 0;
    for i in 0..128usize
        invariant
            total == avalanche_sum(cipher, plaintext@, i as nat),
            total <= 128 * i,
    {
        let mask: u8 = 1u8 << ((i % 8) as u8);
        let mut cleared = plaintext;
        cleared[i / 8] = plaintext[i / 8] & !mask;
        let mut raised = plaintext;
        raised[i / 8] = plaintext[i / 8] | mask;
        assert(cleared@ =~= with_bit(plaintext@, i as int, false));
        assert(raised@ =~= with_bit(plaintext@, i as int, true));
        cipher.encrypt_block(&mut cleared);
        cipher.encrypt_block(&mut raised);
        total += differing_bits(&cleared, &raised);
    }
    total
}

/// The counts of a histogram with `bins` bins after the ciphertexts of the
/// first `n` of `plaintexts` were counted.
pub open spec fn tally_counts<C: BlockEncryptor>(
    cipher: &C,
    plaintexts: Seq<[u8; 16]>,
    bins: nat,
    n: nat,
) -> Seq<u32>
    decreases n,
{
    if n == 0 {
        empty_counts(bins)
    } else {
        counted(
            tally_counts(cipher, plaintexts, bins, (n - 1) as nat),
            be_value(cipher.ciphertext(plaintexts[n - 1]@)),
        )
    }
}

/// The sum of the avalanche probe over the first `n` of `plaintexts`.
pub open spec fn avalanche_total<C: BlockEncryptor>(
    cipher: &C,
    plaintexts: Seq<[u8; 16]>,
    n: nat,
) -> nat
    decreases n,
{
    if n == 0 {
        0
    } else {
        avalanche_total(cipher, plaintexts, (n - 1) as nat) + avalanche_sum(
            cipher,
            plaintexts[n - 1]@,
            128,
        )
    }
}

/// The uniformity probe: encrypts every plaintext and counts the
/// ciphertexts in a histogram of `F` bins.
pub fn tally<const F: usize, C: BlockEncryptor>(cipher: &C, plaintexts: &[[u8; 16]]) -> (hist:
    Histogram<F>)
    ensures
        hist.counts() == tally_counts(cipher, plaintexts@, F as nat, plaintexts@.len()),
{
    let mut hist = Histogram::<F>::new();
    let n = plaintexts.len();
    for i in 0..n
        invariant
            n == plaintexts@.len(),
            hist.counts().len() == F,
            hist.counts() == tally_counts(cipher, plaintexts@, F as nat, i as nat),
    {
        let mut block = plaintexts[i];
        cipher.encrypt_block(&mut block);
        hist.update(block);
    }
    hist
}

/// The avalanche probe over many plaintexts: the sum of [`avalanche`] over
/// all of them. Divided by 128 times their number it is the mean number of
/// ciphertext bits that one plaintext bit changes.
pub fn avalanche_over<C: BlockEncryptor>(cipher: &C, plaintexts: &[[u8; 16]]) -> (total: u64)
    requires
        plaintexts@.len() <= 0xFFFF_FFFF,
    ensures
        total == avalanche_total(cipher, plaintexts@, plaintexts@.len()),
        total <= 16384 * plaintexts@.len(),
{
    let mut total: u64 = 0;
    let n = plaintexts.len();
    for i in 0..n
        invariant
            n == plaintexts@.len(),
            n <= 0xFFFF_FFFF,
            total == avalanche_total(cipher, plaintexts@, i as nat),
            total <= 16384 * i,
    {
        total += avalanche(cipher, plaintexts[i]) as u64;
    }
    total
}

} // verus!
