//! The calls this library makes into other crates. Verus takes the
//! contracts in this module on trust: each states what the called
//! function's source or documentation says of it.

use bitreader::BitReader;
use num::integer::Roots;
use rand::Rng;
use vstd::prelude::*;

verus! {

/// `bitreader::BitReader`: a cursor over the bits of a byte slice, most
/// significant bit of each byte first. Verus sees nothing inside it.
#[verifier::external_type_specification]
#[verifier::external_body]
pub struct ExBitReader<'a>(BitReader<'a>);

/// The bits a `BitReader` has not read yet, in reading order.
pub uninterp spec fn unread_bits(reader: BitReader) -> Seq<bool>;

/// What `is_prime::is_prime` answers for the decimal numeral of `n`.
pub uninterp spec fn miller_rabin_verdict(n: u16) -> bool;

/// Bit `i` of a byte sequence, counting from the most significant bit of
/// the first byte.
pub open spec fn bit_be(bytes: Seq<u8>, i: int) -> bool {
    (bytes[i / 8] >> ((7 - i % 8) as u8)) & 1 == 1
}

/// The bits of a byte sequence, most significant bit of each byte first.
pub open spec fn bits_be(bytes: Seq<u8>) -> Seq<bool> {
    Seq::new(8 * bytes.len(), |i: int| bit_be(bytes, i))
}

/// The binary numeral of `n`, without leading zeros.
pub open spec fn binary_digits(n: nat) -> Seq<char>
    decreases n,
{
    if n < 2 {
        seq![if n == 1 { '1' } else { '0' }]
    } else {
        binary_digits(n / 2).push(if n % 2 == 1 { '1' } else { '0' })
    }
}

/// `BitReader::new`: a reader placed before the first bit of `bytes`. The
/// crate counts positions in bits in a `u64`, which holds for slices
/// shorter than 2^61 bytes.
#[verifier::external_body]
pub(crate) fn bit_reader<'a>(bytes: &'a [u8]) -> (reader: BitReader<'a>)
    requires
        bytes@.len() < 0x2000_0000_0000_0000,
    ensures
        unread_bits(reader) == bits_be(bytes@),
{
    BitReader::new(bytes)
}

/// `BitReader::read_bool`: reads the next bit as a boolean and moves past
/// it; at the end of the data it fails and leaves the reader where it was.
#[verifier::external_body]
pub(crate) fn read_bit(reader: &mut BitReader) -> (bit: Option<bool>)
    ensures
        unread_bits(*old(reader)).len() > 0 ==> bit == Some(unread_bits(*old(reader))[0])
            && unread_bits(*final(reader)) == unread_bits(*old(reader)).drop_first(),
        unread_bits(*old(reader)).len() == 0 ==> bit.is_none() && unread_bits(*final(reader))
            == unread_bits(*old(reader)),
{
    reader.read_bool().ok()
}

/// `is_prime::is_prime` on the decimal numeral of `n`: a Miller-Rabin test
/// with fixed bases, so the answer depends on `n` alone.
#[verifier::external_body]
pub(crate) fn is_prime_decimal(n: u16) -> (verdict: bool)
    ensures
        verdict == miller_rabin_verdict(n),
{
    is_prime::is_prime(&n.to_string())
}

/// `num::integer::Roots::sqrt`: the truncated square root.
#[verifier::external_body]
pub(crate) fn integer_sqrt(n: usize) -> (r: usize)
    ensures
        r * r <= n < (r + 1) * (r + 1),
{
    Roots::sqrt(&n)
}

/// `rand::Rng::gen` on the thread's generator: some 64-bit number.
#[verifier::external_body]
pub(crate) fn random_u64() -> u64 {
    rand::thread_rng().gen()
}

/// `format!` with the `{:b}` form: the binary numeral of `n`.
#[verifier::external_body]
pub(crate) fn format_binary(n: u16) -> (text: String)
    ensures
        text@ == binary_digits(n as nat),
{
    format!("{:b}", n)
}

} // verus!
