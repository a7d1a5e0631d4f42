//! The block transform shared by both cipher sizes: the rounds applied in
//! ascending order for encryption and undone in descending order for
//! decryption.

use vstd::prelude::*;

use crate::imp::lanes::{lemma_pack_words_inverse, pack_words, unpack_words};
use crate::imp::primitives::{
    decrypt_round, decrypt_round_i_spec, decrypt_round_spec, encrypt_round, encrypt_round_i_spec,
    encrypt_round_spec, lemma_round_i_inverse, lemma_round_inverse,
};
use crate::imp::schedule::rows;
use crate::imp::{Flags, Mode, Rounds};

verus! {

/// Index of the first round a profile runs: the faster profile leaves out
/// the two leading rounds.
pub open spec fn first_round(rounds: Rounds) -> int {
    match rounds {
        Rounds::FASTER => 2,
        Rounds::SAFER => 0,
    }
}

/// The state after the forward rounds `i`, `i + 1`, .. of `keys`.
pub open spec fn encrypt_from(keys: Seq<Seq<u8>>, flags: Flags, state: Seq<u8>, i: int) -> Seq<u8>
    decreases keys.len() - i,
{
    if i < 0 || i >= keys.len() {
        state
    } else {
        encrypt_from(keys, flags, encrypt_round_spec(state, keys[i], flags), i + 1)
    }
}

/// The state after the reverse rounds of `keys` from the last one down to
/// round `i`.
pub open spec fn decrypt_from(keys: Seq<Seq<u8>>, flags: Flags, state: Seq<u8>, i: int) -> Seq<u8>
    decreases keys.len() - i,
{
    if i < 0 || i >= keys.len() {
        state
    } else {
        decrypt_round_spec(decrypt_from(keys, flags, state, i + 1), keys[i], flags)
    }
}

/// The ciphertext of `block` under the round keys `keys` and the
/// configuration `flags`: the forward rounds of the profile in ascending
/// order.
pub open spec fn encrypt_spec(keys: Seq<Seq<u8>>, flags: Flags, block: Seq<u8>) -> Seq<u8> {
    encrypt_from(keys, flags, block, first_round(flags.rounds))
}

/// The plaintext of `block` under the round keys `keys` and the
/// configuration `flags`: the reverse rounds of the profile in descending
/// order.
pub open spec fn decrypt_spec(keys: Seq<Seq<u8>>, flags: Flags, block: Seq<u8>) -> Seq<u8> {
    decrypt_from(keys, flags, block, first_round(flags.rounds))
}

/// The rounds from `i` on keep the state at sixteen bytes, and the reverse
/// rounds undo the forward rounds, in either order.
pub proof fn lemma_rounds_inverse(keys: Seq<Seq<u8>>, flags: Flags, state: Seq<u8>, i: int)
    requires
        state.len() == 16,
        0 <= i,
    ensures
        encrypt_from(keys, flags, state, i).len() == 16,
        decrypt_from(keys, flags, state, i).len() == 16,
        decrypt_from(keys, flags, encrypt_from(keys, flags, state, i), i) == state,
        encrypt_from(keys, flags, decrypt_from(keys, flags, state, i), i) == state,
    decreases keys.len() - i,
{
    if i < keys.len() {
        let k = keys[i];
        let forward = encrypt_round_spec(state, k, flags);
        lemma_round_inverse(state, k, flags);
        lemma_rounds_inverse(keys, flags, forward, i + 1);
        lemma_rounds_inverse(keys, flags, state, i + 1);
        let back = decrypt_from(keys, flags, state, i + 1);
        lemma_round_inverse(back, k, flags);
    }
}

/// Decryption undoes encryption: under any round keys and any
/// configuration, every 16-byte block comes back from its ciphertext, and
/// every 16-byte block is the ciphertext of its decryption.
pub proof fn lemma_decrypt_inverts_encrypt(keys: Seq<Seq<u8>>, flags: Flags, block: Seq<u8>)
    requires
        block.len() == 16,
    ensures
        encrypt_spec(keys, flags, block).len() == 16,
        decrypt_spec(keys, flags, block).len() == 16,
        decrypt_spec(keys, flags, encrypt_spec(keys, flags, block)) == block,
        encrypt_spec(keys, flags, decrypt_spec(keys, flags, block)) == block,
{
    lemma_rounds_inverse(keys, flags, block, first_round(flags.rounds));
}

/// The word state after the forward word rounds `i`, `i + 1`, .. of `keys`.
pub open spec fn encrypt_from_i(keys: Seq<Seq<u8>>, flags: Flags, state: Seq<u32>, i: int) -> Seq<
    u32,
>
    decreases keys.len() - i,
{
    if i < 0 || i >= keys.len() {
        state
    } else {
        encrypt_from_i(keys, flags, encrypt_round_i_spec(state, keys[i], flags), i + 1)
    }
}

/// The word state after the reverse word rounds of `keys` from the last one
/// down to round `i`.
pub open spec fn decrypt_from_i(keys: Seq<Seq<u8>>, flags: Flags, state: Seq<u32>, i: int) -> Seq<
    u32,
>
    decreases keys.len() - i,
{
    if i < 0 || i >= keys.len() {
        state
    } else {
        decrypt_round_i_spec(decrypt_from_i(keys, flags, state, i + 1), keys[i], flags)
    }
}

/// In word mode it makes no difference whether the block is read as words
/// for every round or once for all rounds: the transform is the word
/// rounds on the block read as four little-endian words, written back as
/// bytes.
pub proof fn lemma_word_mode_packs_once(keys: Seq<Seq<u8>>, flags: Flags, block: Seq<u8>, i: int)
    requires
        block.len() == 16,
        flags.mode == Mode::INT,
        0 <= i,
    ensures
        encrypt_from(keys, flags, block, i) == unpack_words(
            encrypt_from_i(keys, flags, pack_words(block), i),
        ),
        decrypt_from(keys, flags, block, i) == unpack_words(
            decrypt_from_i(keys, flags, pack_words(block), i),
        ),
        encrypt_from_i(keys, flags, pack_words(block), i).len() == 4,
        decrypt_from_i(keys, flags, pack_words(block), i).len() == 4,
    decreases keys.len() - i,
{
    let w = pack_words(block);
    if i < keys.len() {
        let k = keys[i];
        // forward: one round, then the rest on the re-packed state
        let next_w = encrypt_round_i_spec(w, k, flags);
        let next = unpack_words(next_w);
        lemma_round_i_inverse(w, k, flags);
        lemma_pack_words_inverse(block, next_w);
        lemma_word_mode_packs_once(keys, flags, next, i + 1);
        // backward: the rest first, then one round on the re-packed state
        lemma_word_mode_packs_once(keys, flags, block, i + 1);
        let rest_w = decrypt_from_i(keys, flags, w, i + 1);
        lemma_pack_words_inverse(block, rest_w);
        lemma_round_i_inverse(rest_w, k, flags);
    } else {
        lemma_pack_words_inverse(block, w);
    }
}

/// Encrypts one block under the stored round keys.
pub fn encrypt_block(keys: &[[u8; 16]], flags: &Flags, block: [u8; 16]) -> (r: [u8; 16])
    ensures
        r@ == encrypt_spec(rows(keys@), *flags, block@),
{
    let n = keys.len();
    let first: usize = match flags.rounds {
        Rounds::FASTER => 2,
        Rounds::SAFER => 0,
    };
    let ghost ks = rows(keys@);
    let mut state = block;
    let mut i = first;
    while i < n
        invariant
            first <= i,
            n == keys@.len(),
            ks == rows(keys@),
            encrypt_from(ks, *flags, state@, i as int) == encrypt_from(
                ks,
                *flags,
                block@,
                first as int,
            ),
        decreases n - i,
    {
        state = encrypt_round(state, keys[i], flags);
        i += 1;
    }
    state
}

/// Decrypts one block under the stored round keys.
pub fn decrypt_block(keys: &[[u8; 16]], flags: &Flags, block: [u8; 16]) -> (r: [u8; 16])
    ensures
        r@ == decrypt_spec(rows(keys@), *flags, block@),
{
    let n = keys.len();
    let first: usize = match flags.rounds {
        Rounds::FASTER => 2,
        Rounds::SAFER => 0,
    };
    let ghost ks = rows(keys@);
    let mut state = block;
    let mut i = n;
    while i > first
        invariant
            i <= n,
            i >= first || i == n,
            n == keys@.len(),
            ks == rows(keys@),
            state@ == decrypt_from(ks, *flags, block@, i as int),
        decreases i,
    {
        i -= 1;
        state = decrypt_round(state, keys[i], flags);
    }
    state
}

} // verus!
