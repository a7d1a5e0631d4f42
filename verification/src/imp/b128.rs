//! The cipher with a 128-bit master key.

use vstd::prelude::*;

use crate::imp::cipher::{
    decrypt_block, decrypt_spec, encrypt_block, encrypt_spec, lemma_decrypt_inverts_encrypt,
};
use crate::imp::schedule::{derive_128, rows, schedule_128};
use crate::imp::Flags;

verus! {

/// A cipher instance: five round keys derived from a 16-byte master key,
/// and the configuration it was built with.
pub struct Tekton128 {
    keys: [[u8; 16]; 5],
    flags: Flags,
}

impl Tekton128 {
    /// The round keys, in round order.
    pub closed spec fn round_keys(&self) -> Seq<Seq<u8>> {
        rows(self.keys@)
    }

    /// The configuration.
    pub closed spec fn flags(&self) -> Flags {
        self.flags
    }

    /// This instance is what `new` builds from `key` and `flags`.
    pub open spec fn built_from(&self, key: Seq<u8>, flags: Flags) -> bool {
        self.round_keys() == schedule_128(key) && self.flags() == flags
    }

    /// The ciphertext this instance gives for `block`.
    pub open spec fn encrypted(&self, block: Seq<u8>) -> Seq<u8> {
        encrypt_spec(self.round_keys(), self.flags(), block)
    }

    /// The plaintext this instance gives for `block`.
    pub open spec fn decrypted(&self, block: Seq<u8>) -> Seq<u8> {
        decrypt_spec(self.round_keys(), self.flags(), block)
    }

    /// Builds a cipher from a master key and a configuration.
    pub fn new(key: [u8; 16], flags: Flags) -> (cipher: Tekton128)
        ensures
            cipher.built_from(key@, flags),
    {
        Tekton128 { keys: derive_128(&key), flags }
    }

    /// Encrypts `payload` in place.
    pub fn encrypt(&self, payload: &mut [u8; 16])
        ensures
            final(payload)@ == self.encrypted(old(payload)@),
    {
        *payload = encrypt_block(&self.keys, &self.flags, *payload);
    }

    /// Decrypts `cipher` in place.
    pub fn decrypt(&self, cipher: &mut [u8; 16])
        ensures
            final(cipher)@ == self.decrypted(old(cipher)@),
    {
        *cipher = decrypt_block(&self.keys, &self.flags, *cipher);
    }

    /// Decryption undoes encryption, and encryption undoes decryption, on
    /// every block and for every instance.
    pub proof fn lemma_round_trip(&self, block: Seq<u8>)
        requires
            block.len() == 16,
        ensures
            self.encrypted(block).len() == 16,
            self.decrypted(block).len() == 16,
            self.decrypted(self.encrypted(block)) == block,
            self.encrypted(self.decrypted(block)) == block,
    {
        lemma_decrypt_inverts_encrypt(self.round_keys(), self.flags(), block);
    }

    /// Two instances built from the same master key and configuration give
    /// the same ciphertext and the same plaintext for every block.
    pub proof fn lemma_deterministic(
        &self,
        other: &Tekton128,
        key: Seq<u8>,
        flags: Flags,
        block: Seq<u8>,
    )
        requires
            self.built_from(key, flags),
            other.built_from(key, flags),
        ensures
            self.encrypted(block) == other.encrypted(block),
            self.decrypted(block) == other.decrypted(block),
    {
    }
}

} // verus!
