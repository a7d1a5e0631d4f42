//! Tekton: an experimental substitution-permutation block cipher over
//! fixed-width lane vectors, with a small statistics harness.
//!
//! A 16-byte block is seen as sixteen 8-bit lanes or as four 32-bit lanes.
//! A round mixes in a round key, diffuses, substitutes every lane by an odd
//! multiplier, and scatters the lanes by a table or a rotation; decryption
//! runs the inverse layers in the reverse order. Every layer is proved to
//! be undone by its inverse, and from that every configuration of the
//! cipher is proved to decrypt what it encrypts.
//!
//! * [`imp::lanes`]: lane vectors and their operators.
//! * [`imp::primitives`]: the layers, the rounds and the fixed data.
//! * [`imp::schedule`]: the round keys of a master key.
//! * [`imp::cipher`]: the block transform over the rounds.
//! * [`imp::b128`], [`imp::b256`]: the cipher for 16-byte and 32-byte keys.
//! * [`imp::modular`]: extended Euclid and modular inverses.
//! * [`imp::util`]: histogram, avalanche probe, and number tools.
//! * [`imp::bridge`]: the calls into other crates.

pub mod imp;
