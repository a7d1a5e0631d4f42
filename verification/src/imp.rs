//! Cipher configuration and the modules that implement the cipher.

use vstd::prelude::*;

pub mod b128;
pub mod b256;
pub mod bridge;
pub mod cipher;
pub mod lanes;
pub mod modular;
pub mod primitives;
pub mod schedule;
pub mod util;

verus! {

/// Round profile: how many of the derived round keys a transform uses.
#[derive(Clone, Copy, Debug, PartialEq, Eq, Structural)]
pub enum Rounds {
    /// Skips the two leading rounds.
    FASTER,
    /// Runs every round.
    SAFER,
}

/// Lane width used by a round.
#[derive(Clone, Copy, Debug, PartialEq, Eq, Structural)]
pub enum Mode {
    /// Sixteen 8-bit lanes.
    BYTE,
    /// Four 32-bit lanes.
    INT,
}

/// Lane-scattering layer applied at the end of a round.
#[derive(Clone, Copy, Debug, PartialEq, Eq, Structural)]
pub enum Permute {
    /// A fixed index table.
    PERMUTE,
    /// A constant cyclic lane rotation.
    ROTATE,
}

/// The immutable configuration of a cipher instance.
#[derive(Clone, Copy, Debug, PartialEq, Eq, Structural)]
pub struct Flags {
    pub rounds: Rounds,
    pub mode: Mode,
    pub permute: Permute,
}

} // verus!
