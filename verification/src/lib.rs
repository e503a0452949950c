//! Pure (stateless) byte ciphers built from substitution tables.
//!
//! A cipher maps every byte to a byte. The substitution engine keeps
//! such a mapping as a table of 256 entries, edits it by swaps and
//! ranged rotations, and derives the inverse table when the edits are
//! finished. Nothing here is a security primitive: the transforms are
//! reversible obfuscation only.

pub mod cipher;
pub mod classic;
pub mod handle;
pub mod laws;
pub mod mapping;
pub mod ring;
pub mod substitution;

pub use crate::cipher::{decipher_bytes, encipher_bytes, NullCipher, PureCipher};
pub use crate::classic::{caesar, leet_speak, rot13_alpha};
pub use crate::handle::{CipherObject, Transform};
pub use crate::mapping::ByteMapping;
pub use crate::substitution::{SubstitutionBuilder, SubstitutionCipher};
