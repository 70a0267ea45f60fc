//! Unambiguous one-mismatch lookup tables for sets of nucleotide sequences.
//!
//! Parent sequences are registered with an index; every sequence one
//! substitution away from exactly one parent resolves to that parent, and
//! sequences reachable from several parents are kept out of the lookup.

pub mod alphabet;
pub mod classification;
pub mod disambibyte;
pub mod disambiseq;
pub mod error;
pub mod index;
pub mod sequence;
pub mod utils;

pub use crate::disambibyte::{ByteWrapper, Disambibyte};
pub use crate::disambiseq::{Disambiseq, SeqWrapper};
pub use crate::error::Error;
pub use crate::sequence::{ByteSequence, Sequence};
pub use crate::utils::{reverse_complement, reverse_complement_bytes};
