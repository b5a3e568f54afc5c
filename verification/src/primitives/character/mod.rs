//! A single validated character code.

use vstd::prelude::*;

pub mod bitmap;
pub mod error;
pub mod impls;

verus! {

/// One character of a string: a byte of the allowed set.
///
/// The field is open, so a value can be made around any byte. Every
/// operation that builds, reads or writes a character tests the byte.
#[derive(Debug, Clone, Copy)]
pub struct Character(pub u8);

} // verus!
