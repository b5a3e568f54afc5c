//! The building blocks of the wire format.

pub mod bits;
pub mod character;
pub mod numerals;
pub mod string;
