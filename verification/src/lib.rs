//! Binary-trie algebra over fixed-width bit-strings, used to turn a script of
//! IP-address set operations (add / delete addresses, CIDR blocks, ranges)
//! into the minimal canonical list of CIDR prefixes covering the result.

pub mod bits;
pub mod errors;
pub mod family;
pub mod laws;
pub mod script;
pub mod text;
pub mod trie;

pub use script::convert;
