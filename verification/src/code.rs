//! Entry decoding, jump encoding and relocation of function prefixes.

pub mod arm64;
pub mod bytes;
pub mod prefix;
pub mod relocate;
pub mod x86;
