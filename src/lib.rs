//! Reversible binary-to-text encodings: Base16, Base32, Base36, Base58,
//! Base62, Base64 and Base91.
//!
//! Each scheme has `encode` and `decode`, whose results are stated over the
//! spec functions of its module; each module also proves that decoding an
//! encoding gives the bytes back.
pub mod alphabet;
pub mod base16;
pub mod base91;
pub mod bitpack;
pub mod errors;
pub mod positional;

pub use base16::Base16;
pub use base91::Base91;
pub use bitpack::{Base32, Base64};
pub use errors::DecodeError;
pub use positional::{Base36, Base58, Base62};
