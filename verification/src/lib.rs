//! Signed compact authorization tokens with dynamically typed claims.
//!
//! The crate models claim values as a closed tagged union, serializes them to
//! a canonical JSON wire object, signs the result as a three-segment compact
//! token (HMAC-SHA256), and verifies such tokens against an ordered list of
//! keys with a configurable validation policy.

pub mod claims;
pub mod engine;
pub mod errors;
pub mod ext;
pub mod json;
pub mod parse;
pub mod roundtrip;
pub mod value;

pub use claims::TokenData;
pub use engine::JWT;
pub use errors::DecodeError;
pub use errors::EncodeError;
pub use json::to_json;
pub use parse::from_json;
pub use value::SpecValue;
pub use value::Value;
