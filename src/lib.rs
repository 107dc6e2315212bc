//! LEB128-style unsigned variable-length integers ("varints").
//!
//! Each integer is split into 7-bit groups, least significant group first;
//! every byte carries one group in its low seven bits, and its high bit says
//! whether another byte follows.
pub mod decode;
pub mod encode;
pub mod error;
pub mod laws;
pub mod model;
pub mod stream;

pub use decode::{decode_u128, decode_u32, decode_u64};
pub use encode::{
    encode_u128, encode_u128_into, encode_u16, encode_u16_into, encode_u32, encode_u32_into,
    encode_u64, encode_u64_into,
};
pub use error::UVarintError;
pub use stream::StreamDecoder;
