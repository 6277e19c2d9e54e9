//! A dictionary codec of the LZW family: an encoder and a decoder that grow
//! the same phrase table from the data alone, over a most-significant-bit-first
//! bit stream with a short self-describing header.
pub mod args;
pub mod bits;
pub mod channel;
pub mod decode;
pub mod dictionary;
pub mod encode;
pub mod index;
pub mod model;
pub mod policy;

pub use args::{Arguments, Mode};
pub use decode::decompress;
pub use dictionary::Dictionary;
pub use encode::compress;
pub use index::PhraseIndex;
pub use policy::{validate_table_size, Capacity, LzwError, OnFull, Policy, WidthMode};
