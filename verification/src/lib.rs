//! A streaming codec that compresses sequences of fixed-precision decimal
//! numbers and reconstructs them exactly. Each decimal's canonical 16-byte
//! form is split into four 32-bit lanes; every lane is XOR-delta encoded
//! against its predecessor, and the deltas of each chunk are bit-packed at
//! the smallest width that holds them.

pub mod codec;
pub mod decimal;
pub mod lanes;
pub mod model;
pub mod packing;

pub use codec::Block;
pub use codec::CodecError;
pub use codec::PackedDecimals;
pub use codec::Packer;
pub use codec::pack;
pub use codec::unpack;
pub use lanes::unzip_u8;
pub use lanes::zip_u8;
