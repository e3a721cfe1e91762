//! Reversible text representations of byte streams over configurable
//! power-of-two alphabets, generalizing hex, base32 and base64 to wide
//! Unicode alphabets of up to 2^15 symbols.

mod compile;
mod decode;
mod encode;
mod pack;
mod roundtrip;
mod scheme;
mod table;
pub mod tables;

pub use compile::TableError;
pub use decode::Decode;
pub use decode::lemma_dec_bounds;
pub use decode::lemma_dec_len;
pub use decode::lemma_size_hint_bounds;
pub use encode::Encode;
pub use encode::lemma_enc_len;
pub use roundtrip::lemma_oks_injective;
pub use roundtrip::lemma_oks_no_err;
pub use roundtrip::lemma_round_trip;
pub use scheme::parse_def;
pub use scheme::parse_scheme;
pub use table::Table;
pub use table::lemma_boundary;
pub use table::lemma_code_bijection;
pub use table::lemma_reject;
