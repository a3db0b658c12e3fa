//! A reversible codec between raw bytes and strings of pictographic tokens.
//!
//! Every byte value 0..=255 has a fixed token: a short string over the
//! five counting symbols (or a heart for zero).  Encoding maps each byte
//! of the input to its token and joins the tokens with a two-character
//! marker; decoding accepts both that marker and the legacy zero-width
//! separator, and can first expand a small set of spelled-out names into
//! their literal symbols.

pub mod alias;
pub mod codec;
pub mod laws;
pub mod text;
pub mod token;

pub use codec::decode_string_long;
pub use codec::delongate;
pub use codec::encode_string;
pub use token::decode_byte;
pub use token::encode_byte;
pub use token::TranslationError;
