//! A repeating-key XOR cipher over UTF-16 text, together with the
//! frequency analysis that recovers its key from ciphertext alone.
//!
//! Text is normalized to upper-case ASCII letters and digits
//! ([`normalizer`]), encoded as UTF-16 code units stored as big-endian byte
//! pairs ([`codec`], [`message`]) and XORed with a key of four byte pairs
//! used in rotation ([`key`], [`cipher`]). The attack tallies the ciphertext
//! characters slot by slot ([`frequency`], [`history`]) and takes the most
//! frequent one of each slot to stand for the letter `E` ([`recovery`]).

pub mod chars;
pub mod cipher;
pub mod codec;
pub mod frequency;
pub mod history;
pub mod key;
pub mod message;
pub mod normalizer;
pub mod recovery;

pub use cipher::{decrypt, encrypt, transform};
pub use codec::{decode, encode, DecodeError};
pub use frequency::{analyze_chars_frequencies, FreqTable};
pub use key::Key;
pub use message::Message;
pub use normalizer::format_contents;
pub use recovery::recover;
