//! Caw armors binary data as sequences of plausible natural-language
//! messages: a shared secret and a calendar date determine a permutation of a
//! word catalog, the encoder (`don`) turns bytes into word-salad messages
//! bounded by a character limit, and the decoder (`doff`) reassembles the
//! bytes from the messages in any order.

pub mod armor;
pub mod codec;
pub mod table;
pub mod text;

pub use armor::{doff, don};
pub use table::{ArmorError, CalDate, DictMappings};
