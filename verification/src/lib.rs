//! A time-based one-time-password (TOTP) generator with scope-keyed secret
//! storage: a base32 decoder for shared secrets, the HOTP/TOTP code
//! derivation, and an in-memory key store keyed by scope name.

pub mod base32;
pub mod store;
pub mod totp;

pub use base32::decode;
pub use base32::DecodeError;
pub use store::generate;
pub use store::init;
pub use store::Error;
pub use store::KeyStore;
pub use totp::current_counter;
pub use totp::generate_code;
pub use totp::hotp;
pub use totp::timestamp;
pub use totp::totp_display;
