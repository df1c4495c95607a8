//! Authentication protocol engine for a campus single-sign-on portal:
//! password obfuscation, login-page scraping, the QR-login handshake with
//! its polling state machine, and cookie-jar persistence. Network transport
//! and terminal rendering live outside this crate; everything here is pure
//! computation with verified contracts.
pub mod cookie;
pub mod crypto;
pub mod errors;
pub mod html;
pub mod parser;
pub mod query;
pub mod session;
pub mod strutil;
pub mod wechat;
pub mod xml;

pub use errors::CryptoError;
pub use errors::UestcClientError;
