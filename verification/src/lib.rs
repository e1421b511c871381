//! Verified core of three small web services: a QR-code encoder/decoder,
//! a tweet-ranking helper built on Knuth-Morris-Pratt matching, and a
//! toy blockchain validator.

pub mod text;
pub mod kmp;
pub mod matrix;
pub mod keystream;
pub mod grid;
pub mod hexfmt;
pub mod encode;
pub mod rotate;
pub mod find;
pub mod numparse;
pub mod decode;
pub mod decimal;
pub mod rsa;
pub mod signature;
pub mod codec;
pub mod bigdec;
pub mod chain;
pub mod extension;
pub mod precheck;
pub mod reply;
pub mod ranking;
pub mod readback;
pub mod outline;
