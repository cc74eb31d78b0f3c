//! Verified core of a TRMNL e-ink display server: a 1-bit BMP encoder, API-key tokens,
//! byte-string keys for the key-value store, and the scaled drawing surface that the
//! display is rendered on.
pub mod api_key;
pub mod bmp_encoder;
pub mod crypto;
pub mod le;
pub mod render;
pub mod typed_bytes;
pub mod extractor;
pub mod display;
pub mod todos;
pub mod text;
pub mod weather;
