//! Journal backend logic: frontmatter parsing, entry records and their
//! ordering, and decoding of base64 payloads.

pub mod text;
pub mod frontmatter;
pub mod entry;
pub mod payload;
pub mod dialog;
