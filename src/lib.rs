//! Integrity-checked decoding of the key map of a trust-root document, and
//! the reserved-field filter for the open "extra fields" bag of a role.

pub mod extra;
pub mod hexfmt;
pub mod keymap;
