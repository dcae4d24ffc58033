//! Copies documentation from the declarations of one corpus into the matching
//! declarations of another. The two sides are joined by an alias key that each
//! receiving declaration carries.
//!
//! Text is held as UTF-8 bytes throughout: every offset is a byte offset.

pub mod aliases;
pub mod attr;
pub mod markdown;
pub mod render;
pub mod replace;
pub mod resolve;
pub mod rewrite;
pub mod scan;
pub mod source;
pub mod text;
pub mod xml;
