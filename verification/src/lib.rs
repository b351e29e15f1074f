//! Markdown chunking, terminology prompts and checkpoint validation for a
//! documentation translator, with their contracts proved by Verus.

pub mod checkpoint;
pub mod markdown;
pub mod ordering;
pub mod patterns;
pub mod terminology;
pub mod text;
pub mod translator;
pub mod types;
