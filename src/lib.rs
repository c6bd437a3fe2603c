//! Hiding and recovering messages in PNG files: a verified model of the
//! chunk-based container format, its parser and its serializer.

pub mod chunk;
pub mod chunk_type;
pub mod commands;
pub mod png;
