//! Dotted-path lookup in JSON value trees, and their conversion to and from
//! binary documents and the hexadecimal text of those documents.

pub mod errors;
pub mod number;
pub mod value;
pub mod path;
pub mod document;
pub mod bridge;
pub mod hexadecimal;
pub mod entries;
pub mod nesting;
pub mod wire;
pub mod text;
pub mod codec;
pub mod commons;

pub use commons::JsonCommons;
