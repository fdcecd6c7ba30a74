//! Looks a value up in a TOML manifest by a dotted path of literals and turns
//! it into the tokens of a Rust constant.
//!
//! [`include_toml`] does the whole of it on two texts, and [`expand`] on the
//! text of the manifest and the tokens of the path. Their parts are
//! [`parse`], which reads the manifest, [`TomlIndex::from_tokens`], which
//! reads the path, [`lookup`], which follows the path into the manifest, and
//! [`translate`], which makes the constant.

pub mod document;
pub mod expand;
pub mod index;
pub mod lexer;
pub mod lookup;
pub mod translate;
pub mod value;

pub use crate::document::parse;
pub use crate::expand::{expand, include_toml, Failure};
pub use crate::index::{Index, IndexError, Missing, ParseError, Token, TomlIndex};
pub use crate::lookup::lookup;
pub use crate::translate::{translate, Fragment};
pub use crate::value::Toml;
