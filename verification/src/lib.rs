//! A dependency-free JSON text parser: characters in, a typed value tree or a
//! precise error out. The grammar walker is a single-pass recursive-descent
//! parser, verified against a mathematical description of the grammar over
//! `Seq<char>`.
use vstd::prelude::*;

pub mod error;
pub mod grammar;
pub mod parser;
pub mod roundtrip;
pub mod value;

verus! {

pub use crate::error::JsonError;
pub use crate::parser::parse_escape_character_impl;
pub use crate::parser::parse_json_from_iter;
pub use crate::parser::parse_json_string;
pub use crate::parser::parse_string_impl;
pub use crate::value::JsonObject;
pub use crate::value::JsonNumber;
pub use crate::value::Object;
pub use crate::value::Array;
pub use crate::value::ObjectImpl;

} // verus!
