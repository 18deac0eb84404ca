//! A configuration-language engine for UCL: a lexer and recursive-descent
//! parser, a typed document tree with priority-aware merging, dotted-path
//! lookup, and emitters for JSON, compact JSON, native syntax and YAML.
use vstd::prelude::*;

pub mod builder;
pub mod emitter;
pub mod error;
pub mod lexer;
pub mod object;
pub mod parser;
pub mod round_trip;
pub mod scalar;
pub mod text;
pub mod types;
pub mod vars;

pub use builder::Builder;
pub use emitter::Emitter;
pub use error::Error;
pub use object::{Entry, Object, Value};
pub use parser::Parser;
pub use types::{Decimal, Type};

verus! {

} // verus!
