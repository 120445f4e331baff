//! A YAML scanner whose character classification, input sources and
//! tokenizer carry machine-checked contracts.

pub mod char_traits;
pub mod input;
pub mod macros;
pub mod scanner;
pub mod string_ops;
pub mod token;

pub use crate::input::{Input, OwnedStrInput, StrInput};
pub use crate::scanner::{Scanner, MAX_INPUT_CHARS};
pub use crate::token::{Encoding, Error, ErrorKind, Mark, Result, ScalarStyle, SimpleKey, Token, TokenData};
