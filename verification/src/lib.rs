//! Reading the text of a graphics API reference.
//!
//! The text holds function prototypes in the manner of C and groups of
//! enumeration names in nested brackets. `lexer` turns characters into
//! tokens; `parameter` and `function` read prototypes from a cursor over
//! the tokens; `enumeration` reads a group and gives the full name of each
//! of its variants; `utils` splits characters and tokens at separators that
//! stand outside nested groups. Every function comes with a contract that
//! says what it returns, and is proved to meet it.
pub mod ast;
pub mod enumeration;
pub mod error;
pub mod function;
pub mod lexer;
pub mod parameter;
pub mod text;
pub mod token;
pub mod utils;
