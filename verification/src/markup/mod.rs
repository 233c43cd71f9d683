//! The tagged markup that stands for a document while it is translated.

pub mod escape;
pub mod kind;
pub mod lexer;
pub mod lexer_laws;
pub mod reader;
pub mod token;
pub mod tree;
pub mod tree_laws;
pub mod writer;
