//! Markdown: reading a text as a document, and writing a document as
//! text.

pub mod block;
pub mod chars;
pub mod extent;
pub mod inline;
pub mod laws;
pub mod lines;
pub mod reader;
pub mod render;
pub mod simple;
pub mod written;
