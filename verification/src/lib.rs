//! Translating Markdown through a service that understands markup: a text
//! of Markdown is read as a document and written as tagged markup, the
//! markup is sent off, and what comes back is read as a document and
//! written as Markdown again. The library does everything but the sending.

pub mod codec;
pub mod config;
pub mod deepl;
pub mod entries;
pub mod frontmatter;
pub mod glossary;
pub mod ignore;
pub mod laws;
pub mod markdown;
pub mod markup;
pub mod matching;
pub mod model;
pub mod number;
pub mod text;
pub mod toml_value;
pub mod trans;
pub mod walkdir;
