//! Links glossary terms in the Markdown chapters of a book.
//!
//! [`add_term_links`] reads a chapter as a sequence of events, links the first occurrence of each
//! glossary term in the text that is safe to link, and writes the chapter back as Markdown. On the
//! glossary page itself it can also sort the definition lists.

pub mod config;
pub mod definition_lists;
pub mod error;
pub mod glossary;
pub mod linker;
pub mod linking_laws;
pub mod markdown;
pub mod matcher;
pub mod nesting;
pub mod order;
pub mod render;
pub mod sorting_laws;
pub mod text;
pub mod title_laws;

pub use config::{Config, DisplayMode};
pub use error::TermlinkError;
pub use glossary::{Glossary, Term};
pub use linker::add_term_links;
