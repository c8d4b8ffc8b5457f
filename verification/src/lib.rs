//! Select, filter, rewrite and serialize fragments of an HTML document with
//! CSS selectors.
//!
//! The crate is the verified core of a command-line filter: it holds the
//! document tree, the link resolver, the node filter, the output formatters
//! and the structured tree builder. Reading the input, writing the output and
//! parsing the command line are left to the caller.

pub mod chars;
pub mod config;
pub mod strings;
pub mod dom;
pub mod events;
pub mod export;
pub mod filter;
pub mod format;
pub mod html;
pub mod json;
pub mod link;
pub mod markup;
pub mod pipeline;
pub mod pretty;
