//! Token-interdependency log parsing: groups free-form log lines that share a
//! print-format, synthesizes a template per group, and emits per-message
//! parameter masks.

pub mod chars;
pub mod cluster;
pub mod graph;
pub mod parser;
pub mod pattern;
pub mod record;
pub mod template;
pub mod token;
pub mod token_filter;
pub mod tokenizer;

pub use chars::byte_len;
pub use cluster::anchor_tokens;
pub use graph::{anchor_nodes, build_graph};
pub use parser::Parser;
pub use pattern::{compile_into_regex, CompiledPattern};
pub use record::{Ratio, TokenRecord};
pub use template::{parameter_masks, render_template, shared_slices, templates};
pub use token::{Kind, Token};
pub use token_filter::{StaticFilter, TokenFilter};
pub use tokenizer::{Tokenize, Tokenizer};
