//! Verified core of a static-site renderer: a Markdown AST to HTML
//! transform, a table-of-contents builder with a single-title invariant,
//! a slugifier for anchor ids, and a syntax-highlighting lookup.

pub mod ast;
pub mod highlight;
pub mod index;
pub mod post;
pub mod render;
pub mod slug;
pub mod toc;
