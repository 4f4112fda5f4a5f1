pub mod commands;
pub mod content;
pub mod contents;
pub mod filter;
pub mod line_count;
pub mod path;
pub mod tree;
