//! Front-end pieces of the Checkmate compiler: the `mod.toml` manifest
//! reader and mod-tree assembly, lexical profiles and the megaprogram
//! scanner, the self-contained parts of macro expansion, and the parser's
//! token-level layer.

pub mod diagnostics;
pub mod mods;
pub mod order;
pub mod parser;
pub mod text;
pub mod mega;
