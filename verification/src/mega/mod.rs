pub mod ctxexpr;
pub mod expand;
pub mod grammars;
pub mod matcher;
pub mod pattern;
pub mod profile;
pub mod scan;
pub mod scan_proofs;
pub mod template;
