//! Static analysis of `script:` blocks and template expressions. The
//! JavaScript/TypeScript parser is swc; its syntax tree is read through its
//! JSON form.

pub mod analysis;
pub mod ast;
pub mod json;
