//! The `.lunas` single-file component: the lowered block and directive
//! representation, the directive and block-body parsers, and the `for` loop
//! header parser used by templates.

pub mod file;
pub mod for_parser;
pub mod ir;
pub mod lower;
pub mod scan;
pub mod split;
