//! Front end of the Lunas single-file-component compiler: byte-offset spans
//! and diagnostics, the HTML tokenizer and tree builder, the `.lunas` block and
//! directive helpers, the `${…}` interpolation scanner, and the statement
//! writers of the JavaScript emitter.

pub mod span;
pub mod diagnostic;
pub mod emit;
pub mod html;
pub mod line_index;
pub mod model;
pub mod script;
pub mod sfc;
pub mod text;
