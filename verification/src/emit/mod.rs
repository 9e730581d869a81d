//! The JavaScript emitter: JS string and literal text, DOM navigation paths,
//! attribute assignment statements, reactive rewriting of expressions and of
//! whole scripts, the names the emitter generates, the emitter's state and
//! its statement writers (updates, anchors, listeners, `:if` cascades), the
//! wiring of template attributes, and the removal of shared indentation from
//! emitted code.

pub mod attrs;
pub mod dedent;
pub mod js;
pub mod mutation;
pub mod names;
pub mod bindings;
pub mod blocks;
pub mod emitter;
pub mod rewrite;
pub mod script;
pub mod setup;
