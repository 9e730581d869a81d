//! The lowered representation of a `.lunas` file's blocks and directives.

use vstd::prelude::*;

use crate::html::dom::Dom;
use crate::span::TextRange;

verus! {

/// A language block's extracted body together with its location in the source.
#[derive(Debug, Clone, PartialEq)]
pub struct BlockSource {
    /// The block body with its common indentation stripped.
    pub text: String,
    /// The range of the body within the `.lunas` file.
    pub range: TextRange,
}

/// The parsed `html:` block.
#[derive(Debug)]
pub struct HtmlBlock {
    pub source: BlockSource,
    pub dom: Dom,
}

/// The parsed `style:` block (kept as raw CSS text).
#[derive(Debug, Clone, PartialEq)]
pub struct StyleBlock {
    pub source: BlockSource,
}

/// A metadata directive.
#[derive(Debug, Clone, PartialEq)]
pub enum Directive {
    Input(PropInput),
    UseComponent(UseComponent),
    UseAutoRouting,
    UseRouting,
}

/// `@input` — a component prop declaration.
#[derive(Debug, Clone, PartialEq)]
pub struct PropInput {
    pub name: String,
    pub type_annotation: Option<String>,
    pub default_value: Option<String>,
    pub nullable: bool,
    pub range: TextRange,
}

/// `@use` — a child component import.
#[derive(Debug, Clone, PartialEq)]
pub struct UseComponent {
    pub component_name: String,
    pub path: String,
    pub range: TextRange,
}

/// The abstract form of a [`PropInput`].
pub struct SPropInput {
    pub name: Seq<char>,
    pub type_annotation: Option<Seq<char>>,
    pub default_value: Option<Seq<char>>,
    pub nullable: bool,
    pub range: TextRange,
}

/// The abstract form of a [`UseComponent`].
pub struct SUseComponent {
    pub component_name: Seq<char>,
    pub path: Seq<char>,
    pub range: TextRange,
}

/// The abstract form of a [`Directive`].
pub enum SDirective {
    Input(SPropInput),
    UseComponent(SUseComponent),
    UseAutoRouting,
    UseRouting,
}

pub open spec fn opt_string(o: Option<String>) -> Option<Seq<char>> {
    match o {
        Some(s) => Some(s@),
        None => None,
    }
}

impl View for PropInput {
    type V = SPropInput;

    open spec fn view(&self) -> SPropInput {
        SPropInput {
            name: self.name@,
            type_annotation: opt_string(self.type_annotation),
            default_value: opt_string(self.default_value),
            nullable: self.nullable,
            range: self.range,
        }
    }
}

impl View for UseComponent {
    type V = SUseComponent;

    open spec fn view(&self) -> SUseComponent {
        SUseComponent { component_name: self.component_name@, path: self.path@, range: self.range }
    }
}

impl View for Directive {
    type V = SDirective;

    open spec fn view(&self) -> SDirective {
        match self {
            Directive::Input(p) => SDirective::Input(p@),
            Directive::UseComponent(u) => SDirective::UseComponent(u@),
            Directive::UseAutoRouting => SDirective::UseAutoRouting,
            Directive::UseRouting => SDirective::UseRouting,
        }
    }
}

pub open spec fn directives_view(s: Seq<Directive>) -> Seq<SDirective> {
    s.map_values(|d: Directive| d@)
}

} // verus!
