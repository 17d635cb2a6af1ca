//! What a reference document is assembled from, once its parts are parsed.
use crate::function::Function;
use crate::parameter::Parameter;
use vstd::prelude::*;

verus! {

/// A parameter that is described with another function.
#[derive(Debug, Clone, Hash, PartialEq, Eq)]
pub struct ParameterDelegation<'s> {
    pub name: &'s str,
    pub target: &'s Function<'s>,
}

/// A parameter and what the document says of it.
#[derive(Debug, Clone, Hash, PartialEq, Eq)]
pub struct ParameterDescription<'s> {
    pub name: &'s str,
    pub description: &'s str,
}

/// Where a reference points: a section of the core document, a table, or a
/// section of the shading language document.
#[derive(Debug, Clone, Hash, PartialEq, Eq)]
pub enum ReferenceTarget {
    Core([u8; 3]),
    Table([u8; 2]),
    Shader([u8; 3]),
}

/// A reference from a function to the place that defines it.
#[derive(Debug, Clone, Hash, PartialEq, Eq)]
pub struct SpecificationReference<'s> {
    pub title: &'s str,
    pub target: ReferenceTarget,
}

/// A numbered section of a document.
#[derive(Debug, Clone, Hash, PartialEq, Eq)]
pub struct Section<'s> {
    pub title: &'s str,
    pub numbers: [u8; 3],
}

/// One parsed item of a document.
#[derive(Debug, Clone, Hash, PartialEq, Eq)]
pub enum Ast<'s> {
    Parameter(Parameter<'s>),
    EnumVariant { name: &'s str, variants: Vec<String> },
    Function(Function<'s>),
    Section(Section<'s>),
}

} // verus!
