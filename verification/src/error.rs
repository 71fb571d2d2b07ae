//! What a translation or a lookup table can fail with.

use vstd::prelude::*;
use crate::tree::RuleKind;

verus! {

/// Why a node could not be translated.
#[derive(Clone, Copy, Debug, PartialEq, Eq, Structural)]
pub enum ErrorKind {
    /// The input uses a feature that the rules do not model, or a rule
    /// needs the fragment of a child that has none.
    UnsupportedConstruct,
    /// An enumeration type or a function was registered a second time.
    DuplicateDeclaration,
    /// The node holds a combination of fields that no parse yields, or was
    /// translated before.
    MalformedTree,
}

/// A failed rule: the reason, the grammar rule, and the node whose rule
/// failed.
#[derive(Clone, Copy, Debug, PartialEq, Eq, Structural)]
pub struct TranslateError {
    pub kind: ErrorKind,
    pub rule: RuleKind,
    pub node: usize,
}

/// A lookup table that is not well formed: the number of the offending
/// line, counted from one.
#[derive(Clone, Copy, Debug, PartialEq, Eq, Structural)]
pub struct MalformedConfiguration {
    pub line: usize,
}

} // verus!
