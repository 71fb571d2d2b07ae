//! The syntax tree as the translator reads it.

use vstd::prelude::*;

verus! {

/// The operator of a full assignment.
#[derive(Clone, Copy, Debug, PartialEq, Eq, Structural)]
pub enum AssignmentOperator {
    /// `=`
    Plain,
    /// `+=`, `-=`, `*=` and the like.
    Compound,
}

/// What a node is, with the children that its rule reads. A child is
/// named by its node id.
#[derive(Debug)]
pub enum Rule {
    /// An identifier leaf; it resolves to its own text.
    Identifier { text: String },
    /// A literal leaf; literals are not modelled as terms.
    Literal,
    /// One level of a left-associative chain of binary operators:
    /// the operands of the next lower level, and the operators between them.
    BinaryChain { operands: Vec<usize>, operators: Vec<String> },
    /// A cast expression: a cast of an expression, or a unary expression.
    CastExpression { cast_expression: Option<usize>, unary_expression: Option<usize> },
    /// A unary expression: a postfix expression, or an operator before a
    /// cast expression.
    UnaryExpression { postfix_expression: Option<usize>, cast_expression: Option<usize> },
    /// An assignment expression: a conditional expression, a bare numeric
    /// literal, or `left operator right`.
    AssignmentExpression {
        conditional: Option<usize>,
        literal: bool,
        left: Option<usize>,
        operator: Option<AssignmentOperator>,
        right: Option<usize>,
    },
    /// A variable declaration, with its call-expression initializer if it
    /// has one.
    Declaration { name: String, initializer: Option<usize> },
    /// `enum tag { enumerators }`; the tag may be missing.
    EnumDefinition { tag: Option<String>, enumerators: Vec<String> },
    /// `enum tag`, the tag alone.
    EnumDeclaration { tag: Option<String> },
    /// The declaration of a function.
    FunctionDeclaration { name: String },
    /// The whole unit, with its top-level items in source order.
    CompilationUnit { items: Vec<usize> },
}

/// The grammar rule of a node, without what the node holds.
#[derive(Clone, Copy, Debug, PartialEq, Eq, Structural)]
pub enum RuleKind {
    Identifier,
    Literal,
    BinaryChain,
    CastExpression,
    UnaryExpression,
    AssignmentExpression,
    Declaration,
    EnumDefinition,
    EnumDeclaration,
    FunctionDeclaration,
    CompilationUnit,
}

/// The grammar rule of `rule`.
pub open spec fn kind_of(rule: Rule) -> RuleKind {
    match rule {
        Rule::Identifier { .. } => RuleKind::Identifier,
        Rule::Literal => RuleKind::Literal,
        Rule::BinaryChain { .. } => RuleKind::BinaryChain,
        Rule::CastExpression { .. } => RuleKind::CastExpression,
        Rule::UnaryExpression { .. } => RuleKind::UnaryExpression,
        Rule::AssignmentExpression { .. } => RuleKind::AssignmentExpression,
        Rule::Declaration { .. } => RuleKind::Declaration,
        Rule::EnumDefinition { .. } => RuleKind::EnumDefinition,
        Rule::EnumDeclaration { .. } => RuleKind::EnumDeclaration,
        Rule::FunctionDeclaration { .. } => RuleKind::FunctionDeclaration,
        Rule::CompilationUnit { .. } => RuleKind::CompilationUnit,
    }
}

impl Rule {
    /// The grammar rule of this node.
    pub fn kind(&self) -> (k: RuleKind)
        ensures
            k == kind_of(*self),
    {
        match self {
            Rule::Identifier { .. } => RuleKind::Identifier,
            Rule::Literal => RuleKind::Literal,
            Rule::BinaryChain { .. } => RuleKind::BinaryChain,
            Rule::CastExpression { .. } => RuleKind::CastExpression,
            Rule::UnaryExpression { .. } => RuleKind::UnaryExpression,
            Rule::AssignmentExpression { .. } => RuleKind::AssignmentExpression,
            Rule::Declaration { .. } => RuleKind::Declaration,
            Rule::EnumDefinition { .. } => RuleKind::EnumDefinition,
            Rule::EnumDeclaration { .. } => RuleKind::EnumDeclaration,
            Rule::FunctionDeclaration { .. } => RuleKind::FunctionDeclaration,
            Rule::CompilationUnit { .. } => RuleKind::CompilationUnit,
        }
    }
}

/// A node of the syntax tree.
#[derive(Debug)]
pub struct SyntaxNode {
    pub id: usize,
    pub rule: Rule,
}

} // verus!
