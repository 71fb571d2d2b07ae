//! The translation rules as mathematics: the state that a walk
//! accumulates, and what leaving one node does to it.

use vstd::prelude::*;
use crate::error::{ErrorKind, TranslateError};
use crate::text::{decimal, join, texts};
use crate::tree::{kind_of, AssignmentOperator, Rule, RuleKind, SyntaxNode};

verus! {

/// A function as the registry knows it: its name, the text of its return
/// type if it is known, and its parameters as pairs of name and type.
pub struct Signature {
    pub name: Seq<char>,
    pub return_type: Option<Seq<char>>,
    pub parameters: Seq<(Seq<char>, Seq<char>)>,
}

/// What a translator holds while it walks one compilation unit.
pub struct State {
    /// The fragment of each node that has one, by node id.
    pub attributes: Map<usize, Seq<char>>,
    /// The names that a plain assignment has introduced.
    pub terms: Set<Seq<char>>,
    /// The enumeration types in the order of their registration, each
    /// with its constants.
    pub enums: Seq<(Seq<char>, Seq<Seq<char>>)>,
    /// The number that the next unnamed enumeration gets.
    pub anon_counter: nat,
    /// The functions declared so far, in the order of their declaration.
    pub functions: Seq<Signature>,
}

/// States are equal when their parts hold the same.
pub proof fn lemma_same_state(a: State, b: State)
    requires
        a.attributes =~= b.attributes,
        a.terms =~= b.terms,
        a.enums =~~= b.enums,
        a.anon_counter == b.anon_counter,
        a.functions =~~= b.functions,
    ensures
        a == b,
{
}

/// The state before the first node.
pub open spec fn initial() -> State {
    State {
        attributes: Map::empty(),
        terms: Set::empty(),
        enums: Seq::empty(),
        anon_counter: 0,
        functions: Seq::empty(),
    }
}

/// `new name: bitstring;` introduces `name` as a private name for the rest
/// of the term sequence.
pub open spec fn fresh_binder(name: Seq<char>) -> Seq<char> {
    "new "@ + name + ": bitstring;"@
}

/// `let name = term in` binds `name` to `term` for the rest of the term
/// sequence.
pub open spec fn let_binding(name: Seq<char>, term: Seq<char>) -> Seq<char> {
    "let "@ + name + " = "@ + term + " in"@
}

/// An operator applied to two terms: `op(left,right)`, the operator kept
/// as an opaque tag.
pub open spec fn tagged_term(left: Seq<char>, op: Seq<char>, right: Seq<char>) -> Seq<char> {
    op + "("@ + left + ","@ + right + ")"@
}

/// The name of the unnamed enumeration number `n`.
pub open spec fn anon_enum_name(n: nat) -> Seq<char> {
    "anon_enum"@ + decimal(n)
}

/// The line that declares the type `name`.
pub open spec fn type_line(name: Seq<char>) -> Seq<char> {
    "type "@ + name + "."@
}

/// The line that declares `constants`, separated by commas, as constants
/// of the type `name`.
pub open spec fn constants_line(name: Seq<char>, constants: Seq<Seq<char>>) -> Seq<char> {
    "const "@ + join(constants, ","@) + ": "@ + name + "."@
}

/// The lines that declare one enumeration type: its type line, and after
/// it the line of its constants if it has any.
pub open spec fn entry_lines(name: Seq<char>, constants: Seq<Seq<char>>) -> Seq<Seq<char>> {
    if constants.len() == 0 {
        seq![type_line(name)]
    } else {
        seq![type_line(name), constants_line(name, constants)]
    }
}

/// The lines that declare the enumeration types of `enums`, first
/// registered first.
pub open spec fn enum_lines(enums: Seq<(Seq<char>, Seq<Seq<char>>)>) -> Seq<Seq<char>>
    decreases enums.len(),
{
    if enums.len() == 0 {
        Seq::empty()
    } else {
        enum_lines(enums.drop_last()) + entry_lines(enums.last().0, enums.last().1)
    }
}

/// The block that declares all enumeration types: their lines with a line
/// break between neighbours.
pub open spec fn render_enums(enums: Seq<(Seq<char>, Seq<Seq<char>>)>) -> Seq<char> {
    join(enum_lines(enums), "\n"@)
}

/// Whether an enumeration type `name` is registered.
pub open spec fn enum_registered(enums: Seq<(Seq<char>, Seq<Seq<char>>)>, name: Seq<char>) -> bool {
    exists|i: int| 0 <= i < enums.len() && (#[trigger] enums[i]).0 == name
}

/// Whether no two registered enumeration types share a name.
pub open spec fn enum_names_distinct(enums: Seq<(Seq<char>, Seq<Seq<char>>)>) -> bool {
    forall|i: int, j: int|
        0 <= i < j < enums.len() ==> (#[trigger] enums[i]).0 != (#[trigger] enums[j]).0
}

/// Whether no two registered functions share a name.
pub open spec fn function_names_distinct(functions: Seq<Signature>) -> bool {
    forall|i: int, j: int|
        0 <= i < j < functions.len() ==> (#[trigger] functions[i]).name != (
        #[trigger] functions[j]).name
}

/// The left-to-right fold of the first `n` operands' fragments, for
/// `1 <= n`, with `operators[i]` between operand `i` and operand `i + 1`.
pub open spec fn fold_chain(
    attributes: Map<usize, Seq<char>>,
    operands: Seq<usize>,
    operators: Seq<Seq<char>>,
    n: nat,
) -> Seq<char>
    decreases n,
{
    if n <= 1 {
        attributes[operands[0]]
    } else {
        tagged_term(
            fold_chain(attributes, operands, operators, (n - 1) as nat),
            operators[n - 2],
            attributes[operands[n - 1]],
        )
    }
}

/// Whether each of `operands` has a fragment.
pub open spec fn all_present(attributes: Map<usize, Seq<char>>, operands: Seq<usize>) -> bool {
    forall|i: int| 0 <= i < operands.len() ==> attributes.contains_key(#[trigger] operands[i])
}

/// The fragments of the first `n` of `items` that have one, in the order
/// of the items.
pub open spec fn fragments(attributes: Map<usize, Seq<char>>, items: Seq<usize>, n: nat) -> Seq<
    Seq<char>,
>
    decreases n,
{
    if n == 0 {
        Seq::empty()
    } else {
        let before = fragments(attributes, items, (n - 1) as nat);
        if attributes.contains_key(items[n - 1]) {
            before.push(attributes[items[n - 1]])
        } else {
            before
        }
    }
}

/// The body of a unit: the fragments of its items with a line break
/// between neighbours.
pub open spec fn body_text(attributes: Map<usize, Seq<char>>, items: Seq<usize>) -> Seq<char> {
    join(fragments(attributes, items, items.len()), "\n"@)
}

/// The script of a unit: the lines of the enumeration block, then the
/// fragments of the unit's items, with a line break between neighbours.
pub open spec fn script(s: State, items: Seq<usize>) -> Seq<char> {
    join(enum_lines(s.enums) + fragments(s.attributes, items, items.len()), "\n"@)
}

impl State {
    /// Whether each registry holds each name once.
    pub open spec fn well_formed(self) -> bool {
        enum_names_distinct(self.enums) && function_names_distinct(self.functions)
    }

    /// This state with `text` as the fragment of node `id`.
    pub open spec fn with_attribute(self, id: usize, text: Seq<char>) -> State {
        State { attributes: self.attributes.insert(id, text), ..self }
    }

    /// This state with `child`'s fragment, if it has one, as that of `id`.
    pub open spec fn with_copy(self, id: usize, child: usize) -> State {
        if self.attributes.contains_key(child) {
            self.with_attribute(id, self.attributes[child])
        } else {
            self
        }
    }
}

/// One level of a binary-operator chain. A single operand hands its
/// fragment on unchanged; a longer chain folds its operands from the left
/// into operator-tagged terms. An operand without a fragment is not
/// supported; a chain without operands, or whose operators are not one
/// fewer than its operands, is no parse.
pub open spec fn reduce_chain(
    s: State,
    id: usize,
    operands: Seq<usize>,
    operators: Seq<Seq<char>>,
) -> Result<State, ErrorKind> {
    if operands.len() == 0 || operators.len() + 1 != operands.len() {
        Err(ErrorKind::MalformedTree)
    } else if !all_present(s.attributes, operands) {
        Err(ErrorKind::UnsupportedConstruct)
    } else {
        Ok(s.with_attribute(id, fold_chain(s.attributes, operands, operators, operands.len())))
    }
}

/// A cast or unary node: the fragment of the one recognized alternative
/// that is there. A node with neither is outside the supported subset,
/// and so is one whose alternative has no fragment; a node with both is
/// no parse.
pub open spec fn select_alternative(
    s: State,
    id: usize,
    first: Option<usize>,
    second: Option<usize>,
) -> Result<State, ErrorKind> {
    if first is Some && second is Some {
        Err(ErrorKind::MalformedTree)
    } else {
        let chosen = if first is Some {
            first
        } else {
            second
        };
        match chosen {
            Some(child) => if s.attributes.contains_key(child) {
                Ok(s.with_attribute(id, s.attributes[child]))
            } else {
                Err(ErrorKind::UnsupportedConstruct)
            },
            None => Err(ErrorKind::UnsupportedConstruct),
        }
    }
}

/// An assignment expression. A conditional expression alone hands its
/// fragment on, present or not; a bare literal has none. In
/// `left operator right` the left side must have resolved to a name: a
/// plain assignment marks the name declared and yields a fresh-name binder
/// for it; a compound assignment needs the name declared and yields no
/// fragment. Any other combination of fields is no parse.
pub open spec fn assign(
    s: State,
    id: usize,
    conditional: Option<usize>,
    literal: bool,
    left: Option<usize>,
    operator: Option<AssignmentOperator>,
    right: Option<usize>,
) -> Result<State, ErrorKind> {
    if conditional is Some && !literal && left is None && operator is None && right is None {
        Ok(s.with_copy(id, conditional->0))
    } else if conditional is None && literal && left is None && operator is None && right is None {
        Ok(s)
    } else if conditional is None && !literal && left is Some && operator is Some && right is Some {
        if !s.attributes.contains_key(left->0) {
            Err(ErrorKind::UnsupportedConstruct)
        } else {
            let name = s.attributes[left->0];
            match operator->0 {
                AssignmentOperator::Plain => Ok(
                    State {
                        attributes: s.attributes.insert(id, fresh_binder(name)),
                        terms: s.terms.insert(name),
                        ..s
                    },
                ),
                AssignmentOperator::Compound => if s.terms.contains(name) {
                    Ok(s)
                } else {
                    Err(ErrorKind::UnsupportedConstruct)
                },
            }
        }
    } else {
        Err(ErrorKind::MalformedTree)
    }
}

/// A variable declaration. Without an initializer it yields a fresh-name
/// binder; with a call whose fragment is `t`, a let-binding to `t`; with
/// a call that has no fragment it is not supported.
pub open spec fn declare(s: State, id: usize, name: Seq<char>, initializer: Option<usize>) -> Result<
    State,
    ErrorKind,
> {
    match initializer {
        None => Ok(s.with_attribute(id, fresh_binder(name))),
        Some(call) => if s.attributes.contains_key(call) {
            Ok(s.with_attribute(id, let_binding(name, s.attributes[call])))
        } else {
            Err(ErrorKind::UnsupportedConstruct)
        },
    }
}

/// Registers the enumeration type `name` with `constants`, after all that
/// are registered; a name that is registered already is a duplicate.
pub open spec fn register_enum(s: State, name: Seq<char>, constants: Seq<Seq<char>>) -> Result<
    State,
    ErrorKind,
> {
    if enum_registered(s.enums, name) {
        Err(ErrorKind::DuplicateDeclaration)
    } else {
        Ok(State { enums: s.enums.push((name, constants)), ..s })
    }
}

/// An enumeration's definition: registered under its own name, or, if it
/// has none, under the next unnamed enumeration's name. The number of an
/// unnamed enumeration is taken before the name is looked up, so it
/// counts as used also where the definition fails.
pub open spec fn define_enum(s: State, name: Option<String>, constants: Seq<Seq<char>>) -> Result<
    State,
    ErrorKind,
> {
    match name {
        Some(n) => register_enum(s, n@, constants),
        None => match register_enum(s, anon_enum_name(s.anon_counter), constants) {
            Ok(t) => Ok(State { anon_counter: s.anon_counter + 1, ..t }),
            Err(e) => Err(e),
        },
    }
}

/// Whether a function `name` is registered.
pub open spec fn function_registered(functions: Seq<Signature>, name: Seq<char>) -> bool {
    exists|i: int| 0 <= i < functions.len() && (#[trigger] functions[i]).name == name
}

/// A function's declaration: registered after all that are, with its
/// return type unknown and without parameters, as long as calls are not
/// translated; a name that is registered already is a duplicate.
pub open spec fn declare_function(s: State, name: Seq<char>) -> Result<State, ErrorKind> {
    if function_registered(s.functions, name) {
        Err(ErrorKind::DuplicateDeclaration)
    } else {
        Ok(
            State {
                functions: s.functions.push(
                    Signature { name, return_type: None, parameters: Seq::empty() },
                ),
                ..s
            },
        )
    }
}

/// Registering an enumeration keeps the registered names distinct.
pub proof fn lemma_register_keeps_distinct(s: State, name: Seq<char>, constants: Seq<Seq<char>>)
    requires
        enum_names_distinct(s.enums),
        register_enum(s, name, constants) is Ok,
    ensures
        enum_names_distinct(register_enum(s, name, constants)->Ok_0.enums),
{
    let t = register_enum(s, name, constants)->Ok_0;
    assert forall|i: int, j: int| 0 <= i < j < t.enums.len() implies (#[trigger] t.enums[i]).0 != (
    #[trigger] t.enums[j]).0 by {
        if j == s.enums.len() {
            assert(s.enums[i].0 != name);
        } else {
            assert(t.enums[i] == s.enums[i]);
            assert(t.enums[j] == s.enums[j]);
        }
    }
}

/// Declaring a function keeps the registered names distinct.
pub proof fn lemma_declare_keeps_distinct(s: State, name: Seq<char>)
    requires
        function_names_distinct(s.functions),
        declare_function(s, name) is Ok,
    ensures
        function_names_distinct(declare_function(s, name)->Ok_0.functions),
{
    let t = declare_function(s, name)->Ok_0;
    assert forall|i: int, j: int| 0 <= i < j < t.functions.len() implies (
    #[trigger] t.functions[i]).name != (#[trigger] t.functions[j]).name by {
        if j == s.functions.len() {
            assert(s.functions[i].name != name);
        } else {
            assert(t.functions[i] == s.functions[i]);
            assert(t.functions[j] == s.functions[j]);
        }
    }
}

/// A rule that succeeds leaves each registry with each name once.
pub proof fn lemma_step_keeps_well_formed(s: State, node: SyntaxNode)
    requires
        s.well_formed(),
        step(s, node) is Ok,
    ensures
        step(s, node)->Ok_0.well_formed(),
{
    match node.rule {
        Rule::EnumDefinition { tag: Some(n), enumerators } => {
            lemma_register_keeps_distinct(s, n@, texts(enumerators@));
        },
        Rule::EnumDefinition { tag: None, enumerators } => {
            lemma_register_keeps_distinct(s, anon_enum_name(s.anon_counter), texts(enumerators@));
        },
        Rule::EnumDeclaration { tag: Some(n) } => {
            lemma_register_keeps_distinct(s, n@, Seq::empty());
        },
        Rule::FunctionDeclaration { name } => {
            lemma_declare_keeps_distinct(s, name@);
        },
        _ => {},
    }
}

/// What leaving `node` does to the state `s`, where its rule succeeds;
/// `after_failure` gives the state where it fails. A node that has a
/// fragment already was left before: no walk does that.
pub open spec fn step(s: State, node: SyntaxNode) -> Result<State, ErrorKind> {
    if s.attributes.contains_key(node.id) {
        Err(ErrorKind::MalformedTree)
    } else {
        match node.rule {
            Rule::Identifier { text } => Ok(s.with_attribute(node.id, text@)),
            Rule::Literal => Ok(s),
            Rule::BinaryChain { operands, operators } => reduce_chain(
                s,
                node.id,
                operands@,
                texts(operators@),
            ),
            Rule::CastExpression { cast_expression, unary_expression } => select_alternative(
                s,
                node.id,
                cast_expression,
                unary_expression,
            ),
            Rule::UnaryExpression { postfix_expression, cast_expression } => select_alternative(
                s,
                node.id,
                postfix_expression,
                cast_expression,
            ),
            Rule::AssignmentExpression { conditional, literal, left, operator, right } => assign(
                s,
                node.id,
                conditional,
                literal,
                left,
                operator,
                right,
            ),
            Rule::Declaration { name, initializer } => declare(s, node.id, name@, initializer),
            Rule::EnumDefinition { tag, enumerators } => define_enum(s, tag, texts(enumerators@)),
            Rule::EnumDeclaration { tag } => match tag {
                Some(n) => register_enum(s, n@, Seq::empty()),
                None => Err(ErrorKind::MalformedTree),
            },
            Rule::FunctionDeclaration { name } => declare_function(s, name@),
            Rule::CompilationUnit { items } => Ok(s.with_attribute(node.id, script(s, items@))),
        }
    }
}

/// The state after `node`'s rule has failed in `s`: `s`, but that the
/// definition of an unnamed enumeration has used its number.
pub open spec fn after_failure(s: State, node: SyntaxNode) -> State {
    if !s.attributes.contains_key(node.id) && node.rule is EnumDefinition
        && node.rule->EnumDefinition_tag is None {
        State { anon_counter: s.anon_counter + 1, ..s }
    } else {
        s
    }
}

/// The failure of `node`'s rule for the reason `kind`.
pub open spec fn failure(kind: ErrorKind, node: SyntaxNode) -> TranslateError {
    TranslateError { kind, rule: kind_of(node.rule), node: node.id }
}

/// A walk so far: the state, the failures in the order in which they
/// were found, and whether the walk has ended early.
pub struct Walk {
    pub state: State,
    pub errors: Seq<TranslateError>,
    pub halted: bool,
}

/// The walk over the first `n` of `nodes` from the initial state. A rule
/// that fails is noted with its node and adds nothing to the registries
/// or the fragments, and the walk goes on; only a malformed tree ends it
/// at once.
pub open spec fn walk(nodes: Seq<SyntaxNode>, n: nat) -> Walk
    decreases n,
{
    if n == 0 {
        Walk { state: initial(), errors: Seq::empty(), halted: false }
    } else {
        let before = walk(nodes, (n - 1) as nat);
        if before.halted {
            before
        } else {
            match step(before.state, nodes[n - 1]) {
                Ok(after) => Walk { state: after, ..before },
                Err(kind) => Walk {
                    state: after_failure(before.state, nodes[n - 1]),
                    errors: before.errors.push(failure(kind, nodes[n - 1])),
                    halted: kind == ErrorKind::MalformedTree,
                },
            }
        }
    }
}

/// What translating the unit `nodes` gives: the script that its last
/// node, the compilation unit, emits, or every failure that the walk has
/// found. A unit without nodes, or whose last node is no compilation
/// unit, is a malformed tree.
pub open spec fn unit_script(nodes: Seq<SyntaxNode>) -> Result<Seq<char>, Seq<TranslateError>> {
    if nodes.len() == 0 {
        Err(
            seq![
                TranslateError {
                    kind: ErrorKind::MalformedTree,
                    rule: RuleKind::CompilationUnit,
                    node: 0,
                },
            ],
        )
    } else {
        let w = walk(nodes, nodes.len());
        if w.errors.len() > 0 {
            Err(w.errors)
        } else if nodes.last().rule is CompilationUnit {
            Ok(w.state.attributes[nodes.last().id])
        } else {
            Err(seq![failure(ErrorKind::MalformedTree, nodes.last())])
        }
    }
}

} // verus!
