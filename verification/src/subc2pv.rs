//! The translator: the state of one walk, and the rule of each node.

use std::collections::HashMap;
use vstd::prelude::*;
use crate::error::{ErrorKind, TranslateError};
use crate::model::{
    after_failure, assign, constants_line, declare, declare_function, define_enum, entry_lines,
    enum_lines, enum_registered, failure, fold_chain, fragments, function_registered, initial,
    lemma_declare_keeps_distinct, lemma_register_keeps_distinct, lemma_same_state,
    lemma_step_keeps_well_formed, reduce_chain, register_enum, render_enums, script,
    select_alternative, step, type_line, unit_script, walk, Signature, State, Walk,
};
use crate::text::{contains_name, decimal_string, has_text, join_strings, texts};
use crate::tree::{AssignmentOperator, Rule, RuleKind, SyntaxNode};

verus! {

broadcast use vstd::std_specs::hash::group_hash_axioms;

/// A registered enumeration type with its constants in source order.
pub struct EnumType {
    pub name: String,
    pub constants: Vec<String>,
}

/// A registered function: its name, the text of its return type if it is
/// known, and its parameters as pairs of name and type.
pub struct FunctionSignature {
    pub name: String,
    pub return_type: Option<String>,
    pub parameters: Vec<(String, String)>,
}

/// The translator of one compilation unit.
pub struct SubC2PVListener {
    /// The fragment of each node that has one, by the node's key.
    pub ctx2pv: HashMap<usize, String>,
    terms: Vec<String>,
    enum_types: Vec<EnumType>,
    anon_enum_counter: usize,
    declared_functions: Vec<FunctionSignature>,
}

/// The texts of the stored fragments.
pub open spec fn attribute_texts(m: Map<usize, String>) -> Map<usize, Seq<char>> {
    Map::new(|k: usize| m.contains_key(k), |k: usize| m[k]@)
}

/// The registry `v` as pairs of name and constants.
pub open spec fn enum_entries(v: Seq<EnumType>) -> Seq<(Seq<char>, Seq<Seq<char>>)> {
    Seq::new(v.len(), |i: int| (v[i].name@, texts(v[i].constants@)))
}

/// The registry `v` as signatures over texts.
pub open spec fn signatures(v: Seq<FunctionSignature>) -> Seq<Signature> {
    Seq::new(
        v.len(),
        |i: int|
            Signature {
                name: v[i].name@,
                return_type: match v[i].return_type {
                    Some(text) => Some(text@),
                    None => None,
                },
                parameters: Seq::new(
                    v[i].parameters@.len(),
                    |j: int| (v[i].parameters@[j].0@, v[i].parameters@[j].1@),
                ),
            },
    )
}

/// Whether `r` and the state `after` are what `expected` asks for: on
/// success the new state, on failure the reason and the state `before`.
pub open spec fn agrees(
    before: State,
    after: State,
    r: Result<(), ErrorKind>,
    expected: Result<State, ErrorKind>,
) -> bool {
    match expected {
        Ok(s) => r is Ok && after == s,
        Err(kind) => r == Err::<(), ErrorKind>(kind) && after == before,
    }
}

impl View for SubC2PVListener {
    type V = State;

    closed spec fn view(&self) -> State {
        State {
            attributes: attribute_texts(self.ctx2pv@),
            terms: Set::new(|n: Seq<char>| has_text(self.terms@, n)),
            enums: enum_entries(self.enum_types@),
            anon_counter: self.anon_enum_counter as nat,
            functions: signatures(self.declared_functions@),
        }
    }
}

/// The key under which a node's fragment is stored: the node's id.
pub fn hash_code(node: &SyntaxNode) -> (key: usize)
    ensures
        key == node.id,
{
    node.id
}

fn clone_names(v: &Vec<String>) -> (r: Vec<String>)
    ensures
        texts(r@) == texts(v@),
{
    let mut r: Vec<String> = Vec::new();
    let mut i: usize = 0;
    while i < v.len()
        invariant
            i <= v.len(),
            r@.len() == i,
            forall|j: int| 0 <= j < i ==> (#[trigger] r@[j])@ == v@[j]@,
        decreases v.len() - i,
    {
        r.push(v[i].clone());
        i += 1;
    }
    assert(texts(r@) =~= texts(v@));
    r
}

impl SubC2PVListener {
    /// A translator that has seen nothing.
    pub fn new() -> (r: Self)
        ensures
            r@ == initial(),
            r@.well_formed(),
    {
        let r = Self {
            ctx2pv: HashMap::new(),
            terms: Vec::new(),
            enum_types: Vec::new(),
            anon_enum_counter: 0,
            declared_functions: Vec::new(),
        };
        proof {
            lemma_same_state(r@, initial());
        }
        r
    }

    /// The fragment of node `id`, if it has one.
    pub fn get(&self, id: usize) -> (r: Option<&String>)
        ensures
            match r {
                Some(text) => self@.attributes.contains_key(id) && text@ == self@.attributes[id],
                None => !self@.attributes.contains_key(id),
            },
    {
        self.ctx2pv.get(&id)
    }

    /// Stores `text` as the fragment of node `id`. A node's fragment is
    /// written once: for a node that has one already this is a malformed
    /// tree, and the fragment stays.
    pub fn set(&mut self, id: usize, text: String) -> (r: Result<(), ErrorKind>)
        ensures
            agrees(
                old(self)@,
                final(self)@,
                r,
                if old(self)@.attributes.contains_key(id) {
                    Err(ErrorKind::MalformedTree)
                } else {
                    Ok(old(self)@.with_attribute(id, text@))
                },
            ),
    {
        if self.ctx2pv.contains_key(&id) {
            return Err(ErrorKind::MalformedTree);
        }
        self.store(id, text);
        Ok(())
    }

    fn store(&mut self, id: usize, text: String)
        ensures
            final(self)@ == old(self)@.with_attribute(id, text@),
    {
        self.ctx2pv.insert(id, text);
        proof {
            lemma_same_state(final(self)@, old(self)@.with_attribute(id, text@));
        }
    }

    /// Hands out the number of the next unnamed enumeration.
    pub fn next_anon_enum_id(&mut self) -> (id: usize)
        requires
            old(self)@.anon_counter < usize::MAX,
        ensures
            id == old(self)@.anon_counter,
            final(self)@ == (State { anon_counter: old(self)@.anon_counter + 1, ..old(self)@ }),
    {
        let ans = self.anon_enum_counter;
        self.anon_enum_counter += 1;
        ans
    }

    /// The lines that declare the registered enumeration types.
    fn enum_line_strings(&self) -> (lines: Vec<String>)
        ensures
            texts(lines@) == enum_lines(self@.enums),
    {
        let mut lines: Vec<String> = Vec::new();
        let mut i: usize = 0;
        assert(texts(lines@) =~= enum_lines(self@.enums.take(0)));
        while i < self.enum_types.len()
            invariant
                i <= self.enum_types.len(),
                texts(lines@) == enum_lines(self@.enums.take(i as int)),
            decreases self.enum_types.len() - i,
        {
            let e = &self.enum_types[i];
            let ghost before = texts(lines@);
            proof {
                let head = self@.enums.take(i + 1);
                assert(head.drop_last() =~= self@.enums.take(i as int));
                assert(head.last() == (e.name@, texts(e.constants@)));
            }
            let mut line = String::from_str("type ");
            line.append(e.name.as_str());
            line.append(".");
            assert(line@ =~= type_line(e.name@));
            lines.push(line);
            if e.constants.len() > 0 {
                let mut constants = String::from_str("const ");
                let joined = join_strings(&e.constants, ",");
                constants.append(joined.as_str());
                constants.append(": ");
                constants.append(e.name.as_str());
                constants.append(".");
                assert(constants@ =~= constants_line(e.name@, texts(e.constants@)));
                lines.push(constants);
            }
            assert(texts(lines@) =~= before + entry_lines(e.name@, texts(e.constants@)));
            i += 1;
        }
        assert(self@.enums.take(i as int) =~= self@.enums);
        lines
    }

    /// Renders the declarations of the registered enumeration types, first
    /// registered first, one line after another.
    pub fn translate_enumerations(&self) -> (out: String)
        ensures
            out@ == render_enums(self@.enums),
    {
        let lines = self.enum_line_strings();
        join_strings(&lines, "\n")
    }

    fn enum_known(&self, name: &String) -> (found: bool)
        ensures
            found == enum_registered(self@.enums, name@),
    {
        let mut i: usize = 0;
        while i < self.enum_types.len()
            invariant
                i <= self.enum_types.len(),
                forall|j: int| 0 <= j < i ==> (#[trigger] self@.enums[j]).0 != name@,
            decreases self.enum_types.len() - i,
        {
            if self.enum_types[i].name == *name {
                assert(self@.enums[i as int].0 == name@);
                return true;
            }
            i += 1;
        }
        false
    }

    fn function_known(&self, name: &String) -> (found: bool)
        ensures
            found == function_registered(self@.functions, name@),
    {
        let mut i: usize = 0;
        while i < self.declared_functions.len()
            invariant
                i <= self.declared_functions.len(),
                forall|j: int| 0 <= j < i ==> (#[trigger] self@.functions[j]).name != name@,
            decreases self.declared_functions.len() - i,
        {
            if self.declared_functions[i].name == *name {
                assert(self@.functions[i as int].name == name@);
                return true;
            }
            i += 1;
        }
        false
    }

    /// Registers an enumeration type under `name`.
    fn register(&mut self, name: String, constants: Vec<String>) -> (r: Result<(), ErrorKind>)
        ensures
            agrees(
                old(self)@,
                final(self)@,
                r,
                register_enum(old(self)@, name@, texts(constants@)),
            ),
            old(self)@.well_formed() ==> final(self)@.well_formed(),
    {
        if self.enum_known(&name) {
            return Err(ErrorKind::DuplicateDeclaration);
        }
        let ghost expected = register_enum(old(self)@, name@, texts(constants@))->Ok_0;
        self.enum_types.push(EnumType { name, constants });
        proof {
            lemma_same_state(self@, expected);
            if old(self)@.well_formed() {
                lemma_register_keeps_distinct(old(self)@, name@, texts(constants@));
            }
        }
        Ok(())
    }

    /// Leaves an enumeration's definition. An unnamed one takes its number
    /// first, and keeps it where its name turns out to be registered.
    pub fn exit_enum_definition(&mut self, name: &Option<String>, enumerators: &Vec<String>) -> (r:
        Result<(), ErrorKind>)
        requires
            name is None ==> old(self)@.anon_counter < usize::MAX,
        ensures
            match define_enum(old(self)@, *name, texts(enumerators@)) {
                Ok(s) => r is Ok && final(self)@ == s,
                Err(kind) => r == Err::<(), ErrorKind>(kind) && final(self)@ == if name is None {
                    State { anon_counter: old(self)@.anon_counter + 1, ..old(self)@ }
                } else {
                    old(self)@
                },
            },
            old(self)@.well_formed() ==> final(self)@.well_formed(),
    {
        let constants = clone_names(enumerators);
        match name {
            Some(n) => self.register(n.clone(), constants),
            None => {
                let number = self.next_anon_enum_id();
                let mut ename = String::from_str("anon_enum");
                let digits = decimal_string(number);
                ename.append(digits.as_str());
                self.register(ename, constants)
            },
        }
    }

    /// Leaves an enumeration's declaration by its tag.
    pub fn exit_enum_declaration(&mut self, name: &Option<String>) -> (r: Result<(), ErrorKind>)
        ensures
            agrees(
                old(self)@,
                final(self)@,
                r,
                match *name {
                    Some(n) => register_enum(old(self)@, n@, Seq::empty()),
                    None => Err(ErrorKind::MalformedTree),
                },
            ),
            old(self)@.well_formed() ==> final(self)@.well_formed(),
    {
        match name {
            Some(n) => {
                let constants: Vec<String> = Vec::new();
                assert(texts(constants@) =~= Seq::empty());
                self.register(n.clone(), constants)
            },
            None => Err(ErrorKind::MalformedTree),
        }
    }

    /// Leaves a function's declaration.
    pub fn exit_function_declaration(&mut self, name: &String) -> (r: Result<(), ErrorKind>)
        ensures
            agrees(old(self)@, final(self)@, r, declare_function(old(self)@, name@)),
            old(self)@.well_formed() ==> final(self)@.well_formed(),
    {
        if self.function_known(name) {
            return Err(ErrorKind::DuplicateDeclaration);
        }
        let ghost expected = declare_function(old(self)@, name@)->Ok_0;
        self.declared_functions.push(
            FunctionSignature { name: name.clone(), return_type: None, parameters: Vec::new() },
        );
        proof {
            let added = self@.functions.last();
            assert(added.parameters =~= Seq::empty());
            assert(added == expected.functions.last());
            assert forall|i: int| 0 <= i < self@.functions.len() implies self@.functions[i]
                == expected.functions[i] by {
                if i < old(self)@.functions.len() {
                    assert(self.declared_functions@[i] == old(self).declared_functions@[i]);
                }
            }
            lemma_same_state(self@, expected);
            if old(self)@.well_formed() {
                lemma_declare_keeps_distinct(old(self)@, name@);
            }
        }
        Ok(())
    }

    /// Leaves one level of a binary-operator chain.
    fn exit_binary_chain(&mut self, id: usize, operands: &Vec<usize>, operators: &Vec<String>) -> (r:
        Result<(), ErrorKind>)
        ensures
            agrees(
                old(self)@,
                final(self)@,
                r,
                reduce_chain(old(self)@, id, operands@, texts(operators@)),
            ),
    {
        if operands.len() == 0 || operators.len() != operands.len() - 1 {
            return Err(ErrorKind::MalformedTree);
        }
        let mut acc = match self.get(operands[0]) {
            Some(text) => text.clone(),
            None => {
                return Err(ErrorKind::UnsupportedConstruct);
            },
        };
        let mut i: usize = 1;
        while i < operands.len()
            invariant
                1 <= i <= operands.len(),
                operators.len() + 1 == operands.len(),
                *self == *old(self),
                forall|j: int| 0 <= j < i ==> self@.attributes.contains_key(#[trigger] operands@[j]),
                acc@ == fold_chain(self@.attributes, operands@, texts(operators@), i as nat),
            decreases operands.len() - i,
        {
            let right = match self.get(operands[i]) {
                Some(text) => text,
                None => {
                    return Err(ErrorKind::UnsupportedConstruct);
                },
            };
            let mut term = operators[i - 1].clone();
            term.append("(");
            term.append(acc.as_str());
            term.append(",");
            term.append(right.as_str());
            term.append(")");
            assert(term@ =~= fold_chain(
                self@.attributes,
                operands@,
                texts(operators@),
                (i + 1) as nat,
            ));
            acc = term;
            i += 1;
        }
        self.store(id, acc);
        Ok(())
    }

    /// Leaves a cast or unary node with its two recognized alternatives.
    fn exit_alternative(&mut self, id: usize, first: Option<usize>, second: Option<usize>) -> (r:
        Result<(), ErrorKind>)
        ensures
            agrees(old(self)@, final(self)@, r, select_alternative(old(self)@, id, first, second)),
    {
        if first.is_some() && second.is_some() {
            return Err(ErrorKind::MalformedTree);
        }
        let chosen = if first.is_some() {
            first
        } else {
            second
        };
        match chosen {
            Some(child) => {
                let text = match self.get(child) {
                    Some(text) => text.clone(),
                    None => {
                        return Err(ErrorKind::UnsupportedConstruct);
                    },
                };
                self.store(id, text);
                Ok(())
            },
            None => Err(ErrorKind::UnsupportedConstruct),
        }
    }

    /// Leaves an assignment expression.
    fn exit_assignment(
        &mut self,
        id: usize,
        conditional: Option<usize>,
        literal: bool,
        left: Option<usize>,
        operator: Option<AssignmentOperator>,
        right: Option<usize>,
    ) -> (r: Result<(), ErrorKind>)
        ensures
            agrees(
                old(self)@,
                final(self)@,
                r,
                assign(old(self)@, id, conditional, literal, left, operator, right),
            ),
    {
        if conditional.is_some() && !literal && left.is_none() && operator.is_none()
            && right.is_none() {
            let copied = match self.get(conditional.unwrap()) {
                Some(text) => Some(text.clone()),
                None => None,
            };
            match copied {
                Some(text) => {
                    self.store(id, text);
                },
                None => {},
            }
            Ok(())
        } else if conditional.is_none() && literal && left.is_none() && operator.is_none()
            && right.is_none() {
            Ok(())
        } else if conditional.is_none() && !literal && left.is_some() && operator.is_some()
            && right.is_some() {
            let name = match self.get(left.unwrap()) {
                Some(text) => text.clone(),
                None => {
                    return Err(ErrorKind::UnsupportedConstruct);
                },
            };
            let declared = contains_name(&self.terms, &name);
            match operator.unwrap() {
                AssignmentOperator::Plain => {
                    let ghost expected = assign(
                        old(self)@,
                        id,
                        conditional,
                        literal,
                        left,
                        operator,
                        right,
                    )->Ok_0;
                    let mut binder = String::from_str("new ");
                    binder.append(name.as_str());
                    binder.append(": bitstring;");
                    if !declared {
                        self.terms.push(name);
                        assert forall|n: Seq<char>|
                            has_text(self.terms@, n) <==> (has_text(old(self).terms@, n) || n
                                == name@) by {
                            if has_text(self.terms@, n) {
                                let k = choose|k: int|
                                    0 <= k < self.terms@.len() && (#[trigger] self.terms@[k])@ == n;
                                if k < old(self).terms@.len() {
                                    assert(old(self).terms@[k]@ == n);
                                }
                            }
                            if has_text(old(self).terms@, n) {
                                let k = choose|k: int|
                                    0 <= k < old(self).terms@.len() && (
                                    #[trigger] old(self).terms@[k])@ == n;
                                assert(self.terms@[k]@ == n);
                            }
                            if n == name@ {
                                assert(self.terms@[self.terms@.len() - 1]@ == n);
                            }
                        }
                    }
                    self.ctx2pv.insert(id, binder);
                    proof {
            lemma_same_state(self@, expected);
        }
                    Ok(())
                },
                AssignmentOperator::Compound => if declared {
                    Ok(())
                } else {
                    Err(ErrorKind::UnsupportedConstruct)
                },
            }
        } else {
            Err(ErrorKind::MalformedTree)
        }
    }

    /// Leaves a variable declaration.
    fn exit_declaration(&mut self, id: usize, name: &String, initializer: Option<usize>) -> (r:
        Result<(), ErrorKind>)
        ensures
            agrees(old(self)@, final(self)@, r, declare(old(self)@, id, name@, initializer)),
    {
        match initializer {
            None => {
                let mut binder = String::from_str("new ");
                binder.append(name.as_str());
                binder.append(": bitstring;");
                self.store(id, binder);
                Ok(())
            },
            Some(call) => {
                let mut binding = String::from_str("let ");
                binding.append(name.as_str());
                binding.append(" = ");
                match self.get(call) {
                    Some(term) => {
                        binding.append(term.as_str());
                    },
                    None => {
                        return Err(ErrorKind::UnsupportedConstruct);
                    },
                }
                binding.append(" in");
                self.store(id, binding);
                Ok(())
            },
        }
    }

    /// Leaves the compilation unit: emits the script as the unit's
    /// fragment.
    fn exit_compilation_unit(&mut self, id: usize, items: &Vec<usize>)
        ensures
            final(self)@ == old(self)@.with_attribute(id, script(old(self)@, items@)),
    {
        let mut lines = self.enum_line_strings();
        let mut i: usize = 0;
        assert(texts(lines@) =~= enum_lines(self@.enums) + fragments(
            self@.attributes,
            items@,
            0,
        ));
        while i < items.len()
            invariant
                i <= items.len(),
                *self == *old(self),
                texts(lines@) == enum_lines(self@.enums) + fragments(
                    self@.attributes,
                    items@,
                    i as nat,
                ),
            decreases items.len() - i,
        {
            let ghost before = texts(lines@);
            let ghost found = fragments(self@.attributes, items@, i as nat);
            match self.get(items[i]) {
                Some(text) => {
                    lines.push(text.clone());
                    assert(texts(lines@) =~= before.push(text@));
                    assert(before.push(text@) =~= enum_lines(self@.enums) + found.push(text@));
                },
                None => {},
            }
            assert(texts(lines@) =~= enum_lines(self@.enums) + fragments(
                self@.attributes,
                items@,
                (i + 1) as nat,
            ));
            i += 1;
        }
        let out = join_strings(&lines, "\n");
        self.store(id, out);
    }

    /// Leaves `node`: runs the rule of its kind. A rule that fails adds
    /// nothing to the registries or the fragments.
    pub fn exit_node(&mut self, node: &SyntaxNode) -> (r: Result<(), TranslateError>)
        requires
            node.rule is EnumDefinition && node.rule->EnumDefinition_tag is None ==> old(
                self,
            )@.anon_counter < usize::MAX,
        ensures
            match step(old(self)@, *node) {
                Ok(s) => r is Ok && final(self)@ == s,
                Err(kind) => r == Err::<(), TranslateError>(failure(kind, *node)) && final(self)@
                    == after_failure(old(self)@, *node),
            },
            old(self)@.well_formed() ==> final(self)@.well_formed(),
    {
        proof {
            if old(self)@.well_formed() && step(old(self)@, *node) is Ok {
                lemma_step_keeps_well_formed(old(self)@, *node);
            }
        }
        if self.ctx2pv.contains_key(&node.id) {
            return Err(
                TranslateError {
                    kind: ErrorKind::MalformedTree,
                    rule: node.rule.kind(),
                    node: node.id,
                },
            );
        }
        let outcome = match &node.rule {
            Rule::Identifier { text } => {
                self.store(node.id, text.clone());
                Ok(())
            },
            Rule::Literal => Ok(()),
            Rule::BinaryChain { operands, operators } => self.exit_binary_chain(
                node.id,
                operands,
                operators,
            ),
            Rule::CastExpression { cast_expression, unary_expression } => self.exit_alternative(
                node.id,
                *cast_expression,
                *unary_expression,
            ),
            Rule::UnaryExpression { postfix_expression, cast_expression } => self.exit_alternative(
                node.id,
                *postfix_expression,
                *cast_expression,
            ),
            Rule::AssignmentExpression {
                conditional,
                literal,
                left,
                operator,
                right,
            } => self.exit_assignment(node.id, *conditional, *literal, *left, *operator, *right),
            Rule::Declaration { name, initializer } => self.exit_declaration(
                node.id,
                name,
                *initializer,
            ),
            Rule::EnumDefinition { tag, enumerators } => self.exit_enum_definition(
                tag,
                enumerators,
            ),
            Rule::EnumDeclaration { tag } => self.exit_enum_declaration(tag),
            Rule::FunctionDeclaration { name } => self.exit_function_declaration(name),
            Rule::CompilationUnit { items } => {
                self.exit_compilation_unit(node.id, items);
                Ok(())
            },
        };
        match outcome {
            Ok(()) => Ok(()),
            Err(kind) => Err(TranslateError { kind, rule: node.rule.kind(), node: node.id }),
        }
    }
}

/// Translates one compilation unit, given as its nodes in the order in
/// which a depth-first walk leaves them, into its script. A rule that
/// fails is noted and the walk goes on, but for a malformed tree, which
/// ends it; a walk with a failure gives all its failures and no script.
pub fn translate(nodes: &Vec<SyntaxNode>) -> (r: Result<String, Vec<TranslateError>>)
    ensures
        match unit_script(nodes@) {
            Ok(text) => r is Ok && r->Ok_0@ == text,
            Err(errors) => r is Err && r->Err_0@ == errors,
        },
{
    let mut errors: Vec<TranslateError> = Vec::new();
    if nodes.len() == 0 {
        let e = TranslateError {
            kind: ErrorKind::MalformedTree,
            rule: RuleKind::CompilationUnit,
            node: 0,
        };
        errors.push(e);
        assert(errors@ =~= seq![e]);
        return Err(errors);
    }
    let mut listener = SubC2PVListener::new();
    let mut halted = false;
    let mut i: usize = 0;
    while i < nodes.len() && !halted
        invariant
            i <= nodes.len(),
            listener@.anon_counter <= i,
            halted ==> errors@.len() > 0,
            walk(nodes@, i as nat) == (Walk { state: listener@, errors: errors@, halted }),
        decreases nodes.len() - i,
    {
        match listener.exit_node(&nodes[i]) {
            Ok(()) => {},
            Err(e) => {
                halted = e.kind == ErrorKind::MalformedTree;
                errors.push(e);
            },
        }
        i += 1;
    }
    proof {
        lemma_halted_walk_stays(nodes@, i as nat, nodes.len() as nat);
    }
    if errors.len() > 0 {
        return Err(errors);
    }
    let last = &nodes[nodes.len() - 1];
    proof {
        let before = walk(nodes@, (nodes.len() - 1) as nat);
        assert(!before.halted);
        assert(step(before.state, *last) is Ok);
    }
    match &last.rule {
        Rule::CompilationUnit { .. } => match listener.get(last.id) {
            Some(text) => Ok(text.clone()),
            None => Err(errors),
        },
        _ => {
            let e = TranslateError {
                kind: ErrorKind::MalformedTree,
                rule: last.rule.kind(),
                node: last.id,
            };
            errors.push(e);
            assert(errors@ =~= seq![e]);
            Err(errors)
        },
    }
}

/// A walk that has ended early is the walk over any more nodes.
pub proof fn lemma_halted_walk_stays(nodes: Seq<SyntaxNode>, n: nat, m: nat)
    requires
        n <= m,
        n == m || walk(nodes, n).halted,
    ensures
        walk(nodes, m) == walk(nodes, n),
    decreases m,
{
    if n < m {
        lemma_halted_walk_stays(nodes, n, (m - 1) as nat);
    }
}

} // verus!
