//! What holds of the rules whatever the unit.

use vstd::prelude::*;
use crate::error::ErrorKind;
use crate::model::{
    after_failure, anon_enum_name, body_text, constants_line, entry_lines, enum_lines,
    enum_names_distinct, enum_registered, fragments, fresh_binder, lemma_step_keeps_well_formed,
    let_binding, render_enums, script, step, type_line, unit_script, walk, State,
};
use crate::text::{all_free_of, free_of, join, lemma_join_concat, lemma_split_join, split};
use crate::tree::{AssignmentOperator, Rule, SyntaxNode};

verus! {

/// Whether leaving `node` registers an enumeration type under `name` where
/// it registers one at all: the node defines or declares an enumeration
/// with that tag, or defines one without a tag and `name` is an unnamed
/// enumeration's name.
pub open spec fn names_enum(node: SyntaxNode, name: Seq<char>) -> bool {
    match node.rule {
        Rule::EnumDefinition { tag: Some(t), .. } => t@ == name,
        Rule::EnumDefinition { tag: None, .. } => exists|k: nat| name == #[trigger] anon_enum_name(k),
        Rule::EnumDeclaration { tag: Some(t) } => t@ == name,
        _ => false,
    }
}

/// Whether `node` defines or declares an enumeration with the tag `name`.
pub open spec fn registers_tag(node: SyntaxNode, name: Seq<char>) -> bool {
    match node.rule {
        Rule::EnumDefinition { tag: Some(t), .. } => t@ == name,
        Rule::EnumDeclaration { tag: Some(t) } => t@ == name,
        _ => false,
    }
}

/// Whether no name and no constant of `enums` holds a line break.
pub open spec fn single_line_names(enums: Seq<(Seq<char>, Seq<Seq<char>>)>) -> bool {
    forall|i: int|
        0 <= i < enums.len() ==> free_of((#[trigger] enums[i]).0, '\n') && all_free_of(
            enums[i].1,
            '\n',
        )
}

/// Whether `text` begins with `prefix`.
pub open spec fn has_prefix(text: Seq<char>, prefix: Seq<char>) -> bool {
    prefix.len() <= text.len() && text.take(prefix.len() as int) == prefix
}

/// How many of `lines` meet `wanted`.
pub open spec fn count(lines: Seq<Seq<char>>, wanted: spec_fn(Seq<char>) -> bool) -> nat
    decreases lines.len(),
{
    if lines.len() == 0 {
        0
    } else {
        count(lines.drop_last(), wanted) + if wanted(lines.last()) {
            1nat
        } else {
            0nat
        }
    }
}

/// The test for a line that begins with `prefix`.
pub open spec fn begins_with(prefix: Seq<char>) -> spec_fn(Seq<char>) -> bool {
    |l: Seq<char>| has_prefix(l, prefix)
}

/// The test for the line `line`.
pub open spec fn is_line(line: Seq<char>) -> spec_fn(Seq<char>) -> bool {
    |l: Seq<char>| l == line
}

/// How many of `lines` begin with `prefix`.
pub open spec fn count_with_prefix(lines: Seq<Seq<char>>, prefix: Seq<char>) -> nat {
    count(lines, begins_with(prefix))
}

/// How many of `lines` are `line`.
pub open spec fn occurrences(lines: Seq<Seq<char>>, line: Seq<char>) -> nat {
    count(lines, is_line(line))
}

/// How many of `enums` have constants.
pub open spec fn count_with_constants(enums: Seq<(Seq<char>, Seq<Seq<char>>)>) -> nat
    decreases enums.len(),
{
    if enums.len() == 0 {
        0
    } else {
        count_with_constants(enums.drop_last()) + if enums.last().1.len() > 0 {
            1nat
        } else {
            0nat
        }
    }
}

/// Counting over two sequences of lines adds up.
pub proof fn lemma_count_concat(
    a: Seq<Seq<char>>,
    b: Seq<Seq<char>>,
    wanted: spec_fn(Seq<char>) -> bool,
)
    ensures
        count(a + b, wanted) == count(a, wanted) + count(b, wanted),
    decreases b.len(),
{
    if b.len() == 0 {
        assert(a + b =~= a);
    } else {
        lemma_count_concat(a, b.drop_last(), wanted);
        assert((a + b).drop_last() =~= a + b.drop_last());
        assert((a + b).last() == b.last());
    }
}

/// Counting over the lines of one enumeration: its type line, and its
/// constants line if it has constants.
pub proof fn lemma_count_entry(
    name: Seq<char>,
    constants: Seq<Seq<char>>,
    wanted: spec_fn(Seq<char>) -> bool,
)
    ensures
        count(entry_lines(name, constants), wanted) == (if wanted(type_line(name)) {
            1nat
        } else {
            0nat
        }) + (if constants.len() > 0 && wanted(constants_line(name, constants)) {
            1nat
        } else {
            0nat
        }),
{
    let first = seq![type_line(name)];
    assert(first.drop_last() =~= Seq::<Seq<char>>::empty());
    assert(count(first.drop_last(), wanted) == 0);
    assert(count(first, wanted) == if wanted(type_line(name)) {
        1nat
    } else {
        0nat
    });
    if constants.len() > 0 {
        let both = entry_lines(name, constants);
        assert(both.drop_last() =~= first);
        assert(both.last() == constants_line(name, constants));
    }
}

/// Parts without `c`, joined by a separator without `c`, hold no `c`.
pub proof fn lemma_join_free(parts: Seq<Seq<char>>, sep: Seq<char>, c: char)
    requires
        all_free_of(parts, c),
        free_of(sep, c),
    ensures
        free_of(join(parts, sep), c),
    decreases parts.len(),
{
    if parts.len() > 1 {
        lemma_join_free(parts.drop_last(), sep, c);
        assert(free_of(parts.last(), c));
    } else if parts.len() == 1 {
        assert(free_of(parts[0], c));
    }
}

/// The lines that declare an enumeration whose name and constants hold no
/// line break hold none.
pub proof fn lemma_entry_lines_are_lines(name: Seq<char>, constants: Seq<Seq<char>>)
    requires
        free_of(name, '\n'),
        all_free_of(constants, '\n'),
    ensures
        all_free_of(entry_lines(name, constants), '\n'),
{
    reveal_strlit("type ");
    reveal_strlit(".");
    reveal_strlit("const ");
    reveal_strlit(",");
    reveal_strlit(": ");
    assert(free_of("type "@, '\n'));
    assert(free_of("."@, '\n'));
    assert(free_of(type_line(name), '\n'));
    if constants.len() > 0 {
        lemma_join_free(constants, ","@, '\n');
        assert(free_of("const "@, '\n'));
        assert(free_of(": "@, '\n'));
        assert(free_of(constants_line(name, constants), '\n'));
    }
}

/// The lines of the enumeration block hold no line break, where no name
/// and no constant holds one.
pub proof fn lemma_enum_lines_are_lines(enums: Seq<(Seq<char>, Seq<Seq<char>>)>)
    requires
        single_line_names(enums),
    ensures
        all_free_of(enum_lines(enums), '\n'),
        enums.len() > 0 ==> enum_lines(enums).len() > 0,
    decreases enums.len(),
{
    if enums.len() > 0 {
        let head = enums.drop_last();
        assert forall|i: int| 0 <= i < head.len() implies free_of((#[trigger] head[i]).0, '\n')
            && all_free_of(head[i].1, '\n') by {
            assert(head[i] == enums[i]);
        }
        lemma_enum_lines_are_lines(head);
        assert(enums.last() == enums[enums.len() - 1]);
        lemma_entry_lines_are_lines(enums.last().0, enums.last().1);
    }
}

/// The enumeration block, split at its line breaks, is the lines that
/// declare the registered types, where no name and no constant holds a
/// line break: nothing else stands in the block.
pub proof fn lemma_block_splits_into_lines(enums: Seq<(Seq<char>, Seq<Seq<char>>)>)
    requires
        enums.len() > 0,
        single_line_names(enums),
    ensures
        split(render_enums(enums), '\n') == enum_lines(enums),
{
    reveal_strlit("\n");
    assert("\n"@ =~= seq!['\n']);
    lemma_enum_lines_are_lines(enums);
    lemma_split_join(enum_lines(enums), '\n');
}

/// Among the lines of the block, as many begin with `type ` as types are
/// registered, and as many begin with `const ` as registered types have
/// constants.
pub proof fn lemma_line_counts(enums: Seq<(Seq<char>, Seq<Seq<char>>)>)
    ensures
        count_with_prefix(enum_lines(enums), "type "@) == enums.len(),
        count_with_prefix(enum_lines(enums), "const "@) == count_with_constants(enums),
    decreases enums.len(),
{
    if enums.len() > 0 {
        let head = enums.drop_last();
        let name = enums.last().0;
        let constants = enums.last().1;
        lemma_line_counts(head);
        reveal_strlit("type ");
        reveal_strlit("const ");
        let is_type = begins_with("type "@);
        let is_const = begins_with("const "@);
        assert(type_line(name).take("type "@.len() as int) =~= "type "@);
        assert(constants_line(name, constants).take("const "@.len() as int) =~= "const "@);
        assert(is_type(type_line(name)));
        assert(is_const(constants_line(name, constants)));
        assert(!is_const(type_line(name))) by {
            if has_prefix(type_line(name), "const "@) {
                assert(type_line(name).take("const "@.len() as int)[0] == 'c');
                assert(type_line(name)[0] == 't');
            }
        }
        assert(!is_type(constants_line(name, constants))) by {
            if has_prefix(constants_line(name, constants), "type "@) {
                assert(constants_line(name, constants).take("type "@.len() as int)[0] == 't');
                assert(constants_line(name, constants)[0] == 'c');
            }
        }
        lemma_count_concat(enum_lines(head), entry_lines(name, constants), is_type);
        lemma_count_concat(enum_lines(head), entry_lines(name, constants), is_const);
        lemma_count_entry(name, constants, is_type);
        lemma_count_entry(name, constants, is_const);
    }
}

/// Among the lines of the block, the type line of a registered name
/// stands once, and that of a name that is not registered nowhere, where
/// no two registered types share a name.
pub proof fn lemma_type_line_once(enums: Seq<(Seq<char>, Seq<Seq<char>>)>, name: Seq<char>)
    requires
        enum_names_distinct(enums),
    ensures
        occurrences(enum_lines(enums), type_line(name)) == if enum_registered(enums, name) {
            1nat
        } else {
            0nat
        },
    decreases enums.len(),
{
    if enums.len() > 0 {
        let head = enums.drop_last();
        let last = enums.last();
        assert forall|i: int, j: int| 0 <= i < j < head.len() implies (#[trigger] head[i]).0 != (
        #[trigger] head[j]).0 by {
            assert(head[i] == enums[i]);
            assert(head[j] == enums[j]);
        }
        lemma_type_line_once(head, name);
        let wanted = is_line(type_line(name));
        lemma_count_concat(enum_lines(head), entry_lines(last.0, last.1), wanted);
        lemma_count_entry(last.0, last.1, wanted);
        reveal_strlit("type ");
        reveal_strlit("const ");
        reveal_strlit(".");
        assert(constants_line(last.0, last.1) != type_line(name)) by {
            assert(constants_line(last.0, last.1)[0] == 'c');
            assert(type_line(name)[0] == 't');
        }
        if type_line(last.0) == type_line(name) {
            assert(last.0 =~= type_line(last.0).subrange(5, 5 + last.0.len() as int));
            assert(name =~= type_line(name).subrange(5, 5 + name.len() as int));
            assert(type_line(last.0).len() == 6 + last.0.len());
            assert(type_line(name).len() == 6 + name.len());
            assert(last.0 == name);
        }
        if last.0 == name {
            assert(enums[enums.len() - 1].0 == name);
            if enum_registered(head, name) {
                let k = choose|k: int| 0 <= k < head.len() && (#[trigger] head[k]).0 == name;
                assert(head[k] == enums[k]);
                assert(false);
            }
        } else {
            if enum_registered(enums, name) {
                let k = choose|k: int| 0 <= k < enums.len() && (#[trigger] enums[k]).0 == name;
                assert(head[k] == enums[k]);
            }
            if enum_registered(head, name) {
                let k = choose|k: int| 0 <= k < head.len() && (#[trigger] head[k]).0 == name;
                assert(enums[k] == head[k]);
            }
        }
    } else {
        assert(enum_lines(enums) =~= Seq::<Seq<char>>::empty());
    }
}

/// The lines of the first `k` registered types open the lines of all.
pub proof fn lemma_lines_of_first(enums: Seq<(Seq<char>, Seq<Seq<char>>)>, k: int)
    requires
        0 <= k <= enums.len(),
    ensures
        enum_lines(enums.take(k)).len() <= enum_lines(enums).len(),
        enum_lines(enums).take(enum_lines(enums.take(k)).len() as int) == enum_lines(
            enums.take(k),
        ),
    decreases enums.len(),
{
    if k == enums.len() {
        assert(enums.take(k) =~= enums);
        assert(enum_lines(enums).take(enum_lines(enums).len() as int) =~= enum_lines(enums));
    } else {
        let head = enums.drop_last();
        lemma_lines_of_first(head, k);
        assert(head.take(k) =~= enums.take(k));
        let first = enum_lines(enums.take(k));
        assert(enum_lines(enums).take(first.len() as int) =~= enum_lines(head).take(
            first.len() as int,
        ));
    }
}

/// Where the lines of a registered type stand in the block: after the
/// lines of the types registered before it comes its type line; its
/// constants line, if it has constants, comes directly after that, in the
/// order of the constants; if it has none, the next type's line or the
/// end of the block does.
pub proof fn lemma_constants_line_follows(enums: Seq<(Seq<char>, Seq<Seq<char>>)>, i: int)
    requires
        0 <= i < enums.len(),
    ensures
        ({
            let lines = enum_lines(enums);
            let at = enum_lines(enums.take(i)).len() as int;
            let name = enums[i].0;
            let constants = enums[i].1;
            &&& at < lines.len()
            &&& lines[at] == type_line(name)
            &&& constants.len() > 0 ==> at + 1 < lines.len() && lines[at + 1] == constants_line(
                name,
                constants,
            )
            &&& constants.len() == 0 && i + 1 < enums.len() ==> at + 1 < lines.len() && lines[at
                + 1] == type_line(enums[i + 1].0)
            &&& constants.len() == 0 && i + 1 == enums.len() ==> at + 1 == lines.len()
        }),
{
    let lines = enum_lines(enums);
    let upto = enums.take(i + 1);
    let own = enum_lines(upto);
    let before = enum_lines(enums.take(i));
    assert(upto.drop_last() =~= enums.take(i));
    assert(upto.last() == enums[i]);
    assert(own == before + entry_lines(enums[i].0, enums[i].1));
    lemma_lines_of_first(enums, i + 1);
    assert(lines.take(own.len() as int) == own);
    assert(own[before.len() as int] == type_line(enums[i].0));
    assert(lines[before.len() as int] == lines.take(own.len() as int)[before.len() as int]);
    if enums[i].1.len() > 0 {
        assert(own[before.len() as int + 1] == constants_line(enums[i].0, enums[i].1));
        assert(lines[before.len() as int + 1] == lines.take(own.len() as int)[before.len() as int + 1]);
    } else if i + 1 < enums.len() {
        let further = enums.take(i + 2);
        let more = enum_lines(further);
        assert(further.drop_last() =~= upto);
        assert(further.last() == enums[i + 1]);
        assert(more == own + entry_lines(enums[i + 1].0, enums[i + 1].1));
        lemma_lines_of_first(enums, i + 2);
        assert(more[own.len() as int] == type_line(enums[i + 1].0));
        assert(lines[own.len() as int] == lines.take(more.len() as int)[own.len() as int]);
    } else {
        assert(upto =~= enums);
    }
}

/// The script of a unit is the enumeration block followed by the body,
/// with a line break between them only where both are there.
pub proof fn lemma_script_is_block_then_body(s: State, items: Seq<usize>)
    ensures
        script(s, items) == if enum_lines(s.enums).len() == 0 {
            body_text(s.attributes, items)
        } else if fragments(s.attributes, items, items.len()).len() == 0 {
            render_enums(s.enums)
        } else {
            render_enums(s.enums) + "\n"@ + body_text(s.attributes, items)
        },
{
    lemma_join_concat(enum_lines(s.enums), fragments(s.attributes, items, items.len()), "\n"@);
}

/// Whatever the unit, its walk registers no enumeration name and no
/// function name twice: the block declares each name once.
pub proof fn lemma_walk_well_formed(nodes: Seq<SyntaxNode>, n: nat)
    ensures
        walk(nodes, n).state.well_formed(),
    decreases n,
{
    if n > 0 {
        lemma_walk_well_formed(nodes, (n - 1) as nat);
        let before = walk(nodes, (n - 1) as nat);
        if !before.halted && step(before.state, nodes[n - 1]) is Ok {
            lemma_step_keeps_well_formed(before.state, nodes[n - 1]);
        }
    }
}

/// The script of a unit is what its compilation unit emits from the state
/// that the nodes before it have left: the block of the enumerations
/// registered by then, and the fragments of the unit's items.
pub proof fn lemma_script_is_emitted_last(nodes: Seq<SyntaxNode>)
    requires
        unit_script(nodes) is Ok,
    ensures
        nodes.len() > 0,
        nodes.last().rule is CompilationUnit,
        walk(nodes, (nodes.len() - 1) as nat).errors.len() == 0,
        walk(nodes, (nodes.len() - 1) as nat).state.well_formed(),
        unit_script(nodes)->Ok_0 == script(
            walk(nodes, (nodes.len() - 1) as nat).state,
            nodes.last().rule->CompilationUnit_items@,
        ),
{
    let before = walk(nodes, (nodes.len() - 1) as nat);
    lemma_walk_well_formed(nodes, (nodes.len() - 1) as nat);
    assert(walk(nodes, nodes.len()).errors.len() == 0);
    if before.halted {
        lemma_halted_walk_has_errors(nodes, (nodes.len() - 1) as nat);
    }
}

/// A walk ends early only with a failure.
pub proof fn lemma_halted_walk_has_errors(nodes: Seq<SyntaxNode>, n: nat)
    requires
        walk(nodes, n).halted,
    ensures
        walk(nodes, n).errors.len() > 0,
    decreases n,
{
    if n > 0 {
        let before = walk(nodes, (n - 1) as nat);
        if before.halted {
            lemma_halted_walk_has_errors(nodes, (n - 1) as nat);
        }
    }
}

/// A definition or declaration that succeeds registers its tag.
pub proof fn lemma_registration_registers(s: State, node: SyntaxNode, name: Seq<char>)
    requires
        registers_tag(node, name),
        step(s, node) is Ok,
    ensures
        enum_registered(step(s, node)->Ok_0.enums, name),
{
    let t = step(s, node)->Ok_0;
    assert(t.enums[t.enums.len() - 1].0 == name);
}

/// A registered name stays registered through every rule that succeeds.
pub proof fn lemma_registered_stays(s: State, node: SyntaxNode, name: Seq<char>)
    requires
        enum_registered(s.enums, name),
        step(s, node) is Ok,
    ensures
        enum_registered(step(s, node)->Ok_0.enums, name),
{
    let t = step(s, node)->Ok_0;
    let i = choose|i: int| 0 <= i < s.enums.len() && (#[trigger] s.enums[i]).0 == name;
    assert(t.enums[i].0 == name);
}

/// Defining or declaring an enumeration under a name that is registered
/// is a duplicate declaration, whichever of the two came first.
pub proof fn lemma_registered_name_is_rejected(s: State, node: SyntaxNode, name: Seq<char>)
    requires
        enum_registered(s.enums, name),
        registers_tag(node, name),
        !s.attributes.contains_key(node.id),
    ensures
        step(s, node) == Err::<State, ErrorKind>(ErrorKind::DuplicateDeclaration),
{
}

/// Two registrations of one name, one right after the other: the second
/// is a duplicate declaration and the registry keeps the first.
pub proof fn lemma_same_name_twice(s: State, first: SyntaxNode, second: SyntaxNode, name: Seq<char>)
    requires
        registers_tag(first, name),
        registers_tag(second, name),
        step(s, first) is Ok,
        !s.attributes.contains_key(second.id),
    ensures
        step(step(s, first)->Ok_0, second) == Err::<State, ErrorKind>(
            ErrorKind::DuplicateDeclaration,
        ),
        after_failure(step(s, first)->Ok_0, second).enums == step(s, first)->Ok_0.enums,
{
    lemma_registration_registers(s, first, name);
    lemma_registered_name_is_rejected(step(s, first)->Ok_0, second, name);
}

/// A chain level with a single operand hands the operand's fragment on
/// unchanged.
pub proof fn lemma_single_operand_propagates(s: State, node: SyntaxNode)
    requires
        !s.attributes.contains_key(node.id),
        node.rule is BinaryChain,
        node.rule->BinaryChain_operands@.len() == 1,
        node.rule->BinaryChain_operators@.len() == 0,
        s.attributes.contains_key(node.rule->BinaryChain_operands@[0]),
    ensures
        step(s, node) == Ok::<State, ErrorKind>(
            s.with_attribute(node.id, s.attributes[node.rule->BinaryChain_operands@[0]]),
        ),
{
}

/// Whether `node` is the full assignment `left operator right`.
pub open spec fn is_assignment(node: SyntaxNode, left: usize, operator: AssignmentOperator) -> bool {
    match node.rule {
        Rule::AssignmentExpression {
            conditional: None,
            literal: false,
            left: Some(l),
            operator: Some(op),
            right: Some(_),
        } => l == left && op == operator,
        _ => false,
    }
}

/// A plain assignment to a resolved name yields a fresh-name binder for
/// the name and marks it declared, and changes nothing else.
pub proof fn lemma_plain_assignment(s: State, node: SyntaxNode, left: usize)
    requires
        !s.attributes.contains_key(node.id),
        is_assignment(node, left, AssignmentOperator::Plain),
        s.attributes.contains_key(left),
    ensures
        step(s, node) == Ok::<State, ErrorKind>(
            State {
                attributes: s.attributes.insert(node.id, fresh_binder(s.attributes[left])),
                terms: s.terms.insert(s.attributes[left]),
                ..s
            },
        ),
        step(s, node)->Ok_0.terms.contains(s.attributes[left]),
{
}

/// A compound assignment succeeds exactly on a declared name, and then
/// leaves the state as it is: no new binder.
pub proof fn lemma_compound_assignment(s: State, node: SyntaxNode, left: usize)
    requires
        !s.attributes.contains_key(node.id),
        is_assignment(node, left, AssignmentOperator::Compound),
        s.attributes.contains_key(left),
    ensures
        s.terms.contains(s.attributes[left]) ==> step(s, node) == Ok::<State, ErrorKind>(s),
        !s.terms.contains(s.attributes[left]) ==> step(s, node) == Err::<State, ErrorKind>(
            ErrorKind::UnsupportedConstruct,
        ),
{
}

/// A name stays declared through every rule that succeeds.
pub proof fn lemma_declared_stays(s: State, node: SyntaxNode, name: Seq<char>)
    requires
        s.terms.contains(name),
        step(s, node) is Ok,
    ensures
        step(s, node)->Ok_0.terms.contains(name),
{
}

/// A fragment, once stored, stays as it is through every rule that
/// succeeds: no rule writes the fragment of a node twice.
pub proof fn lemma_attribute_stays(s: State, node: SyntaxNode, id: usize)
    requires
        s.attributes.contains_key(id),
        step(s, node) is Ok,
    ensures
        step(s, node)->Ok_0.attributes.contains_key(id),
        step(s, node)->Ok_0.attributes[id] == s.attributes[id],
{
}

/// After a plain assignment to a name, a compound assignment to the same
/// name succeeds and adds no binder.
pub proof fn lemma_plain_then_compound(
    s: State,
    plain: SyntaxNode,
    compound: SyntaxNode,
    left: usize,
    again: usize,
)
    requires
        !s.attributes.contains_key(plain.id),
        is_assignment(plain, left, AssignmentOperator::Plain),
        is_assignment(compound, again, AssignmentOperator::Compound),
        s.attributes.contains_key(left),
        s.attributes.contains_key(again),
        s.attributes[again] == s.attributes[left],
        plain.id != compound.id,
        again != plain.id,
        !s.attributes.contains_key(compound.id),
    ensures
        step(s, plain) is Ok,
        step(step(s, plain)->Ok_0, compound) == Ok::<State, ErrorKind>(step(s, plain)->Ok_0),
{
    lemma_plain_assignment(s, plain, left);
}

/// Whether `node` is a plain assignment whose left side has resolved to
/// `name` in the state `s`.
pub open spec fn assigns_plainly(s: State, node: SyntaxNode, name: Seq<char>) -> bool {
    match node.rule {
        Rule::AssignmentExpression {
            conditional: None,
            literal: false,
            left: Some(l),
            operator: Some(AssignmentOperator::Plain),
            right: Some(_),
        } => s.attributes.contains_key(l) && s.attributes[l] == name,
        _ => false,
    }
}

/// A name is declared only by a plain assignment to it: a name that no
/// node of the walk has assigned plainly is not declared, and a compound
/// assignment to it fails.
pub proof fn lemma_declared_names_were_assigned(nodes: Seq<SyntaxNode>, n: nat, name: Seq<char>)
    requires
        walk(nodes, n).state.terms.contains(name),
    ensures
        exists|i: int|
            0 <= i < n && #[trigger] assigns_plainly(walk(nodes, i as nat).state, nodes[i], name),
    decreases n,
{
    if n > 0 {
        let s = walk(nodes, (n - 1) as nat).state;
        if s.terms.contains(name) {
            lemma_declared_names_were_assigned(nodes, (n - 1) as nat, name);
        } else {
            assert(assigns_plainly(walk(nodes, (n - 1) as nat).state, nodes[n - 1], name));
        }
    }
}

/// A declaration without an initializer yields a fresh-name binder for the
/// declared name; one initialized by a call that has resolved to a term
/// yields a let-binding of the name to that term.
pub proof fn lemma_declaration(s: State, node: SyntaxNode)
    requires
        !s.attributes.contains_key(node.id),
        node.rule is Declaration,
    ensures
        node.rule->Declaration_initializer is None ==> step(s, node) == Ok::<State, ErrorKind>(
            s.with_attribute(node.id, fresh_binder(node.rule->Declaration_name@)),
        ),
        node.rule->Declaration_initializer is Some && s.attributes.contains_key(
            node.rule->Declaration_initializer->0,
        ) ==> step(s, node) == Ok::<State, ErrorKind>(
            s.with_attribute(
                node.id,
                let_binding(
                    node.rule->Declaration_name@,
                    s.attributes[node.rule->Declaration_initializer->0],
                ),
            ),
        ),
        node.rule->Declaration_initializer is Some && !s.attributes.contains_key(
            node.rule->Declaration_initializer->0,
        ) ==> step(s, node) == Err::<State, ErrorKind>(ErrorKind::UnsupportedConstruct),
{
}

/// Every enumeration name that the walk of a unit has registered comes
/// from a node of that unit: a walk starts with an empty registry, and
/// nothing of another unit reaches it.
pub proof fn lemma_names_come_from_nodes(nodes: Seq<SyntaxNode>, n: nat, name: Seq<char>)
    requires
        enum_registered(walk(nodes, n).state.enums, name),
    ensures
        exists|i: int| 0 <= i < n && names_enum(#[trigger] nodes[i], name),
    decreases n,
{
    if n > 0 {
        let s = walk(nodes, (n - 1) as nat).state;
        let t = walk(nodes, n).state;
        let k = choose|k: int| 0 <= k < t.enums.len() && (#[trigger] t.enums[k]).0 == name;
        if k < s.enums.len() && t.enums[k] == s.enums[k] {
            assert(enum_registered(s.enums, name));
            lemma_names_come_from_nodes(nodes, (n - 1) as nat, name);
        } else {
            assert(t.enums != s.enums);
            assert(t.enums.last().0 == name);
            assert(names_enum(nodes[n - 1], name));
        }
    }
}

} // verus!
