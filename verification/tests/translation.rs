use subc2pv::text::{contains_name, decimal_string, join_strings};
use subc2pv::{
    hash_code, translate, AssignmentOperator, ErrorKind, Rule, RuleKind, SubC2PVListener,
    SyntaxNode, TranslateError,
};

fn node(id: usize, rule: Rule) -> SyntaxNode {
    SyntaxNode { id, rule }
}

fn ident(id: usize, text: &str) -> SyntaxNode {
    node(id, Rule::Identifier { text: text.to_string() })
}

fn names(v: &[&str]) -> Vec<String> {
    v.iter().map(|s| s.to_string()).collect()
}

fn enum_def(id: usize, tag: Option<&str>, enumerators: &[&str]) -> SyntaxNode {
    node(id, Rule::EnumDefinition { tag: tag.map(|t| t.to_string()), enumerators: names(enumerators) })
}

fn enum_decl(id: usize, tag: &str) -> SyntaxNode {
    node(id, Rule::EnumDeclaration { tag: Some(tag.to_string()) })
}

fn assignment(id: usize, left: usize, operator: AssignmentOperator, right: usize) -> SyntaxNode {
    node(
        id,
        Rule::AssignmentExpression {
            conditional: None,
            literal: false,
            left: Some(left),
            operator: Some(operator),
            right: Some(right),
        },
    )
}

fn unit(id: usize, items: &[usize]) -> SyntaxNode {
    node(id, Rule::CompilationUnit { items: items.to_vec() })
}

fn failure(kind: ErrorKind, rule: RuleKind, node: usize) -> TranslateError {
    TranslateError { kind, rule, node }
}

#[test]
fn hash_code_is_the_node_id() {
    assert_eq!(hash_code(&ident(17, "x")), 17);
    assert_eq!(hash_code(&node(0, Rule::Literal)), 0);
}

#[test]
fn decimal_numerals() {
    assert_eq!(decimal_string(0), "0");
    assert_eq!(decimal_string(7), "7");
    assert_eq!(decimal_string(10), "10");
    assert_eq!(decimal_string(12345), "12345");
    assert_eq!(decimal_string(9006), "9006");
}

#[test]
fn join_puts_separator_between_parts() {
    assert_eq!(join_strings(&names(&[]), ","), "");
    assert_eq!(join_strings(&names(&["a"]), ","), "a");
    assert_eq!(join_strings(&names(&["a", "b", "c"]), ", "), "a, b, c");
}

#[test]
fn contains_name_finds_exact_text() {
    let v = names(&["alpha", "beta"]);
    assert!(contains_name(&v, &"beta".to_string()));
    assert!(!contains_name(&v, &"bet".to_string()));
    assert!(!contains_name(&names(&[]), &"x".to_string()));
}

#[test]
fn new_translator_is_empty() {
    let t = SubC2PVListener::new();
    assert!(t.ctx2pv.is_empty());
    assert_eq!(t.translate_enumerations(), "");
    assert!(t.get(0).is_none());
}

#[test]
fn anonymous_ids_count_up_from_zero() {
    let mut t = SubC2PVListener::new();
    assert_eq!(t.next_anon_enum_id(), 0);
    assert_eq!(t.next_anon_enum_id(), 1);
    assert_eq!(t.next_anon_enum_id(), 2);
}

#[test]
fn enum_with_constants_gets_type_and_constants_line() {
    let mut t = SubC2PVListener::new();
    assert_eq!(t.exit_enum_definition(&Some("color".to_string()), &names(&["red", "green"])), Ok(()));
    assert_eq!(t.translate_enumerations(), "type color.\nconst red,green: color.");
}

#[test]
fn enum_without_constants_gets_type_line_only() {
    let mut t = SubC2PVListener::new();
    assert_eq!(t.exit_enum_declaration(&Some("flag".to_string())), Ok(()));
    assert_eq!(t.translate_enumerations(), "type flag.");
    let mut u = SubC2PVListener::new();
    assert_eq!(u.exit_enum_definition(&Some("empty".to_string()), &names(&[])), Ok(()));
    assert_eq!(u.translate_enumerations(), "type empty.");
}

#[test]
fn enums_are_rendered_in_registration_order() {
    let nodes = vec![
        enum_def(0, Some("zeta"), &["z1"]),
        enum_decl(1, "alpha"),
        enum_def(2, Some("mid"), &["m1", "m2", "m3"]),
        unit(3, &[0, 1, 2]),
    ];
    let expected = "type zeta.\nconst z1: zeta.\ntype alpha.\ntype mid.\nconst m1,m2,m3: mid.";
    assert_eq!(translate(&nodes), Ok(expected.to_string()));
    assert_eq!(translate(&nodes), Ok(expected.to_string()));
}

#[test]
fn anonymous_enums_are_numbered() {
    let nodes = vec![
        enum_def(0, None, &["a"]),
        enum_def(1, Some("named"), &[]),
        enum_def(2, None, &["b", "c"]),
        unit(3, &[]),
    ];
    let expected =
        "type anon_enum0.\nconst a: anon_enum0.\ntype named.\ntype anon_enum1.\nconst b,c: anon_enum1.";
    assert_eq!(translate(&nodes), Ok(expected.to_string()));
}

#[test]
fn anonymous_name_can_collide_with_a_tag() {
    let nodes = vec![enum_decl(0, "anon_enum0"), enum_def(1, None, &["a"]), unit(2, &[])];
    assert_eq!(translate(&nodes), Err(vec![failure(ErrorKind::DuplicateDeclaration, RuleKind::EnumDefinition, 1)]));
}

#[test]
fn failed_anonymous_definition_keeps_its_number() {
    let mut t = SubC2PVListener::new();
    assert_eq!(t.exit_enum_declaration(&Some("anon_enum0".to_string())), Ok(()));
    assert_eq!(t.exit_enum_definition(&None, &names(&["a"])), Err(ErrorKind::DuplicateDeclaration));
    assert_eq!(t.exit_enum_definition(&None, &names(&["b"])), Ok(()));
    assert_eq!(t.translate_enumerations(), "type anon_enum0.\ntype anon_enum1.\nconst b: anon_enum1.");
    assert_eq!(t.next_anon_enum_id(), 2);
}

#[test]
fn failed_named_definition_takes_no_number() {
    let mut t = SubC2PVListener::new();
    assert_eq!(t.exit_enum_declaration(&Some("e".to_string())), Ok(()));
    assert_eq!(
        t.exit_enum_definition(&Some("e".to_string()), &names(&["a"])),
        Err(ErrorKind::DuplicateDeclaration)
    );
    assert_eq!(t.next_anon_enum_id(), 0);
}

#[test]
fn unit_without_body_emits_the_block_alone() {
    let nodes = vec![enum_def(0, Some("state"), &[]), unit(1, &[0])];
    assert_eq!(translate(&nodes), Ok("type state.".to_string()));
    let mut t = SubC2PVListener::new();
    t.exit_node(&enum_def(0, Some("state"), &["idle"])).unwrap();
    let block = t.translate_enumerations();
    t.exit_node(&unit(1, &[])).unwrap();
    assert_eq!(t.get(1), Some(&block));
    assert_eq!(block, "type state.\nconst idle: state.");
}

#[test]
fn definition_then_declaration_is_duplicate() {
    let nodes = vec![enum_def(0, Some("e"), &["a"]), enum_decl(1, "e"), unit(2, &[])];
    assert_eq!(translate(&nodes), Err(vec![failure(ErrorKind::DuplicateDeclaration, RuleKind::EnumDeclaration, 1)]));
}

#[test]
fn declaration_then_definition_is_duplicate() {
    let nodes = vec![enum_decl(0, "e"), enum_def(1, Some("e"), &["a"]), unit(2, &[])];
    assert_eq!(translate(&nodes), Err(vec![failure(ErrorKind::DuplicateDeclaration, RuleKind::EnumDefinition, 1)]));
}

#[test]
fn duplicate_keeps_the_first_registration() {
    let mut t = SubC2PVListener::new();
    assert_eq!(t.exit_enum_definition(&Some("e".to_string()), &names(&["a", "b"])), Ok(()));
    assert_eq!(t.exit_enum_declaration(&Some("e".to_string())), Err(ErrorKind::DuplicateDeclaration));
    assert_eq!(
        t.exit_enum_definition(&Some("e".to_string()), &names(&["c"])),
        Err(ErrorKind::DuplicateDeclaration)
    );
    assert_eq!(t.translate_enumerations(), "type e.\nconst a,b: e.");
}

#[test]
fn declaration_without_tag_is_malformed() {
    let nodes = vec![node(0, Rule::EnumDeclaration { tag: None }), unit(1, &[])];
    assert_eq!(translate(&nodes), Err(vec![failure(ErrorKind::MalformedTree, RuleKind::EnumDeclaration, 0)]));
}

#[test]
fn function_redeclaration_is_duplicate() {
    let nodes = vec![
        node(0, Rule::FunctionDeclaration { name: "f".to_string() }),
        node(1, Rule::FunctionDeclaration { name: "g".to_string() }),
        node(2, Rule::FunctionDeclaration { name: "f".to_string() }),
        unit(3, &[0, 1, 2]),
    ];
    assert_eq!(translate(&nodes), Err(vec![failure(ErrorKind::DuplicateDeclaration, RuleKind::FunctionDeclaration, 2)]));
    let ok = vec![
        node(0, Rule::FunctionDeclaration { name: "f".to_string() }),
        node(1, Rule::FunctionDeclaration { name: "g".to_string() }),
        unit(2, &[0, 1]),
    ];
    assert_eq!(translate(&ok), Ok(String::new()));
}

#[test]
fn single_operand_propagates_unchanged() {
    let mut t = SubC2PVListener::new();
    assert_eq!(t.exit_node(&ident(0, "counter")), Ok(()));
    let level = node(1, Rule::BinaryChain { operands: vec![0], operators: vec![] });
    assert_eq!(t.exit_node(&level), Ok(()));
    assert_eq!(t.get(1), Some(&"counter".to_string()));
    let above = node(2, Rule::BinaryChain { operands: vec![1], operators: vec![] });
    assert_eq!(t.exit_node(&above), Ok(()));
    assert_eq!(t.get(2), Some(&"counter".to_string()));
}

#[test]
fn operator_chain_folds_from_the_left() {
    let mut t = SubC2PVListener::new();
    t.exit_node(&ident(0, "a")).unwrap();
    t.exit_node(&ident(1, "b")).unwrap();
    t.exit_node(&ident(2, "c")).unwrap();
    let chain = node(3, Rule::BinaryChain { operands: vec![0, 1, 2], operators: names(&["+", "-"]) });
    assert_eq!(t.exit_node(&chain), Ok(()));
    assert_eq!(t.get(3), Some(&"-(+(a,b),c)".to_string()));
}

#[test]
fn chain_with_missing_operand_fragment_is_unsupported() {
    let mut t = SubC2PVListener::new();
    t.exit_node(&ident(0, "a")).unwrap();
    t.exit_node(&node(1, Rule::Literal)).unwrap();
    let single = node(2, Rule::BinaryChain { operands: vec![1], operators: vec![] });
    assert_eq!(t.exit_node(&single), Err(failure(ErrorKind::UnsupportedConstruct, RuleKind::BinaryChain, 2)));
    let chain = node(3, Rule::BinaryChain { operands: vec![0, 1], operators: names(&["*"]) });
    assert_eq!(t.exit_node(&chain), Err(failure(ErrorKind::UnsupportedConstruct, RuleKind::BinaryChain, 3)));
    assert!(t.get(2).is_none());
    assert!(t.get(3).is_none());
}

#[test]
fn chain_with_wrong_operator_count_is_malformed() {
    let mut t = SubC2PVListener::new();
    t.exit_node(&ident(0, "a")).unwrap();
    t.exit_node(&ident(1, "b")).unwrap();
    let none = node(2, Rule::BinaryChain { operands: vec![], operators: vec![] });
    assert_eq!(t.exit_node(&none), Err(failure(ErrorKind::MalformedTree, RuleKind::BinaryChain, 2)));
    let short = node(3, Rule::BinaryChain { operands: vec![0, 1], operators: vec![] });
    assert_eq!(t.exit_node(&short), Err(failure(ErrorKind::MalformedTree, RuleKind::BinaryChain, 3)));
    let long = node(4, Rule::BinaryChain { operands: vec![0], operators: names(&["+"]) });
    assert_eq!(t.exit_node(&long), Err(failure(ErrorKind::MalformedTree, RuleKind::BinaryChain, 4)));
}

#[test]
fn cast_and_unary_take_the_recognized_alternative() {
    let mut t = SubC2PVListener::new();
    t.exit_node(&ident(0, "x")).unwrap();
    let unary = node(1, Rule::UnaryExpression { postfix_expression: Some(0), cast_expression: None });
    assert_eq!(t.exit_node(&unary), Ok(()));
    assert_eq!(t.get(1), Some(&"x".to_string()));
    let cast = node(2, Rule::CastExpression { cast_expression: None, unary_expression: Some(1) });
    assert_eq!(t.exit_node(&cast), Ok(()));
    assert_eq!(t.get(2), Some(&"x".to_string()));
    let outer = node(3, Rule::CastExpression { cast_expression: Some(2), unary_expression: None });
    assert_eq!(t.exit_node(&outer), Ok(()));
    assert_eq!(t.get(3), Some(&"x".to_string()));
}

#[test]
fn cast_without_recognized_alternative_is_unsupported() {
    let mut t = SubC2PVListener::new();
    let cast = node(0, Rule::CastExpression { cast_expression: None, unary_expression: None });
    assert_eq!(t.exit_node(&cast), Err(failure(ErrorKind::UnsupportedConstruct, RuleKind::CastExpression, 0)));
    let unary = node(1, Rule::UnaryExpression { postfix_expression: None, cast_expression: None });
    assert_eq!(t.exit_node(&unary), Err(failure(ErrorKind::UnsupportedConstruct, RuleKind::UnaryExpression, 1)));
    let both = node(4, Rule::CastExpression { cast_expression: Some(7), unary_expression: Some(8) });
    assert_eq!(t.exit_node(&both), Err(failure(ErrorKind::MalformedTree, RuleKind::CastExpression, 4)));
    let dangling = node(2, Rule::UnaryExpression { postfix_expression: Some(9), cast_expression: None });
    assert_eq!(t.exit_node(&dangling), Err(failure(ErrorKind::UnsupportedConstruct, RuleKind::UnaryExpression, 2)));
}

#[test]
fn conditional_alone_is_handed_on() {
    let mut t = SubC2PVListener::new();
    t.exit_node(&ident(0, "y")).unwrap();
    let pure = node(
        1,
        Rule::AssignmentExpression { conditional: Some(0), literal: false, left: None, operator: None, right: None },
    );
    assert_eq!(t.exit_node(&pure), Ok(()));
    assert_eq!(t.get(1), Some(&"y".to_string()));
    let absent = node(
        2,
        Rule::AssignmentExpression { conditional: Some(7), literal: false, left: None, operator: None, right: None },
    );
    assert_eq!(t.exit_node(&absent), Ok(()));
    assert!(t.get(2).is_none());
}

#[test]
fn bare_literal_has_no_fragment() {
    let mut t = SubC2PVListener::new();
    let lit = node(
        0,
        Rule::AssignmentExpression { conditional: None, literal: true, left: None, operator: None, right: None },
    );
    assert_eq!(t.exit_node(&lit), Ok(()));
    assert!(t.get(0).is_none());
    assert!(t.ctx2pv.is_empty());
}

#[test]
fn plain_assignment_yields_binder_and_declares() {
    let mut t = SubC2PVListener::new();
    t.exit_node(&ident(0, "x")).unwrap();
    t.exit_node(&node(1, Rule::Literal)).unwrap();
    assert_eq!(t.exit_node(&assignment(2, 0, AssignmentOperator::Plain, 1)), Ok(()));
    assert_eq!(t.get(2), Some(&"new x: bitstring;".to_string()));
    t.exit_node(&ident(3, "x")).unwrap();
    t.exit_node(&node(4, Rule::Literal)).unwrap();
    assert_eq!(t.exit_node(&assignment(5, 3, AssignmentOperator::Compound, 4)), Ok(()));
    assert!(t.get(5).is_none());
    assert_eq!(t.ctx2pv.len(), 3);
}

#[test]
fn every_plain_assignment_yields_a_binder() {
    let mut t = SubC2PVListener::new();
    t.exit_node(&ident(0, "x")).unwrap();
    assert_eq!(t.exit_node(&assignment(1, 0, AssignmentOperator::Plain, 9)), Ok(()));
    t.exit_node(&ident(2, "x")).unwrap();
    assert_eq!(t.exit_node(&assignment(3, 2, AssignmentOperator::Plain, 9)), Ok(()));
    assert_eq!(t.get(1), Some(&"new x: bitstring;".to_string()));
    assert_eq!(t.get(3), Some(&"new x: bitstring;".to_string()));
}

#[test]
fn compound_assignment_to_undeclared_name_is_unsupported() {
    let mut t = SubC2PVListener::new();
    t.exit_node(&ident(0, "x")).unwrap();
    t.exit_node(&ident(1, "y")).unwrap();
    assert_eq!(t.exit_node(&assignment(2, 0, AssignmentOperator::Plain, 9)), Ok(()));
    assert_eq!(
        t.exit_node(&assignment(3, 1, AssignmentOperator::Compound, 9)),
        Err(failure(ErrorKind::UnsupportedConstruct, RuleKind::AssignmentExpression, 3))
    );
}

#[test]
fn assignment_to_unresolved_left_side_is_unsupported() {
    let mut t = SubC2PVListener::new();
    assert_eq!(
        t.exit_node(&assignment(1, 0, AssignmentOperator::Plain, 9)),
        Err(failure(ErrorKind::UnsupportedConstruct, RuleKind::AssignmentExpression, 1))
    );
    assert_eq!(
        t.exit_node(&assignment(2, 0, AssignmentOperator::Compound, 9)),
        Err(failure(ErrorKind::UnsupportedConstruct, RuleKind::AssignmentExpression, 2))
    );
}

#[test]
fn other_assignment_shapes_are_malformed() {
    let mut t = SubC2PVListener::new();
    t.exit_node(&ident(0, "x")).unwrap();
    let shapes = vec![
        Rule::AssignmentExpression { conditional: None, literal: false, left: None, operator: None, right: None },
        Rule::AssignmentExpression { conditional: Some(0), literal: true, left: None, operator: None, right: None },
        Rule::AssignmentExpression {
            conditional: None,
            literal: false,
            left: Some(0),
            operator: None,
            right: Some(0),
        },
        Rule::AssignmentExpression {
            conditional: Some(0),
            literal: false,
            left: Some(0),
            operator: Some(AssignmentOperator::Plain),
            right: Some(0),
        },
    ];
    let mut id = 10;
    for rule in shapes {
        assert_eq!(t.exit_node(&node(id, rule)), Err(failure(ErrorKind::MalformedTree, RuleKind::AssignmentExpression, id)));
        id += 1;
    }
}

#[test]
fn declaration_without_initializer_yields_binder() {
    let mut t = SubC2PVListener::new();
    let decl = node(0, Rule::Declaration { name: "x".to_string(), initializer: None });
    assert_eq!(t.exit_node(&decl), Ok(()));
    assert_eq!(t.get(0), Some(&"new x: bitstring;".to_string()));
}

#[test]
fn declaration_with_resolved_call_yields_let_binding() {
    let mut t = SubC2PVListener::new();
    assert_eq!(t.set(4, "t".to_string()), Ok(()));
    let decl = node(5, Rule::Declaration { name: "x".to_string(), initializer: Some(4) });
    assert_eq!(t.exit_node(&decl), Ok(()));
    assert_eq!(t.get(5), Some(&"let x = t in".to_string()));
}

#[test]
fn declaration_with_unresolved_call_is_unsupported() {
    let mut t = SubC2PVListener::new();
    let decl = node(5, Rule::Declaration { name: "x".to_string(), initializer: Some(4) });
    assert_eq!(t.exit_node(&decl), Err(failure(ErrorKind::UnsupportedConstruct, RuleKind::Declaration, 5)));
    assert!(t.get(5).is_none());
}

#[test]
fn node_left_twice_is_malformed() {
    let mut t = SubC2PVListener::new();
    assert_eq!(t.exit_node(&ident(0, "x")), Ok(()));
    assert_eq!(t.exit_node(&ident(0, "y")), Err(failure(ErrorKind::MalformedTree, RuleKind::Identifier, 0)));
    assert_eq!(t.get(0), Some(&"x".to_string()));
}

#[test]
fn unit_emits_enums_then_body() {
    let nodes = vec![
        enum_def(0, Some("state"), &["idle", "busy"]),
        node(1, Rule::Declaration { name: "k".to_string(), initializer: None }),
        ident(2, "n"),
        node(3, Rule::Literal),
        assignment(4, 2, AssignmentOperator::Plain, 3),
        unit(5, &[0, 1, 4]),
    ];
    let expected = "type state.\nconst idle,busy: state.\nnew k: bitstring;\nnew n: bitstring;";
    assert_eq!(translate(&nodes), Ok(expected.to_string()));
}

#[test]
fn unit_without_enums_emits_body_only() {
    let nodes = vec![
        node(0, Rule::Declaration { name: "k".to_string(), initializer: None }),
        unit(1, &[0]),
    ];
    assert_eq!(translate(&nodes), Ok("new k: bitstring;".to_string()));
    assert_eq!(translate(&vec![unit(0, &[])]), Ok(String::new()));
}

#[test]
fn empty_unit_is_malformed() {
    assert_eq!(translate(&vec![]), Err(vec![failure(ErrorKind::MalformedTree, RuleKind::CompilationUnit, 0)]));
}

#[test]
fn unit_must_end_with_compilation_unit() {
    let nodes = vec![ident(3, "x")];
    assert_eq!(translate(&nodes), Err(vec![failure(ErrorKind::MalformedTree, RuleKind::Identifier, 3)]));
}

#[test]
fn failures_are_collected_and_no_script_is_made() {
    let nodes = vec![
        enum_decl(0, "e"),
        enum_decl(1, "e"),
        ident(2, "x"),
        assignment(3, 2, AssignmentOperator::Compound, 9),
        node(4, Rule::FunctionDeclaration { name: "f".to_string() }),
        node(5, Rule::FunctionDeclaration { name: "f".to_string() }),
        unit(6, &[0, 1, 3, 4, 5]),
    ];
    assert_eq!(
        translate(&nodes),
        Err(vec![
            failure(ErrorKind::DuplicateDeclaration, RuleKind::EnumDeclaration, 1),
            failure(ErrorKind::UnsupportedConstruct, RuleKind::AssignmentExpression, 3),
            failure(ErrorKind::DuplicateDeclaration, RuleKind::FunctionDeclaration, 5),
        ])
    );
}

#[test]
fn malformed_tree_ends_the_walk() {
    let nodes = vec![
        enum_decl(0, "e"),
        enum_decl(1, "e"),
        node(2, Rule::EnumDeclaration { tag: None }),
        enum_decl(3, "e"),
        unit(4, &[]),
    ];
    assert_eq!(
        translate(&nodes),
        Err(vec![failure(ErrorKind::DuplicateDeclaration, RuleKind::EnumDeclaration, 1), failure(ErrorKind::MalformedTree, RuleKind::EnumDeclaration, 2)])
    );
}

#[test]
fn units_do_not_share_registries() {
    let first = vec![enum_def(0, Some("e"), &["a"]), enum_def(1, None, &["p"]), unit(2, &[])];
    let second = vec![enum_decl(0, "e"), enum_def(1, None, &["q"]), unit(2, &[])];
    assert_eq!(
        translate(&first),
        Ok("type e.\nconst a: e.\ntype anon_enum0.\nconst p: anon_enum0.".to_string())
    );
    assert_eq!(translate(&second), Ok("type e.\ntype anon_enum0.\nconst q: anon_enum0.".to_string()));
    assert_eq!(
        translate(&first),
        Ok("type e.\nconst a: e.\ntype anon_enum0.\nconst p: anon_enum0.".to_string())
    );
}

#[test]
fn fragment_is_written_once() {
    let mut t = SubC2PVListener::new();
    assert_eq!(t.set(3, "first".to_string()), Ok(()));
    assert_eq!(t.set(3, "second".to_string()), Err(ErrorKind::MalformedTree));
    assert_eq!(t.get(3), Some(&"first".to_string()));
    assert!(t.get(4).is_none());
}

#[test]
fn rule_kinds_are_told_apart() {
    assert_eq!(Rule::Literal.kind(), RuleKind::Literal);
    assert_eq!(ident(0, "x").rule.kind(), RuleKind::Identifier);
    assert_eq!(unit(0, &[]).rule.kind(), RuleKind::CompilationUnit);
    assert_eq!(enum_decl(0, "e").rule.kind(), RuleKind::EnumDeclaration);
    assert_eq!(enum_def(0, None, &[]).rule.kind(), RuleKind::EnumDefinition);
    assert_eq!(assignment(0, 1, AssignmentOperator::Plain, 2).rule.kind(), RuleKind::AssignmentExpression);
}

#[test]
fn unary_operator_before_cast_hands_the_cast_on() {
    let mut t = SubC2PVListener::new();
    t.exit_node(&ident(0, "x")).unwrap();
    let cast = node(1, Rule::CastExpression { cast_expression: None, unary_expression: None });
    assert!(t.exit_node(&cast).is_err());
    let inner = node(2, Rule::UnaryExpression { postfix_expression: Some(0), cast_expression: None });
    t.exit_node(&inner).unwrap();
    let as_cast = node(3, Rule::CastExpression { cast_expression: None, unary_expression: Some(2) });
    t.exit_node(&as_cast).unwrap();
    let negated = node(4, Rule::UnaryExpression { postfix_expression: None, cast_expression: Some(3) });
    assert_eq!(t.exit_node(&negated), Ok(()));
    assert_eq!(t.get(4), Some(&"x".to_string()));
}

#[test]
fn function_is_registered_once() {
    let mut t = SubC2PVListener::new();
    assert_eq!(t.exit_function_declaration(&"f".to_string()), Ok(()));
    assert_eq!(t.exit_function_declaration(&"g".to_string()), Ok(()));
    assert_eq!(t.exit_function_declaration(&"f".to_string()), Err(ErrorKind::DuplicateDeclaration));
    assert!(t.ctx2pv.is_empty());
}

#[test]
fn block_split_at_line_breaks_has_one_type_line_per_name() {
    let mut t = SubC2PVListener::new();
    t.exit_enum_definition(&Some("a".to_string()), &names(&["x", "y"])).unwrap();
    t.exit_enum_declaration(&Some("b".to_string())).unwrap();
    t.exit_enum_definition(&None, &names(&["z"])).unwrap();
    t.exit_enum_definition(&Some("c".to_string()), &names(&[])).unwrap();
    let block = t.translate_enumerations();
    let lines: Vec<&str> = block.split('\n').collect();
    assert_eq!(
        lines,
        vec!["type a.", "const x,y: a.", "type b.", "type anon_enum0.", "const z: anon_enum0.", "type c."]
    );
    assert_eq!(lines.iter().filter(|l| l.starts_with("type ")).count(), 4);
    assert_eq!(lines.iter().filter(|l| l.starts_with("const ")).count(), 2);
    for name in ["a", "b", "anon_enum0", "c"] {
        let line = format!("type {}.", name);
        assert_eq!(lines.iter().filter(|l| **l == line).count(), 1);
    }
    assert_eq!(lines.iter().filter(|l| **l == "type d.").count(), 0);
}

#[test]
fn script_is_block_then_body() {
    let mut t = SubC2PVListener::new();
    t.exit_node(&enum_def(0, Some("e"), &["a"])).unwrap();
    t.exit_node(&node(1, Rule::Declaration { name: "k".to_string(), initializer: None })).unwrap();
    t.exit_node(&node(2, Rule::Declaration { name: "m".to_string(), initializer: None })).unwrap();
    let block = t.translate_enumerations();
    t.exit_node(&unit(3, &[0, 1, 2])).unwrap();
    let body = "new k: bitstring;\nnew m: bitstring;";
    assert_eq!(t.get(3), Some(&format!("{}\n{}", block, body)));
    let mut bare = SubC2PVListener::new();
    bare.exit_node(&node(1, Rule::Declaration { name: "k".to_string(), initializer: None })).unwrap();
    bare.exit_node(&node(2, Rule::Declaration { name: "m".to_string(), initializer: None })).unwrap();
    bare.exit_node(&unit(3, &[1, 2])).unwrap();
    assert_eq!(bare.get(3), Some(&body.to_string()));
}

#[test]
fn failed_unnamed_definition_shows_in_later_names() {
    let nodes = vec![
        enum_decl(0, "anon_enum0"),
        enum_def(1, None, &["a"]),
        enum_def(2, None, &["b"]),
        enum_decl(3, "anon_enum1"),
        unit(4, &[]),
    ];
    assert_eq!(
        translate(&nodes),
        Err(vec![
            failure(ErrorKind::DuplicateDeclaration, RuleKind::EnumDefinition, 1),
            failure(ErrorKind::DuplicateDeclaration, RuleKind::EnumDeclaration, 3),
        ])
    );
}
