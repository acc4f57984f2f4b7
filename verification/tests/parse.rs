use notelang::{parse, Expression, Operator, ParseError, SyntaxTree, Transition, Type};

fn ok_of(r: Result<SyntaxTree, ParseError>) -> SyntaxTree {
    match r {
        Ok(t) => t,
        Err(_) => panic!("expected a successful parse"),
    }
}

fn err_of(r: Result<SyntaxTree, ParseError>) -> ParseError {
    match r {
        Ok(_) => panic!("expected a failing parse"),
        Err(e) => e,
    }
}

fn literal_of(tree: &SyntaxTree, k: usize) -> (&str, Type) {
    match &tree.steps[k] {
        Transition::Expression(Expression::Literal { value, val_type }) => (value, *val_type),
        _ => panic!("step is not a literal expression"),
    }
}

#[test]
fn note_literals_in_order() {
    let tree = ok_of(parse(String::from("1q 2h ^3w. _7s")));
    assert_eq!(tree.steps.len(), 4);
    let expected = ["1q", "2h", "^3w.", "_7s"];
    let mut k = 0;
    while k < 4 {
        let (value, ty) = literal_of(&tree, k);
        assert_eq!(value, expected[k]);
        assert!(matches!(ty, Type::Note));
        k += 1;
    }
    assert!(matches!(tree.return_type, Type::Note));
}

#[test]
fn single_number() {
    let tree = ok_of(parse(String::from("42")));
    assert_eq!(tree.steps.len(), 1);
    let (value, ty) = literal_of(&tree, 0);
    assert_eq!(value, "42");
    assert!(matches!(ty, Type::Number));
    assert!(matches!(tree.return_type, Type::Number));
}

#[test]
fn let_note_declaration() {
    let tree = ok_of(parse(String::from("let x = 1q;")));
    assert_eq!(tree.steps.len(), 1);
    assert!(matches!(tree.return_type, Type::Nothing));
    match &tree.steps[0] {
        Transition::VarDeclaration { name, var_type, value } => {
            assert_eq!(name, "x");
            assert!(matches!(var_type, Type::Note));
            assert_eq!(value.steps.len(), 1);
            assert!(matches!(value.return_type, Type::Note));
            let (v, ty) = literal_of(value, 0);
            assert_eq!(v, "1q");
            assert!(matches!(ty, Type::Note));
        },
        _ => panic!("expected a variable declaration"),
    }
}

#[test]
fn let_missing_equals() {
    let err = err_of(parse(String::from("let x 1q;")));
    match err {
        ParseError::SyntaxError { missing, context } => {
            assert_eq!(missing, "=");
            assert_eq!(context, "x");
        },
        _ => panic!("expected a syntax error"),
    }
}

#[test]
fn chordal_add_of_notes() {
    let tree = ok_of(parse(String::from("1q + 2q")));
    assert_eq!(tree.steps.len(), 1);
    assert!(matches!(tree.return_type, Type::Chord));
    match &tree.steps[0] {
        Transition::Expression(Expression::Op { operator, left, right }) => {
            assert!(matches!(operator, Operator::ChordalAdd));
            let (lv, lt) = literal_of(left, 0);
            assert_eq!(lv, "1q");
            assert!(matches!(lt, Type::Note));
            let (rv, rt) = literal_of(right, 0);
            assert_eq!(rv, "2q");
            assert!(matches!(rt, Type::Note));
        },
        _ => panic!("expected an operator expression"),
    }
}

#[test]
fn chordal_add_rejects_number() {
    let err = err_of(parse(String::from("1q + 42")));
    match err {
        ParseError::TypeError { operator, offending } => {
            assert!(matches!(operator, Operator::ChordalAdd));
            assert!(matches!(offending, Type::Number));
        },
        _ => panic!("expected a type error"),
    }
}

#[test]
fn empty_source_is_empty_tree() {
    let tree = ok_of(parse(String::new()));
    assert_eq!(tree.steps.len(), 0);
    assert!(matches!(tree.return_type, Type::Nothing));
}

#[test]
fn whitespace_only_is_empty_tree() {
    let tree = ok_of(parse(String::from("  \n\t  \r ")));
    assert_eq!(tree.steps.len(), 0);
    assert!(matches!(tree.return_type, Type::Nothing));
}

#[test]
fn rhythmic_add_keeps_note_type() {
    let tree = ok_of(parse(String::from("1q ~ 2h")));
    assert!(matches!(tree.return_type, Type::Note));
    match &tree.steps[0] {
        Transition::Expression(Expression::Op { operator, .. }) => {
            assert!(matches!(operator, Operator::RhythmicAdd));
        },
        _ => panic!("expected an operator expression"),
    }
}

#[test]
fn rhythmic_add_rejects_mismatch() {
    let err = err_of(parse(String::from("1q ~ 42")));
    match err {
        ParseError::TypeError { operator, offending } => {
            assert!(matches!(operator, Operator::RhythmicAdd));
            assert!(matches!(offending, Type::Number));
        },
        _ => panic!("expected a type error"),
    }
}

#[test]
fn operators_nest_to_the_right() {
    let tree = ok_of(parse(String::from("1q + 2q ~ 3q")));
    assert!(matches!(tree.return_type, Type::Chord));
    match &tree.steps[0] {
        Transition::Expression(Expression::Op { operator, right, .. }) => {
            assert!(matches!(operator, Operator::ChordalAdd));
            assert!(matches!(right.return_type, Type::Note));
            match &right.steps[0] {
                Transition::Expression(Expression::Op { operator, .. }) => {
                    assert!(matches!(operator, Operator::RhythmicAdd));
                },
                _ => panic!("expected a nested operator expression"),
            }
        },
        _ => panic!("expected an operator expression"),
    }
}

#[test]
fn unrecognized_token_is_lex_error() {
    let err = err_of(parse(String::from("xyz")));
    match err {
        ParseError::LexError { token } => assert_eq!(token, "xyz"),
        _ => panic!("expected a lex error"),
    }
}

#[test]
fn let_missing_semicolon() {
    let err = err_of(parse(String::from("let x = 1q")));
    match err {
        ParseError::SyntaxError { missing, context } => {
            assert_eq!(missing, ";");
            assert_eq!(context, "x");
        },
        _ => panic!("expected a syntax error"),
    }
}

#[test]
fn let_missing_name() {
    let err = err_of(parse(String::from("let")));
    match err {
        ParseError::SyntaxError { missing, context } => {
            assert_eq!(missing, "name");
            assert_eq!(context, "let");
        },
        _ => panic!("expected a syntax error"),
    }
}

#[test]
fn note_grammar_takes_precedence() {
    let tree = ok_of(parse(String::from("1q 1 19")));
    let (_, t0) = literal_of(&tree, 0);
    assert!(matches!(t0, Type::Note));
    let (_, t1) = literal_of(&tree, 1);
    assert!(matches!(t1, Type::Number));
    let (_, t2) = literal_of(&tree, 2);
    assert!(matches!(t2, Type::Number));
    assert!(matches!(tree.return_type, Type::Number));
}

#[test]
fn fn_declaration_fused_header() {
    let tree = ok_of(parse(String::from("fn play(a,b) { 1q 2h }")));
    assert_eq!(tree.steps.len(), 1);
    assert!(matches!(tree.return_type, Type::Nothing));
    match &tree.steps[0] {
        Transition::FuncDeclaration { name, arg_names, body } => {
            assert_eq!(name, "play");
            assert_eq!(arg_names.len(), 2);
            assert_eq!(arg_names[0], "a");
            assert_eq!(arg_names[1], "b");
            assert_eq!(body.steps.len(), 2);
            assert!(matches!(body.return_type, Type::Note));
        },
        _ => panic!("expected a function declaration"),
    }
}

#[test]
fn fn_declaration_spaced_header() {
    let tree = ok_of(parse(String::from("fn empty ( ) { }")));
    match &tree.steps[0] {
        Transition::FuncDeclaration { name, arg_names, body } => {
            assert_eq!(name, "empty");
            assert_eq!(arg_names.len(), 0);
            assert_eq!(body.steps.len(), 0);
            assert!(matches!(body.return_type, Type::Nothing));
        },
        _ => panic!("expected a function declaration"),
    }
}

#[test]
fn fn_declaration_with_annotations() {
    let tree = ok_of(parse(String::from("fn get_note(a: Note):Number { 42 }")));
    match &tree.steps[0] {
        Transition::FuncDeclaration { name, arg_names, body } => {
            assert_eq!(name, "get_note");
            assert_eq!(arg_names.len(), 1);
            assert_eq!(arg_names[0], "a");
            assert!(matches!(body.return_type, Type::Number));
        },
        _ => panic!("expected a function declaration"),
    }
}

#[test]
fn fn_missing_close_brace() {
    let err = err_of(parse(String::from("fn f ( ) { 1q")));
    match err {
        ParseError::SyntaxError { missing, context } => {
            assert_eq!(missing, "}");
            assert_eq!(context, "f");
        },
        _ => panic!("expected a syntax error"),
    }
}

#[test]
fn fn_missing_open_paren() {
    let err = err_of(parse(String::from("fn f")));
    match err {
        ParseError::SyntaxError { missing, context } => {
            assert_eq!(missing, "(");
            assert_eq!(context, "f");
        },
        _ => panic!("expected a syntax error"),
    }
}

#[test]
fn nested_fn_bodies_balance_braces() {
    let tree = ok_of(parse(String::from("fn outer ( ) { fn inner ( ) { 1q } 2h } 3w")));
    assert_eq!(tree.steps.len(), 2);
    assert!(matches!(tree.return_type, Type::Note));
    match &tree.steps[0] {
        Transition::FuncDeclaration { name, body, .. } => {
            assert_eq!(name, "outer");
            assert_eq!(body.steps.len(), 2);
            assert!(matches!(body.steps[0], Transition::FuncDeclaration { .. }));
            assert!(matches!(body.return_type, Type::Note));
        },
        _ => panic!("expected a function declaration"),
    }
}

#[test]
fn statements_after_declaration_set_type() {
    let tree = ok_of(parse(String::from("let x = 42; 1q")));
    assert_eq!(tree.steps.len(), 2);
    assert!(matches!(tree.return_type, Type::Note));
    match &tree.steps[0] {
        Transition::VarDeclaration { name, var_type, .. } => {
            assert_eq!(name, "x");
            assert!(matches!(var_type, Type::Number));
        },
        _ => panic!("expected a variable declaration"),
    }
}

#[test]
fn let_value_may_be_compound() {
    let tree = ok_of(parse(String::from("let c = 1q + 2q ;")));
    match &tree.steps[0] {
        Transition::VarDeclaration { name, var_type, value } => {
            assert_eq!(name, "c");
            assert!(matches!(var_type, Type::Chord));
            assert!(matches!(value.return_type, Type::Chord));
        },
        _ => panic!("expected a variable declaration"),
    }
}

#[test]
fn let_error_in_value_propagates() {
    let err = err_of(parse(String::from("let x = oops;")));
    match err {
        ParseError::LexError { token } => assert_eq!(token, "oops"),
        _ => panic!("expected a lex error"),
    }
}
