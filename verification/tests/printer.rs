use notelang::{parse, print_tree, Expression, ParseError, SyntaxTree, Transition, Type};

fn parsed(src: &str) -> SyntaxTree {
    match parse(String::from(src)) {
        Ok(t) => t,
        Err(_) => panic!("expected a successful parse"),
    }
}

fn same_type(a: Type, b: Type) -> bool {
    matches!(
        (a, b),
        (Type::Number, Type::Number)
            | (Type::Note, Type::Note)
            | (Type::Chord, Type::Chord)
            | (Type::Nothing, Type::Nothing)
    )
}

fn same_expr(a: &Expression, b: &Expression) -> bool {
    match (a, b) {
        (
            Expression::Literal { value: va, val_type: ta },
            Expression::Literal { value: vb, val_type: tb },
        ) => va == vb && same_type(*ta, *tb),
        (
            Expression::Op { operator: oa, left: la, right: ra },
            Expression::Op { operator: ob, left: lb, right: rb },
        ) => {
            matches!(
                (oa, ob),
                (notelang::Operator::ChordalAdd, notelang::Operator::ChordalAdd)
                    | (notelang::Operator::RhythmicAdd, notelang::Operator::RhythmicAdd)
            ) && same_tree(la, lb) && same_tree(ra, rb)
        },
        _ => false,
    }
}

fn same_tran(a: &Transition, b: &Transition) -> bool {
    match (a, b) {
        (Transition::Expression(ea), Transition::Expression(eb)) => same_expr(ea, eb),
        (
            Transition::VarDeclaration { name: na, var_type: ta, value: va },
            Transition::VarDeclaration { name: nb, var_type: tb, value: vb },
        ) => na == nb && same_type(*ta, *tb) && same_tree(va, vb),
        (
            Transition::FuncDeclaration { name: na, arg_names: aa, body: ba },
            Transition::FuncDeclaration { name: nb, arg_names: ab, body: bb },
        ) => na == nb && aa == ab && same_tree(ba, bb),
        _ => false,
    }
}

fn same_tree(a: &SyntaxTree, b: &SyntaxTree) -> bool {
    if !same_type(a.return_type, b.return_type) || a.steps.len() != b.steps.len() {
        return false;
    }
    let mut k = 0;
    while k < a.steps.len() {
        if !same_tran(&a.steps[k], &b.steps[k]) {
            return false;
        }
        k += 1;
    }
    true
}

fn round_trips(src: &str) {
    let tree = parsed(src);
    let printed = print_tree(&tree);
    let again = match parse(printed.clone()) {
        Ok(t) => t,
        Err(ParseError::LexError { token }) => panic!("lex error on {} in {}", token, printed),
        Err(_) => panic!("re-parse of {} failed", printed),
    };
    assert!(same_tree(&tree, &again), "round trip changed the tree for: {}", printed);
}

#[test]
fn print_literals() {
    let tree = parsed("1q   2h\n42");
    assert_eq!(print_tree(&tree), "1q 2h 42");
}

#[test]
fn print_let_uses_standalone_terminator() {
    let tree = parsed("let x = 1q;");
    assert_eq!(print_tree(&tree), "let x = 1q ;");
}

#[test]
fn print_fn_fuses_header() {
    let tree = parsed("fn play ( a , b ) { 1q }");
    assert_eq!(print_tree(&tree), "fn play(a,b) { 1q }");
}

#[test]
fn print_operator_expression() {
    let tree = parsed("1q + 2q ~ 3q");
    assert_eq!(print_tree(&tree), "1q + 2q ~ 3q");
}

#[test]
fn round_trip_literals() {
    round_trips("1q 2h ^3w. _7s 42 7");
}

#[test]
fn round_trip_let_declarations() {
    round_trips("let x = 1q; let y = 1q + 2q ; 42");
}

#[test]
fn round_trip_fn_declarations() {
    round_trips("fn play(a: Note, b):Chord { 1q + 2q } fn empty ( ) { }");
}

#[test]
fn round_trip_nested() {
    round_trips("fn outer ( x ) { fn inner ( ) { 1w } let t = 2h ; 3q } let z = fn g ( ) { } ;");
}

#[test]
fn round_trip_empty() {
    round_trips("");
}
