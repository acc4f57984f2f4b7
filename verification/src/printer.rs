//! A canonical pretty-printer for parsed trees, and the round-trip law:
//! re-parsing the printed form of a canonical tree yields the same tree.
//!
//! The printed form is a whitespace-joined token sequence: literals and
//! operators as themselves, `let <name> = <value tokens> ;` with a
//! standalone terminator, and `fn <name>(<args>) { <body tokens> }` with the
//! header fused into one token and standalone braces.

use vstd::prelude::*;
use vstd::string::StrSliceExecFns;
use vstd::string::StringExecFns;

use crate::ast::{
    rt_of_steps, spec_expr_type, SpecError, SpecExpr, SpecTransition, SpecTree, Type, Operator,
    Expression, Transition, SyntaxTree, steps_view, tran_view, lemma_steps_view_index,
};
use crate::lexer::{is_ws, spec_is_note_literal, spec_tokens, tokens_view};
use crate::strutil::{lemma_find_char, spec_before, spec_find_char, spec_has_char};
use crate::parser::{
    close_brace_tok, eq_tok, fn_kw, is_musical, let_kw, lit_tree, lparen_tok, open_brace_tok,
    plus_tok, rparen_tok, semi_tok, spec_is_literal_tok, spec_lit_type, spec_is_operator,
    spec_op_of, tilde_tok, spec_find_close_tok, spec_find_semi_tok, spec_find_brace_tok,
    spec_parse, spec_parse_expr, spec_gather_args, spec_split_args, spec_arg_entry, cons_step,
    lemma_find_semi_tok, lemma_parse_expr_bounds,
};

verus! {

/// The operator's source token.
pub open spec fn spec_op_tok(op: Operator) -> Seq<char> {
    if op == Operator::ChordalAdd {
        plus_tok()
    } else {
        tilde_tok()
    }
}

/// The printed tokens of an operand tree: parser-built operands hold
/// exactly one expression step.
pub open spec fn spec_print_operand(t: SpecTree) -> Seq<Seq<char>>
    decreases t, 0int,
{
    if t.steps.len() == 1 && t.steps[0] is Expression {
        spec_print_expr(t.steps[0]->Expression_0)
    } else {
        Seq::empty()
    }
}

/// The printed tokens of an expression.
pub open spec fn spec_print_expr(e: SpecExpr) -> Seq<Seq<char>>
    decreases e, 0int,
{
    match e {
        SpecExpr::Literal { value, .. } => seq![value],
        SpecExpr::Op { operator, left, right } => spec_print_operand(left) + seq![
            spec_op_tok(operator),
        ] + spec_print_operand(right),
    }
}

/// The argument-list text from entry `k` on: the names joined with commas.
pub open spec fn spec_join_args_from(args: Seq<Seq<char>>, k: int) -> Seq<char>
    decreases args.len() - k,
{
    if k < 0 || k >= args.len() {
        Seq::empty()
    } else if k == args.len() - 1 {
        args[k]
    } else {
        args[k] + seq![','] + spec_join_args_from(args, k + 1)
    }
}

/// The argument-list text: the names joined with commas.
pub open spec fn spec_join_args(args: Seq<Seq<char>>) -> Seq<char> {
    spec_join_args_from(args, 0)
}

/// The printed tokens of one statement.
pub open spec fn spec_print_tran(tr: SpecTransition) -> Seq<Seq<char>>
    decreases tr, 0int,
{
    match tr {
        SpecTransition::Expression(e) => spec_print_expr(e),
        SpecTransition::VarDeclaration { name, value, .. } => seq![let_kw(), name, eq_tok()]
            + spec_print_steps_from(value.steps, 0) + seq![semi_tok()],
        SpecTransition::FuncDeclaration { name, arg_names, body } => seq![
            fn_kw(),
            name + lparen_tok() + spec_join_args(arg_names) + rparen_tok(),
            open_brace_tok(),
        ] + spec_print_steps_from(body.steps, 0) + seq![close_brace_tok()],
    }
}

/// The printed tokens of the statements from position `k` on.
pub open spec fn spec_print_steps_from(s: Seq<SpecTransition>, k: int) -> Seq<Seq<char>>
    decreases s, s.len() - k,
{
    if k < 0 || k >= s.len() {
        Seq::empty()
    } else {
        spec_print_tran(s[k]) + spec_print_steps_from(s, k + 1)
    }
}

/// The printed tokens of a sequence of statements, in source order.
pub open spec fn spec_print_steps(s: Seq<SpecTransition>) -> Seq<Seq<char>> {
    spec_print_steps_from(s, 0)
}

/// The printed tokens of a whole tree.
pub open spec fn spec_print_tree(t: SpecTree) -> Seq<Seq<char>> {
    spec_print_steps(t.steps)
}

/// The printed source text: the tokens joined with single spaces.
pub open spec fn spec_join(toks: Seq<Seq<char>>) -> Seq<char>
    decreases toks.len(),
{
    if toks.len() == 0 {
        Seq::empty()
    } else if toks.len() == 1 {
        toks[0]
    } else {
        spec_join(toks.drop_last()) + seq![' '] + toks.last()
    }
}

/// A name the printer can emit as one token that the parser reads back
/// unchanged: nonempty, no whitespace, and none of the characters the
/// grammar treats as punctuation.
pub open spec fn plain_name(x: Seq<char>) -> bool {
    &&& x.len() > 0
    &&& forall|j: int|
        0 <= j < x.len() ==> {
            &&& !is_ws(#[trigger] x[j])
            &&& x[j] != ';'
            &&& x[j] != '('
            &&& x[j] != ')'
            &&& x[j] != ','
            &&& x[j] != ':'
            &&& x[j] != '{'
            &&& x[j] != '}'
        }
}

/// The trees the parser itself produces, as far as the round trip needs
/// them: correct recorded types, operands of operators are single
/// well-typed expressions, names are plain, a declaration's value holds no
/// nested declaration (its `;` would have ended the outer one), and inside
/// such a value the same holds throughout.
pub open spec fn canonical_tree(t: SpecTree, allow_let: bool) -> bool
    decreases t, 1int,
{
    &&& t.return_type == rt_of_steps(t.steps)
    &&& canonical_steps(t.steps, allow_let)
}

pub open spec fn canonical_steps(s: Seq<SpecTransition>, allow_let: bool) -> bool
    decreases s, 0int,
{
    if s.len() == 0 {
        true
    } else {
        canonical_tran(s.last(), allow_let) && canonical_steps(s.drop_last(), allow_let)
    }
}

pub open spec fn canonical_tran(tr: SpecTransition, allow_let: bool) -> bool
    decreases tr, 1int,
{
    match tr {
        SpecTransition::Expression(e) => canonical_expr(e),
        SpecTransition::VarDeclaration { name, var_type, value } => {
            &&& allow_let
            &&& plain_name(name)
            &&& var_type == value.return_type
            &&& canonical_tree(value, false)
        },
        SpecTransition::FuncDeclaration { name, arg_names, body } => {
            &&& plain_name(name)
            &&& (forall|j: int| 0 <= j < arg_names.len() ==> plain_name(#[trigger] arg_names[j]))
            &&& canonical_tree(body, allow_let)
        },
    }
}

pub open spec fn canonical_operand(t: SpecTree) -> bool
    decreases t, 0int,
{
    &&& t.steps.len() == 1
    &&& t.steps[0] is Expression
    &&& canonical_expr(t.steps[0]->Expression_0)
    &&& t.return_type == spec_expr_type(t.steps[0]->Expression_0)
}

pub open spec fn canonical_expr(e: SpecExpr) -> bool
    decreases e, 1int,
{
    match e {
        SpecExpr::Literal { value, val_type } => spec_is_literal_tok(value) && val_type
            == spec_lit_type(value),
        SpecExpr::Op { operator, left, right } => {
            &&& canonical_operand(left)
            &&& left.steps[0]->Expression_0 is Literal
            &&& canonical_operand(right)
            &&& is_musical(left.return_type)
            &&& is_musical(right.return_type)
            &&& (operator == Operator::RhythmicAdd ==> left.return_type == right.return_type)
        },
    }
}

} // verus!

verus! {

fn push_word(out: &mut Vec<String>, w: &str)
    ensures
        tokens_view(final(out)@) == tokens_view(old(out)@).push(w@),
{
    out.push(String::from_str(w));
    proof {
        assert(tokens_view(out@) =~= tokens_view(old(out)@).push(w@));
    }
}

fn print_operand_tokens(t: &SyntaxTree, out: &mut Vec<String>)
    ensures
        tokens_view(final(out)@) == tokens_view(old(out)@) + spec_print_operand(t@),
    decreases *t, 1int,
{
    proof {
        lemma_steps_view_index(t.steps@);
    }
    if t.steps.len() == 1 {
        match &t.steps[0] {
            Transition::Expression(e) => {
                print_expr_tokens(e, out);
                return ;
            },
            _ => {},
        }
    }
    proof {
        assert(tokens_view(out@) =~= tokens_view(out@) + Seq::<Seq<char>>::empty());
    }
}

fn print_expr_tokens(e: &Expression, out: &mut Vec<String>)
    ensures
        tokens_view(final(out)@) == tokens_view(old(out)@) + spec_print_expr(e@),
    decreases *e, 0int,
{
    match e {
        Expression::Literal { value, .. } => {
            out.push(value.clone());
            proof {
                assert(tokens_view(out@) =~= tokens_view(old(out)@) + seq![value@]);
            }
        },
        Expression::Op { operator, left, right } => {
            print_operand_tokens(left, out);
            if matches!(operator, Operator::ChordalAdd) {
                proof {
                    reveal_strlit("+");
                    assert("+"@ =~= plus_tok());
                }
                push_word(out, "+");
            } else {
                proof {
                    reveal_strlit("~");
                    assert("~"@ =~= tilde_tok());
                }
                push_word(out, "~");
            }
            print_operand_tokens(right, out);
            proof {
                assert(tokens_view(out@) =~= tokens_view(old(out)@) + spec_print_expr(e@));
            }
        },
    }
}

fn join_args(args: &Vec<String>, k: usize) -> (r: String)
    requires
        k <= args@.len(),
    ensures
        r@ == spec_join_args_from(tokens_view(args@), k as int),
    decreases args@.len() - k,
{
    if k >= args.len() {
        String::new()
    } else if k == args.len() - 1 {
        args[k].clone()
    } else {
        let mut s = args[k].clone();
        proof {
            reveal_strlit(",");
            assert(","@ =~= seq![',']);
        }
        s.append(",");
        let rest = join_args(args, k + 1);
        s.append(rest.as_str());
        s
    }
}

fn print_tran_tokens(tr: &Transition, out: &mut Vec<String>)
    ensures
        tokens_view(final(out)@) == tokens_view(old(out)@) + spec_print_tran(tr@),
    decreases *tr, 2int,
{
    match tr {
        Transition::Expression(e) => {
            print_expr_tokens(e, out);
        },
        Transition::VarDeclaration { name, value, .. } => {
            proof {
                reveal_strlit("let");
                assert("let"@ =~= let_kw());
                reveal_strlit("=");
                assert("="@ =~= eq_tok());
                reveal_strlit(";");
                assert(";"@ =~= semi_tok());
            }
            push_word(out, "let");
            out.push(name.clone());
            proof {
                assert(tokens_view(out@) =~= tokens_view(old(out)@).push(let_kw()).push(name@));
            }
            push_word(out, "=");
            print_steps_tokens(&value.steps, out);
            push_word(out, ";");
            proof {
                assert(tokens_view(out@) =~= tokens_view(old(out)@) + spec_print_tran(tr@));
            }
        },
        Transition::FuncDeclaration { name, arg_names, body } => {
            proof {
                reveal_strlit("fn");
                assert("fn"@ =~= fn_kw());
                reveal_strlit("(");
                assert("("@ =~= lparen_tok());
                reveal_strlit(")");
                assert(")"@ =~= rparen_tok());
                reveal_strlit("{");
                assert("{"@ =~= open_brace_tok());
                reveal_strlit("}");
                assert("}"@ =~= close_brace_tok());
            }
            push_word(out, "fn");
            let mut header = name.clone();
            header.append("(");
            let joined = join_args(arg_names, 0);
            header.append(joined.as_str());
            header.append(")");
            out.push(header);
            proof {
                assert(tokens_view(out@) =~= tokens_view(old(out)@).push(fn_kw()).push(
                    name@ + lparen_tok() + spec_join_args(tokens_view(arg_names@))
                        + rparen_tok(),
                ));
            }
            push_word(out, "{");
            print_steps_tokens(&body.steps, out);
            push_word(out, "}");
            proof {
                assert(tokens_view(out@) =~= tokens_view(old(out)@) + spec_print_tran(tr@));
            }
        },
    }
}

fn print_steps_tokens(steps: &Vec<Transition>, out: &mut Vec<String>)
    ensures
        tokens_view(final(out)@) == tokens_view(old(out)@) + spec_print_steps_from(
            steps_view(steps@),
            0,
        ),
    decreases *steps, 3int,
{
    let ghost sv = steps_view(steps@);
    proof {
        lemma_steps_view_index(steps@);
    }
    let mut k: usize = 0;
    while k < steps.len()
        invariant
            k <= steps@.len(),
            sv == steps_view(steps@),
            sv.len() == steps@.len(),
            forall|i: int| 0 <= i < steps@.len() ==> sv[i] == tran_view(#[trigger] steps@[i]),
            tokens_view(old(out)@) + spec_print_steps_from(sv, 0) == tokens_view(out@)
                + spec_print_steps_from(sv, k as int),
        decreases steps@.len() - k,
    {
        let ghost before = tokens_view(out@);
        print_tran_tokens(&steps[k], out);
        proof {
            assert(tokens_view(out@) == before + spec_print_tran(sv[k as int]));
            assert((tokens_view(out@)) + spec_print_steps_from(sv, k + 1) =~= before + (
            spec_print_tran(sv[k as int]) + spec_print_steps_from(sv, k + 1)));
        }
        k = k + 1;
    }
    proof {
        assert(spec_print_steps_from(sv, steps@.len() as int) =~= Seq::<Seq<char>>::empty());
        assert(tokens_view(out@) + Seq::<Seq<char>>::empty() =~= tokens_view(out@));
    }
}

/// Joins tokens with single spaces.
fn join_tokens(toks: &Vec<String>) -> (r: String)
    ensures
        r@ == spec_join(tokens_view(toks@)),
{
    let mut s = String::new();
    let mut i: usize = 0;
    proof {
        reveal_strlit(" ");
        assert(" "@ =~= seq![' ']);
    }
    while i < toks.len()
        invariant
            i <= toks@.len(),
            s@ == spec_join(tokens_view(toks@).subrange(0, i as int)),
            " "@ == seq![' '],
        decreases toks@.len() - i,
    {
        proof {
            assert(tokens_view(toks@).subrange(0, i + 1).drop_last() =~= tokens_view(
                toks@,
            ).subrange(0, i as int));
            assert(tokens_view(toks@).subrange(0, i + 1).last() == toks@[i as int]@);
        }
        if i > 0 {
            s.append(" ");
        }
        s.append(toks[i].as_str());
        i = i + 1;
    }
    proof {
        assert(tokens_view(toks@).subrange(0, toks@.len() as int) =~= tokens_view(toks@));
    }
    s
}

/// Prints a tree in canonical source form: its tokens joined with single
/// spaces.
pub fn print_tree(tree: &SyntaxTree) -> (r: String)
    ensures
        r@ == spec_join(spec_print_tree(tree@)),
{
    let mut toks: Vec<String> = Vec::new();
    print_steps_tokens(&tree.steps, &mut toks);
    proof {
        assert(Seq::<Seq<char>>::empty() + spec_print_steps_from(steps_view(tree.steps@), 0)
            =~= spec_print_steps_from(steps_view(tree.steps@), 0));
    }
    join_tokens(&toks)
}

} // verus!

verus! {

/// A sequence without `c` at any position does not contain `c`.
proof fn lemma_no_char(t: Seq<char>, c: char)
    requires
        forall|j: int| 0 <= j < t.len() ==> t[j] != c,
    ensures
        !spec_has_char(t, c),
{
    lemma_find_char(t, c, 0);
    if spec_find_char(t, c, 0) < t.len() {
        assert(t[spec_find_char(t, c, 0)] == c);
    }
}

/// Every character of a literal token is a digit, an octave marker, a
/// duration letter or a dot.
proof fn lemma_literal_chars(t: Seq<char>, c: char)
    requires
        spec_is_literal_tok(t),
        c == ';' || c == '{' || c == '}' || c == '(' || c == ')' || c == ',' || c == ':' || c
            == '+' || c == '~' || c == 'l' || c == 'f' || is_ws(c),
    ensures
        forall|j: int| 0 <= j < t.len() ==> t[j] != c,
{
    if spec_is_note_literal(t) {
        if t.len() > 0 && (t[0] == '^' || t[0] == '_') {
            assert(forall|j: int| 1 <= j < t.len() ==> t[j] == t.skip(1)[j - 1]);
        }
    }
}

/// Shape facts about literal tokens: nonempty and whitespace-free, never a
/// keyword, an operator, a brace token or a `;`-carrier.
proof fn lemma_literal_tok_facts(t: Seq<char>)
    requires
        spec_is_literal_tok(t),
    ensures
        t.len() > 0,
        forall|j: int| 0 <= j < t.len() ==> !is_ws(#[trigger] t[j]),
        !spec_has_char(t, ';'),
        t != let_kw(),
        t != fn_kw(),
        !spec_is_operator(t),
        t != open_brace_tok(),
        t != close_brace_tok(),
{
    lemma_literal_chars(t, ';');
    lemma_no_char(t, ';');
    assert(t != let_kw()) by {
        lemma_literal_chars(t, 'l');
        assert(let_kw()[0] == 'l');
    }
    assert(t != fn_kw()) by {
        lemma_literal_chars(t, 'f');
        assert(fn_kw()[0] == 'f');
    }
    assert(!spec_is_operator(t)) by {
        lemma_literal_chars(t, '+');
        lemma_literal_chars(t, '~');
        assert(plus_tok()[0] == '+');
        assert(tilde_tok()[0] == '~');
    }
    assert(t != open_brace_tok()) by {
        lemma_literal_chars(t, '{');
        assert(open_brace_tok()[0] == '{');
    }
    assert(t != close_brace_tok()) by {
        lemma_literal_chars(t, '}');
        assert(close_brace_tok()[0] == '}');
    }
    assert forall|j: int| 0 <= j < t.len() implies !is_ws(#[trigger] t[j]) by {
        lemma_literal_chars(t, ' ');
        lemma_literal_chars(t, '\n');
        lemma_literal_chars(t, '\t');
        lemma_literal_chars(t, '\r');
    }
}

/// Canonical steps are canonical elementwise, and any subrange of them is
/// canonical.
proof fn lemma_canonical_steps_index(s: Seq<SpecTransition>, allow: bool)
    requires
        canonical_steps(s, allow),
    ensures
        forall|i: int| 0 <= i < s.len() ==> canonical_tran(#[trigger] s[i], allow),
    decreases s.len(),
{
    if s.len() > 0 {
        lemma_canonical_steps_index(s.drop_last(), allow);
        assert forall|i: int| 0 <= i < s.len() implies canonical_tran(#[trigger] s[i], allow) by {
            if i < s.len() - 1 {
                assert(s.drop_last()[i] == s[i]);
            } else {
                assert(s.last() == s[i]);
            }
        }
    }
}

proof fn lemma_canonical_steps_from_index(s: Seq<SpecTransition>, allow: bool)
    requires
        forall|i: int| 0 <= i < s.len() ==> canonical_tran(#[trigger] s[i], allow),
    ensures
        canonical_steps(s, allow),
    decreases s.len(),
{
    if s.len() > 0 {
        assert(forall|i: int|
            0 <= i < s.drop_last().len() ==> s.drop_last()[i] == #[trigger] s[i]);
        lemma_canonical_steps_from_index(s.drop_last(), allow);
        assert(s.last() == s[s.len() - 1]);
    }
}

/// Printing statements from `k` prints the suffix from `k`.
proof fn lemma_print_steps_shift(s: Seq<SpecTransition>, k: int)
    requires
        0 <= k <= s.len(),
    ensures
        spec_print_steps_from(s, k) == spec_print_steps_from(s.subrange(k, s.len() as int), 0),
    decreases s.len() - k,
{
    let suf = s.subrange(k, s.len() as int);
    if k < s.len() {
        lemma_print_steps_shift(s, k + 1);
        assert(suf[0] == s[k]);
        assert(s.subrange(k + 1, s.len() as int) =~= suf.subrange(1, suf.len() as int));
        assert(spec_print_steps_from(suf, 0) == spec_print_tran(suf[0]) + spec_print_steps_from(
            suf,
            1,
        ));
        assert(spec_print_steps_from(suf, 1) == spec_print_steps_from(
            suf.subrange(1, suf.len() as int),
            0,
        )) by {
            lemma_print_steps_shift(suf, 1);
        }
        lemma_print_steps_shift(s.subrange(k + 1, s.len() as int), 0);
    } else {
        assert(suf.len() == 0);
    }
}

/// A printed statement is at least one token, and its first token is never
/// an operator.
proof fn lemma_first_print_tok(tr: SpecTransition, allow: bool)
    requires
        canonical_tran(tr, allow),
    ensures
        spec_print_tran(tr).len() > 0,
        !spec_is_operator(spec_print_tran(tr)[0]),
{
    match tr {
        SpecTransition::Expression(e) => {
            match e {
                SpecExpr::Literal { value, .. } => {
                    lemma_literal_tok_facts(value);
                },
                SpecExpr::Op { operator, left, right } => {
                    assert(canonical_expr(e));
                    assert(canonical_operand(left));
                    let lit = left.steps[0]->Expression_0;
                    assert(canonical_expr(lit));
                    match lit {
                        SpecExpr::Literal { value, .. } => {
                            lemma_literal_tok_facts(value);
                            assert(spec_print_operand(left) == seq![value]);
                            assert(spec_print_tran(tr)[0] == value);
                        },
                        SpecExpr::Op { .. } => {
                            assert(false);
                        },
                    }
                },
            }
        },
        SpecTransition::VarDeclaration { .. } => {
            assert(spec_print_tran(tr)[0] == let_kw());
            assert(let_kw()[0] == 'l');
            assert(plus_tok().len() == 1 && tilde_tok().len() == 1);
        },
        SpecTransition::FuncDeclaration { .. } => {
            assert(spec_print_tran(tr)[0] == fn_kw());
            assert(fn_kw().len() == 2);
            assert(fn_kw()[0] == 'f');
            assert(plus_tok().len() == 1 && tilde_tok().len() == 1);
        },
    }
}

} // verus!

verus! {

/// A token the tokenizer reproduces: nonempty and whitespace-free.
pub open spec fn wf_tok(t: Seq<char>) -> bool {
    t.len() > 0 && forall|j: int| 0 <= j < t.len() ==> !is_ws(#[trigger] t[j])
}

pub open spec fn wf_toks(p: Seq<Seq<char>>) -> bool {
    forall|x: int| 0 <= x < p.len() ==> wf_tok(#[trigger] p[x])
}

spec fn nosemi_toks(p: Seq<Seq<char>>) -> bool {
    forall|x: int| 0 <= x < p.len() ==> !spec_has_char(#[trigger] p[x], ';')
}

spec fn nobrace_toks(p: Seq<Seq<char>>) -> bool {
    forall|x: int|
        0 <= x < p.len() ==> #[trigger] p[x] != open_brace_tok() && p[x] != close_brace_tok()
}

proof fn lemma_toks_app(a: Seq<Seq<char>>, b: Seq<Seq<char>>)
    ensures
        wf_toks(a + b) == (wf_toks(a) && wf_toks(b)),
        nosemi_toks(a + b) == (nosemi_toks(a) && nosemi_toks(b)),
        nobrace_toks(a + b) == (nobrace_toks(a) && nobrace_toks(b)),
{
    assert(forall|x: int| 0 <= x < a.len() ==> (a + b)[x] == #[trigger] a[x]);
    assert(forall|x: int| 0 <= x < b.len() ==> (a + b)[x + a.len()] == #[trigger] b[x]);
    assert forall|x: int| 0 <= x < (a + b).len() implies ((a + b)[x] == if x < a.len() {
        a[x]
    } else {
        b[x - a.len()]
    }) by {}
}

/// The punctuation words of the grammar are single well-formed tokens.
proof fn lemma_word_toks()
    ensures
        wf_tok(let_kw()) && !spec_has_char(let_kw(), ';') && let_kw() != open_brace_tok()
            && let_kw() != close_brace_tok(),
        wf_tok(fn_kw()) && !spec_has_char(fn_kw(), ';') && fn_kw() != open_brace_tok() && fn_kw()
            != close_brace_tok(),
        wf_tok(eq_tok()) && !spec_has_char(eq_tok(), ';') && eq_tok() != open_brace_tok()
            && eq_tok() != close_brace_tok(),
        wf_tok(semi_tok()) && semi_tok() != open_brace_tok() && semi_tok() != close_brace_tok(),
        spec_has_char(semi_tok(), ';'),
        wf_tok(plus_tok()) && !spec_has_char(plus_tok(), ';') && plus_tok() != open_brace_tok()
            && plus_tok() != close_brace_tok(),
        wf_tok(tilde_tok()) && !spec_has_char(tilde_tok(), ';') && tilde_tok()
            != open_brace_tok() && tilde_tok() != close_brace_tok(),
        wf_tok(open_brace_tok()) && !spec_has_char(open_brace_tok(), ';'),
        wf_tok(close_brace_tok()) && !spec_has_char(close_brace_tok(), ';'),
        open_brace_tok() != close_brace_tok(),
        let_kw() != fn_kw(),
{
    lemma_no_char(let_kw(), ';');
    lemma_no_char(fn_kw(), ';');
    lemma_no_char(eq_tok(), ';');
    lemma_no_char(plus_tok(), ';');
    lemma_no_char(tilde_tok(), ';');
    lemma_no_char(open_brace_tok(), ';');
    lemma_no_char(close_brace_tok(), ';');
    assert(semi_tok()[0] == ';');
    lemma_find_char(semi_tok(), ';', 0);
    if spec_find_char(semi_tok(), ';', 0) == 1 {
        assert(semi_tok()[0] != ';');
    }
}

proof fn lemma_join_args_no_char(args: Seq<Seq<char>>, k: int, c: char)
    requires
        c != ',',
        forall|x: int, j: int|
            0 <= x < args.len() && 0 <= j < args[x].len() ==> #[trigger] args[x][j] != c,
    ensures
        forall|j: int|
            0 <= j < spec_join_args_from(args, k).len() ==> #[trigger] spec_join_args_from(
                args,
                k,
            )[j] != c,
    decreases args.len() - k,
{
    if k < 0 || k >= args.len() {
    } else if k == args.len() - 1 {
    } else {
        lemma_join_args_no_char(args, k + 1, c);
        let a = args[k];
        let rest = spec_join_args_from(args, k + 1);
        let whole = a + seq![','] + rest;
        assert forall|j: int| 0 <= j < whole.len() implies whole[j] != c by {
            if j < a.len() {
                assert(whole[j] == a[j]);
            } else if j == a.len() {
                assert(whole[j] == ',');
            } else {
                assert(whole[j] == rest[j - a.len() - 1]);
            }
        }
    }
}

/// All the facts about a printed function header that reparsing needs.
proof fn lemma_header_facts(name: Seq<char>, args: Seq<Seq<char>>)
    requires
        plain_name(name),
        forall|j: int| 0 <= j < args.len() ==> plain_name(#[trigger] args[j]),
    ensures
        ({
            let jn = spec_join_args(args);
            let header = name + lparen_tok() + jn + rparen_tok();
            let piece = jn + rparen_tok();
            &&& wf_tok(header)
            &&& !spec_has_char(header, ';')
            &&& header != open_brace_tok()
            &&& header != close_brace_tok()
            &&& spec_find_char(header, '(', 0) == name.len()
            &&& spec_has_char(header, '(')
            &&& spec_before(header, '(') == name
            &&& header.subrange(name.len() as int + 1, header.len() as int) == piece
            &&& spec_find_char(piece, ')', 0) == jn.len()
            &&& spec_has_char(piece, ')')
            &&& spec_before(piece, ')') == jn
        }),
{
    let jn = spec_join_args(args);
    let header = name + lparen_tok() + jn + rparen_tok();
    let piece = jn + rparen_tok();
    assert(forall|x: int, j: int|
        0 <= x < args.len() && 0 <= j < args[x].len() ==> !is_ws(#[trigger] args[x][j])
            && args[x][j] != ';' && args[x][j] != '(' && args[x][j] != ')' && args[x][j] != '{'
            && args[x][j] != '}');
    lemma_join_args_no_char(args, 0, ';');
    lemma_join_args_no_char(args, 0, '(');
    lemma_join_args_no_char(args, 0, ')');
    lemma_join_args_no_char(args, 0, '{');
    lemma_join_args_no_char(args, 0, '}');
    lemma_join_args_no_char(args, 0, ' ');
    lemma_join_args_no_char(args, 0, '\n');
    lemma_join_args_no_char(args, 0, '\t');
    lemma_join_args_no_char(args, 0, '\r');
    assert forall|j: int| 0 <= j < header.len() implies (header[j] == if j < name.len() {
        name[j]
    } else if j == name.len() {
        '('
    } else if j < name.len() + 1 + jn.len() {
        jn[j - name.len() - 1]
    } else {
        ')'
    }) by {}
    assert(wf_tok(header));
    assert forall|j: int| 0 <= j < header.len() implies header[j] != ';' by {}
    lemma_no_char(header, ';');
    assert(header.len() >= 2);
    assert(open_brace_tok().len() == 1);
    assert(close_brace_tok().len() == 1);
    lemma_find_char(header, '(', 0);
    assert(header[name.len() as int] == '(');
    assert(forall|j: int| 0 <= j < name.len() ==> header[j] != '(');
    assert(spec_find_char(header, '(', 0) == name.len()) by {
        let r = spec_find_char(header, '(', 0);
        if r < name.len() {
            assert(header[r] == '(');
        }
        if r > name.len() {
            assert(header[name.len() as int] != '(');
        }
    }
    assert(spec_before(header, '(') =~= name);
    assert(header.subrange(name.len() as int + 1, header.len() as int) =~= piece);
    assert forall|j: int| 0 <= j < piece.len() implies (piece[j] == if j < jn.len() {
        jn[j]
    } else {
        ')'
    }) by {}
    lemma_find_char(piece, ')', 0);
    assert(piece[jn.len() as int] == ')');
    assert(spec_find_char(piece, ')', 0) == jn.len()) by {
        let r = spec_find_char(piece, ')', 0);
        if r < jn.len() {
            assert(piece[r] == ')');
        }
        if r > jn.len() {
            assert(piece[jn.len() as int] != ')');
        }
    }
    assert(spec_before(piece, ')') =~= jn);
}

/// Every token a canonical expression prints is well formed, free of `;`,
/// and not a brace.
proof fn lemma_print_expr_wf(e: SpecExpr)
    requires
        canonical_expr(e),
    ensures
        wf_toks(spec_print_expr(e)),
        nosemi_toks(spec_print_expr(e)),
        nobrace_toks(spec_print_expr(e)),
    decreases e,
{
    match e {
        SpecExpr::Literal { value, .. } => {
            lemma_literal_tok_facts(value);
            assert(spec_print_expr(e) =~= seq![value]);
        },
        SpecExpr::Op { operator, left, right } => {
            let le = left.steps[0]->Expression_0;
            let re = right.steps[0]->Expression_0;
            lemma_print_expr_wf(le);
            lemma_print_expr_wf(re);
            lemma_word_toks();
            assert(wf_toks(seq![spec_op_tok(operator)]));
            assert(nosemi_toks(seq![spec_op_tok(operator)]));
            assert(nobrace_toks(seq![spec_op_tok(operator)]));
            lemma_toks_app(spec_print_operand(left), seq![spec_op_tok(operator)]);
            lemma_toks_app(
                spec_print_operand(left) + seq![spec_op_tok(operator)],
                spec_print_operand(right),
            );
        },
    }
}

/// Every token a canonical statement sequence prints is well formed; when
/// declarations are disallowed, none carries a `;`.
proof fn lemma_print_steps_wf(s: Seq<SpecTransition>, allow: bool)
    requires
        canonical_steps(s, allow),
    ensures
        wf_toks(spec_print_steps_from(s, 0)),
        !allow ==> nosemi_toks(spec_print_steps_from(s, 0)),
    decreases s,
{
    if s.len() > 0 {
        lemma_canonical_steps_index(s, allow);
        let tr = s[0];
        let rest = s.subrange(1, s.len() as int);
        assert(forall|i: int| 0 <= i < rest.len() ==> canonical_tran(#[trigger] rest[i], allow))
            by {
            assert(forall|i: int| 0 <= i < rest.len() ==> rest[i] == s[i + 1]);
        }
        lemma_canonical_steps_from_index(rest, allow);
        lemma_print_steps_shift(s, 1);
        lemma_print_steps_wf(rest, allow);
        lemma_print_tran_wf(tr, allow);
        lemma_toks_app(spec_print_tran(tr), spec_print_steps_from(s, 1));
    }
}

proof fn lemma_print_tran_wf(tr: SpecTransition, allow: bool)
    requires
        canonical_tran(tr, allow),
    ensures
        wf_toks(spec_print_tran(tr)),
        !allow ==> nosemi_toks(spec_print_tran(tr)),
    decreases tr,
{
    lemma_word_toks();
    match tr {
        SpecTransition::Expression(e) => {
            lemma_print_expr_wf(e);
        },
        SpecTransition::VarDeclaration { name, value, .. } => {
            lemma_print_steps_wf(value.steps, false);
            let head = seq![let_kw(), name, eq_tok()];
            assert(wf_toks(head) && nosemi_toks(head)) by {
                assert(head[0] == let_kw() && head[1] == name && head[2] == eq_tok());
                lemma_no_char(name, ';');
            }
            lemma_toks_app(head, spec_print_steps_from(value.steps, 0));
            assert(wf_toks(seq![semi_tok()]));
            lemma_toks_app(head + spec_print_steps_from(value.steps, 0), seq![semi_tok()]);
        },
        SpecTransition::FuncDeclaration { name, arg_names, body } => {
            lemma_print_steps_wf(body.steps, allow);
            lemma_header_facts(name, arg_names);
            let header = name + lparen_tok() + spec_join_args(arg_names) + rparen_tok();
            let head = seq![fn_kw(), header, open_brace_tok()];
            assert(wf_toks(head) && nosemi_toks(head)) by {
                assert(head[0] == fn_kw() && head[1] == header && head[2] == open_brace_tok());
            }
            lemma_toks_app(head, spec_print_steps_from(body.steps, 0));
            assert(wf_toks(seq![close_brace_tok()]) && nosemi_toks(seq![close_brace_tok()]));
            lemma_toks_app(head + spec_print_steps_from(body.steps, 0), seq![close_brace_tok()]);
        },
    }
}

} // verus!

verus! {

proof fn lemma_region_split(toks: Seq<Seq<char>>, k: int, x: Seq<Seq<char>>, y: Seq<Seq<char>>)
    requires
        0 <= k,
        k + x.len() + y.len() <= toks.len(),
        toks.subrange(k, k + x.len() + y.len()) == x + y,
    ensures
        toks.subrange(k, k + x.len()) == x,
        toks.subrange(k + x.len(), k + x.len() + y.len()) == y,
{
    let whole = toks.subrange(k, k + x.len() + y.len());
    assert forall|i: int| 0 <= i < x.len() implies toks.subrange(k, k + x.len())[i] == x[i] by {
        assert(whole[i] == (x + y)[i]);
    }
    assert(toks.subrange(k, k + x.len()) =~= x);
    assert forall|i: int|
        0 <= i < y.len() implies toks.subrange(k + x.len(), k + x.len() + y.len())[i] == y[i] by {
        assert(whole[i + x.len()] == (x + y)[i + x.len()]);
    }
    assert(toks.subrange(k + x.len(), k + x.len() + y.len()) =~= y);
}

proof fn lemma_region_index(toks: Seq<Seq<char>>, k: int, p: Seq<Seq<char>>)
    requires
        0 <= k,
        k + p.len() <= toks.len(),
        toks.subrange(k, k + p.len()) == p,
    ensures
        forall|idx: int| 0 <= idx < p.len() ==> toks[k + idx] == #[trigger] p[idx],
{
    assert forall|idx: int| 0 <= idx < p.len() implies toks[k + idx] == #[trigger] p[idx] by {
        assert(toks.subrange(k, k + p.len())[idx] == toks[k + idx]);
    }
}

proof fn lemma_scan_nonbrace(toks: Seq<Seq<char>>, k: int, m: int, d: int)
    requires
        0 <= k <= m <= toks.len(),
        forall|x: int|
            k <= x < m ==> #[trigger] toks[x] != open_brace_tok() && toks[x]
                != close_brace_tok(),
    ensures
        spec_find_close_tok(toks, k, d) == spec_find_close_tok(toks, m, d),
    decreases m - k,
{
    if k < m {
        lemma_scan_nonbrace(toks, k + 1, m, d);
    }
}

/// Scanning for a closing brace steps over a printed canonical statement
/// sequence without change: its braces are balanced and never close more
/// than they open.
proof fn lemma_scan_steps(
    s: Seq<SpecTransition>,
    allow: bool,
    toks: Seq<Seq<char>>,
    k: int,
    d: int,
)
    requires
        canonical_steps(s, allow),
        0 <= k,
        d >= 1,
        k + spec_print_steps_from(s, 0).len() <= toks.len(),
        toks.subrange(k, k + spec_print_steps_from(s, 0).len()) == spec_print_steps_from(s, 0),
    ensures
        spec_find_close_tok(toks, k, d) == spec_find_close_tok(
            toks,
            k + spec_print_steps_from(s, 0).len(),
            d,
        ),
    decreases s, 1int,
{
    if s.len() > 0 {
        lemma_canonical_steps_index(s, allow);
        let tr = s[0];
        let rest = s.subrange(1, s.len() as int);
        assert(forall|i: int| 0 <= i < rest.len() ==> rest[i] == #[trigger] s[i + 1]);
        lemma_canonical_steps_from_index(rest, allow);
        lemma_print_steps_shift(s, 1);
        let a = spec_print_tran(tr);
        let restp = spec_print_steps_from(rest, 0);
        assert(spec_print_steps_from(s, 0) == a + restp);
        lemma_region_split(toks, k, a, restp);
        lemma_scan_tran(tr, allow, toks, k, d);
        lemma_scan_steps(rest, allow, toks, k + a.len(), d);
    }
}

proof fn lemma_scan_tran(tr: SpecTransition, allow: bool, toks: Seq<Seq<char>>, k: int, d: int)
    requires
        canonical_tran(tr, allow),
        0 <= k,
        d >= 1,
        k + spec_print_tran(tr).len() <= toks.len(),
        toks.subrange(k, k + spec_print_tran(tr).len()) == spec_print_tran(tr),
    ensures
        spec_find_close_tok(toks, k, d) == spec_find_close_tok(
            toks,
            k + spec_print_tran(tr).len(),
            d,
        ),
    decreases tr, 0int,
{
    lemma_word_toks();
    let a = spec_print_tran(tr);
    lemma_region_index(toks, k, a);
    match tr {
        SpecTransition::Expression(e) => {
            lemma_print_expr_wf(e);
            assert forall|x: int|
                k <= x < k + a.len() implies #[trigger] toks[x] != open_brace_tok() && toks[x]
                != close_brace_tok() by {
                assert(toks[x] == a[x - k]);
            }
            lemma_scan_nonbrace(toks, k, k + a.len(), d);
        },
        SpecTransition::VarDeclaration { name, value, .. } => {
            let head = seq![let_kw(), name, eq_tok()];
            let vp = spec_print_steps_from(value.steps, 0);
            assert(a =~= head + vp + seq![semi_tok()]);
            assert(a[0] == let_kw() && a[1] == name && a[2] == eq_tok());
            assert(a[a.len() - 1] == semi_tok()) by {
                assert(a == (head + vp) + seq![semi_tok()]);
            }
            assert forall|x: int|
                k <= x < k + 3 implies #[trigger] toks[x] != open_brace_tok() && toks[x]
                != close_brace_tok() by {
                assert(toks[x] == a[x - k]);
                assert(name != open_brace_tok() && name != close_brace_tok()) by {
                    assert(open_brace_tok()[0] == '{');
                    assert(close_brace_tok()[0] == '}');
                }
            }
            lemma_scan_nonbrace(toks, k, k + 3, d);
            assert(a =~= head + (vp + seq![semi_tok()]));
            assert(toks.subrange(k, k + head.len() + (vp + seq![semi_tok()]).len()) == head + (vp
                + seq![semi_tok()])) by {
                assert(k + head.len() + (vp + seq![semi_tok()]).len() == k + a.len());
            }
            lemma_region_split(toks, k, head, vp + seq![semi_tok()]);
            lemma_region_split(toks, k + 3, vp, seq![semi_tok()]);
            lemma_scan_steps(value.steps, false, toks, k + 3, d);
            assert(toks[k + 3 + vp.len()] == semi_tok()) by {
                lemma_region_index(toks, k + 3 + vp.len(), seq![semi_tok()]);
            }
            assert(spec_find_close_tok(toks, k + 3 + vp.len(), d) == spec_find_close_tok(
                toks,
                k + a.len(),
                d,
            )) by {
                lemma_scan_nonbrace(toks, k + 3 + vp.len(), k + a.len(), d);
            }
        },
        SpecTransition::FuncDeclaration { name, arg_names, body } => {
            let header = name + lparen_tok() + spec_join_args(arg_names) + rparen_tok();
            let head = seq![fn_kw(), header, open_brace_tok()];
            let bp = spec_print_steps_from(body.steps, 0);
            assert(a =~= head + bp + seq![close_brace_tok()]);
            lemma_header_facts(name, arg_names);
            assert(a[0] == fn_kw() && a[1] == header && a[2] == open_brace_tok());
            assert forall|x: int|
                k <= x < k + 2 implies #[trigger] toks[x] != open_brace_tok() && toks[x]
                != close_brace_tok() by {
                assert(toks[x] == a[x - k]);
            }
            lemma_scan_nonbrace(toks, k, k + 2, d);
            assert(a =~= head + (bp + seq![close_brace_tok()]));
            assert(toks.subrange(k, k + head.len() + (bp + seq![close_brace_tok()]).len()) == head
                + (bp + seq![close_brace_tok()])) by {
                assert(k + head.len() + (bp + seq![close_brace_tok()]).len() == k + a.len());
            }
            lemma_region_split(toks, k, head, bp + seq![close_brace_tok()]);
            lemma_region_split(toks, k + 3, bp, seq![close_brace_tok()]);
            assert(toks[k + 2] == open_brace_tok());
            assert(spec_find_close_tok(toks, k + 2, d) == spec_find_close_tok(toks, k + 3, d + 1));
            lemma_scan_steps(body.steps, allow, toks, k + 3, d + 1);
            assert(toks[k + 3 + bp.len()] == close_brace_tok()) by {
                lemma_region_index(toks, k + 3 + bp.len(), seq![close_brace_tok()]);
                assert(seq![close_brace_tok()][0] == close_brace_tok());
                assert(toks[k + 3 + bp.len() + 0] == seq![close_brace_tok()][0]);
            }
            assert(spec_find_close_tok(toks, k + 3 + bp.len(), d + 1) == spec_find_close_tok(
                toks,
                k + 3 + bp.len() + 1,
                d,
            ));
            assert(k + 3 + bp.len() + 1 == k + a.len());
        },
    }
}

} // verus!

verus! {

/// Splitting the joined argument list yields the argument names again.
proof fn lemma_split_join(args: Seq<Seq<char>>, k: int)
    requires
        0 <= k <= args.len(),
        forall|j: int| 0 <= j < args.len() ==> plain_name(#[trigger] args[j]),
    ensures
        spec_split_args(spec_join_args_from(args, k)) == args.subrange(k, args.len() as int),
    decreases args.len() - k,
{
    let jf = spec_join_args_from(args, k);
    if k >= args.len() {
        assert(jf.len() == 0);
        lemma_find_char(jf, ',', 0);
        assert(spec_before(jf, ':') =~= Seq::<char>::empty());
        assert(spec_split_args(jf) =~= args.subrange(k, args.len() as int));
    } else if k == args.len() - 1 {
        assert(jf == args[k]);
        lemma_find_char(jf, ',', 0);
        if spec_find_char(jf, ',', 0) < jf.len() {
            assert(jf[spec_find_char(jf, ',', 0)] == ',');
        }
        lemma_find_char(jf, ':', 0);
        if spec_find_char(jf, ':', 0) < jf.len() {
            assert(jf[spec_find_char(jf, ':', 0)] == ':');
        }
        assert(spec_before(jf, ':') =~= jf);
        assert(spec_arg_entry(jf) == seq![jf]);
        assert(spec_split_args(jf) =~= args.subrange(k, args.len() as int));
    } else {
        let a = args[k];
        let rest = spec_join_args_from(args, k + 1);
        assert(jf == a + seq![','] + rest);
        assert forall|j: int| 0 <= j < jf.len() implies (jf[j] == if j < a.len() {
            a[j]
        } else if j == a.len() {
            ','
        } else {
            rest[j - a.len() - 1]
        }) by {}
        lemma_find_char(jf, ',', 0);
        assert(jf[a.len() as int] == ',');
        let r = spec_find_char(jf, ',', 0);
        assert(r == a.len()) by {
            if r < a.len() {
                assert(jf[r] == ',');
            }
            if r > a.len() {
                assert(jf[a.len() as int] != ',');
            }
        }
        assert(jf.subrange(0, r) =~= a);
        lemma_find_char(a, ':', 0);
        if spec_find_char(a, ':', 0) < a.len() {
            assert(a[spec_find_char(a, ':', 0)] == ':');
        }
        assert(spec_before(a, ':') =~= a);
        assert(spec_arg_entry(a) == seq![a]);
        assert(jf.subrange(r + 1, jf.len() as int) =~= rest);
        lemma_split_join(args, k + 1);
        assert(seq![a] + args.subrange(k + 1, args.len() as int) =~= args.subrange(
            k,
            args.len() as int,
        ));
    }
}

proof fn lemma_find_semi_at(toks: Seq<Seq<char>>, k: int, m: int)
    requires
        0 <= k <= m < toks.len(),
        forall|x: int| k <= x < m ==> !spec_has_char(#[trigger] toks[x], ';'),
        spec_has_char(toks[m], ';'),
    ensures
        spec_find_semi_tok(toks, k) == m,
{
    lemma_find_semi_tok(toks, k);
    let r = spec_find_semi_tok(toks, k);
    if r < m {
        assert(spec_has_char(toks[r], ';'));
    }
    if r > m {
        assert(!spec_has_char(toks[m], ';'));
    }
}

/// Reparsing a printed canonical expression at its position yields the
/// expression and stops exactly at its end.
proof fn lemma_reparse_expr(e: SpecExpr, toks: Seq<Seq<char>>, i: int)
    requires
        canonical_expr(e),
        0 <= i,
        i + spec_print_expr(e).len() <= toks.len(),
        toks.subrange(i, i + spec_print_expr(e).len()) == spec_print_expr(e),
        i + spec_print_expr(e).len() == toks.len() || !spec_is_operator(
            toks[i + spec_print_expr(e).len()],
        ),
    ensures
        spec_parse_expr(toks, i) == Ok::<(SpecExpr, int), SpecError>(
            (e, i + spec_print_expr(e).len()),
        ),
    decreases e,
{
    let p = spec_print_expr(e);
    let n = i + p.len();
    lemma_region_index(toks, i, p);
    match e {
        SpecExpr::Literal { value, val_type } => {
            assert(p == seq![value]);
            assert(p[0] == value);
            assert(toks[i + 0] == p[0]);
            lemma_literal_tok_facts(value);
        },
        SpecExpr::Op { operator, left, right } => {
            let le = left.steps[0]->Expression_0;
            let re = right.steps[0]->Expression_0;
            assert(canonical_operand(left) && canonical_operand(right));
            assert(le is Literal && canonical_expr(le) && canonical_expr(re));
            let lv = le->Literal_value;
            assert(spec_is_literal_tok(lv));
            assert(le->Literal_val_type == spec_lit_type(lv));
            assert(left.return_type == spec_expr_type(le));
            assert(right.return_type == spec_expr_type(re));
            assert(spec_print_operand(left) == seq![lv]);
            let pr = spec_print_operand(right);
            assert(p =~= seq![lv, spec_op_tok(operator)] + pr);
            assert(p[0] == lv && p[1] == spec_op_tok(operator));
            assert(toks[i + 0] == p[0] && toks[i + 1] == p[1]);
            lemma_literal_tok_facts(lv);
            assert(spec_is_operator(toks[i + 1])) by {
                assert(plus_tok()[0] == '+');
            }
            assert(spec_op_of(toks[i + 1]) == operator) by {
                assert(plus_tok()[0] == '+' && tilde_tok()[0] == '~');
            }
            assert(toks.subrange(i + 2, n) =~= pr) by {
                assert(forall|x: int| 0 <= x < pr.len() ==> pr[x] == p[x + 2]);
            }
            assert(spec_print_expr(right.steps[0]->Expression_0) == pr);
            lemma_reparse_expr(re, toks, i + 2);
            let ty = spec_lit_type(lv);
            assert(ty == left.return_type);
            assert(spec_expr_type(re) == right.return_type);
            let lit = SpecExpr::Literal { value: lv, val_type: ty };
            assert(lit == le);
            assert(lit_tree(lit) == left) by {
                assert(seq![SpecTransition::Expression(lit)] =~= left.steps);
            }
            assert(lit_tree(re) == right) by {
                assert(seq![SpecTransition::Expression(re)] =~= right.steps);
            }
        },
    }
}

} // verus!

verus! {

proof fn lemma_expr_first_literal(e: SpecExpr)
    requires
        canonical_expr(e),
    ensures
        spec_print_expr(e).len() > 0,
        spec_is_literal_tok(spec_print_expr(e)[0]),
{
    match e {
        SpecExpr::Literal { value, .. } => {
            assert(spec_print_expr(e)[0] == value);
        },
        SpecExpr::Op { operator, left, right } => {
            let le = left.steps[0]->Expression_0;
            assert(canonical_operand(left) && le is Literal && canonical_expr(le));
            let lv = le->Literal_value;
            assert(spec_print_operand(left) == seq![lv]);
            assert(spec_print_expr(e)[0] == lv);
        },
    }
}

/// Reparsing the printed form of a canonical statement sequence, laid out
/// as the whole remaining input, yields exactly those statements.
proof fn lemma_reparse_steps(s: Seq<SpecTransition>, allow: bool, toks: Seq<Seq<char>>, i: int)
    requires
        canonical_steps(s, allow),
        0 <= i <= toks.len(),
        toks.subrange(i, toks.len() as int) == spec_print_steps_from(s, 0),
    ensures
        spec_parse(toks, i) == Ok::<SpecTree, SpecError>(
            SpecTree { steps: s, return_type: rt_of_steps(s) },
        ),
    decreases s,
{
    lemma_word_toks();
    let p = spec_print_steps_from(s, 0);
    assert(toks.len() - i == p.len());
    if s.len() == 0 {
        assert(i >= toks.len());
        assert(rt_of_steps(Seq::<SpecTransition>::empty()) == Type::Nothing);
        assert(s =~= Seq::<SpecTransition>::empty());
    } else {
        lemma_canonical_steps_index(s, allow);
        let tr = s[0];
        let rest = s.subrange(1, s.len() as int);
        assert(forall|x: int| 0 <= x < rest.len() ==> rest[x] == #[trigger] s[x + 1]);
        lemma_canonical_steps_from_index(rest, allow);
        lemma_print_steps_shift(s, 1);
        let a = spec_print_tran(tr);
        let restp = spec_print_steps_from(rest, 0);
        assert(p == a + restp);
        lemma_region_split(toks, i, a, restp);
        lemma_region_index(toks, i, a);
        let na = i + a.len();
        assert(toks.subrange(na, toks.len() as int) == restp) by {
            assert(toks.subrange(na, na + restp.len()) == restp);
            assert(na + restp.len() == toks.len());
        }
        lemma_reparse_steps(rest, allow, toks, na);
        let rest_tree = SpecTree { steps: rest, return_type: rt_of_steps(rest) };
        lemma_first_print_tok(tr, allow);
        assert(a.len() > 0);
        assert(i < toks.len());
        match tr {
            SpecTransition::Expression(e) => {
                assert(a == spec_print_expr(e));
                lemma_expr_first_literal(e);
                assert(toks[i + 0] == a[0]);
                lemma_literal_tok_facts(a[0]);
                if na < toks.len() {
                    assert(rest.len() > 0);
                    assert(restp == spec_print_tran(rest[0]) + spec_print_steps_from(rest, 1));
                    lemma_first_print_tok(rest[0], allow);
                    assert(restp[0] == spec_print_tran(rest[0])[0]);
                    lemma_region_index(toks, na, restp);
                    assert(toks[na + 0] == restp[0]);
                    assert(!spec_is_operator(toks[na]));
                }
                lemma_reparse_expr(e, toks, i);
                assert(spec_parse(toks, i) == cons_step(tr, spec_parse(toks, na)));
            },
            SpecTransition::VarDeclaration { name, var_type, value } => {
                let head = seq![let_kw(), name, eq_tok()];
                let vp = spec_print_steps_from(value.steps, 0);
                assert(a =~= head + (vp + seq![semi_tok()]));
                assert(toks.subrange(i, i + head.len() + (vp + seq![semi_tok()]).len()) == head
                    + (vp + seq![semi_tok()])) by {
                    assert(i + head.len() + (vp + seq![semi_tok()]).len() == i + a.len());
                }
                lemma_region_split(toks, i, head, vp + seq![semi_tok()]);
                lemma_region_split(toks, i + 3, vp, seq![semi_tok()]);
                lemma_region_index(toks, i + 3, vp);
                assert(a[0] == let_kw() && a[1] == name && a[2] == eq_tok()) by {
                    assert(a == head + (vp + seq![semi_tok()]));
                    assert(head[0] == let_kw() && head[1] == name && head[2] == eq_tok());
                }
                assert(toks[i + 0] == a[0] && toks[i + 1] == a[1] && toks[i + 2] == a[2]);
                let spos = i + 3 + vp.len();
                assert(toks[spos] == semi_tok()) by {
                    lemma_region_index(toks, spos, seq![semi_tok()]);
                    assert(seq![semi_tok()][0] == semi_tok());
                    assert(toks[spos + 0] == seq![semi_tok()][0]);
                }
                assert(canonical_tree(value, false));
                lemma_print_steps_wf(value.steps, false);
                assert forall|x: int| i + 3 <= x < spos implies !spec_has_char(
                    #[trigger] toks[x],
                    ';',
                ) by {
                    assert(toks[i + 3 + (x - i - 3)] == vp[x - i - 3]);
                }
                lemma_find_semi_at(toks, i + 3, spos);
                assert(semi_tok()[0] == ';');
                lemma_find_char(semi_tok(), ';', 0);
                assert(spec_find_char(semi_tok(), ';', 0) == 0) by {
                    if spec_find_char(semi_tok(), ';', 0) > 0 {
                        assert(semi_tok()[0] != ';');
                    }
                }
                let lastv = spec_before(toks[spos], ';');
                assert(lastv.len() == 0);
                let vtoks_spec = toks.subrange(i + 3, spos) + if lastv.len() > 0 {
                    seq![lastv]
                } else {
                    Seq::empty()
                };
                assert(vtoks_spec =~= vp);
                assert(vp.subrange(0, vp.len() as int) =~= vp);
                lemma_reparse_steps(value.steps, false, vp, 0);
                assert(spec_parse(vp, 0) == Ok::<SpecTree, SpecError>(value)) by {
                    assert(value == SpecTree {
                        steps: value.steps,
                        return_type: rt_of_steps(value.steps),
                    });
                }
                assert(spos + 1 == na);
                assert(spec_parse(toks, i) == cons_step(
                    SpecTransition::VarDeclaration {
                        name: toks[i + 1],
                        var_type: value.return_type,
                        value,
                    },
                    spec_parse(toks, na),
                ));
                assert(toks[i + 1] == name);
                assert(var_type == value.return_type);
            },
            SpecTransition::FuncDeclaration { name, arg_names, body } => {
                let jn = spec_join_args(arg_names);
                let header = name + lparen_tok() + jn + rparen_tok();
                let head = seq![fn_kw(), header, open_brace_tok()];
                let bp = spec_print_steps_from(body.steps, 0);
                assert(a =~= head + (bp + seq![close_brace_tok()]));
                assert(toks.subrange(i, i + head.len() + (bp + seq![close_brace_tok()]).len())
                    == head + (bp + seq![close_brace_tok()])) by {
                    assert(i + head.len() + (bp + seq![close_brace_tok()]).len() == i + a.len());
                }
                lemma_region_split(toks, i, head, bp + seq![close_brace_tok()]);
                lemma_region_split(toks, i + 3, bp, seq![close_brace_tok()]);
                lemma_region_index(toks, i + 3, bp);
                assert(a[0] == fn_kw() && a[1] == header && a[2] == open_brace_tok()) by {
                    assert(a == head + (bp + seq![close_brace_tok()]));
                    assert(head[0] == fn_kw() && head[1] == header && head[2]
                        == open_brace_tok());
                }
                assert(toks[i + 0] == a[0] && toks[i + 1] == a[1] && toks[i + 2] == a[2]);
                lemma_header_facts(name, arg_names);
                let piece = header.subrange(spec_find_char(header, '(', 0) + 1,
                    header.len() as int);
                assert(piece == jn + rparen_tok());
                assert(spec_gather_args(toks, i + 2, piece, spec_before(header, '(')) == Ok::<
                    (Seq<char>, int),
                    SpecError,
                >((jn, i + 2)));
                lemma_split_join(arg_names, 0);
                assert(spec_split_args(jn) == arg_names) by {
                    assert(arg_names.subrange(0, arg_names.len() as int) =~= arg_names);
                }
                assert(spec_find_brace_tok(toks, i + 2) == i + 2);
                let cpos = i + 3 + bp.len();
                assert(canonical_tree(body, allow));
                lemma_scan_steps(body.steps, allow, toks, i + 3, 1);
                assert(toks[cpos] == close_brace_tok()) by {
                    lemma_region_index(toks, cpos, seq![close_brace_tok()]);
                    assert(seq![close_brace_tok()][0] == close_brace_tok());
                    assert(toks[cpos + 0] == seq![close_brace_tok()][0]);
                }
                assert(spec_find_close_tok(toks, i + 3, 1) == cpos);
                assert(toks.subrange(i + 3, cpos) == bp);
                assert(bp.subrange(0, bp.len() as int) =~= bp);
                lemma_reparse_steps(body.steps, allow, bp, 0);
                assert(spec_parse(bp, 0) == Ok::<SpecTree, SpecError>(body)) by {
                    assert(body == SpecTree {
                        steps: body.steps,
                        return_type: rt_of_steps(body.steps),
                    });
                }
                assert(cpos + 1 == na);
                assert(spec_parse(toks, i) == cons_step(
                    SpecTransition::FuncDeclaration {
                        name: spec_before(header, '('),
                        arg_names,
                        body,
                    },
                    spec_parse(toks, na),
                ));
                assert(spec_before(header, '(') == name);
            },
        }
        assert(cons_step(tr, spec_parse(toks, na)) == Ok::<SpecTree, SpecError>(
            SpecTree { steps: s, return_type: rt_of_steps(s) },
        )) by {
            assert(seq![tr] + rest_tree.steps =~= s);
        }
    }
}

} // verus!

verus! {

proof fn lemma_tokens_append_ws(x: Seq<char>)
    ensures
        spec_tokens(x + seq![' ']) == spec_tokens(x),
{
    assert((x + seq![' ']).drop_last() =~= x);
    assert((x + seq![' ']).last() == ' ');
}

proof fn lemma_tokens_append_tok(x: Seq<char>, t: Seq<char>)
    requires
        wf_tok(t),
        x.len() == 0 || is_ws(x.last()),
    ensures
        spec_tokens(x + t) == spec_tokens(x).push(t),
    decreases t.len(),
{
    let s = x + t;
    if t.len() == 1 {
        assert(s.drop_last() =~= x);
        assert(s.last() == t[0]);
        assert(!is_ws(t[0]));
        if x.len() > 0 {
            assert(s[s.len() - 2] == x.last());
        }
        assert(spec_tokens(s) == spec_tokens(x).push(seq![t[0]]));
        assert(seq![t[0]] =~= t);
    } else {
        let t0 = t.drop_last();
        let c = t.last();
        assert(wf_tok(t0)) by {
            assert(forall|j: int| 0 <= j < t0.len() ==> t0[j] == #[trigger] t[j]);
        }
        lemma_tokens_append_tok(x, t0);
        assert(s.drop_last() =~= x + t0);
        assert(s.last() == c);
        assert(!is_ws(c));
        assert(s.len() >= 2);
        assert(s[s.len() - 2] == (x + t0).last());
        assert((x + t0).last() == t0.last());
        assert(!is_ws(t0.last()));
        let pre = spec_tokens(x + t0);
        assert(pre == spec_tokens(x).push(t0));
        assert(pre.len() > 0);
        assert(pre.last() == t0);
        assert(spec_tokens(s) == pre.update(pre.len() - 1, pre.last().push(c)));
        assert(t0.push(c) =~= t);
        assert(pre.update(pre.len() - 1, t0.push(c)) =~= spec_tokens(x).push(t));
    }
}

/// Tokenizing the space-joined form of well-formed tokens yields the
/// tokens again.
pub proof fn lemma_tokens_join(toks: Seq<Seq<char>>)
    requires
        wf_toks(toks),
    ensures
        spec_tokens(spec_join(toks)) == toks,
    decreases toks.len(),
{
    if toks.len() == 0 {
        assert(spec_tokens(spec_join(toks)) =~= toks);
    } else if toks.len() == 1 {
        assert(Seq::<char>::empty() + toks[0] =~= toks[0]);
        assert(wf_tok(toks[0]));
        lemma_tokens_append_tok(Seq::<char>::empty(), toks[0]);
        assert(spec_tokens(Seq::<char>::empty()) =~= Seq::<Seq<char>>::empty());
        assert(spec_tokens(spec_join(toks)) =~= toks);
    } else {
        let t0s = toks.drop_last();
        assert(wf_toks(t0s)) by {
            assert(forall|x: int| 0 <= x < t0s.len() ==> t0s[x] == #[trigger] toks[x]);
        }
        lemma_tokens_join(t0s);
        let xj = spec_join(t0s);
        assert(spec_join(toks) == xj + seq![' '] + toks.last());
        lemma_tokens_append_ws(xj);
        assert((xj + seq![' ']).last() == ' ');
        assert(wf_tok(toks.last()));
        lemma_tokens_append_tok(xj + seq![' '], toks.last());
        assert((xj + seq![' ']) + toks.last() =~= spec_join(toks));
        assert(spec_tokens(xj).push(toks.last()) =~= toks);
    }
}

/// Round trip at the token level: parsing the printed tokens of a
/// canonical tree yields the tree itself.
pub proof fn lemma_print_tokens_round_trip(t: SpecTree)
    requires
        canonical_tree(t, true),
    ensures
        spec_parse(spec_print_tree(t), 0) == Ok::<SpecTree, SpecError>(t),
{
    let p = spec_print_tree(t);
    assert(p.subrange(0, p.len() as int) =~= p);
    lemma_reparse_steps(t.steps, true, p, 0);
    assert(t == SpecTree { steps: t.steps, return_type: rt_of_steps(t.steps) });
}

/// The round-trip law: re-parsing the pretty-printed source text of a
/// canonical tree yields a structurally identical tree.
pub proof fn lemma_print_parse_round_trip(t: SpecTree)
    requires
        canonical_tree(t, true),
    ensures
        spec_parse(spec_tokens(spec_join(spec_print_tree(t))), 0) == Ok::<SpecTree, SpecError>(t),
{
    lemma_print_steps_wf(t.steps, true);
    lemma_tokens_join(spec_print_tree(t));
    lemma_print_tokens_round_trip(t);
}

} // verus!

verus! {

proof fn lemma_canonical_steps_cons(x: SpecTransition, s: Seq<SpecTransition>, allow: bool)
    ensures
        canonical_steps(seq![x] + s, allow) == (canonical_tran(x, allow) && canonical_steps(
            s,
            allow,
        )),
    decreases s.len(),
{
    if s.len() == 0 {
        assert(seq![x] + s =~= seq![x]);
        assert(seq![x].drop_last() =~= Seq::<SpecTransition>::empty());
        assert(seq![x].last() == x);
        assert(canonical_steps(Seq::<SpecTransition>::empty(), allow));
    } else {
        assert((seq![x] + s).drop_last() =~= seq![x] + s.drop_last());
        assert((seq![x] + s).last() == s.last());
        lemma_canonical_steps_cons(x, s.drop_last(), allow);
    }
}

/// Every expression the expression parser yields is canonical.
proof fn lemma_parse_expr_canonical(tokens: Seq<Seq<char>>, i: int)
    ensures
        spec_parse_expr(tokens, i) matches Ok(p) ==> canonical_expr(p.0),
    decreases tokens.len() - i,
{
    if 0 <= i < tokens.len() && spec_is_literal_tok(tokens[i]) && i + 1 < tokens.len()
        && spec_is_operator(tokens[i + 1]) {
        lemma_parse_expr_canonical(tokens, i + 2);
        match spec_parse_expr(tokens, i + 2) {
            Ok(p2) => {
                let t = tokens[i];
                let lit = SpecExpr::Literal { value: t, val_type: spec_lit_type(t) };
                assert(lit_tree(lit).steps[0] == SpecTransition::Expression(lit));
                assert(lit_tree(p2.0).steps[0] == SpecTransition::Expression(p2.0));
                assert(canonical_operand(lit_tree(lit)));
                assert(canonical_operand(lit_tree(p2.0)));
            },
            Err(_) => {},
        }
    }
}

/// A token sequence without `let` or `fn` parses, when it parses at all,
/// to a canonical tree.
pub proof fn lemma_parse_expr_program_canonical(tokens: Seq<Seq<char>>, i: int)
    requires
        forall|k: int|
            0 <= k < tokens.len() ==> #[trigger] tokens[k] != let_kw() && tokens[k] != fn_kw(),
    ensures
        spec_parse(tokens, i) matches Ok(t) ==> canonical_tree(t, true),
    decreases tokens.len() - i,
{
    if i < 0 || i >= tokens.len() {
        assert(canonical_steps(Seq::<SpecTransition>::empty(), true));
        assert(rt_of_steps(Seq::<SpecTransition>::empty()) == Type::Nothing);
    } else {
        lemma_parse_expr_canonical(tokens, i);
        lemma_parse_expr_bounds(tokens, i);
        match spec_parse_expr(tokens, i) {
            Ok(p) => {
                lemma_parse_expr_program_canonical(tokens, p.1);
                match spec_parse(tokens, p.1) {
                    Ok(rest) => {
                        lemma_canonical_steps_cons(
                            SpecTransition::Expression(p.0),
                            rest.steps,
                            true,
                        );
                    },
                    Err(_) => {},
                }
            },
            Err(_) => {},
        }
    }
}

/// The round trip holds of every successfully parsed declaration-free
/// program: whatever parses from a token sequence without `let` or `fn`
/// re-parses from its printed form to a structurally identical tree.
pub proof fn lemma_round_trip_expr_program(tokens: Seq<Seq<char>>)
    requires
        forall|k: int|
            0 <= k < tokens.len() ==> #[trigger] tokens[k] != let_kw() && tokens[k] != fn_kw(),
    ensures
        spec_parse(tokens, 0) matches Ok(t) ==> spec_parse(
            spec_tokens(spec_join(spec_print_tree(t))),
            0,
        ) == Ok::<SpecTree, SpecError>(t),
{
    lemma_parse_expr_program_canonical(tokens, 0);
    match spec_parse(tokens, 0) {
        Ok(t) => {
            lemma_print_parse_round_trip(t);
        },
        Err(_) => {},
    }
}

} // verus!
