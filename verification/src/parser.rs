//! Recursive-descent parsing of the token sequence into a syntax tree.
//!
//! The grammar, over whitespace-separated tokens:
//!
//! ```text
//! program      := statement*
//! statement    := let_decl | fn_decl | expression
//! let_decl     := "let" NAME "=" expression ... TOKEN-with-";"
//! fn_decl      := "fn" NAME "(" [ARG ("," ARG)*] ")" "{" statement* "}"
//! expression   := literal [operator expression]
//! operator     := "+" (chordal) | "~" (rhythmic)
//! ```
//!
//! A `let` consumes value tokens up to and including the first token that
//! holds a `;`; the part of that token after the `;` is dropped. A function
//! name may be fused with the opening parenthesis (`name(a,b)`), argument
//! entries may carry `: type` annotations (stored nowhere, the name before
//! the `:` is kept), and the tokens between `)` and the `{` that opens the
//! body are skipped, so a return-type annotation is tolerated. The body runs
//! to the matching `}` token, counting nested standalone braces.
//!
//! `spec_parse` is the mathematical parser; the executable functions return
//! exactly its result.

use vstd::prelude::*;
use vstd::string::StrSliceExecFns;
use vstd::string::StringExecFns;

use crate::ast::{
    rt_of_steps, spec_expr_type, SpecError, SpecExpr, SpecTransition, SpecTree, Type, Operator,
    Expression, Transition, SyntaxTree, ParseError, has_expr, steps_view, lemma_rt_of_steps_append,
    spec_tran_type, tran_view,
};
use crate::lexer::{
    spec_is_note_literal, spec_is_numeric_literal, spec_tokens, tokens_view, tokenize,
    is_note_literal, is_numeric_literal,
};
use crate::strutil::{
    spec_find_char, spec_before, spec_has_char, find_char, has_char, before_char, after_char,
    str_eq, lemma_find_char,
};

verus! {

pub open spec fn let_kw() -> Seq<char> {
    seq!['l', 'e', 't']
}

pub open spec fn fn_kw() -> Seq<char> {
    seq!['f', 'n']
}

pub open spec fn eq_tok() -> Seq<char> {
    seq!['=']
}

pub open spec fn semi_tok() -> Seq<char> {
    seq![';']
}

pub open spec fn plus_tok() -> Seq<char> {
    seq!['+']
}

pub open spec fn tilde_tok() -> Seq<char> {
    seq!['~']
}

pub open spec fn lparen_tok() -> Seq<char> {
    seq!['(']
}

pub open spec fn rparen_tok() -> Seq<char> {
    seq![')']
}

pub open spec fn open_brace_tok() -> Seq<char> {
    seq!['{']
}

pub open spec fn close_brace_tok() -> Seq<char> {
    seq!['}']
}

pub open spec fn name_word() -> Seq<char> {
    seq!['n', 'a', 'm', 'e']
}

pub open spec fn expr_word() -> Seq<char> {
    seq!['e', 'x', 'p', 'r', 'e', 's', 's', 'i', 'o', 'n']
}

/// A token that is a literal of either grammar.
pub open spec fn spec_is_literal_tok(t: Seq<char>) -> bool {
    spec_is_note_literal(t) || spec_is_numeric_literal(t)
}

/// The type of a literal token: the note grammar is tried first.
pub open spec fn spec_lit_type(t: Seq<char>) -> Type {
    if spec_is_note_literal(t) {
        Type::Note
    } else {
        Type::Number
    }
}

/// A token that is a combination operator.
pub open spec fn spec_is_operator(t: Seq<char>) -> bool {
    t == plus_tok() || t == tilde_tok()
}

pub open spec fn spec_op_of(t: Seq<char>) -> Operator {
    if t == plus_tok() {
        Operator::ChordalAdd
    } else {
        Operator::RhythmicAdd
    }
}

/// The operand types an operator accepts: notes and chords, never numbers.
pub open spec fn is_musical(t: Type) -> bool {
    t == Type::Note || t == Type::Chord
}

/// The single-expression tree an operand of an operator is wrapped in.
pub open spec fn lit_tree(e: SpecExpr) -> SpecTree {
    SpecTree {
        steps: seq![SpecTransition::Expression(e)],
        return_type: spec_expr_type(e),
    }
}

/// Prepends a parsed statement to the parse of the remaining tokens.
pub open spec fn cons_step(tr: SpecTransition, rest: Result<SpecTree, SpecError>) -> Result<
    SpecTree,
    SpecError,
> {
    match rest {
        Err(e) => Err(e),
        Ok(t) => Ok(
            SpecTree {
                steps: seq![tr] + t.steps,
                return_type: rt_of_steps(seq![tr] + t.steps),
            },
        ),
    }
}

/// Index of the first token at or after `k` that holds a `;`, or the length
/// if there is none.
pub open spec fn spec_find_semi_tok(tokens: Seq<Seq<char>>, k: int) -> int
    decreases tokens.len() - k,
{
    if k < 0 || k >= tokens.len() {
        tokens.len() as int
    } else if spec_has_char(tokens[k], ';') {
        k
    } else {
        spec_find_semi_tok(tokens, k + 1)
    }
}

/// Index of the first token at or after `k` that is exactly `{`, or the
/// length if there is none.
pub open spec fn spec_find_brace_tok(tokens: Seq<Seq<char>>, k: int) -> int
    decreases tokens.len() - k,
{
    if k < 0 || k >= tokens.len() {
        tokens.len() as int
    } else if tokens[k] == open_brace_tok() {
        k
    } else {
        spec_find_brace_tok(tokens, k + 1)
    }
}

/// Index of the `}` token that closes `depth` open braces, scanning from
/// `k`, or the length if the braces never close.
pub open spec fn spec_find_close_tok(tokens: Seq<Seq<char>>, k: int, depth: int) -> int
    decreases tokens.len() - k,
{
    if k < 0 || k >= tokens.len() {
        tokens.len() as int
    } else if tokens[k] == close_brace_tok() && depth == 1 {
        k
    } else {
        let d2 = if tokens[k] == close_brace_tok() {
            depth - 1
        } else if tokens[k] == open_brace_tok() {
            depth + 1
        } else {
            depth
        };
        spec_find_close_tok(tokens, k + 1, d2)
    }
}

/// The argument name an entry of the argument list contributes: the part
/// before a `: type` annotation, dropped entirely when empty.
pub open spec fn spec_arg_entry(x: Seq<char>) -> Seq<Seq<char>> {
    let y = spec_before(x, ':');
    if y.len() == 0 {
        Seq::empty()
    } else {
        seq![y]
    }
}

/// The argument names contributed by one piece of the argument list,
/// splitting the piece at every `,`.
pub open spec fn spec_split_args(p: Seq<char>) -> Seq<Seq<char>>
    decreases p.len(),
{
    let k = spec_find_char(p, ',', 0);
    if k < 0 || k >= p.len() {
        spec_arg_entry(p)
    } else {
        spec_arg_entry(p.subrange(0, k)) + spec_split_args(p.subrange(k + 1, p.len() as int))
    }
}

/// Gathers the text of the argument list: `piece` (the text after `(` in
/// the token before `k`) joined with the following tokens, up to but not
/// including the first `)`. Returns the text and the index of the first
/// token after the one holding the `)`.
pub open spec fn spec_gather_args(
    tokens: Seq<Seq<char>>,
    k: int,
    piece: Seq<char>,
    fname: Seq<char>,
) -> Result<(Seq<char>, int), SpecError>
    decreases tokens.len() - k,
{
    if spec_has_char(piece, ')') {
        Ok((spec_before(piece, ')'), k))
    } else if k < 0 || k >= tokens.len() {
        Err(SpecError::SyntaxError { missing: rparen_tok(), context: fname })
    } else {
        match spec_gather_args(tokens, k + 1, tokens[k], fname) {
            Err(e) => Err(e),
            Ok((text, m)) => Ok((piece + text, m)),
        }
    }
}

/// The argument names of a function header: the gathered argument-list
/// text, split at every `,`.
pub open spec fn spec_parse_args(
    tokens: Seq<Seq<char>>,
    k: int,
    piece: Seq<char>,
    fname: Seq<char>,
) -> Result<(Seq<Seq<char>>, int), SpecError> {
    match spec_gather_args(tokens, k, piece, fname) {
        Err(e) => Err(e),
        Ok((text, m)) => Ok((spec_split_args(text), m)),
    }
}

/// Parses one expression starting at token `i`: a literal, optionally
/// combined with the expression after a following operator token. Returns
/// the expression and the index of the first unconsumed token.
pub open spec fn spec_parse_expr(tokens: Seq<Seq<char>>, i: int) -> Result<
    (SpecExpr, int),
    SpecError,
>
    decreases tokens.len() - i,
{
    if i < 0 || i >= tokens.len() {
        Err(SpecError::SyntaxError { missing: expr_word(), context: Seq::empty() })
    } else {
        let t = tokens[i];
        if !spec_is_literal_tok(t) {
            Err(SpecError::LexError { token: t })
        } else {
            let ty = spec_lit_type(t);
            let lit = SpecExpr::Literal { value: t, val_type: ty };
            if i + 1 < tokens.len() && spec_is_operator(tokens[i + 1]) {
                let op = spec_op_of(tokens[i + 1]);
                match spec_parse_expr(tokens, i + 2) {
                    Err(e) => Err(e),
                    Ok((right, j)) => {
                        let rt = spec_expr_type(right);
                        if !is_musical(ty) {
                            Err(SpecError::TypeError { operator: op, offending: ty })
                        } else if !is_musical(rt) {
                            Err(SpecError::TypeError { operator: op, offending: rt })
                        } else if op == Operator::RhythmicAdd && ty != rt {
                            Err(SpecError::TypeError { operator: op, offending: rt })
                        } else {
                            Ok(
                                (
                                    SpecExpr::Op {
                                        operator: op,
                                        left: lit_tree(lit),
                                        right: lit_tree(right),
                                    },
                                    j,
                                ),
                            )
                        }
                    },
                }
            } else {
                Ok((lit, i + 1))
            }
        }
    }
}

pub proof fn lemma_find_semi_tok(tokens: Seq<Seq<char>>, k: int)
    requires
        0 <= k,
    ensures
        spec_find_semi_tok(tokens, k) <= tokens.len(),
        k <= tokens.len() ==> k <= spec_find_semi_tok(tokens, k),
        k > tokens.len() ==> spec_find_semi_tok(tokens, k) == tokens.len(),
        forall|j: int|
            k <= j < spec_find_semi_tok(tokens, k) ==> !spec_has_char(#[trigger] tokens[j], ';'),
        spec_find_semi_tok(tokens, k) < tokens.len() ==> spec_has_char(
            tokens[spec_find_semi_tok(tokens, k)],
            ';',
        ),
    decreases tokens.len() - k,
{
    if 0 <= k < tokens.len() && !spec_has_char(tokens[k], ';') {
        lemma_find_semi_tok(tokens, k + 1);
    }
}

pub proof fn lemma_find_brace_tok(tokens: Seq<Seq<char>>, k: int)
    requires
        0 <= k,
    ensures
        spec_find_brace_tok(tokens, k) <= tokens.len(),
        k <= tokens.len() ==> k <= spec_find_brace_tok(tokens, k),
        forall|j: int| k <= j < spec_find_brace_tok(tokens, k) ==> tokens[j] != open_brace_tok(),
        spec_find_brace_tok(tokens, k) < tokens.len() ==> tokens[spec_find_brace_tok(tokens, k)]
            == open_brace_tok(),
    decreases tokens.len() - k,
{
    if 0 <= k < tokens.len() && tokens[k] != open_brace_tok() {
        lemma_find_brace_tok(tokens, k + 1);
    }
}

pub proof fn lemma_find_close_tok(tokens: Seq<Seq<char>>, k: int, depth: int)
    requires
        0 <= k,
    ensures
        spec_find_close_tok(tokens, k, depth) <= tokens.len(),
        k <= tokens.len() ==> k <= spec_find_close_tok(tokens, k, depth),
        spec_find_close_tok(tokens, k, depth) < tokens.len() ==> tokens[spec_find_close_tok(
            tokens,
            k,
            depth,
        )] == close_brace_tok(),
    decreases tokens.len() - k,
{
    if 0 <= k < tokens.len() && !(tokens[k] == close_brace_tok() && depth == 1) {
        let d2 = if tokens[k] == close_brace_tok() {
            depth - 1
        } else if tokens[k] == open_brace_tok() {
            depth + 1
        } else {
            depth
        };
        lemma_find_close_tok(tokens, k + 1, d2);
    }
}

pub proof fn lemma_parse_args_bounds(
    tokens: Seq<Seq<char>>,
    k: int,
    piece: Seq<char>,
    fname: Seq<char>,
)
    requires
        k <= tokens.len(),
    ensures
        spec_parse_args(tokens, k, piece, fname) matches Ok(r) ==> k <= r.1 <= tokens.len(),
    decreases tokens.len() - k,
{
    if !spec_has_char(piece, ')') && 0 <= k < tokens.len() {
        lemma_parse_args_bounds(tokens, k + 1, tokens[k], fname);
    }
}

pub proof fn lemma_parse_expr_bounds(tokens: Seq<Seq<char>>, i: int)
    ensures
        spec_parse_expr(tokens, i) matches Ok(r) ==> i < r.1 <= tokens.len(),
    decreases tokens.len() - i,
{
    if 0 <= i < tokens.len() && spec_is_literal_tok(tokens[i]) && i + 1 < tokens.len()
        && spec_is_operator(tokens[i + 1]) {
        lemma_parse_expr_bounds(tokens, i + 2);
    }
}

pub proof fn lemma_parse_args_bounds_all(tokens: Seq<Seq<char>>)
    ensures
        forall|k: int, piece: Seq<char>, fname: Seq<char>|
            (0 <= k <= tokens.len() && #[trigger] spec_parse_args(tokens, k, piece, fname) is Ok)
                ==> k <= spec_parse_args(tokens, k, piece, fname)->Ok_0.1 <= tokens.len(),
{
    assert forall|k: int, piece: Seq<char>, fname: Seq<char>|
        0 <= k <= tokens.len() && #[trigger] spec_parse_args(tokens, k, piece, fname)
            is Ok implies k <= spec_parse_args(tokens, k, piece, fname)->Ok_0.1
        <= tokens.len() by {
        lemma_parse_args_bounds(tokens, k, piece, fname);
    }
}

pub proof fn lemma_parse_expr_bounds_all(tokens: Seq<Seq<char>>)
    ensures
        forall|i: int|
            #[trigger] spec_parse_expr(tokens, i) is Ok ==> i < spec_parse_expr(
                tokens,
                i,
            )->Ok_0.1 <= tokens.len(),
{
    assert forall|i: int| #[trigger] spec_parse_expr(tokens, i) is Ok implies i < spec_parse_expr(
        tokens,
        i,
    )->Ok_0.1 <= tokens.len() by {
        lemma_parse_expr_bounds(tokens, i);
    }
}

pub proof fn lemma_find_semi_tok_all(tokens: Seq<Seq<char>>)
    ensures
        forall|k: int|
            0 <= k ==> #[trigger] spec_find_semi_tok(tokens, k) <= tokens.len(),
        forall|k: int|
            0 <= k <= tokens.len() ==> k <= #[trigger] spec_find_semi_tok(tokens, k),
{
    assert forall|k: int| 0 <= k implies #[trigger] spec_find_semi_tok(tokens, k)
        <= tokens.len() by {
        lemma_find_semi_tok(tokens, k);
    }
    assert forall|k: int| 0 <= k <= tokens.len() implies k <= #[trigger] spec_find_semi_tok(
        tokens,
        k,
    ) by {
        lemma_find_semi_tok(tokens, k);
    }
}

pub proof fn lemma_find_brace_tok_all(tokens: Seq<Seq<char>>)
    ensures
        forall|k: int|
            0 <= k ==> #[trigger] spec_find_brace_tok(tokens, k) <= tokens.len(),
        forall|k: int|
            0 <= k <= tokens.len() ==> k <= #[trigger] spec_find_brace_tok(tokens, k),
{
    assert forall|k: int| 0 <= k implies #[trigger] spec_find_brace_tok(tokens, k)
        <= tokens.len() by {
        lemma_find_brace_tok(tokens, k);
    }
    assert forall|k: int| 0 <= k <= tokens.len() implies k <= #[trigger] spec_find_brace_tok(
        tokens,
        k,
    ) by {
        lemma_find_brace_tok(tokens, k);
    }
}

pub proof fn lemma_find_close_tok_all(tokens: Seq<Seq<char>>)
    ensures
        forall|k: int, depth: int|
            0 <= k ==> #[trigger] spec_find_close_tok(tokens, k, depth) <= tokens.len(),
        forall|k: int, depth: int|
            0 <= k <= tokens.len() ==> k <= #[trigger] spec_find_close_tok(tokens, k, depth),
{
    assert forall|k: int, depth: int| 0 <= k implies #[trigger] spec_find_close_tok(
        tokens,
        k,
        depth,
    ) <= tokens.len() by {
        lemma_find_close_tok(tokens, k, depth);
    }
    assert forall|k: int, depth: int| 0 <= k <= tokens.len() implies k
        <= #[trigger] spec_find_close_tok(tokens, k, depth) by {
        lemma_find_close_tok(tokens, k, depth);
    }
}

/// Parses the statements from token `i` to the end. Out of range, the
/// program is empty: an empty tree of type `Nothing`.
pub open spec fn spec_parse(tokens: Seq<Seq<char>>, i: int) -> Result<SpecTree, SpecError>
    decreases tokens.len() - i,
    via spec_parse_dec
{
    if i < 0 || i >= tokens.len() {
        Ok(SpecTree { steps: Seq::empty(), return_type: Type::Nothing })
    } else if tokens[i] == let_kw() {
        if i + 1 >= tokens.len() {
            Err(SpecError::SyntaxError { missing: name_word(), context: let_kw() })
        } else if i + 2 >= tokens.len() || tokens[i + 2] != eq_tok() {
            Err(SpecError::SyntaxError { missing: eq_tok(), context: tokens[i + 1] })
        } else {
            let j = spec_find_semi_tok(tokens, i + 3);
            if j >= tokens.len() {
                Err(SpecError::SyntaxError { missing: semi_tok(), context: tokens[i + 1] })
            } else {
                let lastv = spec_before(tokens[j], ';');
                let vtoks = tokens.subrange(i + 3, j) + if lastv.len() > 0 {
                    seq![lastv]
                } else {
                    Seq::empty()
                };
                match spec_parse(vtoks, 0) {
                    Err(e) => Err(e),
                    Ok(vt) => cons_step(
                        SpecTransition::VarDeclaration {
                            name: tokens[i + 1],
                            var_type: vt.return_type,
                            value: vt,
                        },
                        spec_parse(tokens, j + 1),
                    ),
                }
            }
        }
    } else if tokens[i] == fn_kw() {
        if i + 1 >= tokens.len() {
            Err(SpecError::SyntaxError { missing: name_word(), context: fn_kw() })
        } else {
            let t1 = tokens[i + 1];
            let fused = spec_has_char(t1, '(');
            if !fused && (i + 2 >= tokens.len() || !spec_has_char(tokens[i + 2], '(')) {
                Err(SpecError::SyntaxError { missing: lparen_tok(), context: t1 })
            } else {
                let name = if fused {
                    spec_before(t1, '(')
                } else {
                    t1
                };
                let piece = if fused {
                    t1.subrange(spec_find_char(t1, '(', 0) + 1, t1.len() as int)
                } else {
                    tokens[i + 2].subrange(
                        spec_find_char(tokens[i + 2], '(', 0) + 1,
                        tokens[i + 2].len() as int,
                    )
                };
                let k = if fused {
                    i + 2
                } else {
                    i + 3
                };
                match spec_parse_args(tokens, k, piece, name) {
                    Err(e) => Err(e),
                    Ok((args, m)) => {
                        let b = spec_find_brace_tok(tokens, m);
                        if b >= tokens.len() {
                            Err(SpecError::SyntaxError { missing: open_brace_tok(), context: name })
                        } else {
                            let c = spec_find_close_tok(tokens, b + 1, 1);
                            if c >= tokens.len() {
                                Err(
                                    SpecError::SyntaxError {
                                        missing: close_brace_tok(),
                                        context: name,
                                    },
                                )
                            } else {
                                match spec_parse(tokens.subrange(b + 1, c), 0) {
                                    Err(e) => Err(e),
                                    Ok(body) => cons_step(
                                        SpecTransition::FuncDeclaration {
                                            name,
                                            arg_names: args,
                                            body,
                                        },
                                        spec_parse(tokens, c + 1),
                                    ),
                                }
                            }
                        }
                    },
                }
            }
        }
    } else {
        match spec_parse_expr(tokens, i) {
            Err(e) => Err(e),
            Ok((e, j)) => cons_step(SpecTransition::Expression(e), spec_parse(tokens, j)),
        }
    }
}

#[via_fn]
proof fn spec_parse_dec(tokens: Seq<Seq<char>>, i: int) {
    lemma_find_semi_tok_all(tokens);
    lemma_find_brace_tok_all(tokens);
    lemma_find_close_tok_all(tokens);
    lemma_parse_args_bounds_all(tokens);
    lemma_parse_expr_bounds_all(tokens);
}

} // verus!

verus! {

/// Prepends already-parsed steps to the parse of the remaining tokens.
pub open spec fn combine_rest(pre: Seq<SpecTransition>, rest: Result<SpecTree, SpecError>) -> Result<
    SpecTree,
    SpecError,
> {
    match rest {
        Err(e) => Err(e),
        Ok(t) => Ok(SpecTree { steps: pre + t.steps, return_type: rt_of_steps(pre + t.steps) }),
    }
}

/// Every tree the parser yields carries the type of its last expression.
pub proof fn lemma_spec_parse_rt(tokens: Seq<Seq<char>>, i: int)
    ensures
        spec_parse(tokens, i) matches Ok(t) ==> t.return_type == rt_of_steps(t.steps),
{
    if i < 0 || i >= tokens.len() {
        assert(rt_of_steps(Seq::<SpecTransition>::empty()) == Type::Nothing);
    }
}

pub proof fn lemma_steps_view_push(s: Seq<Transition>, x: Transition)
    ensures
        steps_view(s.push(x)) == steps_view(s).push(tran_view(x)),
{
    assert(s.push(x).drop_last() =~= s);
    assert(s.push(x).last() == x);
}

pub proof fn lemma_steps_view_one(s: Seq<Transition>)
    requires
        s.len() == 1,
    ensures
        steps_view(s) == seq![tran_view(s[0])],
{
    assert(s.drop_last() =~= Seq::<Transition>::empty());
    assert(s.last() == s[0]);
    assert(steps_view(Seq::<Transition>::empty()) == Seq::<SpecTransition>::empty());
    assert(steps_view(s) =~= seq![tran_view(s[0])]);
}

fn tok_is_let(t: &str) -> (r: bool)
    ensures
        r == (t@ == let_kw()),
{
    proof {
        reveal_strlit("let");
        assert("let"@ =~= let_kw());
    }
    str_eq(t, "let")
}

fn tok_is_fn(t: &str) -> (r: bool)
    ensures
        r == (t@ == fn_kw()),
{
    proof {
        reveal_strlit("fn");
        assert("fn"@ =~= fn_kw());
    }
    str_eq(t, "fn")
}

fn tok_is_eq(t: &str) -> (r: bool)
    ensures
        r == (t@ == eq_tok()),
{
    proof {
        reveal_strlit("=");
        assert("="@ =~= eq_tok());
    }
    str_eq(t, "=")
}

fn tok_is_plus(t: &str) -> (r: bool)
    ensures
        r == (t@ == plus_tok()),
{
    proof {
        reveal_strlit("+");
        assert("+"@ =~= plus_tok());
    }
    str_eq(t, "+")
}

fn tok_is_tilde(t: &str) -> (r: bool)
    ensures
        r == (t@ == tilde_tok()),
{
    proof {
        reveal_strlit("~");
        assert("~"@ =~= tilde_tok());
    }
    str_eq(t, "~")
}

fn tok_is_obrace(t: &str) -> (r: bool)
    ensures
        r == (t@ == open_brace_tok()),
{
    proof {
        reveal_strlit("{");
        assert("{"@ =~= open_brace_tok());
    }
    str_eq(t, "{")
}

fn tok_is_cbrace(t: &str) -> (r: bool)
    ensures
        r == (t@ == close_brace_tok()),
{
    proof {
        reveal_strlit("}");
        assert("}"@ =~= close_brace_tok());
    }
    str_eq(t, "}")
}

fn word_name() -> (r: String)
    ensures
        r@ == name_word(),
{
    proof {
        reveal_strlit("name");
        assert("name"@ =~= name_word());
    }
    String::from_str("name")
}

fn find_semi_tok(tokens: &Vec<String>, k: usize) -> (r: usize)
    requires
        k <= tokens@.len(),
    ensures
        r as int == spec_find_semi_tok(tokens_view(tokens@), k as int),
        r <= tokens@.len(),
    decreases tokens@.len() - k,
{
    if k >= tokens.len() {
        tokens.len()
    } else if has_char(tokens[k].as_str(), ';') {
        k
    } else {
        find_semi_tok(tokens, k + 1)
    }
}

fn find_brace_tok(tokens: &Vec<String>, k: usize) -> (r: usize)
    requires
        k <= tokens@.len(),
    ensures
        r as int == spec_find_brace_tok(tokens_view(tokens@), k as int),
        r <= tokens@.len(),
    decreases tokens@.len() - k,
{
    if k >= tokens.len() {
        tokens.len()
    } else if tok_is_obrace(tokens[k].as_str()) {
        k
    } else {
        find_brace_tok(tokens, k + 1)
    }
}

fn find_close_tok(tokens: &Vec<String>, k: usize, depth: u128) -> (r: usize)
    requires
        k <= tokens@.len(),
        1 <= depth,
        depth <= k as u128 + 1,
    ensures
        r as int == spec_find_close_tok(tokens_view(tokens@), k as int, depth as int),
        r <= tokens@.len(),
    decreases tokens@.len() - k,
{
    if k >= tokens.len() {
        tokens.len()
    } else {
        let close = tok_is_cbrace(tokens[k].as_str());
        if close && depth == 1 {
            k
        } else {
            let d2 = if close {
                depth - 1
            } else if tok_is_obrace(tokens[k].as_str()) {
                depth + 1
            } else {
                depth
            };
            find_close_tok(tokens, k + 1, d2)
        }
    }
}

fn arg_entry(x: &str) -> (r: Vec<String>)
    ensures
        tokens_view(r@) == spec_arg_entry(x@),
{
    let y = before_char(x, ':');
    let mut r: Vec<String> = Vec::new();
    if y.unicode_len() > 0 {
        r.push(String::from_str(y));
    }
    proof {
        assert(tokens_view(r@) =~= spec_arg_entry(x@));
    }
    r
}

fn split_args(p: &str) -> (r: Vec<String>)
    ensures
        tokens_view(r@) == spec_split_args(p@),
    decreases p@.len(),
{
    let n = p.unicode_len();
    let k = find_char(p, ',');
    if k >= n {
        arg_entry(p)
    } else {
        let mut r = arg_entry(p.substring_char(0, k));
        let mut rest = split_args(p.substring_char(k + 1, n));
        proof {
            assert(tokens_view(r@ + rest@) =~= tokens_view(r@) + tokens_view(rest@));
        }
        r.append(&mut rest);
        r
    }
}

fn parse_args(tokens: &Vec<String>, k: usize, piece: &str, fname: &str) -> (r: Result<
    (Vec<String>, usize),
    ParseError,
>)
    requires
        k <= tokens@.len(),
    ensures
        match r {
            Ok(p) => {
                &&& spec_parse_args(tokens_view(tokens@), k as int, piece@, fname@) == Ok::<
                    (Seq<Seq<char>>, int),
                    SpecError,
                >((tokens_view(p.0@), p.1 as int))
                &&& k <= p.1 <= tokens@.len()
            },
            Err(e) => spec_parse_args(tokens_view(tokens@), k as int, piece@, fname@) == Err::<
                (Seq<Seq<char>>, int),
                SpecError,
            >(e@),
        },
    decreases tokens@.len() - k,
{
    match gather_args(tokens, k, piece, fname) {
        Err(e) => Err(e),
        Ok((text, m)) => {
            let args = split_args(text.as_str());
            Ok((args, m))
        },
    }
}

fn gather_args(tokens: &Vec<String>, k: usize, piece: &str, fname: &str) -> (r: Result<
    (String, usize),
    ParseError,
>)
    requires
        k <= tokens@.len(),
    ensures
        match r {
            Ok(p) => {
                &&& spec_gather_args(tokens_view(tokens@), k as int, piece@, fname@) == Ok::<
                    (Seq<char>, int),
                    SpecError,
                >((p.0@, p.1 as int))
                &&& k <= p.1 <= tokens@.len()
            },
            Err(e) => spec_gather_args(tokens_view(tokens@), k as int, piece@, fname@) == Err::<
                (Seq<char>, int),
                SpecError,
            >(e@),
        },
    decreases tokens@.len() - k,
{
    if has_char(piece, ')') {
        Ok((String::from_str(before_char(piece, ')')), k))
    } else if k >= tokens.len() {
        proof {
            reveal_strlit(")");
            assert(")"@ =~= rparen_tok());
        }
        Err(
            ParseError::SyntaxError {
                missing: String::from_str(")"),
                context: String::from_str(fname),
            },
        )
    } else {
        match gather_args(tokens, k + 1, tokens[k].as_str(), fname) {
            Err(e) => Err(e),
            Ok((text, m)) => {
                let mut s = String::from_str(piece);
                s.append(text.as_str());
                Ok((s, m))
            },
        }
    }
}

/// The type of an already-built expression.
pub fn expr_type(e: &Expression) -> (r: Type)
    ensures
        r == spec_expr_type(e@),
{
    match e {
        Expression::Literal { val_type, .. } => *val_type,
        Expression::Op { operator, left, .. } => {
            if matches!(operator, Operator::ChordalAdd) {
                Type::Chord
            } else {
                left.return_type
            }
        },
    }
}

fn parse_expr(tokens: &Vec<String>, i: usize) -> (r: Result<(Expression, usize), ParseError>)
    requires
        i <= tokens@.len(),
    ensures
        match r {
            Ok(p) => {
                &&& spec_parse_expr(tokens_view(tokens@), i as int) == Ok::<
                    (SpecExpr, int),
                    SpecError,
                >((p.0@, p.1 as int))
                &&& i < p.1 <= tokens@.len()
            },
            Err(e) => spec_parse_expr(tokens_view(tokens@), i as int) == Err::<
                (SpecExpr, int),
                SpecError,
            >(e@),
        },
    decreases tokens@.len() - i,
{
    let n = tokens.len();
    if i >= n {
        proof {
            reveal_strlit("expression");
            assert("expression"@ =~= expr_word());
        }
        return Err(
            ParseError::SyntaxError { missing: String::from_str("expression"), context: String::new() },
        );
    }
    let t = &tokens[i];
    let note = is_note_literal(t.as_str());
    let num = is_numeric_literal(t.as_str());
    if !note && !num {
        return Err(ParseError::LexError { token: t.clone() });
    }
    let ty = if note {
        Type::Note
    } else {
        Type::Number
    };
    if i + 1 < n && (tok_is_plus(tokens[i + 1].as_str()) || tok_is_tilde(tokens[i + 1].as_str())) {
        let op = if tok_is_plus(tokens[i + 1].as_str()) {
            Operator::ChordalAdd
        } else {
            Operator::RhythmicAdd
        };
        match parse_expr(tokens, i + 2) {
            Err(e) => Err(e),
            Ok((right, j)) => {
                let rt = expr_type(&right);
                let lt_musical = ty == Type::Note || ty == Type::Chord;
                let rt_musical = rt == Type::Note || rt == Type::Chord;
                if !lt_musical {
                    Err(ParseError::TypeError { operator: op, offending: ty })
                } else if !rt_musical {
                    Err(ParseError::TypeError { operator: op, offending: rt })
                } else if matches!(op, Operator::RhythmicAdd) && ty != rt {
                    Err(ParseError::TypeError { operator: op, offending: rt })
                } else {
                    let lit = Expression::Literal { value: t.clone(), val_type: ty };
                    let left_tree = SyntaxTree {
                        steps: vec![Transition::Expression(lit)],
                        return_type: ty,
                    };
                    let right_tree = SyntaxTree {
                        steps: vec![Transition::Expression(right)],
                        return_type: rt,
                    };
                    proof {
                        lemma_steps_view_one(left_tree.steps@);
                        lemma_steps_view_one(right_tree.steps@);
                    }
                    Ok(
                        (
                            Expression::Op {
                                operator: op,
                                left: Box::new(left_tree),
                                right: Box::new(right_tree),
                            },
                            j,
                        ),
                    )
                }
            },
        }
    } else {
        Ok((Expression::Literal { value: t.clone(), val_type: ty }, i + 1))
    }
}

} // verus!

verus! {

fn word_let() -> (r: String)
    ensures
        r@ == let_kw(),
{
    proof {
        reveal_strlit("let");
        assert("let"@ =~= let_kw());
    }
    String::from_str("let")
}

fn word_fn() -> (r: String)
    ensures
        r@ == fn_kw(),
{
    proof {
        reveal_strlit("fn");
        assert("fn"@ =~= fn_kw());
    }
    String::from_str("fn")
}

fn word_eq() -> (r: String)
    ensures
        r@ == eq_tok(),
{
    proof {
        reveal_strlit("=");
        assert("="@ =~= eq_tok());
    }
    String::from_str("=")
}

fn word_semi() -> (r: String)
    ensures
        r@ == semi_tok(),
{
    proof {
        reveal_strlit(";");
        assert(";"@ =~= semi_tok());
    }
    String::from_str(";")
}

fn word_lparen() -> (r: String)
    ensures
        r@ == lparen_tok(),
{
    proof {
        reveal_strlit("(");
        assert("("@ =~= lparen_tok());
    }
    String::from_str("(")
}

fn word_obrace() -> (r: String)
    ensures
        r@ == open_brace_tok(),
{
    proof {
        reveal_strlit("{");
        assert("{"@ =~= open_brace_tok());
    }
    String::from_str("{")
}

fn word_cbrace() -> (r: String)
    ensures
        r@ == close_brace_tok(),
{
    proof {
        reveal_strlit("}");
        assert("}"@ =~= close_brace_tok());
    }
    String::from_str("}")
}

fn clone_range(tokens: &Vec<String>, from: usize, to: usize) -> (r: Vec<String>)
    requires
        from <= to <= tokens@.len(),
    ensures
        tokens_view(r@) == tokens_view(tokens@).subrange(from as int, to as int),
{
    let mut r: Vec<String> = Vec::new();
    let mut x = from;
    while x < to
        invariant
            from <= x <= to <= tokens@.len(),
            tokens_view(r@) == tokens_view(tokens@).subrange(from as int, x as int),
        decreases to - x,
    {
        let ghost oldv = r@;
        r.push(tokens[x].clone());
        proof {
            assert(tokens_view(r@) =~= tokens_view(oldv).push(tokens@[x as int]@));
            assert(tokens_view(tokens@).subrange(from as int, x + 1) =~= tokens_view(
                tokens@,
            ).subrange(from as int, x as int).push(tokens_view(tokens@)[x as int]));
        }
        x = x + 1;
    }
    r
}

fn parse_stmt(tokens: &Vec<String>, i: usize) -> (r: Result<(Transition, usize), ParseError>)
    requires
        i < tokens@.len(),
    ensures
        match r {
            Ok(p) => {
                &&& i < p.1 <= tokens@.len()
                &&& spec_parse(tokens_view(tokens@), i as int) == cons_step(
                    p.0@,
                    spec_parse(tokens_view(tokens@), p.1 as int),
                )
            },
            Err(e) => spec_parse(tokens_view(tokens@), i as int) == Err::<SpecTree, SpecError>(e@),
        },
    decreases tokens@.len(), 0int,
{
    let ghost tv = tokens_view(tokens@);
    let n = tokens.len();
    if tok_is_let(tokens[i].as_str()) {
        if i + 1 >= n {
            return Err(ParseError::SyntaxError { missing: word_name(), context: word_let() });
        }
        if i + 2 >= n || !tok_is_eq(tokens[i + 2].as_str()) {
            return Err(
                ParseError::SyntaxError { missing: word_eq(), context: tokens[i + 1].clone() },
            );
        }
        let j = find_semi_tok(tokens, i + 3);
        proof {
            lemma_find_semi_tok(tv, i + 3);
        }
        if j >= n {
            return Err(
                ParseError::SyntaxError { missing: word_semi(), context: tokens[i + 1].clone() },
            );
        }
        let mut vtoks = clone_range(tokens, i + 3, j);
        let lastv = before_char(tokens[j].as_str(), ';');
        if lastv.unicode_len() > 0 {
            let ghost oldv = vtoks@;
            vtoks.push(String::from_str(lastv));
            proof {
                assert(tokens_view(vtoks@) =~= tokens_view(oldv).push(lastv@));
                assert(tokens_view(vtoks@) =~= tv.subrange(i + 3, j as int) + seq![
                    spec_before(tv[j as int], ';'),
                ]);
            }
        } else {
            proof {
                assert(tokens_view(vtoks@) =~= tv.subrange(i + 3, j as int)
                    + Seq::<Seq<char>>::empty());
            }
        }
        match parse_tokens(&vtoks) {
            Err(e) => Err(e),
            Ok(vt) => {
                let ghost vtv = vt@;
                let tr = Transition::VarDeclaration {
                    name: tokens[i + 1].clone(),
                    var_type: vt.return_type,
                    value: Box::new(vt),
                };
                proof {
                    assert(tr@ == SpecTransition::VarDeclaration {
                        name: tv[i + 1],
                        var_type: vtv.return_type,
                        value: vtv,
                    });
                }
                Ok((tr, j + 1))
            },
        }
    } else if tok_is_fn(tokens[i].as_str()) {
        if i + 1 >= n {
            return Err(ParseError::SyntaxError { missing: word_name(), context: word_fn() });
        }
        let fused = has_char(tokens[i + 1].as_str(), '(');
        if !fused && (i + 2 >= n || !has_char(tokens[i + 2].as_str(), '(')) {
            return Err(
                ParseError::SyntaxError { missing: word_lparen(), context: tokens[i + 1].clone() },
            );
        }
        let name: String = if fused {
            String::from_str(before_char(tokens[i + 1].as_str(), '('))
        } else {
            tokens[i + 1].clone()
        };
        let piece: String = if fused {
            String::from_str(after_char(tokens[i + 1].as_str(), '('))
        } else {
            String::from_str(after_char(tokens[i + 2].as_str(), '('))
        };
        let k = if fused {
            i + 2
        } else {
            i + 3
        };
        match parse_args(tokens, k, piece.as_str(), name.as_str()) {
            Err(e) => Err(e),
            Ok((args, m)) => {
                let b = find_brace_tok(tokens, m);
                proof {
                    lemma_find_brace_tok(tv, m as int);
                }
                if b >= n {
                    return Err(
                        ParseError::SyntaxError { missing: word_obrace(), context: name },
                    );
                }
                let c = find_close_tok(tokens, b + 1, 1);
                proof {
                    lemma_find_close_tok(tv, b + 1, 1);
                }
                if c >= n {
                    return Err(
                        ParseError::SyntaxError { missing: word_cbrace(), context: name },
                    );
                }
                let btoks = clone_range(tokens, b + 1, c);
                proof {
                    assert(btoks@.len() == tokens_view(btoks@).len());
                    assert(tokens_view(btoks@).len() == c - b - 1);
                }
                match parse_tokens(&btoks) {
                    Err(e) => Err(e),
                    Ok(body) => {
                        let ghost bodyv = body@;
                        let tr = Transition::FuncDeclaration {
                            name,
                            arg_names: args,
                            body: Box::new(body),
                        };
                        Ok((tr, c + 1))
                    },
                }
            },
        }
    } else {
        match parse_expr(tokens, i) {
            Err(e) => Err(e),
            Ok((e, j)) => Ok((Transition::Expression(e), j)),
        }
    }
}

/// Parses a full token sequence into a syntax tree, returning exactly the
/// result of the mathematical parser `spec_parse`.
pub fn parse_tokens(tokens: &Vec<String>) -> (r: Result<SyntaxTree, ParseError>)
    ensures
        match r {
            Ok(t) => spec_parse(tokens_view(tokens@), 0) == Ok::<SpecTree, SpecError>(t@),
            Err(e) => spec_parse(tokens_view(tokens@), 0) == Err::<SpecTree, SpecError>(e@),
        },
    decreases tokens@.len(), 1int,
{
    let ghost tv = tokens_view(tokens@);
    let mut steps: Vec<Transition> = Vec::new();
    let mut rt = Type::Nothing;
    let mut i: usize = 0;
    proof {
        lemma_spec_parse_rt(tv, 0);
        assert(steps_view(steps@) =~= Seq::<SpecTransition>::empty());
        match spec_parse(tv, 0) {
            Ok(t) => {
                assert(Seq::<SpecTransition>::empty() + t.steps =~= t.steps);
            },
            Err(_) => {},
        }
    }
    while i < tokens.len()
        invariant
            i <= tokens@.len(),
            tv == tokens_view(tokens@),
            rt == rt_of_steps(steps_view(steps@)),
            spec_parse(tv, 0) == combine_rest(steps_view(steps@), spec_parse(tv, i as int)),
        decreases tokens@.len() - i,
    {
        match parse_stmt(tokens, i) {
            Err(e) => {
                return Err(e);
            },
            Ok((tr, j)) => {
                let ghost pre = steps_view(steps@);
                let ghost trv = tr@;
                proof {
                    match spec_parse(tv, j as int) {
                        Ok(t) => {
                            assert(pre + (seq![trv] + t.steps) =~= pre.push(trv) + t.steps);
                        },
                        Err(_) => {},
                    }
                    lemma_rt_of_steps_append(pre, seq![trv]);
                    assert(seq![trv].drop_last() =~= Seq::<SpecTransition>::empty());
                    assert(seq![trv].last() == trv);
                    assert(rt_of_steps(Seq::<SpecTransition>::empty()) == Type::Nothing);
                    assert(rt_of_steps(seq![trv]) == spec_tran_type(trv));
                    assert(pre + seq![trv] =~= pre.push(trv));
                }
                match &tr {
                    Transition::Expression(e) => {
                        rt = expr_type(e);
                        proof {
                            assert(trv is Expression);
                            assert(has_expr(seq![trv])) by {
                                assert(seq![trv][0] is Expression);
                            }
                        }
                    },
                    _ => {
                        proof {
                            assert(!has_expr(seq![trv])) by {
                                assert(forall|q: int|
                                    0 <= q < seq![trv].len() ==> seq![trv][q] == trv);
                            }
                        }
                    },
                }
                proof {
                    lemma_steps_view_push(steps@, tr);
                }
                steps.push(tr);
                i = j;
            },
        }
    }
    proof {
        match spec_parse(tv, i as int) {
            Ok(t) => {
                assert(t.steps =~= Seq::<SpecTransition>::empty());
                assert(steps_view(steps@) + t.steps =~= steps_view(steps@));
            },
            Err(_) => {},
        }
    }
    Ok(SyntaxTree { steps, return_type: rt })
}

/// Parses source text: tokenize, then parse the token sequence. Returns the
/// abstract syntax tree, or the first error encountered in source order.
pub fn parse(prog_str: String) -> (r: Result<SyntaxTree, ParseError>)
    ensures
        match r {
            Ok(t) => spec_parse(spec_tokens(prog_str@), 0) == Ok::<SpecTree, SpecError>(t@),
            Err(e) => spec_parse(spec_tokens(prog_str@), 0) == Err::<SpecTree, SpecError>(e@),
        },
        r matches Ok(t) ==> wf_tree(t@),
{
    proof {
        lemma_spec_parse_wf(spec_tokens(prog_str@), 0);
    }
    let tokens = tokenize(prog_str.as_str());
    parse_tokens(&tokens)
}

} // verus!

verus! {

/// Shape facts about note literals: at least two characters, so never a
/// keyword or an operator token.
pub proof fn lemma_note_literal_shape(t: Seq<char>)
    requires
        spec_is_note_literal(t),
    ensures
        t.len() >= 2,
        t != let_kw(),
        t != fn_kw(),
        !spec_is_operator(t),
{
    if t.len() > 0 && (t[0] == '^' || t[0] == '_') {
        assert(t.skip(1).len() >= 2);
        assert(t != let_kw()) by {
            assert(let_kw()[0] == 'l');
        }
        assert(t != fn_kw()) by {
            assert(fn_kw()[0] == 'f');
        }
    } else {
        assert(t != let_kw()) by {
            assert(let_kw()[0] == 'l');
        }
        assert(t != fn_kw()) by {
            assert(fn_kw()[0] == 'f');
        }
    }
    assert(plus_tok().len() == 1);
    assert(tilde_tok().len() == 1);
}

/// A token sequence of note literals alone parses, from any position, to
/// those literals in source order, each classified `Note`; the program type
/// is `Note`, or `Nothing` when no token remains.
pub proof fn lemma_parse_all_notes(tokens: Seq<Seq<char>>, i: int)
    requires
        0 <= i <= tokens.len(),
        forall|k: int| 0 <= k < tokens.len() ==> spec_is_note_literal(#[trigger] tokens[k]),
    ensures
        spec_parse(tokens, i) is Ok,
        spec_parse(tokens, i)->Ok_0.steps.len() == tokens.len() - i,
        forall|k: int|
            0 <= k < tokens.len() - i ==> spec_parse(tokens, i)->Ok_0.steps[k]
                == SpecTransition::Expression(
                SpecExpr::Literal { value: tokens[i + k], val_type: Type::Note },
            ),
        spec_parse(tokens, i)->Ok_0.return_type == if i == tokens.len() {
            Type::Nothing
        } else {
            Type::Note
        },
    decreases tokens.len() - i,
{
    if i == tokens.len() {
        assert(rt_of_steps(Seq::<SpecTransition>::empty()) == Type::Nothing);
    } else {
        let t = tokens[i];
        lemma_note_literal_shape(t);
        if i + 1 < tokens.len() {
            lemma_note_literal_shape(tokens[i + 1]);
        }
        assert(spec_parse_expr(tokens, i) == Ok::<(SpecExpr, int), SpecError>(
            (SpecExpr::Literal { value: t, val_type: Type::Note }, i + 1),
        ));
        lemma_parse_all_notes(tokens, i + 1);
        let tr = SpecTransition::Expression(
            SpecExpr::Literal { value: t, val_type: Type::Note },
        );
        let rest = spec_parse(tokens, i + 1)->Ok_0;
        lemma_spec_parse_rt(tokens, i + 1);
        assert(spec_parse(tokens, i) == cons_step(tr, spec_parse(tokens, i + 1)));
        let all = seq![tr] + rest.steps;
        assert(all.len() == tokens.len() - i);
        assert(forall|k: int| 1 <= k < all.len() ==> all[k] == rest.steps[k - 1]);
        assert(all[0] == tr);
        lemma_rt_of_steps_append(seq![tr], rest.steps);
        if i + 1 == tokens.len() {
            assert(all =~= seq![tr]);
            assert(seq![tr].drop_last() =~= Seq::<SpecTransition>::empty());
            assert(rt_of_steps(all) == Type::Note);
        } else {
            assert(rest.steps[0] is Expression);
            assert(has_expr(rest.steps));
            assert(rt_of_steps(all) == rt_of_steps(rest.steps));
        }
    }
}

/// A source text whose tokens are all note literals parses to a tree of
/// `Note` literal expressions in source order; its type is `Note` when at
/// least one token is present, and `Nothing` otherwise.
pub proof fn lemma_parse_note_literal_program(s: Seq<char>)
    requires
        forall|k: int|
            0 <= k < spec_tokens(s).len() ==> spec_is_note_literal(#[trigger] spec_tokens(s)[k]),
    ensures
        spec_parse(spec_tokens(s), 0) is Ok,
        spec_parse(spec_tokens(s), 0)->Ok_0.steps.len() == spec_tokens(s).len(),
        forall|k: int|
            0 <= k < spec_tokens(s).len() ==> spec_parse(spec_tokens(s), 0)->Ok_0.steps[k]
                == SpecTransition::Expression(
                SpecExpr::Literal { value: spec_tokens(s)[k], val_type: Type::Note },
            ),
        spec_parse(spec_tokens(s), 0)->Ok_0.return_type == if spec_tokens(s).len() == 0 {
            Type::Nothing
        } else {
            Type::Note
        },
{
    lemma_parse_all_notes(spec_tokens(s), 0);
}

} // verus!

verus! {

/// Well-formedness of a tree: the invariants of the data model. The
/// recorded type is the type of the last expression step; each literal
/// carries the type of the grammar that matched it; a declaration records
/// its value's type; operators combine musical operand types only.
pub open spec fn wf_tree(t: SpecTree) -> bool
    decreases t, 1int,
{
    &&& t.return_type == rt_of_steps(t.steps)
    &&& wf_steps(t.steps)
}

pub open spec fn wf_steps(s: Seq<SpecTransition>) -> bool
    decreases s, 0int,
{
    if s.len() == 0 {
        true
    } else {
        wf_steps(s.drop_last()) && wf_tran(s.last())
    }
}

pub open spec fn wf_tran(tr: SpecTransition) -> bool
    decreases tr, 1int,
{
    match tr {
        SpecTransition::Expression(e) => wf_expr(e),
        SpecTransition::VarDeclaration { var_type, value, .. } => var_type == value.return_type
            && wf_tree(value),
        SpecTransition::FuncDeclaration { body, .. } => wf_tree(body),
    }
}

pub open spec fn wf_expr(e: SpecExpr) -> bool
    decreases e, 1int,
{
    match e {
        SpecExpr::Literal { value, val_type } => spec_is_literal_tok(value) && val_type
            == spec_lit_type(value),
        SpecExpr::Op { operator, left, right } => {
            &&& wf_tree(left)
            &&& wf_tree(right)
            &&& is_musical(left.return_type)
            &&& is_musical(right.return_type)
            &&& (operator == Operator::RhythmicAdd ==> left.return_type == right.return_type)
        },
    }
}

pub proof fn lemma_wf_steps_cons(x: SpecTransition, s: Seq<SpecTransition>)
    ensures
        wf_steps(seq![x] + s) == (wf_tran(x) && wf_steps(s)),
    decreases s.len(),
{
    if s.len() == 0 {
        assert(seq![x] + s =~= seq![x]);
        assert(seq![x].drop_last() =~= Seq::<SpecTransition>::empty());
        assert(seq![x].last() == x);
        assert(wf_steps(Seq::<SpecTransition>::empty()));
    } else {
        assert((seq![x] + s).drop_last() =~= seq![x] + s.drop_last());
        assert((seq![x] + s).last() == s.last());
        lemma_wf_steps_cons(x, s.drop_last());
    }
}

/// The single-expression tree around a well-formed expression is well
/// formed and keeps its type.
pub proof fn lemma_lit_tree_wf(e: SpecExpr)
    ensures
        wf_expr(e) ==> wf_tree(lit_tree(e)),
        lit_tree(e).return_type == spec_expr_type(e),
{
    let s = seq![SpecTransition::Expression(e)];
    assert(s.drop_last() =~= Seq::<SpecTransition>::empty());
    assert(s.last() == SpecTransition::Expression(e));
    assert(rt_of_steps(Seq::<SpecTransition>::empty()) == Type::Nothing);
    assert(wf_steps(Seq::<SpecTransition>::empty()));
    assert(rt_of_steps(s) == spec_expr_type(e));
}

/// Every expression the expression parser yields is well formed.
pub proof fn lemma_parse_expr_wf(tokens: Seq<Seq<char>>, i: int)
    ensures
        spec_parse_expr(tokens, i) matches Ok(p) ==> wf_expr(p.0),
    decreases tokens.len() - i,
{
    if 0 <= i < tokens.len() && spec_is_literal_tok(tokens[i]) && i + 1 < tokens.len()
        && spec_is_operator(tokens[i + 1]) {
        lemma_parse_expr_wf(tokens, i + 2);
        match spec_parse_expr(tokens, i + 2) {
            Ok(p2) => {
                let t = tokens[i];
                let lit = SpecExpr::Literal { value: t, val_type: spec_lit_type(t) };
                lemma_lit_tree_wf(lit);
                lemma_lit_tree_wf(p2.0);
            },
            Err(_) => {},
        }
    }
}

/// Every tree the parser yields is well formed: the data-model invariants
/// hold of all parser output.
pub proof fn lemma_spec_parse_wf(tokens: Seq<Seq<char>>, i: int)
    ensures
        spec_parse(tokens, i) matches Ok(t) ==> wf_tree(t),
    decreases tokens.len() - i,
{
    lemma_spec_parse_rt(tokens, i);
    lemma_find_semi_tok_all(tokens);
    lemma_find_brace_tok_all(tokens);
    lemma_find_close_tok_all(tokens);
    lemma_parse_args_bounds_all(tokens);
    lemma_parse_expr_bounds_all(tokens);
    if i < 0 || i >= tokens.len() {
        assert(wf_steps(Seq::<SpecTransition>::empty()));
        assert(rt_of_steps(Seq::<SpecTransition>::empty()) == Type::Nothing);
    } else if tokens[i] == let_kw() {
        if i + 2 < tokens.len() && tokens[i + 2] == eq_tok() {
            let j = spec_find_semi_tok(tokens, i + 3);
            if j < tokens.len() {
                lemma_find_semi_tok(tokens, i + 3);
                let lastv = spec_before(tokens[j], ';');
                let vtoks = tokens.subrange(i + 3, j) + if lastv.len() > 0 {
                    seq![lastv]
                } else {
                    Seq::empty()
                };
                lemma_spec_parse_wf(vtoks, 0);
                lemma_spec_parse_wf(tokens, j + 1);
                lemma_spec_parse_rt(tokens, j + 1);
                match (spec_parse(vtoks, 0), spec_parse(tokens, j + 1)) {
                    (Ok(vt), Ok(rest)) => {
                        let tr = SpecTransition::VarDeclaration {
                            name: tokens[i + 1],
                            var_type: vt.return_type,
                            value: vt,
                        };
                        lemma_wf_steps_cons(tr, rest.steps);
                    },
                    _ => {},
                }
            }
        }
    } else if tokens[i] == fn_kw() {
        if i + 1 < tokens.len() {
            let t1 = tokens[i + 1];
            let fused = spec_has_char(t1, '(');
            if fused || (i + 2 < tokens.len() && spec_has_char(tokens[i + 2], '(')) {
                let name = if fused {
                    spec_before(t1, '(')
                } else {
                    t1
                };
                let piece = if fused {
                    t1.subrange(spec_find_char(t1, '(', 0) + 1, t1.len() as int)
                } else {
                    tokens[i + 2].subrange(
                        spec_find_char(tokens[i + 2], '(', 0) + 1,
                        tokens[i + 2].len() as int,
                    )
                };
                let k = if fused {
                    i + 2
                } else {
                    i + 3
                };
                match spec_parse_args(tokens, k, piece, name) {
                    Err(_) => {},
                    Ok((args, m)) => {
                        let b = spec_find_brace_tok(tokens, m);
                        if b < tokens.len() {
                            let c = spec_find_close_tok(tokens, b + 1, 1);
                            if c < tokens.len() {
                                lemma_spec_parse_wf(tokens.subrange(b + 1, c), 0);
                                lemma_spec_parse_wf(tokens, c + 1);
                                lemma_spec_parse_rt(tokens, c + 1);
                                match (spec_parse(tokens.subrange(b + 1, c), 0), spec_parse(
                                    tokens,
                                    c + 1,
                                )) {
                                    (Ok(body), Ok(rest)) => {
                                        let tr = SpecTransition::FuncDeclaration {
                                            name,
                                            arg_names: args,
                                            body,
                                        };
                                        lemma_wf_steps_cons(tr, rest.steps);
                                    },
                                    _ => {},
                                }
                            }
                        }
                    },
                }
            }
        }
    } else {
        lemma_parse_expr_wf(tokens, i);
        match spec_parse_expr(tokens, i) {
            Ok(p) => {
                lemma_spec_parse_wf(tokens, p.1);
                lemma_spec_parse_rt(tokens, p.1);
                match spec_parse(tokens, p.1) {
                    Ok(rest) => {
                        lemma_wf_steps_cons(SpecTransition::Expression(p.0), rest.steps);
                    },
                    Err(_) => {},
                }
            },
            Err(_) => {},
        }
    }
}

} // verus!
