//! The abstract syntax tree produced by the parser, its mathematical model,
//! and the well-formedness invariants that every parsed tree satisfies.

use vstd::prelude::*;

verus! {

/// The semantic type of a value in the language.
#[derive(Clone, Copy, Debug, PartialEq, Eq, Structural)]
pub enum Type {
    Number,
    Note,
    Chord,
    Nothing,
}

/// A binary combination operator.
///
/// `ChordalAdd` plays its two operands simultaneously and always yields a
/// `Chord`; `RhythmicAdd` plays them one after the other and keeps their
/// common type.
#[derive(Clone, Copy, Debug, PartialEq, Eq, Structural)]
pub enum Operator {
    ChordalAdd,
    RhythmicAdd,
}

/// A value-producing expression: a classified literal token, or the
/// combination of two subtrees with an operator.
pub enum Expression {
    Op { operator: Operator, left: Box<SyntaxTree>, right: Box<SyntaxTree> },
    Literal { value: String, val_type: Type },
}

/// One step of a program: an expression, or a declaration that binds a name.
pub enum Transition {
    Expression(Expression),
    VarDeclaration { name: String, var_type: Type, value: Box<SyntaxTree> },
    FuncDeclaration { name: String, arg_names: Vec<String>, body: Box<SyntaxTree> },
}

/// An ordered sequence of transitions together with the type the sequence
/// evaluates to: the type of its last expression, or `Nothing` if it holds
/// no expression.
pub struct SyntaxTree {
    pub steps: Vec<Transition>,
    pub return_type: Type,
}

/// A structured parse failure.
#[derive(Debug)]
pub enum ParseError {
    /// A token matched no literal grammar, keyword or operator.
    LexError { token: String },
    /// A required token (`=`, `;`, `(`, `{`, `}`, a name) was missing or
    /// wrong; `context` names the enclosing construct.
    SyntaxError { missing: String, context: String },
    /// An operator was applied to an operand type it does not accept.
    TypeError { operator: Operator, offending: Type },
}

/// Mathematical model of a [`SyntaxTree`].
pub struct SpecTree {
    pub steps: Seq<SpecTransition>,
    pub return_type: Type,
}

/// Mathematical model of a [`Transition`].
pub enum SpecTransition {
    Expression(SpecExpr),
    VarDeclaration { name: Seq<char>, var_type: Type, value: SpecTree },
    FuncDeclaration { name: Seq<char>, arg_names: Seq<Seq<char>>, body: SpecTree },
}

/// Mathematical model of an [`Expression`].
pub enum SpecExpr {
    Op { operator: Operator, left: SpecTree, right: SpecTree },
    Literal { value: Seq<char>, val_type: Type },
}

/// Mathematical model of a [`ParseError`].
pub enum SpecError {
    LexError { token: Seq<char> },
    SyntaxError { missing: Seq<char>, context: Seq<char> },
    TypeError { operator: Operator, offending: Type },
}

pub open spec fn tree_view(t: SyntaxTree) -> SpecTree
    decreases t, 1int,
{
    SpecTree { steps: steps_view(t.steps@), return_type: t.return_type }
}

pub open spec fn steps_view(s: Seq<Transition>) -> Seq<SpecTransition>
    decreases s, 0int,
{
    if s.len() == 0 {
        Seq::empty()
    } else {
        steps_view(s.drop_last()).push(tran_view(s.last()))
    }
}

pub open spec fn tran_view(tr: Transition) -> SpecTransition
    decreases tr, 1int,
{
    match tr {
        Transition::Expression(e) => SpecTransition::Expression(expr_view(e)),
        Transition::VarDeclaration { name, var_type, value } => SpecTransition::VarDeclaration {
            name: name@,
            var_type,
            value: tree_view(*value),
        },
        Transition::FuncDeclaration { name, arg_names, body } => SpecTransition::FuncDeclaration {
            name: name@,
            arg_names: arg_names@.map_values(|a: String| a@),
            body: tree_view(*body),
        },
    }
}

pub open spec fn expr_view(e: Expression) -> SpecExpr
    decreases e, 1int,
{
    match e {
        Expression::Op { operator, left, right } => SpecExpr::Op {
            operator,
            left: tree_view(*left),
            right: tree_view(*right),
        },
        Expression::Literal { value, val_type } => SpecExpr::Literal { value: value@, val_type },
    }
}

impl View for SyntaxTree {
    type V = SpecTree;

    open spec fn view(&self) -> SpecTree {
        tree_view(*self)
    }
}

impl View for Transition {
    type V = SpecTransition;

    open spec fn view(&self) -> SpecTransition {
        tran_view(*self)
    }
}

impl View for Expression {
    type V = SpecExpr;

    open spec fn view(&self) -> SpecExpr {
        expr_view(*self)
    }
}

impl View for ParseError {
    type V = SpecError;

    open spec fn view(&self) -> SpecError {
        match *self {
            ParseError::LexError { token } => SpecError::LexError { token: token@ },
            ParseError::SyntaxError { missing, context } => SpecError::SyntaxError {
                missing: missing@,
                context: context@,
            },
            ParseError::TypeError { operator, offending } => SpecError::TypeError {
                operator,
                offending,
            },
        }
    }
}

/// The type a single transition contributes: declarations produce no value.
pub open spec fn spec_tran_type(tr: SpecTransition) -> Type {
    match tr {
        SpecTransition::Expression(e) => spec_expr_type(e),
        _ => Type::Nothing,
    }
}

/// The type of an expression. A literal carries its classified type; a
/// chordal combination is always a `Chord`, and a rhythmic combination keeps
/// the type of its left operand.
pub open spec fn spec_expr_type(e: SpecExpr) -> Type {
    match e {
        SpecExpr::Literal { val_type, .. } => val_type,
        SpecExpr::Op { operator, left, .. } => if operator == Operator::ChordalAdd {
            Type::Chord
        } else {
            left.return_type
        },
    }
}

/// The type a sequence of transitions evaluates to: the type of its last
/// expression, or `Nothing` if it holds no expression.
pub open spec fn rt_of_steps(s: Seq<SpecTransition>) -> Type
    decreases s.len(),
{
    if s.len() == 0 {
        Type::Nothing
    } else if s.last() is Expression {
        spec_tran_type(s.last())
    } else {
        rt_of_steps(s.drop_last())
    }
}

/// The view of a step sequence is its elementwise view.
pub proof fn lemma_steps_view_index(s: Seq<Transition>)
    ensures
        steps_view(s).len() == s.len(),
        forall|i: int| 0 <= i < s.len() ==> steps_view(s)[i] == tran_view(#[trigger] s[i]),
    decreases s.len(),
{
    if s.len() > 0 {
        lemma_steps_view_index(s.drop_last());
        assert forall|i: int| 0 <= i < s.len() implies steps_view(s)[i] == tran_view(
            #[trigger] s[i],
        ) by {
            if i < s.len() - 1 {
                assert(s.drop_last()[i] == s[i]);
                assert(steps_view(s)[i] == steps_view(s.drop_last())[i]);
            } else {
                assert(s.last() == s[i]);
            }
        }
    }
}

/// Whether a sequence of transitions contains an expression.
pub open spec fn has_expr(s: Seq<SpecTransition>) -> bool {
    exists|k: int| 0 <= k < s.len() && s[k] is Expression
}

/// The return type of concatenated steps comes from the right part when it
/// holds an expression, and from the left part otherwise.
pub proof fn lemma_rt_of_steps_append(a: Seq<SpecTransition>, b: Seq<SpecTransition>)
    ensures
        rt_of_steps(a + b) == if has_expr(b) {
            rt_of_steps(b)
        } else {
            rt_of_steps(a)
        },
    decreases b.len(),
{
    if b.len() == 0 {
        assert(a + b =~= a);
        assert(!has_expr(b));
    } else {
        let b0 = b.drop_last();
        lemma_rt_of_steps_append(a, b0);
        assert((a + b).drop_last() =~= a + b0);
        assert((a + b).last() == b.last());
        if b.last() is Expression {
            assert(has_expr(b)) by {
                assert(b[b.len() - 1] is Expression);
            }
        } else {
            assert(has_expr(b0) ==> has_expr(b)) by {
                if has_expr(b0) {
                    let k = choose|k: int| 0 <= k < b0.len() && b0[k] is Expression;
                    assert(b[k] is Expression);
                }
            }
            assert(has_expr(b) ==> has_expr(b0)) by {
                if has_expr(b) {
                    let k = choose|k: int| 0 <= k < b.len() && b[k] is Expression;
                    assert(k < b0.len());
                    assert(b0[k] is Expression);
                }
            }
        }
    }
}

} // verus!
