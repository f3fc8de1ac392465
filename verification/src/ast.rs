//! The syntax tree.

use vstd::prelude::*;

verus! {

/// A node of the syntax tree.
///
/// The parser returns one `Program`, at the root and nowhere else. Below it
/// stand literals and calls, and the parameters of a call are again literals
/// and calls.
#[derive(Debug, PartialEq, Eq)]
pub enum Ast {
    /// The expressions of a program, in the order in which they were written.
    Program(Vec<Ast>),
    /// A number.
    IntegerLiteral(i64),
    /// The content of a string literal, without its quotes.
    StringLiteral(String),
    /// A call, `(name parameter ...)`.
    CallExpression { name: String, params: Vec<Ast> },
}

/// A node of the syntax tree as a mathematical value.
pub ghost enum AstView {
    Program(Seq<AstView>),
    IntegerLiteral(int),
    StringLiteral(Seq<char>),
    CallExpression { name: Seq<char>, params: Seq<AstView> },
}

/// The view of `ast`: the same tree, with numbers, characters and sequences
/// in place of machine integers, strings and vectors.
pub open spec fn ast_view(ast: Ast) -> AstView
    decreases ast,
{
    match ast {
        Ast::Program(children) => AstView::Program(
            Seq::new(
                children@.len(),
                |i: int|
                    if 0 <= i < children@.len() {
                        ast_view(children[i])
                    } else {
                        arbitrary()
                    },
            ),
        ),
        Ast::IntegerLiteral(value) => AstView::IntegerLiteral(value as int),
        Ast::StringLiteral(value) => AstView::StringLiteral(value@),
        Ast::CallExpression { name, params } => AstView::CallExpression {
            name: name@,
            params: Seq::new(
                params@.len(),
                |i: int|
                    if 0 <= i < params@.len() {
                        ast_view(params[i])
                    } else {
                        arbitrary()
                    },
            ),
        },
    }
}

impl View for Ast {
    type V = AstView;

    open spec fn view(&self) -> AstView {
        ast_view(*self)
    }
}

impl DeepView for Ast {
    type V = AstView;

    open spec fn deep_view(&self) -> AstView {
        self@
    }
}

/// The view of a program is the views of its expressions.
pub proof fn lemma_program_view(children: Vec<Ast>)
    ensures
        Ast::Program(children)@ == AstView::Program(children.deep_view()),
{
    assert(Ast::Program(children)@->Program_0 =~= children.deep_view());
}

/// The view of a call is its name and the views of its parameters.
pub proof fn lemma_call_view(name: String, params: Vec<Ast>)
    ensures
        (Ast::CallExpression { name, params })@ == (AstView::CallExpression {
            name: name@,
            params: params.deep_view(),
        }),
{
    assert((Ast::CallExpression { name, params })@->params =~= params.deep_view());
}

} // verus!
