//! Depth of nesting, in a tree and in the tokens that spell it.

use vstd::prelude::*;
use crate::ast::AstView;
use crate::grammar::{
    are_expressions, is_expression, spelling, spelling_all, symbols, theorem_parser_sound, Symbol,
};
use crate::parser::parse_program;
use crate::token::TokenView;

verus! {

/// The larger of two numbers.
pub open spec fn larger(a: int, b: int) -> int {
    if a >= b {
        a
    } else {
        b
    }
}

/// How deep calls are nested in `ast`: a literal is not nested at all, a call
/// is one deeper than the deepest of its parameters, and a program is as deep
/// as the deepest of its expressions.
pub open spec fn depth(ast: AstView) -> int
    decreases ast,
{
    match ast {
        AstView::Program(children) => depth_of_all(children),
        AstView::IntegerLiteral(_) => 0,
        AstView::StringLiteral(_) => 0,
        AstView::CallExpression { name, params } => 1 + depth_of_all(params),
    }
}

/// The depth of the deepest of `asts`, or 0 where there is none.
pub open spec fn depth_of_all(asts: Seq<AstView>) -> int
    decreases asts,
{
    if asts.len() == 0 {
        0
    } else {
        larger(depth(asts.first()), depth_of_all(asts.drop_first()))
    }
}

/// What `symbol` adds to the number of open parentheses.
pub open spec fn step(symbol: Symbol) -> int {
    match symbol {
        Symbol::Open => 1,
        Symbol::Close => -1,
        _ => 0,
    }
}

/// How many parentheses are open behind `symbols`: those opened less those
/// closed.
pub open spec fn level(symbols: Seq<Symbol>) -> int
    decreases symbols.len(),
{
    if symbols.len() == 0 {
        0
    } else {
        level(symbols.drop_last()) + step(symbols.last())
    }
}

/// The largest number of parentheses that are open at once anywhere in
/// `symbols`.
pub open spec fn deepest(symbols: Seq<Symbol>) -> int
    decreases symbols.len(),
{
    if symbols.len() == 0 {
        0
    } else {
        larger(deepest(symbols.drop_last()), level(symbols))
    }
}

/// At no point are more parentheses open than at the deepest, and the
/// deepest is at least the start, where none is open.
pub proof fn lemma_deepest_bounds(symbols: Seq<Symbol>)
    ensures
        deepest(symbols) >= level(symbols),
        deepest(symbols) >= 0,
    decreases symbols.len(),
{
    if symbols.len() > 0 {
        lemma_deepest_bounds(symbols.drop_last());
    }
}

/// Behind two sequences as many parentheses are open as behind the one and
/// behind the other together.
pub proof fn lemma_level_concat(head: Seq<Symbol>, tail: Seq<Symbol>)
    ensures
        level(head + tail) == level(head) + level(tail),
    decreases tail.len(),
{
    if tail.len() == 0 {
        assert(head + tail =~= head);
    } else {
        assert((head + tail).drop_last() =~= head + tail.drop_last());
        lemma_level_concat(head, tail.drop_last());
    }
}

/// The deepest point of two sequences lies in the first, or in the second on
/// top of what the first left open.
pub proof fn lemma_deepest_concat(head: Seq<Symbol>, tail: Seq<Symbol>)
    ensures
        deepest(head + tail) == larger(deepest(head), level(head) + deepest(tail)),
    decreases tail.len(),
{
    lemma_deepest_bounds(head);
    if tail.len() == 0 {
        assert(head + tail =~= head);
    } else {
        assert((head + tail).drop_last() =~= head + tail.drop_last());
        lemma_deepest_concat(head, tail.drop_last());
        lemma_level_concat(head, tail);
    }
}

/// The spelling of an expression closes every parenthesis that it opens, and
/// has as many open at its deepest point as calls are nested in the
/// expression.
pub proof fn lemma_expression_depth(ast: AstView)
    requires
        is_expression(ast),
    ensures
        level(spelling(ast)) == 0,
        deepest(spelling(ast)) == depth(ast),
    decreases ast,
{
    match ast {
        AstView::CallExpression { name, params } => {
            let opening = seq![Symbol::Open, Symbol::Name(name)];
            let inner = spelling_all(params);
            let closing = seq![Symbol::Close];
            lemma_expressions_depth(params);
            assert(level(opening) == 1 && deepest(opening) == 1) by {
                reveal_with_fuel(level, 3);
                reveal_with_fuel(deepest, 3);
                assert(opening.drop_last() =~= seq![Symbol::Open]);
                assert(seq![Symbol::Open].drop_last() =~= Seq::<Symbol>::empty());
            }
            assert(level(closing) == -1 && deepest(closing) == 0) by {
                reveal_with_fuel(level, 2);
                reveal_with_fuel(deepest, 2);
                assert(closing.drop_last() =~= Seq::<Symbol>::empty());
            }
            lemma_deepest_bounds(inner);
            lemma_level_concat(opening, inner);
            lemma_deepest_concat(opening, inner);
            lemma_level_concat(opening + inner, closing);
            lemma_deepest_concat(opening + inner, closing);
        },
        _ => {
            reveal_with_fuel(level, 2);
            reveal_with_fuel(deepest, 2);
            assert(spelling(ast).drop_last() =~= Seq::<Symbol>::empty());
        },
    }
}

/// The spelling of expressions closes every parenthesis that it opens, and
/// has as many open at its deepest point as calls are nested in the deepest
/// of the expressions.
pub proof fn lemma_expressions_depth(asts: Seq<AstView>)
    requires
        are_expressions(asts),
    ensures
        level(spelling_all(asts)) == 0,
        deepest(spelling_all(asts)) == depth_of_all(asts),
    decreases asts,
{
    if asts.len() > 0 {
        let first = asts.first();
        let rest = asts.drop_first();
        lemma_expression_depth(first);
        lemma_expressions_depth(rest);
        lemma_level_concat(spelling(first), spelling_all(rest));
        lemma_deepest_concat(spelling(first), spelling_all(rest));
    }
}

/// The tree that the parser returns is nested as deep as the parentheses in
/// the tokens: the largest number of parentheses open at once is the depth of
/// the tree, and every parenthesis that is opened is closed.
pub proof fn theorem_nesting_depth(tokens: Seq<TokenView>)
    requires
        parse_program(tokens) is Ok,
    ensures
        level(symbols(tokens)) == 0,
        deepest(symbols(tokens)) == depth(parse_program(tokens)->Ok_0),
{
    theorem_parser_sound(tokens);
    lemma_expressions_depth(parse_program(tokens)->Ok_0->Program_0);
}

} // verus!
