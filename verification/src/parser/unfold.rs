//! One-step unfoldings of the grammar's rules, for the parser's proofs.
use vstd::prelude::*;

use crate::ast::LiteralView;
use crate::ast::tree::{span_of, NameView, Tree};
use crate::ast::sql::{SqlCompoundOperator, SqlDistinct, SqlJoinType, SqlOrdering};
use crate::ast::ObjectKeyView;
use crate::tokens::{Keyword, Span, SpecToken, SqlKeyword, Symbol, TokenType};

use super::grammar::{
    EKind, PErr, POut, alias_at, and_op, assign_to, at, binary, block_closed, block_of, closed_by, comparison_ops, compound_of, compound_ops, conj_at, dollar_ident, done, equality_ops, expect, factor_ops, for_tree, group_of, ident, inside, is_between, join_ops, key_at, key_types, kw, leaf, lexeme_at, limit_of, list_of, literal_at, maybe_of, name_at, names_of, op_at, op_in, opt_with_expected, or_op, orderings_of, p_and, p_args_rest, p_array, p_array_elements, p_assignment, p_assignments, p_between, p_block, p_block_body, p_call, p_call_rest, p_collection, p_comparison, p_comparison_rest, p_compound, p_core, p_declaration, p_delete, p_equality, p_equality_rest, p_expression, p_expression_statement, p_factor, p_factor_rest, p_finish_call, p_for, p_for_condition, p_for_increment, p_from, p_fun, p_group_by, p_if, p_insert, p_join, p_join_groups, p_joins, p_limit, p_loop, p_object, p_object_entries, p_or, p_order_by, p_orderings, p_params_rest, p_primary, p_program_body, p_projection, p_return, p_select, p_select_inner, p_sql_expression, p_statement, p_subquery_collection, p_subquery_join, p_term, p_term_rest, p_unary, p_update, p_values, p_var, p_where, p_while, pred_of, program_of, skip_semicolon, skw, starts_object, starts_with, sym, term_ops, then_expect, tree_insert, unary_ops, with_tree,
};

verus! {

/// One step of `p_params_rest`.
#[verifier::spinoff_prover]
pub proof fn lemma_p_params_rest(t: Seq<SpecToken>, p: int, acc: Seq<NameView>)
    ensures
        p_params_rest(t, p, acc) == {
            if !inside(t, p) {
                POut::Fail(PErr::Stuck)
            } else if at(t, p, sym(Symbol::Comma)) {
                if at(t, p + 1, dollar_ident()) {
                    p_params_rest(t, p + 2, acc.push(name_at(t, p + 1)))
                } else {
                    POut::Fail(PErr::Missing(p, dollar_ident()))
                }
            } else {
                leaf(p, Tree::Names(acc))
            }
        },
{
    reveal_with_fuel(p_params_rest, 1);
}

/// One step of `p_equality`.
#[verifier::spinoff_prover]
pub proof fn lemma_p_equality(t: Seq<SpecToken>, p: int, sel: bool)
    ensures
        p_equality(t, p, sel) == {
            if !inside(t, p) {
                POut::Fail(PErr::Stuck)
            } else {
                match p_comparison(t, p, sel) {
                    POut::Done { pos: p1, kind, tree } => if p1 > p {
                        p_equality_rest(t, p1, sel, kind, tree)
                    } else {
                        POut::Fail(PErr::Stuck)
                    },
                    f => f,
                }
            }
        },
{
    reveal_with_fuel(p_equality, 1);
}

/// One step of `p_equality_rest`.
#[verifier::spinoff_prover]
pub proof fn lemma_p_equality_rest(t: Seq<SpecToken>, p: int, sel: bool, kind: EKind, acc: Tree)
    ensures
        p_equality_rest(t, p, sel, kind, acc) == {
            if !inside(t, p) {
                POut::Fail(PErr::Stuck)
            } else if op_in(t, p, equality_ops(sel)) {
                match p_comparison(t, p + 1, sel) {
                    POut::Done { pos: p2, tree, .. } => if p2 > p {
                        p_equality_rest(t, p2, sel, EKind::Other, binary(acc, op_at(t, p, sel), tree))
                    } else {
                        POut::Fail(PErr::Stuck)
                    },
                    f => f,
                }
            } else {
                POut::Done { pos: p, kind, tree: acc }
            }
        },
{
    reveal_with_fuel(p_equality_rest, 1);
}

/// One step of `p_comparison`.
#[verifier::spinoff_prover]
pub proof fn lemma_p_comparison(t: Seq<SpecToken>, p: int, sel: bool)
    ensures
        p_comparison(t, p, sel) == {
            if !inside(t, p) {
                POut::Fail(PErr::Stuck)
            } else {
                match p_term(t, p, sel) {
                    POut::Done { pos: p1, kind, tree } => if p1 > p {
                        p_comparison_rest(t, p1, sel, kind, tree)
                    } else {
                        POut::Fail(PErr::Stuck)
                    },
                    f => f,
                }
            }
        },
{
    reveal_with_fuel(p_comparison, 1);
}

/// One step of `p_comparison_rest`.
#[verifier::spinoff_prover]
pub proof fn lemma_p_comparison_rest(t: Seq<SpecToken>, p: int, sel: bool, kind: EKind, acc: Tree)
    ensures
        p_comparison_rest(t, p, sel, kind, acc) == {
            if !inside(t, p) {
                POut::Fail(PErr::Stuck)
            } else if op_in(t, p, comparison_ops()) {
                match p_term(t, p + 1, sel) {
                    POut::Done { pos: p2, tree, .. } => if p2 > p {
                        p_comparison_rest(t, p2, sel, EKind::Other, binary(acc, op_at(t, p, sel), tree))
                    } else {
                        POut::Fail(PErr::Stuck)
                    },
                    f => f,
                }
            } else {
                POut::Done { pos: p, kind, tree: acc }
            }
        },
{
    reveal_with_fuel(p_comparison_rest, 1);
}

/// One step of `p_term`.
#[verifier::spinoff_prover]
pub proof fn lemma_p_term(t: Seq<SpecToken>, p: int, sel: bool)
    ensures
        p_term(t, p, sel) == {
            if !inside(t, p) {
                POut::Fail(PErr::Stuck)
            } else {
                match p_factor(t, p, sel) {
                    POut::Done { pos: p1, kind, tree } => if p1 > p {
                        p_term_rest(t, p1, sel, kind, tree)
                    } else {
                        POut::Fail(PErr::Stuck)
                    },
                    f => f,
                }
            }
        },
{
    reveal_with_fuel(p_term, 1);
}

/// One step of `p_term_rest`.
#[verifier::spinoff_prover]
pub proof fn lemma_p_term_rest(t: Seq<SpecToken>, p: int, sel: bool, kind: EKind, acc: Tree)
    ensures
        p_term_rest(t, p, sel, kind, acc) == {
            if !inside(t, p) {
                POut::Fail(PErr::Stuck)
            } else if op_in(t, p, term_ops()) {
                match p_factor(t, p + 1, sel) {
                    POut::Done { pos: p2, tree, .. } => if p2 > p {
                        p_term_rest(t, p2, sel, EKind::Other, binary(acc, op_at(t, p, sel), tree))
                    } else {
                        POut::Fail(PErr::Stuck)
                    },
                    f => f,
                }
            } else {
                POut::Done { pos: p, kind, tree: acc }
            }
        },
{
    reveal_with_fuel(p_term_rest, 1);
}

/// One step of `p_factor`.
#[verifier::spinoff_prover]
pub proof fn lemma_p_factor(t: Seq<SpecToken>, p: int, sel: bool)
    ensures
        p_factor(t, p, sel) == {
            if !inside(t, p) {
                POut::Fail(PErr::Stuck)
            } else {
                match p_unary(t, p, sel) {
                    POut::Done { pos: p1, kind, tree } => if p1 > p {
                        p_factor_rest(t, p1, sel, kind, tree)
                    } else {
                        POut::Fail(PErr::Stuck)
                    },
                    f => f,
                }
            }
        },
{
    reveal_with_fuel(p_factor, 1);
}

/// One step of `p_factor_rest`.
#[verifier::spinoff_prover]
pub proof fn lemma_p_factor_rest(t: Seq<SpecToken>, p: int, sel: bool, kind: EKind, acc: Tree)
    ensures
        p_factor_rest(t, p, sel, kind, acc) == {
            if !inside(t, p) {
                POut::Fail(PErr::Stuck)
            } else if op_in(t, p, factor_ops()) {
                match p_unary(t, p + 1, sel) {
                    POut::Done { pos: p2, tree, .. } => if p2 > p {
                        p_factor_rest(t, p2, sel, EKind::Other, binary(acc, op_at(t, p, sel), tree))
                    } else {
                        POut::Fail(PErr::Stuck)
                    },
                    f => f,
                }
            } else {
                POut::Done { pos: p, kind, tree: acc }
            }
        },
{
    reveal_with_fuel(p_factor_rest, 1);
}

/// One step of `p_expression`.
#[verifier::spinoff_prover]
pub proof fn lemma_p_expression(t: Seq<SpecToken>, p: int, sel: bool)
    ensures
        p_expression(t, p, sel) == {
            if !inside(t, p) {
                POut::Fail(PErr::Stuck)
            } else if at(t, p, kw(Keyword::Fun)) {
                p_fun(t, p + 1, sel)
            } else {
                p_assignment(t, p, sel)
            }
        },
{
    reveal_with_fuel(p_expression, 1);
}

/// One step of `p_assignment`.
#[verifier::spinoff_prover]
pub proof fn lemma_p_assignment(t: Seq<SpecToken>, p: int, sel: bool)
    ensures
        p_assignment(t, p, sel) == {
            if !inside(t, p) {
                POut::Fail(PErr::Stuck)
            } else {
                match p_or(t, p, sel) {
                    POut::Done { pos: p1, kind, tree } => if at(t, p1, sym(Symbol::Equal)) {
                        if p1 >= p {
                            match p_assignment(t, p1 + 1, sel) {
                                POut::Done { pos: p2, tree: value, .. } => match kind {
                                    EKind::Other => POut::Fail(PErr::InvalidTarget(p2 - 3)),
                                    _ => leaf(p2, assign_to(tree, value)),
                                },
                                f => f,
                            }
                        } else {
                            POut::Fail(PErr::Stuck)
                        }
                    } else {
                        POut::Done { pos: p1, kind, tree }
                    },
                    f => f,
                }
            }
        },
{
    reveal_with_fuel(p_assignment, 1);
}

/// One step of `p_or`.
#[verifier::spinoff_prover]
pub proof fn lemma_p_or(t: Seq<SpecToken>, p: int, sel: bool)
    ensures
        p_or(t, p, sel) == {
            if !inside(t, p) {
                POut::Fail(PErr::Stuck)
            } else {
                match p_and(t, p, sel) {
                    POut::Done { pos: p1, kind, tree } => if at(t, p1, or_op(sel)) {
                        if p1 >= p {
                            match p_and(t, p1 + 1, sel) {
                                POut::Done { pos: p2, tree: right, .. } => leaf(
                                    p2,
                                    Tree::Logical(
                                        Box::new(tree),
                                        op_at(t, p1, sel),
                                        Box::new(right),
                                        span_of(tree).spec_merge(span_of(right)),
                                    ),
                                ),
                                f => f,
                            }
                        } else {
                            POut::Fail(PErr::Stuck)
                        }
                    } else {
                        POut::Done { pos: p1, kind, tree }
                    },
                    f => f,
                }
            }
        },
{
    reveal_with_fuel(p_or, 1);
}

/// One step of `p_and`.
#[verifier::spinoff_prover]
pub proof fn lemma_p_and(t: Seq<SpecToken>, p: int, sel: bool)
    ensures
        p_and(t, p, sel) == {
            if !inside(t, p) {
                POut::Fail(PErr::Stuck)
            } else {
                match p_equality(t, p, sel) {
                    POut::Done { pos: p1, kind, tree } => if at(t, p1, and_op(sel)) {
                        if p1 >= p {
                            match p_equality(t, p1 + 1, sel) {
                                POut::Done { pos: p2, tree: right, .. } => leaf(
                                    p2,
                                    Tree::Logical(
                                        Box::new(tree),
                                        op_at(t, p1, sel),
                                        Box::new(right),
                                        span_of(tree).spec_merge(span_of(right)),
                                    ),
                                ),
                                f => f,
                            }
                        } else {
                            POut::Fail(PErr::Stuck)
                        }
                    } else {
                        POut::Done { pos: p1, kind, tree }
                    },
                    f => f,
                }
            }
        },
{
    reveal_with_fuel(p_and, 1);
}

/// One step of `p_unary`.
#[verifier::spinoff_prover]
pub proof fn lemma_p_unary(t: Seq<SpecToken>, p: int, sel: bool)
    ensures
        p_unary(t, p, sel) == {
            if !inside(t, p) {
                POut::Fail(PErr::Stuck)
            } else if op_in(t, p, unary_ops()) {
                match p_unary(t, p + 1, sel) {
                    POut::Done { pos: p2, tree, .. } => leaf(
                        p2,
                        Tree::Unary(op_at(t, p, sel), Box::new(tree), t[p].span.spec_merge(span_of(tree))),
                    ),
                    f => f,
                }
            } else {
                p_insert(t, p, sel)
            }
        },
{
    reveal_with_fuel(p_unary, 1);
}

/// One step of `p_call`.
#[verifier::spinoff_prover]
pub proof fn lemma_p_call(t: Seq<SpecToken>, p: int, sel: bool)
    ensures
        p_call(t, p, sel) == {
            if !inside(t, p) {
                POut::Fail(PErr::Stuck)
            } else {
                match p_primary(t, p, sel) {
                    POut::Done { pos: p1, kind, tree } => if p1 > p {
                        p_call_rest(t, p1, sel, kind, tree)
                    } else {
                        POut::Fail(PErr::Stuck)
                    },
                    f => f,
                }
            }
        },
{
    reveal_with_fuel(p_call, 1);
}

/// One step of `p_call_rest`.
#[verifier::spinoff_prover]
pub proof fn lemma_p_call_rest(t: Seq<SpecToken>, p: int, sel: bool, kind: EKind, acc: Tree)
    ensures
        p_call_rest(t, p, sel, kind, acc) == {
            if !inside(t, p) {
                POut::Fail(PErr::Stuck)
            } else if at(t, p, sym(Symbol::LeftParen)) {
                match p_finish_call(t, p + 1, sel) {
                    POut::Done { pos: p2, tree, .. } => if p2 > p {
                        p_call_rest(
                            t,
                            p2,
                            sel,
                            EKind::Other,
                            Tree::Call(Box::new(acc), list_of(tree), span_of(acc).spec_merge(t[p2 - 1].span)),
                        )
                    } else {
                        POut::Fail(PErr::Stuck)
                    },
                    f => f,
                }
            } else if at(t, p, sym(Symbol::Dot)) {
                if at(t, p + 1, ident()) {
                    p_call_rest(
                        t,
                        p + 2,
                        sel,
                        EKind::Get,
                        Tree::Get(Box::new(acc), name_at(t, p + 1), span_of(acc).spec_merge(t[p + 1].span)),
                    )
                } else {
                    POut::Fail(PErr::Missing(p, ident()))
                }
            } else {
                POut::Done { pos: p, kind, tree: acc }
            }
        },
{
    reveal_with_fuel(p_call_rest, 1);
}

/// One step of `p_finish_call`.
#[verifier::spinoff_prover]
pub proof fn lemma_p_finish_call(t: Seq<SpecToken>, p: int, sel: bool)
    ensures
        p_finish_call(t, p, sel) == {
            if !inside(t, p) {
                POut::Fail(PErr::Stuck)
            } else if at(t, p, sym(Symbol::RightParen)) {
                with_tree(expect(t, p, sym(Symbol::RightParen)), Tree::List(Seq::empty()))
            } else {
                match p_expression(t, p, sel) {
                    POut::Done { pos: p1, tree, .. } => if p1 > p {
                        then_expect(p_args_rest(t, p1, sel, seq![tree]), t, sym(Symbol::RightParen))
                    } else {
                        POut::Fail(PErr::Stuck)
                    },
                    f => f,
                }
            }
        },
{
    reveal_with_fuel(p_finish_call, 1);
}

/// One step of `p_args_rest`.
#[verifier::spinoff_prover]
pub proof fn lemma_p_args_rest(t: Seq<SpecToken>, p: int, sel: bool, acc: Seq<Tree>)
    ensures
        p_args_rest(t, p, sel, acc) == {
            if !inside(t, p) {
                POut::Fail(PErr::Stuck)
            } else if at(t, p, sym(Symbol::Comma)) {
                match p_expression(t, p + 1, sel) {
                    POut::Done { pos: p2, tree, .. } => if p2 > p {
                        p_args_rest(t, p2, sel, acc.push(tree))
                    } else {
                        POut::Fail(PErr::Stuck)
                    },
                    f => f,
                }
            } else {
                leaf(p, Tree::List(acc))
            }
        },
{
    reveal_with_fuel(p_args_rest, 1);
}

/// One step of `p_object_entries`.
#[verifier::spinoff_prover]
pub proof fn lemma_p_object_entries(t: Seq<SpecToken>, p: int, sel: bool, acc: Seq<(ObjectKeyView, Tree)>)
    ensures
        p_object_entries(t, p, sel, acc) == {
            if !inside(t, p) {
                POut::Fail(PErr::Stuck)
            } else if at(t, p, sym(Symbol::RightBrace)) {
                leaf(p, Tree::Object(acc, ""@, Span::spec_zero()))
            } else if op_in(t, p, key_types()) {
                if !at(t, p + 1, sym(Symbol::Colon)) {
                    POut::Fail(PErr::Missing(p, sym(Symbol::Colon)))
                } else {
                    match p_expression(t, p + 2, sel) {
                        POut::Done { pos: p2, tree, .. } => if at(t, p2, sym(Symbol::Comma)) {
                            if p2 >= p {
                                p_object_entries(t, p2 + 1, sel, tree_insert(acc, key_at(t, p), tree))
                            } else {
                                POut::Fail(PErr::Stuck)
                            }
                        } else {
                            leaf(p2, Tree::Object(tree_insert(acc, key_at(t, p), tree), ""@, Span::spec_zero()))
                        },
                        f => f,
                    }
                }
            } else {
                POut::Fail(PErr::Unexpected(p - 1))
            }
        },
{
    reveal_with_fuel(p_object_entries, 1);
}

/// One step of `p_object`.
#[verifier::spinoff_prover]
pub proof fn lemma_p_object(t: Seq<SpecToken>, p: int, sel: bool)
    ensures
        p_object(t, p, sel) == {
            if !inside(t, p) {
                POut::Fail(PErr::Stuck)
            } else {
                closed_by(p_object_entries(t, p, sel, Seq::empty()), t, p - 1, sym(Symbol::RightBrace))
            }
        },
{
    reveal_with_fuel(p_object, 1);
}

/// One step of `p_array_elements`.
#[verifier::spinoff_prover]
pub proof fn lemma_p_array_elements(t: Seq<SpecToken>, p: int, sel: bool, acc: Seq<Tree>)
    ensures
        p_array_elements(t, p, sel, acc) == {
            if !inside(t, p) {
                POut::Fail(PErr::Stuck)
            } else if at(t, p, sym(Symbol::RightBracket)) {
                leaf(p, Tree::Array(acc, ""@, Span::spec_zero()))
            } else {
                match p_expression(t, p, sel) {
                    POut::Done { pos: p2, tree, .. } => if at(t, p2, sym(Symbol::Comma)) {
                        if p2 >= p {
                            p_array_elements(t, p2 + 1, sel, acc.push(tree))
                        } else {
                            POut::Fail(PErr::Stuck)
                        }
                    } else {
                        leaf(p2, Tree::Array(acc.push(tree), ""@, Span::spec_zero()))
                    },
                    f => f,
                }
            }
        },
{
    reveal_with_fuel(p_array_elements, 1);
}

/// One step of `p_array`.
#[verifier::spinoff_prover]
pub proof fn lemma_p_array(t: Seq<SpecToken>, p: int, sel: bool)
    ensures
        p_array(t, p, sel) == {
            if !inside(t, p) {
                POut::Fail(PErr::Stuck)
            } else {
                closed_by(p_array_elements(t, p, sel, Seq::empty()), t, p - 1, sym(Symbol::RightBracket))
            }
        },
{
    reveal_with_fuel(p_array, 1);
}

/// One step of `p_primary`.
#[verifier::spinoff_prover]
pub proof fn lemma_p_primary(t: Seq<SpecToken>, p: int, sel: bool)
    ensures
        p_primary(t, p, sel) == {
            if !inside(t, p) {
                POut::Fail(PErr::Stuck)
            } else {
                match t[p].tok_type {
                    TokenType::Symbol(Symbol::LeftBrace) => p_object(t, p + 1, sel),
                    TokenType::Symbol(Symbol::LeftBracket) => p_array(t, p + 1, sel),
                    TokenType::Symbol(Symbol::LeftParen) => match p_expression(t, p + 1, sel) {
                        POut::Done { pos: p1, tree, .. } => with_tree(
                            expect(t, p1, sym(Symbol::RightParen)),
                            Tree::Grouping(Box::new(tree), span_of(tree)),
                        ),
                        f => f,
                    },
                    TokenType::True => leaf(p + 1, Tree::Scalar(LiteralView::Bool(true), "true"@, t[p].span)),
                    TokenType::False => leaf(p + 1, Tree::Scalar(LiteralView::Bool(false), "false"@, t[p].span)),
                    TokenType::Null => leaf(p + 1, Tree::Scalar(LiteralView::Null, "null"@, t[p].span)),
                    TokenType::Undefined => leaf(
                        p + 1,
                        Tree::Scalar(LiteralView::Undefined, "undefined"@, t[p].span),
                    ),
                    TokenType::Str | TokenType::Num => leaf(
                        p + 1,
                        Tree::Scalar(literal_at(t, p), lexeme_at(t, p), t[p].span),
                    ),
                    TokenType::Identifier { .. } => POut::Done {
                        pos: p + 1,
                        kind: EKind::Variable,
                        tree: Tree::Variable(name_at(t, p), t[p].span),
                    },
                    _ => POut::Fail(PErr::Unexpected(p)),
                }
            }
        },
{
    reveal_with_fuel(p_primary, 1);
}

/// One step of `p_fun`.
#[verifier::spinoff_prover]
pub proof fn lemma_p_fun(t: Seq<SpecToken>, p: int, sel: bool)
    ensures
        p_fun(t, p, sel) == {
            if !inside(t, p) {
                POut::Fail(PErr::Stuck)
            } else {
                let p1 = if at(t, p, ident()) {
                    p + 1
                } else {
                    p
                };
                let name = if at(t, p, ident()) {
                    Some(name_at(t, p))
                } else {
                    None
                };
                match expect(t, p1, sym(Symbol::LeftParen)) {
                    POut::Done { pos: p2, .. } => {
                        let params = if at(t, p2, sym(Symbol::RightParen)) {
                            leaf(p2, Tree::Names(Seq::empty()))
                        } else {
                            match expect(t, p2, dollar_ident()) {
                                POut::Done { pos: p3, .. } => p_params_rest(t, p3, seq![name_at(t, p2)]),
                                f => f,
                            }
                        };
                        match params {
                            POut::Done { pos: p4, tree: names, .. } => match expect(t, p4, sym(Symbol::RightParen)) {
                                POut::Done { pos: p5, .. } => match expect(t, p5, sym(Symbol::LeftBrace)) {
                                    POut::Done { pos: p6, .. } => if p6 > p {
                                        match p_block(t, p6, sel) {
                                            POut::Done { pos: p7, tree: body, .. } => leaf(
                                                p7,
                                                Tree::Function(
                                                    name,
                                                    names_of(names),
                                                    block_of(body),
                                                    t[p - 1].span.spec_merge(span_of(body)),
                                                ),
                                            ),
                                            f => f,
                                        }
                                    } else {
                                        POut::Fail(PErr::Stuck)
                                    },
                                    f => f,
                                },
                                f => f,
                            },
                            f => f,
                        }
                    },
                    f => f,
                }
            }
        },
{
    reveal_with_fuel(p_fun, 1);
}

/// One step of `p_declaration`.
#[verifier::spinoff_prover]
pub proof fn lemma_p_declaration(t: Seq<SpecToken>, p: int, sel: bool)
    ensures
        p_declaration(t, p, sel) == {
            if !inside(t, p) {
                POut::Fail(PErr::Stuck)
            } else if at(t, p, kw(Keyword::Var)) {
                p_var(t, p + 1, sel)
            } else {
                p_statement(t, p, sel)
            }
        },
{
    reveal_with_fuel(p_declaration, 1);
}

/// One step of `p_statement`.
#[verifier::spinoff_prover]
pub proof fn lemma_p_statement(t: Seq<SpecToken>, p: int, sel: bool)
    ensures
        p_statement(t, p, sel) == {
            if !inside(t, p) {
                POut::Fail(PErr::Stuck)
            } else if at(t, p, kw(Keyword::If)) {
                p_if(t, p + 1, sel)
            } else if at(t, p, kw(Keyword::While)) {
                p_while(t, p + 1, sel)
            } else if at(t, p, kw(Keyword::For)) {
                p_for(t, p + 1, sel)
            } else if at(t, p, kw(Keyword::Loop)) {
                p_loop(t, p + 1, sel)
            } else if at(t, p, kw(Keyword::Break)) {
                with_tree(expect(t, p + 1, sym(Symbol::Semicolon)), Tree::Break(t[p].span))
            } else if at(t, p, kw(Keyword::Continue)) {
                with_tree(expect(t, p + 1, sym(Symbol::Semicolon)), Tree::Continue(t[p].span))
            } else if at(t, p, kw(Keyword::Return)) {
                p_return(t, p + 1, sel)
            } else if starts_object(t, p) {
                p_expression_statement(t, p, sel)
            } else if at(t, p, sym(Symbol::LeftBrace)) {
                p_block(t, p + 1, sel)
            } else {
                p_expression_statement(t, p, sel)
            }
        },
{
    reveal_with_fuel(p_statement, 1);
}

/// One step of `p_expression_statement`.
#[verifier::spinoff_prover]
pub proof fn lemma_p_expression_statement(t: Seq<SpecToken>, p: int, sel: bool)
    ensures
        p_expression_statement(t, p, sel) == {
            if !inside(t, p) {
                POut::Fail(PErr::Stuck)
            } else {
                match p_expression(t, p, sel) {
                    POut::Done { pos: p1, tree, .. } => with_tree(
                        expect(t, p1, sym(Symbol::Semicolon)),
                        Tree::Expression(Box::new(tree), span_of(tree)),
                    ),
                    f => f,
                }
            }
        },
{
    reveal_with_fuel(p_expression_statement, 1);
}

/// One step of `p_return`.
#[verifier::spinoff_prover]
pub proof fn lemma_p_return(t: Seq<SpecToken>, p: int, sel: bool)
    ensures
        p_return(t, p, sel) == {
            if !inside(t, p) {
                POut::Fail(PErr::Stuck)
            } else if at(t, p, sym(Symbol::Semicolon)) {
                with_tree(expect(t, p, sym(Symbol::Semicolon)), Tree::Return(None, t[p - 1].span))
            } else {
                match p_expression(t, p, sel) {
                    POut::Done { pos: p1, tree, .. } => with_tree(
                        expect(t, p1, sym(Symbol::Semicolon)),
                        Tree::Return(Some(Box::new(tree)), t[p - 1].span.spec_merge(span_of(tree))),
                    ),
                    f => f,
                }
            }
        },
{
    reveal_with_fuel(p_return, 1);
}

/// One step of `p_var`.
#[verifier::spinoff_prover]
pub proof fn lemma_p_var(t: Seq<SpecToken>, p: int, sel: bool)
    ensures
        p_var(t, p, sel) == {
            if !inside(t, p) {
                POut::Fail(PErr::Stuck)
            } else {
                match expect(t, p, dollar_ident()) {
                    POut::Done { pos: p1, .. } => if at(t, p1, sym(Symbol::Equal)) {
                        if p1 >= p {
                            match p_expression(t, p1 + 1, sel) {
                                POut::Done { pos: p2, tree, .. } => with_tree(
                                    expect(t, p2, sym(Symbol::Semicolon)),
                                    Tree::Declaration(
                                        name_at(t, p),
                                        Box::new(tree),
                                        t[p - 1].span.spec_merge(span_of(tree)),
                                    ),
                                ),
                                f => f,
                            }
                        } else {
                            POut::Fail(PErr::Stuck)
                        }
                    } else {
                        with_tree(
                            expect(t, p1, sym(Symbol::Semicolon)),
                            Tree::Declaration(
                                name_at(t, p),
                                Box::new(
                                    Tree::Scalar(
                                        LiteralView::Undefined,
                                        "undefined"@,
                                        t[p - 1].span.spec_merge(t[p].span),
                                    ),
                                ),
                                t[p - 1].span.spec_merge(t[p - 1].span.spec_merge(t[p].span)),
                            ),
                        )
                    },
                    f => f,
                }
            }
        },
{
    reveal_with_fuel(p_var, 1);
}

/// One step of `p_if`.
#[verifier::spinoff_prover]
pub proof fn lemma_p_if(t: Seq<SpecToken>, p: int, sel: bool)
    ensures
        p_if(t, p, sel) == {
            if !inside(t, p) {
                POut::Fail(PErr::Stuck)
            } else {
                match expect(t, p, sym(Symbol::LeftParen)) {
                    POut::Done { pos: p1, .. } => match p_expression(t, p1, sel) {
                        POut::Done { pos: p2, tree: condition, .. } => match expect(t, p2, sym(Symbol::RightParen)) {
                            POut::Done { pos: p3, .. } => if p3 > p {
                                match p_statement(t, p3, sel) {
                                    POut::Done { pos: p4, tree: body, .. } => if at(t, p4, kw(Keyword::Else)) {
                                        if p4 >= p {
                                            match p_statement(t, p4 + 1, sel) {
                                                POut::Done { pos: p5, tree: other, .. } => leaf(
                                                    p5,
                                                    Tree::If(
                                                        Box::new(condition),
                                                        Box::new(body),
                                                        Some(Box::new(other)),
                                                        t[p - 1].span.spec_merge(span_of(other)),
                                                    ),
                                                ),
                                                f => f,
                                            }
                                        } else {
                                            POut::Fail(PErr::Stuck)
                                        }
                                    } else {
                                        leaf(
                                            p4,
                                            Tree::If(
                                                Box::new(condition),
                                                Box::new(body),
                                                None,
                                                t[p - 1].span.spec_merge(span_of(body)),
                                            ),
                                        )
                                    },
                                    f => f,
                                }
                            } else {
                                POut::Fail(PErr::Stuck)
                            },
                            f => f,
                        },
                        f => f,
                    },
                    f => f,
                }
            }
        },
{
    reveal_with_fuel(p_if, 1);
}

/// One step of `p_loop`.
#[verifier::spinoff_prover]
pub proof fn lemma_p_loop(t: Seq<SpecToken>, p: int, sel: bool)
    ensures
        p_loop(t, p, sel) == {
            if !inside(t, p) {
                POut::Fail(PErr::Stuck)
            } else {
                match expect(t, p, sym(Symbol::LeftBrace)) {
                    POut::Done { pos: p1, .. } => match p_block(t, p1, sel) {
                        POut::Done { pos: p2, tree, .. } => leaf(
                            skip_semicolon(t, p2),
                            Tree::Loop(None, Box::new(tree), None, t[p - 1].span.spec_merge(span_of(tree))),
                        ),
                        f => f,
                    },
                    f => f,
                }
            }
        },
{
    reveal_with_fuel(p_loop, 1);
}

/// One step of `p_while`.
#[verifier::spinoff_prover]
pub proof fn lemma_p_while(t: Seq<SpecToken>, p: int, sel: bool)
    ensures
        p_while(t, p, sel) == {
            if !inside(t, p) {
                POut::Fail(PErr::Stuck)
            } else {
                match expect(t, p, sym(Symbol::LeftParen)) {
                    POut::Done { pos: p1, .. } => match p_expression(t, p1, sel) {
                        POut::Done { pos: p2, tree: condition, .. } => match expect(t, p2, sym(Symbol::RightParen)) {
                            POut::Done { pos: p3, .. } => match expect(t, p3, sym(Symbol::LeftBrace)) {
                                POut::Done { pos: p4, .. } => if p4 > p {
                                    match p_block(t, p4, sel) {
                                        POut::Done { pos: p5, tree, .. } => leaf(
                                            skip_semicolon(t, p5),
                                            Tree::Loop(
                                                Some(Box::new(condition)),
                                                Box::new(tree),
                                                None,
                                                t[p - 1].span.spec_merge(span_of(tree)),
                                            ),
                                        ),
                                        f => f,
                                    }
                                } else {
                                    POut::Fail(PErr::Stuck)
                                },
                                f => f,
                            },
                            f => f,
                        },
                        f => f,
                    },
                    f => f,
                }
            }
        },
{
    reveal_with_fuel(p_while, 1);
}

/// One step of `p_for_condition`.
#[verifier::spinoff_prover]
pub proof fn lemma_p_for_condition(t: Seq<SpecToken>, p: int, sel: bool)
    ensures
        p_for_condition(t, p, sel) == {
            if !inside(t, p) {
                POut::Fail(PErr::Stuck)
            } else if at(t, p, sym(Symbol::Semicolon)) {
                leaf(p + 1, Tree::Maybe(None))
            } else {
                match p_expression(t, p, sel) {
                    POut::Done { pos: p1, tree, .. } => with_tree(
                        expect(t, p1, sym(Symbol::Semicolon)),
                        Tree::Maybe(Some(Box::new(tree))),
                    ),
                    f => f,
                }
            }
        },
{
    reveal_with_fuel(p_for_condition, 1);
}

/// One step of `p_for_increment`.
#[verifier::spinoff_prover]
pub proof fn lemma_p_for_increment(t: Seq<SpecToken>, p: int, sel: bool)
    ensures
        p_for_increment(t, p, sel) == {
            if !inside(t, p) {
                POut::Fail(PErr::Stuck)
            } else if at(t, p, sym(Symbol::RightParen)) {
                leaf(p + 1, Tree::Maybe(None))
            } else {
                match p_expression(t, p, sel) {
                    POut::Done { pos: p1, tree, .. } => with_tree(
                        expect(t, p1, sym(Symbol::RightParen)),
                        Tree::Maybe(Some(Box::new(Tree::Expression(Box::new(tree), span_of(tree))))),
                    ),
                    f => f,
                }
            }
        },
{
    reveal_with_fuel(p_for_increment, 1);
}

/// One step of `p_for`.
#[verifier::spinoff_prover]
pub proof fn lemma_p_for(t: Seq<SpecToken>, p: int, sel: bool)
    ensures
        p_for(t, p, sel) == {
            if !inside(t, p) {
                POut::Fail(PErr::Stuck)
            } else {
                match expect(t, p, sym(Symbol::LeftParen)) {
                    POut::Done { pos: p1, .. } => {
                        let init = if at(t, p1, sym(Symbol::Semicolon)) {
                            leaf(p1 + 1, Tree::Maybe(None))
                        } else if p1 > p {
                            match p_declaration(t, p1, sel) {
                                POut::Done { pos, tree, .. } => leaf(pos, Tree::Maybe(Some(Box::new(tree)))),
                                f => f,
                            }
                        } else {
                            POut::Fail(PErr::Stuck)
                        };
                        match init {
                            POut::Done { pos: p2, tree: init_tree, .. } => if p2 > p {
                                match p_for_condition(t, p2, sel) {
                                    POut::Done { pos: p3, tree: condition, .. } => if p3 > p {
                                        match p_for_increment(t, p3, sel) {
                                            POut::Done { pos: p4, tree: increment, .. } => match expect(
                                                t,
                                                p4,
                                                sym(Symbol::LeftBrace),
                                            ) {
                                                POut::Done { pos: p5, .. } => if p5 > p {
                                                    match p_block(t, p5, sel) {
                                                        POut::Done { pos: p6, tree: body, .. } => leaf(
                                                            skip_semicolon(t, p6),
                                                            for_tree(t[p - 1].span, init_tree, condition, increment, body),
                                                        ),
                                                        f => f,
                                                    }
                                                } else {
                                                    POut::Fail(PErr::Stuck)
                                                },
                                                f => f,
                                            },
                                            f => f,
                                        }
                                    } else {
                                        POut::Fail(PErr::Stuck)
                                    },
                                    f => f,
                                }
                            } else {
                                POut::Fail(PErr::Stuck)
                            },
                            f => f,
                        }
                    },
                    f => f,
                }
            }
        },
{
    reveal_with_fuel(p_for, 1);
}

/// One step of `p_block_body`.
#[verifier::spinoff_prover]
pub proof fn lemma_p_block_body(t: Seq<SpecToken>, p: int, sel: bool, acc: Seq<Tree>)
    ensures
        p_block_body(t, p, sel, acc) == {
            if !inside(t, p) {
                POut::Fail(PErr::Stuck)
            } else if at(t, p, sym(Symbol::RightBrace)) || at(t, p, TokenType::Eof) {
                leaf(p, Tree::Block(acc, Span::spec_zero()))
            } else {
                match p_declaration(t, p, sel) {
                    POut::Done { pos: p1, tree, .. } => if p1 > p {
                        p_block_body(t, p1, sel, acc.push(tree))
                    } else {
                        POut::Fail(PErr::Stuck)
                    },
                    f => f,
                }
            }
        },
{
    reveal_with_fuel(p_block_body, 1);
}

/// One step of `p_block`.
#[verifier::spinoff_prover]
pub proof fn lemma_p_block(t: Seq<SpecToken>, p: int, sel: bool)
    ensures
        p_block(t, p, sel) == {
            if !inside(t, p) {
                POut::Fail(PErr::Stuck)
            } else {
                block_closed(p_block_body(t, p, sel, Seq::empty()), t, p - 1)
            }
        },
{
    reveal_with_fuel(p_block, 1);
}

/// One step of `p_values`.
#[verifier::spinoff_prover]
pub proof fn lemma_p_values(t: Seq<SpecToken>, p: int, sel: bool, acc: Seq<Tree>)
    ensures
        p_values(t, p, sel, acc) == {
            if !inside(t, p) {
                POut::Fail(PErr::Stuck)
            } else {
                match p_sql_expression(t, p, sel) {
                    POut::Done { pos: p1, tree, .. } => if at(t, p1, sym(Symbol::Comma)) {
                        if p1 >= p {
                            p_values(t, p1 + 1, sel, acc.push(tree))
                        } else {
                            POut::Fail(PErr::Stuck)
                        }
                    } else {
                        leaf(p1, Tree::List(acc.push(tree)))
                    },
                    f => f,
                }
            }
        },
{
    reveal_with_fuel(p_values, 1);
}

/// One step of `p_insert`.
#[verifier::spinoff_prover]
pub proof fn lemma_p_insert(t: Seq<SpecToken>, p: int, sel: bool)
    ensures
        p_insert(t, p, sel) == {
            if !inside(t, p) {
                POut::Fail(PErr::Stuck)
            } else if !at(t, p, skw(SqlKeyword::Insert)) {
                p_update(t, p, sel)
            } else {
                match expect(t, p + 1, skw(SqlKeyword::Into)) {
                    POut::Done { pos: p1, .. } => match p_collection(t, p1) {
                        None => POut::Fail(PErr::Unexpected(p1)),
                        Some(POut::Fail(e)) => POut::Fail(e),
                        Some(POut::Done { pos: p2, tree: collection, .. }) => if at(t, p2, skw(SqlKeyword::Select)) {
                            if p2 > p {
                                match p_select_inner(t, p2) {
                                    POut::Done { pos: p3, tree: query, .. } => leaf(
                                        p3,
                                        Tree::Insert(Box::new(collection), Box::new(query), Span::spec_zero()),
                                    ),
                                    f => f,
                                }
                            } else {
                                POut::Fail(PErr::Stuck)
                            }
                        } else if at(t, p2, skw(SqlKeyword::Values)) {
                            match expect(t, p2 + 1, sym(Symbol::LeftParen)) {
                                POut::Done { pos: p3, .. } => if p3 > p {
                                    match p_values(t, p3, sel, Seq::empty()) {
                                        POut::Done { pos: p4, tree: values, .. } => with_tree(
                                            expect(t, p4, sym(Symbol::RightParen)),
                                            Tree::Insert(
                                                Box::new(collection),
                                                Box::new(Tree::Values(list_of(values))),
                                                Span::spec_zero(),
                                            ),
                                        ),
                                        f => f,
                                    }
                                } else {
                                    POut::Fail(PErr::Stuck)
                                },
                                f => f,
                            }
                        } else {
                            POut::Fail(PErr::Unexpected(p2))
                        },
                    },
                    f => f,
                }
            }
        },
{
    reveal_with_fuel(p_insert, 1);
}

/// One step of `p_assignments`.
#[verifier::spinoff_prover]
pub proof fn lemma_p_assignments(t: Seq<SpecToken>, p: int, sel: bool, acc: Seq<Tree>)
    ensures
        p_assignments(t, p, sel, acc) == {
            if !inside(t, p) {
                POut::Fail(PErr::Stuck)
            } else {
                match expect(t, p, ident()) {
                    POut::Done { pos: p1, .. } => match expect(t, p1, sym(Symbol::Equal)) {
                        POut::Done { pos: p2, .. } => match p_sql_expression(t, p2, sel) {
                            POut::Done { pos: p3, tree, .. } => if at(t, p3, sym(Symbol::Comma)) {
                                if p3 >= p {
                                    p_assignments(t, p3 + 1, sel, acc.push(tree))
                                } else {
                                    POut::Fail(PErr::Stuck)
                                }
                            } else {
                                leaf(p3, Tree::List(acc.push(tree)))
                            },
                            f => f,
                        },
                        f => f,
                    },
                    f => f,
                }
            }
        },
{
    reveal_with_fuel(p_assignments, 1);
}

/// One step of `p_where`.
#[verifier::spinoff_prover]
pub proof fn lemma_p_where(t: Seq<SpecToken>, p: int, sel: bool)
    ensures
        p_where(t, p, sel) == {
            if !inside(t, p) {
                POut::Fail(PErr::Stuck)
            } else if at(t, p, skw(SqlKeyword::Where)) {
                match p_sql_expression(t, p + 1, sel) {
                    POut::Done { pos, tree, .. } => leaf(pos, Tree::Maybe(Some(Box::new(tree)))),
                    f => f,
                }
            } else {
                leaf(p, Tree::Maybe(None))
            }
        },
{
    reveal_with_fuel(p_where, 1);
}

/// One step of `p_update`.
#[verifier::spinoff_prover]
pub proof fn lemma_p_update(t: Seq<SpecToken>, p: int, sel: bool)
    ensures
        p_update(t, p, sel) == {
            if !inside(t, p) {
                POut::Fail(PErr::Stuck)
            } else if !at(t, p, skw(SqlKeyword::Update)) {
                p_delete(t, p, sel)
            } else {
                let c = p_collection(t, p + 1);
                let p1 = match c {
                    Some(POut::Done { pos, .. }) => pos,
                    _ => p + 1,
                };
                match c {
                    Some(POut::Fail(e)) => POut::Fail(e),
                    _ => match expect(t, p1, skw(SqlKeyword::SetKw)) {
                        POut::Done { pos: p2, .. } => if p2 > p {
                            match p_assignments(t, p2, sel, Seq::empty()) {
                                POut::Done { pos: p3, tree: assignments, .. } => if p3 > p {
                                    match p_where(t, p3, sel) {
                                        POut::Done { pos: p4, tree: w, .. } => match c {
                                            Some(POut::Done { tree: collection, .. }) => leaf(
                                                p4,
                                                Tree::Update(
                                                    Box::new(collection),
                                                    list_of(assignments),
                                                    maybe_of(w),
                                                    Span::spec_zero(),
                                                ),
                                            ),
                                            _ => POut::Fail(PErr::Unexpected(p + 1)),
                                        },
                                        f => f,
                                    }
                                } else {
                                    POut::Fail(PErr::Stuck)
                                },
                                f => f,
                            }
                        } else {
                            POut::Fail(PErr::Stuck)
                        },
                        f => f,
                    },
                }
            }
        },
{
    reveal_with_fuel(p_update, 1);
}

/// One step of `p_delete`.
#[verifier::spinoff_prover]
pub proof fn lemma_p_delete(t: Seq<SpecToken>, p: int, sel: bool)
    ensures
        p_delete(t, p, sel) == {
            if !inside(t, p) {
                POut::Fail(PErr::Stuck)
            } else if !at(t, p, skw(SqlKeyword::Delete)) {
                p_select(t, p, sel)
            } else {
                match expect(t, p + 1, skw(SqlKeyword::From)) {
                    POut::Done { pos: p1, .. } => match p_collection(t, p1) {
                        None => POut::Fail(PErr::Unexpected(p1)),
                        Some(POut::Fail(e)) => POut::Fail(e),
                        Some(POut::Done { pos: p2, tree: collection, .. }) => if p2 > p {
                            match p_where(t, p2, sel) {
                                POut::Done { pos: p3, tree: w, .. } => leaf(
                                    p3,
                                    Tree::Delete(Box::new(collection), maybe_of(w), Span::spec_zero()),
                                ),
                                f => f,
                            }
                        } else {
                            POut::Fail(PErr::Stuck)
                        },
                    },
                    f => f,
                }
            }
        },
{
    reveal_with_fuel(p_delete, 1);
}

/// One step of `p_select`.
#[verifier::spinoff_prover]
pub proof fn lemma_p_select(t: Seq<SpecToken>, p: int, sel: bool)
    ensures
        p_select(t, p, sel) == {
            if !inside(t, p) {
                POut::Fail(PErr::Stuck)
            } else if !at(t, p, skw(SqlKeyword::Select)) {
                p_call(t, p, sel)
            } else {
                match p_select_inner(t, p) {
                    POut::Done { pos: p1, tree, .. } => leaf(p1, Tree::Select(Box::new(tree), Span::spec_zero())),
                    f => f,
                }
            }
        },
{
    reveal_with_fuel(p_select, 1);
}

/// One step of `p_orderings`.
#[verifier::spinoff_prover]
pub proof fn lemma_p_orderings(t: Seq<SpecToken>, p: int, acc: Seq<(Tree, SqlOrdering)>)
    ensures
        p_orderings(t, p, acc) == {
            if !inside(t, p) {
                POut::Fail(PErr::Stuck)
            } else {
                match p_sql_expression(t, p, true) {
                    POut::Done { pos: p1, tree, .. } => {
                        let ordering = if at(t, p1, skw(SqlKeyword::Desc)) {
                            SqlOrdering::Desc
                        } else {
                            SqlOrdering::Asc
                        };
                        let p2 = if at(t, p1, skw(SqlKeyword::Desc)) || at(t, p1, skw(SqlKeyword::Asc)) {
                            p1 + 1
                        } else {
                            p1
                        };
                        if at(t, p2, sym(Symbol::Comma)) {
                            if p2 >= p {
                                p_orderings(t, p2 + 1, acc.push((tree, ordering)))
                            } else {
                                POut::Fail(PErr::Stuck)
                            }
                        } else {
                            leaf(p2, Tree::Orderings(acc.push((tree, ordering))))
                        }
                    },
                    f => f,
                }
            }
        },
{
    reveal_with_fuel(p_orderings, 1);
}

/// One step of `p_order_by`.
#[verifier::spinoff_prover]
pub proof fn lemma_p_order_by(t: Seq<SpecToken>, p: int)
    ensures
        p_order_by(t, p) == {
            if !inside(t, p) {
                POut::Fail(PErr::Stuck)
            } else if at(t, p, skw(SqlKeyword::Order)) {
                match expect(t, p + 1, skw(SqlKeyword::By)) {
                    POut::Done { pos: p1, .. } => p_orderings(t, p1, Seq::empty()),
                    f => f,
                }
            } else {
                leaf(p, Tree::Maybe(None))
            }
        },
{
    reveal_with_fuel(p_order_by, 1);
}

/// One step of `p_limit`.
#[verifier::spinoff_prover]
pub proof fn lemma_p_limit(t: Seq<SpecToken>, p: int)
    ensures
        p_limit(t, p) == {
            if !inside(t, p) {
                POut::Fail(PErr::Stuck)
            } else if at(t, p, skw(SqlKeyword::Limit)) {
                match p_sql_expression(t, p + 1, true) {
                    POut::Done { pos: p1, tree: first, .. } => if at(t, p1, skw(SqlKeyword::Offset)) || at(
                        t,
                        p1,
                        sym(Symbol::Comma),
                    ) {
                        if p1 >= p {
                            match p_sql_expression(t, p1 + 1, true) {
                                POut::Done { pos: p2, tree: second, .. } => leaf(
                                    p2,
                                    Tree::Limit(
                                        Some(
                                            if at(t, p1, sym(Symbol::Comma)) {
                                                (Box::new(second), Some(Box::new(first)))
                                            } else {
                                                (Box::new(first), Some(Box::new(second)))
                                            },
                                        ),
                                    ),
                                ),
                                f => f,
                            }
                        } else {
                            POut::Fail(PErr::Stuck)
                        }
                    } else {
                        leaf(p1, Tree::Limit(Some((Box::new(first), None))))
                    },
                    f => f,
                }
            } else {
                leaf(p, Tree::Limit(None))
            }
        },
{
    reveal_with_fuel(p_limit, 1);
}

/// One step of `p_select_inner`.
#[verifier::spinoff_prover]
pub proof fn lemma_p_select_inner(t: Seq<SpecToken>, p: int)
    ensures
        p_select_inner(t, p) == {
            if !inside(t, p) {
                POut::Fail(PErr::Stuck)
            } else {
                match p_core(t, p) {
                    POut::Done { pos: p1, tree: core, .. } => if p1 > p {
                        match p_order_by(t, p1) {
                            POut::Done { pos: p2, tree: order_by, .. } => if p2 > p {
                                match p_limit(t, p2) {
                                    POut::Done { pos: p3, tree: limit, .. } => leaf(
                                        p3,
                                        Tree::Query {
                                            core: Box::new(core),
                                            order_by: orderings_of(order_by),
                                            limit: limit_of(limit),
                                        },
                                    ),
                                    f => f,
                                }
                            } else {
                                POut::Fail(PErr::Stuck)
                            },
                            f => f,
                        }
                    } else {
                        POut::Fail(PErr::Stuck)
                    },
                    f => f,
                }
            }
        },
{
    reveal_with_fuel(p_select_inner, 1);
}

/// One step of `p_group_by`.
#[verifier::spinoff_prover]
pub proof fn lemma_p_group_by(t: Seq<SpecToken>, p: int)
    ensures
        p_group_by(t, p) == {
            if !inside(t, p) {
                POut::Fail(PErr::Stuck)
            } else if at(t, p, skw(SqlKeyword::Group)) {
                match expect(t, p + 1, skw(SqlKeyword::By)) {
                    POut::Done { pos: p1, .. } => match p_values(t, p1, true, Seq::empty()) {
                        POut::Done { pos, tree, .. } => leaf(pos, Tree::Maybe(Some(Box::new(tree)))),
                        f => f,
                    },
                    f => f,
                }
            } else {
                leaf(p, Tree::Maybe(None))
            }
        },
{
    reveal_with_fuel(p_group_by, 1);
}

/// One step of `p_from`.
#[verifier::spinoff_prover]
pub proof fn lemma_p_from(t: Seq<SpecToken>, p: int)
    ensures
        p_from(t, p) == {
            if !inside(t, p) {
                POut::Fail(PErr::Stuck)
            } else if at(t, p, skw(SqlKeyword::From)) {
                match p_subquery_join(t, p + 1) {
                    POut::Done { pos, tree, .. } => leaf(pos, Tree::Maybe(Some(Box::new(tree)))),
                    f => f,
                }
            } else {
                leaf(p, Tree::Maybe(None))
            }
        },
{
    reveal_with_fuel(p_from, 1);
}

/// One step of `p_core`.
#[verifier::spinoff_prover]
pub proof fn lemma_p_core(t: Seq<SpecToken>, p: int)
    ensures
        p_core(t, p) == {
            if !inside(t, p) {
                POut::Fail(PErr::Stuck)
            } else {
                match expect(t, p, skw(SqlKeyword::Select)) {
                    POut::Done { pos: p1, .. } => {
                        let distinct = if at(t, p1, skw(SqlKeyword::Distinct)) {
                            SqlDistinct::Distinct
                        } else if at(t, p1, skw(SqlKeyword::All)) {
                            SqlDistinct::All
                        } else {
                            SqlDistinct::ImplicitAll
                        };
                        let p2 = if at(t, p1, skw(SqlKeyword::Distinct)) || at(t, p1, skw(SqlKeyword::All)) {
                            p1 + 1
                        } else {
                            p1
                        };
                        if p2 > p {
                            match p_projection(t, p2, Seq::empty()) {
                                POut::Done { pos: p3, tree: projection, .. } => if p3 > p {
                                    match p_from(t, p3) {
                                        POut::Done { pos: p4, tree: from, .. } => if p4 > p {
                                            match p_where(t, p4, true) {
                                                POut::Done { pos: p5, tree: w, .. } => if p5 > p {
                                                    match p_group_by(t, p5) {
                                                        POut::Done { pos: p6, tree: group_by, .. } => if p6 > p {
                                                            let having = if p6 > p5 && at(
                                                                t,
                                                                p6,
                                                                skw(SqlKeyword::Having),
                                                            ) {
                                                                match p_sql_expression(t, p6 + 1, true) {
                                                                    POut::Done { pos, tree, .. } => leaf(
                                                                        pos,
                                                                        Tree::Maybe(Some(Box::new(tree))),
                                                                    ),
                                                                    f => f,
                                                                }
                                                            } else {
                                                                leaf(p6, Tree::Maybe(None))
                                                            };
                                                            match having {
                                                                POut::Done { pos: p7, tree: h, .. } => if p7 > p {
                                                                    match p_compound(t, p7) {
                                                                        POut::Done { pos: p8, tree: compound, .. } => leaf(
                                                                            p8,
                                                                            Tree::Core {
                                                                                distinct,
                                                                                projection: list_of(projection),
                                                                                from: maybe_of(from),
                                                                                where_clause: maybe_of(w),
                                                                                group_by: group_of(group_by),
                                                                                having: maybe_of(h),
                                                                                compound: compound_of(compound),
                                                                            },
                                                                        ),
                                                                        f => f,
                                                                    }
                                                                } else {
                                                                    POut::Fail(PErr::Stuck)
                                                                },
                                                                f => f,
                                                            }
                                                        } else {
                                                            POut::Fail(PErr::Stuck)
                                                        },
                                                        f => f,
                                                    }
                                                } else {
                                                    POut::Fail(PErr::Stuck)
                                                },
                                                f => f,
                                            }
                                        } else {
                                            POut::Fail(PErr::Stuck)
                                        },
                                        f => f,
                                    }
                                } else {
                                    POut::Fail(PErr::Stuck)
                                },
                                f => f,
                            }
                        } else {
                            POut::Fail(PErr::Stuck)
                        }
                    },
                    f => f,
                }
            }
        },
{
    reveal_with_fuel(p_core, 1);
}

/// One step of `p_compound`.
#[verifier::spinoff_prover]
pub proof fn lemma_p_compound(t: Seq<SpecToken>, p: int)
    ensures
        p_compound(t, p) == {
            if !inside(t, p) {
                POut::Fail(PErr::Stuck)
            } else if op_in(t, p, compound_ops()) {
                let all = t[p].tok_type == skw(SqlKeyword::Union) && at(t, p + 1, skw(SqlKeyword::All));
                let p1 = if all {
                    p + 2
                } else {
                    p + 1
                };
                let operator = if all {
                    SqlCompoundOperator::UnionAll
                } else if t[p].tok_type == skw(SqlKeyword::Union) {
                    SqlCompoundOperator::Union
                } else if t[p].tok_type == skw(SqlKeyword::Intersect) {
                    SqlCompoundOperator::Intersect
                } else {
                    SqlCompoundOperator::Except
                };
                match p_core(t, p1) {
                    POut::Done { pos, tree, .. } => leaf(pos, Tree::Compound(Some((operator, Box::new(tree))))),
                    f => f,
                }
            } else {
                leaf(p, Tree::Compound(None))
            }
        },
{
    reveal_with_fuel(p_compound, 1);
}

/// One step of `p_projection`.
#[verifier::spinoff_prover]
pub proof fn lemma_p_projection(t: Seq<SpecToken>, p: int, acc: Seq<Tree>)
    ensures
        p_projection(t, p, acc) == {
            if !inside(t, p) {
                POut::Fail(PErr::Stuck)
            } else {
                let item = if at(t, p, sym(Symbol::Star)) {
                    leaf(p + 1, Tree::ProjectAll(None))
                } else if starts_with(t, p, seq![ident(), sym(Symbol::Dot), sym(Symbol::Star)]) {
                    leaf(p + 3, Tree::ProjectAll(Some(name_at(t, p))))
                } else {
                    match p_sql_expression(t, p, true) {
                        POut::Done { pos: p1, tree, .. } => with_tree(
                            opt_with_expected(t, p1, skw(SqlKeyword::As), ident()),
                            Tree::ProjectExpr(Box::new(tree), alias_at(t, p1)),
                        ),
                        f => f,
                    }
                };
                match item {
                    POut::Done { pos: p2, tree, .. } => if at(t, p2, sym(Symbol::Comma)) {
                        if p2 >= p {
                            p_projection(t, p2 + 1, acc.push(tree))
                        } else {
                            POut::Fail(PErr::Stuck)
                        }
                    } else {
                        leaf(p2, Tree::List(acc.push(tree)))
                    },
                    f => f,
                }
            }
        },
{
    reveal_with_fuel(p_projection, 1);
}

/// One step of `p_join`.
#[verifier::spinoff_prover]
pub proof fn lemma_p_join(t: Seq<SpecToken>, p: int, left: Tree)
    ensures
        p_join(t, p, left) == {
            if !inside(t, p) {
                POut::Fail(PErr::Stuck)
            } else {
                let kind = if t[p].tok_type == skw(SqlKeyword::Inner) {
                    expect(t, p + 1, skw(SqlKeyword::Join))
                } else if t[p].tok_type == skw(SqlKeyword::Left) || t[p].tok_type == skw(SqlKeyword::Right) {
                    opt_with_expected(t, p + 1, skw(SqlKeyword::Outer), skw(SqlKeyword::Join))
                } else {
                    done(p + 1)
                };
                let join_type = if t[p].tok_type == skw(SqlKeyword::Left) {
                    SqlJoinType::Left
                } else if t[p].tok_type == skw(SqlKeyword::Right) {
                    SqlJoinType::Right
                } else {
                    SqlJoinType::Inner
                };
                match kind {
                    POut::Done { pos: p1, .. } => if p1 > p {
                        match p_subquery_collection(t, p1) {
                            POut::Done { pos: p2, tree: right, .. } => {
                                let on = if at(t, p2, skw(SqlKeyword::On)) {
                                    if p2 >= p {
                                        match p_sql_expression(t, p2 + 1, true) {
                                            POut::Done { pos, tree, .. } => leaf(
                                                pos,
                                                Tree::Maybe(Some(Box::new(tree))),
                                            ),
                                            f => f,
                                        }
                                    } else {
                                        POut::Fail(PErr::Stuck)
                                    }
                                } else {
                                    leaf(p2, Tree::Maybe(None))
                                };
                                match on {
                                    POut::Done { pos: p3, tree: constraint, .. } => leaf(
                                        p3,
                                        Tree::Join(Box::new(left), Box::new(right), join_type, maybe_of(constraint)),
                                    ),
                                    f => f,
                                }
                            },
                            f => f,
                        }
                    } else {
                        POut::Fail(PErr::Stuck)
                    },
                    f => f,
                }
            }
        },
{
    reveal_with_fuel(p_join, 1);
}

/// One step of `p_joins`.
#[verifier::spinoff_prover]
pub proof fn lemma_p_joins(t: Seq<SpecToken>, p: int, left: Tree)
    ensures
        p_joins(t, p, left) == {
            if !inside(t, p) {
                POut::Fail(PErr::Stuck)
            } else if op_in(t, p, join_ops()) {
                match p_join(t, p, left) {
                    POut::Done { pos, tree, .. } => if pos > p {
                        p_joins(t, pos, tree)
                    } else {
                        POut::Fail(PErr::Stuck)
                    },
                    f => f,
                }
            } else {
                leaf(p, left)
            }
        },
{
    reveal_with_fuel(p_joins, 1);
}

/// One step of `p_join_groups`.
#[verifier::spinoff_prover]
pub proof fn lemma_p_join_groups(t: Seq<SpecToken>, p: int, acc: Seq<Tree>)
    ensures
        p_join_groups(t, p, acc) == {
            if !inside(t, p) {
                POut::Fail(PErr::Stuck)
            } else {
                match p_subquery_collection(t, p) {
                    POut::Done { pos: p1, tree: left, .. } => if p1 > p {
                        match p_joins(t, p1, left) {
                            POut::Done { pos: p2, tree, .. } => if at(t, p2, sym(Symbol::Comma)) {
                                if p2 >= p {
                                    p_join_groups(t, p2 + 1, acc.push(tree))
                                } else {
                                    POut::Fail(PErr::Stuck)
                                }
                            } else {
                                leaf(p2, Tree::Group(acc.push(tree)))
                            },
                            f => f,
                        }
                    } else {
                        POut::Fail(PErr::Stuck)
                    },
                    f => f,
                }
            }
        },
{
    reveal_with_fuel(p_join_groups, 1);
}

/// One step of `p_subquery_join`.
#[verifier::spinoff_prover]
pub proof fn lemma_p_subquery_join(t: Seq<SpecToken>, p: int)
    ensures
        p_subquery_join(t, p) == {
            if !inside(t, p) {
                POut::Fail(PErr::Stuck)
            } else {
                p_join_groups(t, p, Seq::empty())
            }
        },
{
    reveal_with_fuel(p_subquery_join, 1);
}

/// One step of `p_subquery_collection`.
#[verifier::spinoff_prover]
pub proof fn lemma_p_subquery_collection(t: Seq<SpecToken>, p: int)
    ensures
        p_subquery_collection(t, p) == {
            if !inside(t, p) {
                POut::Fail(PErr::Stuck)
            } else if at(t, p, sym(Symbol::LeftParen)) {
                if at(t, p + 1, skw(SqlKeyword::Select)) {
                    match p_select(t, p + 1, true) {
                        POut::Done { pos: p1, tree, .. } => match expect(t, p1, sym(Symbol::RightParen)) {
                            POut::Done { pos: p2, .. } => with_tree(
                                opt_with_expected(t, p2, skw(SqlKeyword::As), ident()),
                                Tree::SubSelect(Box::new(tree), alias_at(t, p2)),
                            ),
                            f => f,
                        },
                        f => f,
                    }
                } else {
                    match p_subquery_join(t, p + 1) {
                        POut::Done { pos: p1, tree, .. } => with_tree(expect(t, p1, sym(Symbol::RightParen)), tree),
                        f => f,
                    }
                }
            } else {
                match p_collection(t, p) {
                    None => POut::Fail(PErr::Unexpected(p)),
                    Some(r) => r,
                }
            }
        },
{
    reveal_with_fuel(p_subquery_collection, 1);
}

/// One step of `p_sql_expression`.
#[verifier::spinoff_prover]
pub proof fn lemma_p_sql_expression(t: Seq<SpecToken>, p: int, sel: bool)
    ensures
        p_sql_expression(t, p, sel) == {
            if !inside(t, p) {
                POut::Fail(PErr::Stuck)
            } else {
                match p_expression(t, p, sel) {
                    POut::Done { pos: p1, tree: e, .. } => {
                        let left = Tree::SqlDefault(Box::new(e));
                        let fst = conj_at(t, p1);
                        let q1 = if fst is Some {
                            p1 + 1
                        } else {
                            p1
                        };
                        let sec = if fst is Some {
                            conj_at(t, q1)
                        } else {
                            None
                        };
                        let q2 = if sec is Some {
                            q1 + 1
                        } else {
                            q1
                        };
                        if fst is None {
                            leaf(q2, left)
                        } else if q2 > p {
                            match pred_of(fst, sec) {
                                Some(pred) => match p_sql_expression(t, q2, sel) {
                                    POut::Done { pos, tree, .. } => leaf(
                                        pos,
                                        Tree::SqlPredicate(pred, Box::new(left), Box::new(tree)),
                                    ),
                                    f => f,
                                },
                                None => if is_between(fst, sec) {
                                    match p_between(t, q2, sel) {
                                        POut::Done { pos, tree, .. } => leaf(
                                            pos,
                                            Tree::SqlBetween(
                                                fst == Some(skw(SqlKeyword::Not)),
                                                Box::new(left),
                                                Box::new(list_of(tree)[0]),
                                                Box::new(list_of(tree)[1]),
                                            ),
                                        ),
                                        f => f,
                                    }
                                } else {
                                    leaf(q2, left)
                                },
                            }
                        } else {
                            POut::Fail(PErr::Stuck)
                        }
                    },
                    f => f,
                }
            }
        },
{
    reveal_with_fuel(p_sql_expression, 1);
}

/// One step of `p_between`.
#[verifier::spinoff_prover]
pub proof fn lemma_p_between(t: Seq<SpecToken>, p: int, sel: bool)
    ensures
        p_between(t, p, sel) == {
            if !inside(t, p) {
                POut::Fail(PErr::Stuck)
            } else {
                match p_equality(t, p, sel) {
                    POut::Done { pos: p1, tree: lower, .. } => match expect(t, p1, skw(SqlKeyword::And)) {
                        POut::Done { pos: p2, .. } => if p2 > p {
                            match p_equality(t, p2, sel) {
                                POut::Done { pos: p3, tree: upper, .. } => leaf(
                                    p3,
                                    Tree::List(
                                        seq![
                                            Tree::SqlDefault(Box::new(lower)),
                                            Tree::SqlDefault(Box::new(upper)),
                                        ],
                                    ),
                                ),
                                f => f,
                            }
                        } else {
                            POut::Fail(PErr::Stuck)
                        },
                        f => f,
                    },
                    f => f,
                }
            }
        },
{
    reveal_with_fuel(p_between, 1);
}

/// One step of `p_program_body`.
#[verifier::spinoff_prover]
pub proof fn lemma_p_program_body(t: Seq<SpecToken>, p: int, acc: Seq<Tree>)
    ensures
        p_program_body(t, p, acc) == {
            if !inside(t, p) {
                POut::Fail(PErr::Stuck)
            } else if at(t, p, TokenType::Eof) {
                leaf(p, program_of(acc))
            } else {
                match p_declaration(t, p, false) {
                    POut::Done { pos: p1, tree, .. } => if p1 > p {
                        p_program_body(t, p1, acc.push(tree))
                    } else {
                        POut::Fail(PErr::Stuck)
                    },
                    f => f,
                }
            }
        },
{
    reveal_with_fuel(p_program_body, 1);
}

} // verus!
