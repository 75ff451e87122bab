use vstd::prelude::*;

use crate::ast::{entries_view, Literal, ObjectKey, ObjectKeyView};
use crate::ast::expr::{Expr, ExprId};
use crate::ast::tree::{
    expr_tree, lemma_expr_span, span_of, lemma_child_entries_pointwise, lemma_child_exprs_pointwise, lemma_expr_tree_stable,
    lemma_trees_stable, Tree,
};
use crate::tokens::{Identifier, Keyword, Span, Spanned, SqlKeyword, Symbol, Token, TokenType};

use super::grammar::{
    binary, key_at, list_of, name_at, op_at, tree_of, tree_insert, with_tree, EKind, POut, kind_of, then_expect, sym, p_equality, p_equality_rest, p_comparison, p_comparison_rest, p_term, p_term_rest, p_factor, p_factor_rest, p_expression, p_assignment, p_or, p_and, p_unary, p_call, p_call_rest, p_finish_call, p_args_rest, p_object_entries, p_object, p_array_elements, p_array, p_primary,
};
use super::grammar::{closed_by, expect, leaf};
use super::unfold::{
    lemma_p_expression, lemma_p_assignment, lemma_p_or, lemma_p_and, lemma_p_equality, lemma_p_equality_rest, lemma_p_comparison, lemma_p_comparison_rest, lemma_p_term, lemma_p_term_rest, lemma_p_factor, lemma_p_factor_rest, lemma_p_unary, lemma_p_call, lemma_p_call_rest, lemma_p_finish_call, lemma_p_args_rest, lemma_p_object, lemma_p_object_entries, lemma_p_array, lemma_p_array_elements, lemma_p_primary,
};
use super::{entries_trees, insert_entry, keys_unique, kind_matches, lemma_entries_trees_insert, ParseError, ParseResult, Parser};

verus! {

impl<'a> Parser<'a> {
    #[verifier::spinoff_prover]
    pub(super) fn expression(&mut self) -> (r: ParseResult<ExprId>)
        requires
            old(self).inv(),
        ensures
            !(r matches Err(ParseError::NoTokens)),
            final(self).expr_outcome(r, p_expression(old(self).tts(), old(self).current as int, (old(self).in_select_depth > 0)), *old(self)),
            r matches Ok(id) ==> final(self).advanced(*old(self)) && final(self).expr_valid(id),
        decreases old(self).remaining(), 37int,
    {
        proof {
            lemma_p_expression(self.tts(), self.current as int, self.in_select_depth > 0);
        }
        if self.match_next(TokenType::Keyword(Keyword::Fun)) {
            return self.fun_declaration();
        }
        self.assignment()
    }

    #[verifier::spinoff_prover]
    pub(super) fn assignment(&mut self) -> (r: ParseResult<ExprId>)
        requires
            old(self).inv(),
        ensures
            !(r matches Err(ParseError::NoTokens)),
            final(self).expr_outcome(r, p_assignment(old(self).tts(), old(self).current as int, (old(self).in_select_depth > 0)), *old(self)),
            r matches Ok(id) ==> final(self).advanced(*old(self)) && final(self).expr_valid(id),
        decreases old(self).remaining(), 36int,
    {
        proof {
            lemma_p_assignment(self.tts(), self.current as int, self.in_select_depth > 0);
        }
        let expr = self.or()?;
        let ghost s1 = *self;
        if self.match_next(TokenType::Symbol(Symbol::Equal)) {
            let value = self.assignment()?;
            let value_span = self.arena.get_expression(value).get_span();
            proof {
                assert(self.arena.expr_times@[expr.0 as int] < self.arena.clock());
            }
            proof {
                lemma_trees_stable(self.arena, s1.arena);
            }
            let ghost a2 = self.arena;
            let built: Option<Expr> = match self.arena.get_expression(expr) {
                Expr::Variable { name, span } => Some(
                    Expr::Assignment {
                        dst: name.clone(),
                        expr: value,
                        span: self.get_merged_span(span, &value_span),
                    },
                ),
                Expr::Get { object, name, span } => Some(
                    Expr::SetProperty {
                        object: *object,
                        name: name.clone(),
                        value,
                        span: self.get_merged_span(span, &value_span),
                    },
                ),
                _ => None,
            };
            proof {
                let te = a2.expr_times@[expr.0 as int];
                assert(a2.expr_ok(a2.expressions@[expr.0 as int], te));
                assert(expr_tree(a2, expr) == crate::ast::tree::expr_node_tree(a2, a2.expressions@[expr.0 as int], te));
            }
            match built {
                Some(e) => {
                    let id = self.arena.alloc_expression(e);
                    proof {
                        Self::lemma_kept_trans(*self, s1, *old(self));
                    }
                    return Ok(id);
                },
                None => {
                    return Err(ParseError::InvalidAssignmentTarget { left: self.peek_bw(3).clone() });
                },
            }
        }
        Ok(expr)
    }

    #[verifier::spinoff_prover]
    pub(super) fn or(&mut self) -> (r: ParseResult<ExprId>)
        requires
            old(self).inv(),
        ensures
            !(r matches Err(ParseError::NoTokens)),
            final(self).expr_outcome(r, p_or(old(self).tts(), old(self).current as int, (old(self).in_select_depth > 0)), *old(self)),
            r matches Ok(id) ==> final(self).advanced(*old(self)) && final(self).expr_valid(id),
        decreases old(self).remaining(), 35int,
    {
        proof {
            lemma_p_or(self.tts(), self.current as int, self.in_select_depth > 0);
        }
        let expr = self.and()?;
        let operator = if self.in_select_depth > 0 {
            TokenType::SqlKeyword(SqlKeyword::Or)
        } else {
            TokenType::Symbol(Symbol::LogicalOr)
        };
        let ghost s1 = *self;
        if self.match_next(operator) {
            let op = self.peek_bw(1).tok_type;
            let right = self.and()?;
            proof {
                lemma_expr_tree_stable(self.arena, s1.arena, expr);
            }
            let span = self.get_merged_span(
                self.arena.get_expression(expr),
                self.arena.get_expression(right),
            );
            let operation = self.tok_type_to_op(op);
            proof {
                self.lemma_in_select();
            }
            let id = self.arena.alloc_expression(
                Expr::Logical { left: expr, operation, right, span },
            );
            proof {
                Self::lemma_kept_trans(*self, s1, *old(self));
            }
            return Ok(id);
        }
        Ok(expr)
    }

    #[verifier::spinoff_prover]
    pub(super) fn and(&mut self) -> (r: ParseResult<ExprId>)
        requires
            old(self).inv(),
        ensures
            !(r matches Err(ParseError::NoTokens)),
            final(self).expr_outcome(r, p_and(old(self).tts(), old(self).current as int, (old(self).in_select_depth > 0)), *old(self)),
            r matches Ok(id) ==> final(self).advanced(*old(self)) && final(self).expr_valid(id),
        decreases old(self).remaining(), 34int,
    {
        proof {
            lemma_p_and(self.tts(), self.current as int, self.in_select_depth > 0);
        }
        let expr = self.equality()?;
        let operator = if self.in_select_depth > 0 {
            TokenType::SqlKeyword(SqlKeyword::And)
        } else {
            TokenType::Symbol(Symbol::LogicalAnd)
        };
        let ghost s1 = *self;
        if self.match_next(operator) {
            let op = self.peek_bw(1).tok_type;
            let right = self.equality()?;
            proof {
                lemma_expr_tree_stable(self.arena, s1.arena, expr);
            }
            let span = self.get_merged_span(
                self.arena.get_expression(expr),
                self.arena.get_expression(right),
            );
            let operation = self.tok_type_to_op(op);
            proof {
                self.lemma_in_select();
            }
            let id = self.arena.alloc_expression(
                Expr::Logical { left: expr, operation, right, span },
            );
            proof {
                Self::lemma_kept_trans(*self, s1, *old(self));
            }
            return Ok(id);
        }
        Ok(expr)
    }

    #[verifier::spinoff_prover]
    pub(super) fn equality(&mut self) -> (r: ParseResult<ExprId>)
        requires
            old(self).inv(),
        ensures
            !(r matches Err(ParseError::NoTokens)),
            final(self).expr_outcome(r, p_equality(old(self).tts(), old(self).current as int, (old(self).in_select_depth > 0)), *old(self)),
            r matches Ok(id) ==> final(self).advanced(*old(self)) && final(self).expr_valid(id),
        decreases old(self).remaining(), 33int,
    {
        proof {
            lemma_p_equality(self.tts(), self.current as int, self.in_select_depth > 0);
        }
        let ghost t = self.tts();
        let ghost p0 = self.current as int;
        let in_select = self.in_select_depth > 0;
        let mut current_expr = self.comparison()?;
        let ghost mut k = kind_of(p_comparison(t, p0, in_select));
        let ghost mut acc = tree_of(p_comparison(t, p0, in_select));
        loop
            invariant
                self.advanced(*old(self)),
                self.expr_valid(current_expr),
                in_select == (self.in_select_depth > 0),
                t == old(self).tts(),
                p0 == old(self).current,
                p_equality(t, p0, in_select) == p_equality_rest(t, self.current as int, in_select, k, acc),
                kind_matches(self.arena.expressions@[current_expr.0 as int], k),
                expr_tree(self.arena, current_expr) == acc,
            ensures
                self.advanced(*old(self)),
                self.expr_valid(current_expr),
                p_equality(t, p0, in_select) == (POut::Done { pos: self.current as int, kind: k, tree: acc }),
                kind_matches(self.arena.expressions@[current_expr.0 as int], k),
                expr_tree(self.arena, current_expr) == acc,
            decreases self.remaining(),
        {
            proof {
                lemma_p_equality_rest(t, self.current as int, in_select, k, acc);
            }
            let matched = if in_select {
                self.match_next_one_of(
                    &[TokenType::Symbol(Symbol::BangEqual), TokenType::Symbol(Symbol::Equal)],
                )
            } else {
                self.match_next_one_of(
                    &[TokenType::Symbol(Symbol::BangEqual), TokenType::Symbol(Symbol::EqualEqual)],
                )
            };
            if !matched {
                break;
            }
            let ghost s1 = *self;
            let op = self.peek_bw(1).tok_type;
            let left = current_expr;
            let right = self.comparison()?;
            proof {
                lemma_expr_tree_stable(self.arena, s1.arena, left);
            }
            let span = self.get_merged_span(
                self.arena.get_expression(left),
                self.arena.get_expression(right),
            );
            let operation = self.tok_type_to_op(op);
            proof {
                self.lemma_in_select();
            }
            current_expr = self.arena.alloc_expression(
                Expr::Binary { left, operation, right, span },
            );
            proof {
                k = EKind::Other;
                acc = binary(acc, op_at(t, s1.current - 1, in_select), tree_of(p_comparison(t, s1.current as int, in_select)));
                Self::lemma_kept_trans(*self, s1, *old(self));
            }
        }
        Ok(current_expr)
    }

} // impl

impl<'a> Parser<'a> {
    #[verifier::spinoff_prover]
    pub(super) fn comparison(&mut self) -> (r: ParseResult<ExprId>)
        requires
            old(self).inv(),
        ensures
            !(r matches Err(ParseError::NoTokens)),
            final(self).expr_outcome(r, p_comparison(old(self).tts(), old(self).current as int, (old(self).in_select_depth > 0)), *old(self)),
            r matches Ok(id) ==> final(self).advanced(*old(self)) && final(self).expr_valid(id),
        decreases old(self).remaining(), 32int,
    {
        proof {
            lemma_p_comparison(self.tts(), self.current as int, self.in_select_depth > 0);
        }
        let ghost t = self.tts();
        let ghost p0 = self.current as int;
        let in_select = self.in_select_depth > 0;
        let mut current_expr = self.term()?;
        let ghost mut k = kind_of(p_term(t, p0, in_select));
        let ghost mut acc = tree_of(p_term(t, p0, in_select));
        loop
            invariant
                self.advanced(*old(self)),
                self.expr_valid(current_expr),
                in_select == (self.in_select_depth > 0),
                t == old(self).tts(),
                p0 == old(self).current,
                p_comparison(t, p0, in_select) == p_comparison_rest(t, self.current as int, in_select, k, acc),
                kind_matches(self.arena.expressions@[current_expr.0 as int], k),
                expr_tree(self.arena, current_expr) == acc,
            ensures
                self.advanced(*old(self)),
                self.expr_valid(current_expr),
                p_comparison(t, p0, in_select) == (POut::Done { pos: self.current as int, kind: k, tree: acc }),
                kind_matches(self.arena.expressions@[current_expr.0 as int], k),
                expr_tree(self.arena, current_expr) == acc,
            decreases self.remaining(),
        {
            proof {
                lemma_p_comparison_rest(t, self.current as int, in_select, k, acc);
            }
            if !self.match_next_one_of(&[TokenType::Symbol(Symbol::Greater), TokenType::Symbol(Symbol::GreaterEqual), TokenType::Symbol(Symbol::Less), TokenType::Symbol(Symbol::LessEqual)]) {
                break;
            }
            let ghost s1 = *self;
            let op = self.peek_bw(1).tok_type;
            let left = current_expr;
            let right = self.term()?;
            proof {
                lemma_expr_tree_stable(self.arena, s1.arena, left);
            }
            let span = self.get_merged_span(
                self.arena.get_expression(left),
                self.arena.get_expression(right),
            );
            let operation = self.tok_type_to_op(op);
            proof {
                self.lemma_in_select();
            }
            current_expr = self.arena.alloc_expression(
                Expr::Binary { left, operation, right, span },
            );
            proof {
                k = EKind::Other;
                acc = binary(acc, op_at(t, s1.current - 1, in_select), tree_of(p_term(t, s1.current as int, in_select)));
                Self::lemma_kept_trans(*self, s1, *old(self));
            }
        }
        Ok(current_expr)
    }

    #[verifier::spinoff_prover]
    pub(super) fn term(&mut self) -> (r: ParseResult<ExprId>)
        requires
            old(self).inv(),
        ensures
            !(r matches Err(ParseError::NoTokens)),
            final(self).expr_outcome(r, p_term(old(self).tts(), old(self).current as int, (old(self).in_select_depth > 0)), *old(self)),
            r matches Ok(id) ==> final(self).advanced(*old(self)) && final(self).expr_valid(id),
        decreases old(self).remaining(), 31int,
    {
        proof {
            lemma_p_term(self.tts(), self.current as int, self.in_select_depth > 0);
        }
        let ghost t = self.tts();
        let ghost p0 = self.current as int;
        let in_select = self.in_select_depth > 0;
        let mut current_expr = self.factor()?;
        let ghost mut k = kind_of(p_factor(t, p0, in_select));
        let ghost mut acc = tree_of(p_factor(t, p0, in_select));
        loop
            invariant
                self.advanced(*old(self)),
                self.expr_valid(current_expr),
                in_select == (self.in_select_depth > 0),
                t == old(self).tts(),
                p0 == old(self).current,
                p_term(t, p0, in_select) == p_term_rest(t, self.current as int, in_select, k, acc),
                kind_matches(self.arena.expressions@[current_expr.0 as int], k),
                expr_tree(self.arena, current_expr) == acc,
            ensures
                self.advanced(*old(self)),
                self.expr_valid(current_expr),
                p_term(t, p0, in_select) == (POut::Done { pos: self.current as int, kind: k, tree: acc }),
                kind_matches(self.arena.expressions@[current_expr.0 as int], k),
                expr_tree(self.arena, current_expr) == acc,
            decreases self.remaining(),
        {
            proof {
                lemma_p_term_rest(t, self.current as int, in_select, k, acc);
            }
            if !self.match_next_one_of(&[TokenType::Symbol(Symbol::Plus), TokenType::Symbol(Symbol::Minus)]) {
                break;
            }
            let ghost s1 = *self;
            let op = self.peek_bw(1).tok_type;
            let left = current_expr;
            let right = self.factor()?;
            proof {
                lemma_expr_tree_stable(self.arena, s1.arena, left);
            }
            let span = self.get_merged_span(
                self.arena.get_expression(left),
                self.arena.get_expression(right),
            );
            let operation = self.tok_type_to_op(op);
            proof {
                self.lemma_in_select();
            }
            current_expr = self.arena.alloc_expression(
                Expr::Binary { left, operation, right, span },
            );
            proof {
                k = EKind::Other;
                acc = binary(acc, op_at(t, s1.current - 1, in_select), tree_of(p_factor(t, s1.current as int, in_select)));
                Self::lemma_kept_trans(*self, s1, *old(self));
            }
        }
        Ok(current_expr)
    }

    #[verifier::spinoff_prover]
    pub(super) fn factor(&mut self) -> (r: ParseResult<ExprId>)
        requires
            old(self).inv(),
        ensures
            !(r matches Err(ParseError::NoTokens)),
            final(self).expr_outcome(r, p_factor(old(self).tts(), old(self).current as int, (old(self).in_select_depth > 0)), *old(self)),
            r matches Ok(id) ==> final(self).advanced(*old(self)) && final(self).expr_valid(id),
        decreases old(self).remaining(), 30int,
    {
        proof {
            lemma_p_factor(self.tts(), self.current as int, self.in_select_depth > 0);
        }
        let ghost t = self.tts();
        let ghost p0 = self.current as int;
        let in_select = self.in_select_depth > 0;
        let mut current_expr = self.unary()?;
        let ghost mut k = kind_of(p_unary(t, p0, in_select));
        let ghost mut acc = tree_of(p_unary(t, p0, in_select));
        loop
            invariant
                self.advanced(*old(self)),
                self.expr_valid(current_expr),
                in_select == (self.in_select_depth > 0),
                t == old(self).tts(),
                p0 == old(self).current,
                p_factor(t, p0, in_select) == p_factor_rest(t, self.current as int, in_select, k, acc),
                kind_matches(self.arena.expressions@[current_expr.0 as int], k),
                expr_tree(self.arena, current_expr) == acc,
            ensures
                self.advanced(*old(self)),
                self.expr_valid(current_expr),
                p_factor(t, p0, in_select) == (POut::Done { pos: self.current as int, kind: k, tree: acc }),
                kind_matches(self.arena.expressions@[current_expr.0 as int], k),
                expr_tree(self.arena, current_expr) == acc,
            decreases self.remaining(),
        {
            proof {
                lemma_p_factor_rest(t, self.current as int, in_select, k, acc);
            }
            if !self.match_next_one_of(&[TokenType::Symbol(Symbol::Star), TokenType::Symbol(Symbol::Slash)]) {
                break;
            }
            let ghost s1 = *self;
            let op = self.peek_bw(1).tok_type;
            let left = current_expr;
            let right = self.unary()?;
            proof {
                lemma_expr_tree_stable(self.arena, s1.arena, left);
            }
            let span = self.get_merged_span(
                self.arena.get_expression(left),
                self.arena.get_expression(right),
            );
            let operation = self.tok_type_to_op(op);
            proof {
                self.lemma_in_select();
            }
            current_expr = self.arena.alloc_expression(
                Expr::Binary { left, operation, right, span },
            );
            proof {
                k = EKind::Other;
                acc = binary(acc, op_at(t, s1.current - 1, in_select), tree_of(p_unary(t, s1.current as int, in_select)));
                Self::lemma_kept_trans(*self, s1, *old(self));
            }
        }
        Ok(current_expr)
    }

    #[verifier::spinoff_prover]
    pub(super) fn unary(&mut self) -> (r: ParseResult<ExprId>)
        requires
            old(self).inv(),
        ensures
            !(r matches Err(ParseError::NoTokens)),
            final(self).expr_outcome(r, p_unary(old(self).tts(), old(self).current as int, (old(self).in_select_depth > 0)), *old(self)),
            r matches Ok(id) ==> final(self).advanced(*old(self)) && final(self).expr_valid(id),
        decreases old(self).remaining(), 29int,
    {
        proof {
            lemma_p_unary(self.tts(), self.current as int, self.in_select_depth > 0);
        }
        if self.match_next_one_of(
            &[TokenType::Symbol(Symbol::Minus), TokenType::Symbol(Symbol::Bang)],
        ) {
            let ghost s1 = *self;
            let token = self.peek_bw(1);
            let unary = self.unary()?;
            let span = self.get_merged_span(&token.span, &self.arena.get_expression(unary).get_span());
            let operation = self.tok_type_to_op(token.tok_type);
            proof {
                self.lemma_in_select();
            }
            let id = self.arena.alloc_expression(Expr::Unary { operation, expr: unary, span });
            proof {
                Self::lemma_kept_trans(*self, s1, *old(self));
            }
            return Ok(id);
        }
        self.sql_insert()
    }

    #[verifier::spinoff_prover]
    pub(super) fn call(&mut self) -> (r: ParseResult<ExprId>)
        requires
            old(self).inv(),
        ensures
            !(r matches Err(ParseError::NoTokens)),
            final(self).expr_outcome(r, p_call(old(self).tts(), old(self).current as int, (old(self).in_select_depth > 0)), *old(self)),
            r matches Ok(id) ==> final(self).advanced(*old(self)) && final(self).expr_valid(id),
        decreases old(self).remaining(), 22int,
    {
        proof {
            lemma_p_call(self.tts(), self.current as int, self.in_select_depth > 0);
        }
        let ghost t = self.tts();
        let ghost p0 = self.current as int;
        let ghost sel = self.in_select_depth > 0;
        let mut expr = self.primary()?;
        let ghost mut k = kind_of(p_primary(t, p0, sel));
        let ghost mut acc = tree_of(p_primary(t, p0, sel));
        loop
            invariant
                self.advanced(*old(self)),
                self.expr_valid(expr),
                t == old(self).tts(),
                p0 == old(self).current,
                sel == (old(self).in_select_depth > 0),
                p_call(t, p0, sel) == p_call_rest(t, self.current as int, sel, k, acc),
                kind_matches(self.arena.expressions@[expr.0 as int], k),
                expr_tree(self.arena, expr) == acc,
            ensures
                self.advanced(*old(self)),
                self.expr_valid(expr),
                p_call(t, p0, sel) == (POut::Done { pos: self.current as int, kind: k, tree: acc }),
                kind_matches(self.arena.expressions@[expr.0 as int], k),
                expr_tree(self.arena, expr) == acc,
            decreases self.remaining(),
        {
            proof {
                lemma_p_call_rest(t, self.current as int, sel, k, acc);
                lemma_p_finish_call(t, self.current + 1, sel);
            }
            let ghost s1 = *self;
            if self.match_next(TokenType::Symbol(Symbol::LeftParen)) {
                expr = self.finish_call(expr)?;
                proof {
                    k = EKind::Other;
                    acc = Tree::Call(
                        Box::new(acc),
                        list_of(tree_of(p_finish_call(t, s1.current + 1, sel))),
                        span_of(acc).spec_merge(t[self.current - 1].span),
                    );
                    Self::lemma_kept_trans(*self, s1, *old(self));
                }
            } else if self.match_next(TokenType::Symbol(Symbol::Dot)) {
                let identifier = self.expected(TokenType::Identifier { dollar: false })?;
                proof {
                    lemma_expr_span(self.arena, expr);
                    assert(t[s1.current + 1] == self.tokens@[s1.current + 1]@);
                }
                let name = identifier.extract_identifier().unwrap();
                let span = self.get_merged_span(
                    &self.arena.get_expression(expr).get_span(),
                    &identifier.span,
                );
                expr = self.arena.alloc_expression(Expr::Get { object: expr, name, span });
                proof {
                    k = EKind::Get;
                    acc = Tree::Get(
                        Box::new(acc),
                        name_at(t, s1.current + 1),
                        span_of(acc).spec_merge(t[s1.current + 1].span),
                    );
                    Self::lemma_kept_trans(*self, s1, *old(self));
                }
            } else {
                break;
            }
        }
        Ok(expr)
    }

    /// Reads the arguments of a call of `callee` and builds the call.
    #[verifier::spinoff_prover]
    pub(super) fn finish_call(&mut self, callee: ExprId) -> (r: ParseResult<ExprId>)
        requires
            old(self).inv(),
            old(self).expr_valid(callee),
            old(self).current >= 1,
        ensures
            !(r matches Err(ParseError::NoTokens)),
            final(self).outcome(r, p_finish_call(old(self).tts(), old(self).current as int, (old(self).in_select_depth > 0)), *old(self)),
            r matches Ok(id) ==> final(self).advanced(*old(self)) && final(self).expr_valid(id)
                && !(final(self).arena.expressions@[id.0 as int] is Variable)
                && !(final(self).arena.expressions@[id.0 as int] is Get)
                && expr_tree(final(self).arena, id) == Tree::Call(
                    Box::new(expr_tree(old(self).arena, callee)),
                    list_of(tree_of(p_finish_call(old(self).tts(), old(self).current as int, (old(self).in_select_depth > 0)))),
                    span_of(expr_tree(old(self).arena, callee)).spec_merge(old(self).tts()[final(self).current - 1].span),
                ),
        decreases old(self).remaining(), 38int,
    {
        proof {
            lemma_p_finish_call(self.tts(), self.current as int, self.in_select_depth > 0);
        }
        let ghost t = self.tts();
        let ghost p0 = self.current as int;
        let ghost sel = self.in_select_depth > 0;
        let ghost mut accs: Seq<Tree> = Seq::empty();
        let mut arguments: Vec<ExprId> = Vec::new();
        if !self.check_tok(&TokenType::Symbol(Symbol::RightParen)) {
            let first = self.expression()?;
            arguments.push(first);
            proof {
                accs = seq![tree_of(p_expression(t, p0, sel))];
            }
            loop
                invariant_except_break
                    p_finish_call(t, p0, sel) == then_expect(p_args_rest(t, self.current as int, sel, accs), t, sym(Symbol::RightParen)),
                invariant
                    self.advanced(*old(self)),
                    forall|i: int| 0 <= i < arguments@.len() ==> self.expr_valid(#[trigger] arguments@[i]),
                    t == old(self).tts(),
                    p0 == old(self).current,
                    sel == (old(self).in_select_depth > 0),
                    accs.len() == arguments@.len(),
                    forall|i: int| 0 <= i < arguments@.len() ==> expr_tree(self.arena, #[trigger] arguments@[i]) == accs[i],
                ensures
                    self.advanced(*old(self)),
                    forall|i: int| 0 <= i < arguments@.len() ==> self.expr_valid(#[trigger] arguments@[i]),
                    accs.len() == arguments@.len(),
                    forall|i: int| 0 <= i < arguments@.len() ==> expr_tree(self.arena, #[trigger] arguments@[i]) == accs[i],
                    p_finish_call(t, p0, sel) == with_tree(expect(t, self.current as int, sym(Symbol::RightParen)), Tree::List(accs)),
                decreases self.remaining(),
            {
                proof {
                    lemma_p_args_rest(t, self.current as int, sel, accs);
                }
                let ghost s1 = *self;
                if !self.match_next(TokenType::Symbol(Symbol::Comma)) {
                    break;
                }
                let next = self.expression()?;
                proof {
                    lemma_trees_stable(self.arena, s1.arena);
                    accs = accs.push(tree_of(p_expression(t, s1.current + 1, sel)));
                }
                arguments.push(next);
                proof {
                    Self::lemma_kept_trans(*self, s1, *old(self));
                }
            }
        }
        let ghost s2 = *self;
        let paren = self.expected(TokenType::Symbol(Symbol::RightParen))?;
        proof {
            lemma_expr_tree_stable(self.arena, old(self).arena, callee);
            let c = self.arena.clock();
            lemma_child_exprs_pointwise(self.arena, arguments@, c);
            assert(crate::ast::tree::child_exprs(self.arena, arguments@, c) =~= accs);
        }
        proof {
            lemma_expr_span(self.arena, callee);
            assert(t[self.current - 1] == self.tokens@[self.current - 1]@);
        }
        let span = self.get_merged_span(&self.arena.get_expression(callee).get_span(), &paren.span);
        let id = self.arena.alloc_expression(Expr::Call { callee, args: arguments, span });
        proof {
            Self::lemma_kept_trans(*self, s2, *old(self));
        }
        Ok(id)
    }

    #[verifier::spinoff_prover]
    pub(super) fn object_literal(&mut self, tok: &Token) -> (r: ParseResult<ExprId>)
        requires
            old(self).inv(),
            old(self).current >= 1,
            *tok == old(self).tokens@[old(self).current - 1],
            old(self).in_object_depth < old(self).current,
        ensures
            !(r matches Err(ParseError::NoTokens)),
            final(self).expr_outcome(r, p_object(old(self).tts(), old(self).current as int, (old(self).in_select_depth > 0)), *old(self)),
            r matches Ok(id) ==> final(self).advanced(*old(self)) && final(self).expr_valid(id),
        decreases old(self).remaining(), 38int,
    {
        proof {
            lemma_p_object(self.tts(), self.current as int, self.in_select_depth > 0);
        }
        let ghost t = self.tts();
        let ghost p0 = self.current as int;
        let ghost sel = self.in_select_depth > 0;
        let ghost mut acc: Seq<(ObjectKeyView, Tree)> = Seq::empty();
        let mut entries: Vec<(ObjectKey, ExprId)> = Vec::new();
        self.in_object_depth = self.in_object_depth + 1;
        loop
            invariant_except_break
                p_object(t, p0, sel) == closed_by(p_object_entries(t, self.current as int, sel, acc), t, p0 - 1, sym(Symbol::RightBrace)),
            invariant
                self.inv(),
                self.tokens == old(self).tokens,
                old(self).current <= self.current,
                self.arena.extends(old(self).arena),
                self.in_select_depth == old(self).in_select_depth,
                self.in_array_depth == old(self).in_array_depth,
                self.in_object_depth == old(self).in_object_depth + 1,
                self.current >= 1,
                keys_unique(entries_view(entries@)),
                forall|i: int| 0 <= i < entries@.len() ==> self.expr_valid(#[trigger] entries@[i].1),
                t == old(self).tts(),
                p0 == old(self).current,
                sel == (old(self).in_select_depth > 0),
                entries_trees(self.arena, entries_view(entries@), acc),
            ensures
                self.inv(),
                self.tokens == old(self).tokens,
                old(self).current <= self.current,
                self.arena.extends(old(self).arena),
                self.in_select_depth == old(self).in_select_depth,
                self.in_array_depth == old(self).in_array_depth,
                self.in_object_depth == old(self).in_object_depth + 1,
                self.current >= 1,
                forall|i: int| 0 <= i < entries@.len() ==> self.expr_valid(#[trigger] entries@[i].1),
                entries_trees(self.arena, entries_view(entries@), acc),
                p_object(t, p0, sel) == closed_by(leaf(self.current as int, Tree::Object(acc, ""@, Span::spec_zero())), t, p0 - 1, sym(Symbol::RightBrace)),
            decreases self.remaining(),
        {
            proof {
                lemma_p_object_entries(t, self.current as int, sel, acc);
            }
            if self.check_tok(&TokenType::Symbol(Symbol::RightBrace)) {
                break;
            }
            let ghost c = self.current as int;
            let key = if self.match_next_one_of(
                &[TokenType::Identifier { dollar: false }, TokenType::Str, TokenType::Num],
            ) {
                let key_tok = self.peek_bw(1);
                proof {
                    self.lemma_token(self.current - 1);
                }
                match key_tok.tok_type {
                    TokenType::Identifier { dollar: false } | TokenType::Str => {
                        let text = key_tok.literal.as_ref().unwrap().as_str().unwrap();
                        ObjectKey::Name(text.to_owned())
                    },
                    TokenType::Num => match &key_tok.literal {
                        Some(Literal::Num(n)) => ObjectKey::Number(n.clone()),
                        _ => {
                            return Err(ParseError::UnexpectedToken { token: key_tok.clone() });
                        },
                    },
                    _ => {
                        return Err(ParseError::UnexpectedToken { token: key_tok.clone() });
                    },
                }
            } else {
                return Err(ParseError::UnexpectedToken { token: self.peek_bw(1).clone() });
            };
            proof {
                assert(key@ == key_at(t, c));
            }
            self.expected(TokenType::Symbol(Symbol::Colon))?;
            let ghost s1 = *self;
            let value = self.expression()?;
            proof {
                self.arena.lemma_extends_trans(s1.arena, old(self).arena);
                lemma_trees_stable(self.arena, s1.arena);
                lemma_entries_trees_insert(
                    self.arena,
                    entries_view(entries@),
                    acc,
                    key@,
                    value,
                    tree_of(p_expression(t, c + 2, sel)),
                );
                acc = tree_insert(acc, key_at(t, c), tree_of(p_expression(t, c + 2, sel)));
            }
            insert_entry(&mut entries, key, value);
            if !self.match_next(TokenType::Symbol(Symbol::Comma)) {
                break;
            }
        }
        let ghost s2 = *self;
        self.expected(TokenType::Symbol(Symbol::RightBrace))?;
        self.in_object_depth = self.in_object_depth - 1;
        let end_span = self.peek_bw(0).span;
        proof {
            assert(t[p0 - 1] == self.tokens@[p0 - 1]@);
            assert(t[self.current as int] == self.tokens@[self.current as int]@);
        }
        let span = self.get_merged_span(&tok.span, &end_span);
        proof {
            let c = self.arena.clock();
            lemma_child_entries_pointwise(self.arena, entries_view(entries@), c);
            assert(crate::ast::tree::child_entries(self.arena, entries_view(entries@), c) =~= acc);
        }
        let id = self.arena.alloc_expression(
            Expr::Literal { value: Literal::Object(entries), raw: "".to_owned(), span },
        );
        proof {
            self.arena.lemma_extends_trans(s2.arena, old(self).arena);
        }
        Ok(id)
    }

    #[verifier::spinoff_prover]
    pub(super) fn array_literal(&mut self, tok: &Token) -> (r: ParseResult<ExprId>)
        requires
            old(self).inv(),
            old(self).current >= 1,
            *tok == old(self).tokens@[old(self).current - 1],
            old(self).in_array_depth < old(self).current,
        ensures
            !(r matches Err(ParseError::NoTokens)),
            final(self).expr_outcome(r, p_array(old(self).tts(), old(self).current as int, (old(self).in_select_depth > 0)), *old(self)),
            r matches Ok(id) ==> final(self).advanced(*old(self)) && final(self).expr_valid(id),
        decreases old(self).remaining(), 38int,
    {
        proof {
            lemma_p_array(self.tts(), self.current as int, self.in_select_depth > 0);
        }
        let ghost t = self.tts();
        let ghost p0 = self.current as int;
        let ghost sel = self.in_select_depth > 0;
        let ghost mut accs: Seq<Tree> = Seq::empty();
        let mut elements: Vec<ExprId> = Vec::new();
        self.in_array_depth = self.in_array_depth + 1;
        loop
            invariant_except_break
                p_array(t, p0, sel) == closed_by(p_array_elements(t, self.current as int, sel, accs), t, p0 - 1, sym(Symbol::RightBracket)),
            invariant
                self.inv(),
                self.tokens == old(self).tokens,
                old(self).current <= self.current,
                self.arena.extends(old(self).arena),
                self.in_select_depth == old(self).in_select_depth,
                self.in_array_depth == old(self).in_array_depth + 1,
                self.in_object_depth == old(self).in_object_depth,
                self.current >= 1,
                forall|i: int| 0 <= i < elements@.len() ==> self.expr_valid(#[trigger] elements@[i]),
                t == old(self).tts(),
                p0 == old(self).current,
                sel == (old(self).in_select_depth > 0),
                accs.len() == elements@.len(),
                forall|i: int| 0 <= i < elements@.len() ==> expr_tree(self.arena, #[trigger] elements@[i]) == accs[i],
            ensures
                self.inv(),
                self.tokens == old(self).tokens,
                old(self).current <= self.current,
                self.arena.extends(old(self).arena),
                self.in_select_depth == old(self).in_select_depth,
                self.in_array_depth == old(self).in_array_depth + 1,
                self.in_object_depth == old(self).in_object_depth,
                self.current >= 1,
                forall|i: int| 0 <= i < elements@.len() ==> self.expr_valid(#[trigger] elements@[i]),
                accs.len() == elements@.len(),
                forall|i: int| 0 <= i < elements@.len() ==> expr_tree(self.arena, #[trigger] elements@[i]) == accs[i],
                p_array(t, p0, sel) == closed_by(leaf(self.current as int, Tree::Array(accs, ""@, Span::spec_zero())), t, p0 - 1, sym(Symbol::RightBracket)),
            decreases self.remaining(),
        {
            proof {
                lemma_p_array_elements(t, self.current as int, sel, accs);
            }
            if self.check_tok(&TokenType::Symbol(Symbol::RightBracket)) {
                break;
            }
            let ghost s1 = *self;
            let value = self.expression()?;
            proof {
                self.arena.lemma_extends_trans(s1.arena, old(self).arena);
                lemma_trees_stable(self.arena, s1.arena);
                accs = accs.push(tree_of(p_expression(t, s1.current as int, sel)));
            }
            elements.push(value);
            if !self.match_next(TokenType::Symbol(Symbol::Comma)) {
                break;
            }
        }
        let ghost s2 = *self;
        self.expected(TokenType::Symbol(Symbol::RightBracket))?;
        self.in_array_depth = self.in_array_depth - 1;
        let end_span = self.peek_bw(0).span;
        proof {
            assert(t[p0 - 1] == self.tokens@[p0 - 1]@);
            assert(t[self.current as int] == self.tokens@[self.current as int]@);
        }
        let span = self.get_merged_span(&tok.span, &end_span);
        proof {
            let c = self.arena.clock();
            lemma_child_exprs_pointwise(self.arena, elements@, c);
            assert(crate::ast::tree::child_exprs(self.arena, elements@, c) =~= accs);
        }
        let id = self.arena.alloc_expression(
            Expr::Literal { value: Literal::Array(elements), raw: "".to_owned(), span },
        );
        proof {
            self.arena.lemma_extends_trans(s2.arena, old(self).arena);
        }
        Ok(id)
    }

    #[verifier::spinoff_prover]
    pub(super) fn primary(&mut self) -> (r: ParseResult<ExprId>)
        requires
            old(self).inv(),
        ensures
            !(r matches Err(ParseError::NoTokens)),
            final(self).expr_outcome(r, p_primary(old(self).tts(), old(self).current as int, (old(self).in_select_depth > 0)), *old(self)),
            r matches Ok(id) ==> final(self).advanced(*old(self)) && final(self).expr_valid(id),
        decreases old(self).remaining(), 21int,
    {
        proof {
            lemma_p_primary(self.tts(), self.current as int, self.in_select_depth > 0);
        }
        let tok = self.peek_bw(0);
        proof {
            self.lemma_token(self.current as int);
        }
        match tok.tok_type {
            TokenType::Symbol(Symbol::LeftBrace) => {
                self.current = self.current + 1;
                self.object_literal(tok)
            },
            TokenType::Symbol(Symbol::LeftBracket) => {
                self.current = self.current + 1;
                self.array_literal(tok)
            },
            TokenType::Symbol(Symbol::LeftParen) => {
                self.current = self.current + 1;
                let ghost s1 = *self;
                let expr = self.expression()?;
                self.expected(TokenType::Symbol(Symbol::RightParen))?;
                let span = self.arena.get_expression(expr).get_span();
                let id = self.arena.alloc_expression(Expr::Grouping { span, expr });
                proof {
                    self.arena.lemma_extends_trans(s1.arena, old(self).arena);
                }
                Ok(id)
            },
            TokenType::True => {
                self.current = self.current + 1;
                Ok(self.arena.alloc_expression(
                    Expr::Literal { value: Literal::Bool(true), raw: "true".to_owned(), span: tok.span },
                ))
            },
            TokenType::False => {
                self.current = self.current + 1;
                Ok(self.arena.alloc_expression(
                    Expr::Literal { value: Literal::Bool(false), raw: "false".to_owned(), span: tok.span },
                ))
            },
            TokenType::Null => {
                self.current = self.current + 1;
                Ok(self.arena.alloc_expression(
                    Expr::Literal { value: Literal::Null, raw: "null".to_owned(), span: tok.span },
                ))
            },
            TokenType::Undefined => {
                self.current = self.current + 1;
                Ok(self.arena.alloc_expression(
                    Expr::Literal { value: Literal::Undefined, raw: "undefined".to_owned(), span: tok.span },
                ))
            },
            TokenType::Str | TokenType::Num => {
                self.current = self.current + 1;
                let value = tok.literal.as_ref().unwrap().clone();
                let raw = tok.lexeme.as_ref().unwrap().clone();
                let id = self.arena.alloc_expression(Expr::Literal { value, raw, span: tok.span });
                Ok(id)
            },
            TokenType::Identifier { .. } => {
                self.current = self.current + 1;
                let name = tok.extract_identifier().unwrap();
                let id = self.arena.alloc_expression(Expr::Variable { name, span: tok.span });
                Ok(id)
            },
            _ => Err(ParseError::UnexpectedToken { token: tok.clone() }),
        }
    }
} // impl

} // verus!
