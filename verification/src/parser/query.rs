use vstd::prelude::*;

use crate::ast::AstArena;
use crate::ast::expr::{Expr, ExprId};
use crate::ast::sql::{
    SqlCollectionIdentifier, SqlCollectionSubquery, SqlCompoundOperator, SqlDelete, SqlDistinct,
    SqlExpr, SqlExprId, SqlInsert, SqlJoinType, SqlLimitClause, SqlOrderByClause, SqlOrdering,
    SqlProjection, SqlSelect, SqlSelectCompound, SqlSelectCore, SqlUpdate, SqlValues,
};
use crate::ast::tree::{
    child_opt_sql, child_sql, child_sqls, collection_tree, core_tree, child_expr, name_of, sql_node_tree, expr_tree, lemma_child_opt_sql, lemma_child_sqls_pointwise, lemma_child_sqls_stable, lemma_core_stable, lemma_orderings_pointwise,
    lemma_orderings_stable, lemma_projections_pointwise, lemma_projections_stable, lemma_sql_tree_stable,
    lemma_sql_trees_stable, lemma_subqueries_pointwise, lemma_subquery_stable, opt_name, orderings_tree,
    projection_node, projections_tree, select_tree, sql_tree, subqueries_tree, subquery_tree, Tree,
};
use crate::tokens::{token_ok, Identifier, Span, SpecToken, SqlKeyword, Symbol, Token, TokenType};

use super::grammar::{
    opt_with_expected, p_values, p_insert, p_assignments, p_where, p_update, p_delete, p_select, p_orderings, p_order_by, p_limit, p_select_inner, p_group_by, p_from, p_core, p_compound, p_projection, p_join, p_joins, p_join_groups, p_subquery_join, p_subquery_collection, p_sql_expression, p_between, p_equality,
};
use super::grammar::{
    alias_at, at, expect, op_in, skw, compound_ops, compound_of, conj_ops, group_of, ident, join_ops, leaf, lemma_starts_with3,
    limit_of, list_of, maybe_of, name_at, orderings_of, p_collection, sym, tree_of, PErr, POut,
};
use super::unfold::{
    lemma_p_values, lemma_p_insert, lemma_p_assignments, lemma_p_where, lemma_p_update, lemma_p_delete, lemma_p_select, lemma_p_orderings, lemma_p_order_by, lemma_p_limit, lemma_p_select_inner, lemma_p_group_by, lemma_p_from, lemma_p_core, lemma_p_compound, lemma_p_projection, lemma_p_join, lemma_p_joins, lemma_p_join_groups, lemma_p_subquery_join, lemma_p_subquery_collection, lemma_p_sql_expression, lemma_p_between,
};
use super::{ParseError, ParseResult, Parser};

verus! {

impl<'a> Parser<'a> {
    /// After `optional` expects `expected`; without it takes `expected` if it
    /// comes next.
    #[verifier::spinoff_prover]
    pub(super) fn optional_with_expected(&mut self, optional: TokenType, expected: TokenType) -> (r: ParseResult<Option<&'a Token>>)
        requires
            old(self).tok_inv(),
            optional != TokenType::Eof,
            expected != TokenType::Eof,
        ensures
            !(r matches Err(ParseError::NoTokens)),
            final(self).outcome(r, opt_with_expected(old(self).tts(), old(self).current as int, optional, expected), *old(self)),
            final(self).tok_inv(),
            final(self).moved(*old(self)),
            old(self).current <= final(self).current,
            r matches Ok(None) ==> final(self).current == old(self).current,
            r matches Ok(Some(_)) ==> final(self).current > old(self).current,
            r matches Ok(Some(tok)) ==> tok.tok_type == expected && token_ok(tok@)
                && final(self).current >= 1 && *tok == final(self).tokens@[final(self).current - 1],
    {
        if self.match_next(optional) {
            let token = self.expected(expected)?;
            Ok(Some(token))
        } else if self.match_next(expected) {
            let token = self.peek_bw(1);
            proof {
                self.lemma_token(self.current - 1);
            }
            Ok(Some(token))
        } else {
            Ok(None)
        }
    }

    /// The alias after `AS`, or a name that stands where an alias may stand.
    #[verifier::spinoff_prover]
    pub(super) fn sql_alias(&mut self) -> (r: ParseResult<Option<Identifier>>)
        requires
            old(self).tok_inv(),
        ensures
            !(r matches Err(ParseError::NoTokens)),
            final(self).outcome(
                r,
                opt_with_expected(old(self).tts(), old(self).current as int, skw(SqlKeyword::As), ident()),
                *old(self),
            ),
            final(self).tok_inv(),
            final(self).moved(*old(self)),
            old(self).current <= final(self).current,
            r matches Ok(a) ==> opt_name(a) == alias_at(old(self).tts(), old(self).current as int),
    {
        let ghost t = self.tts();
        let ghost p = self.current as int;
        let alias_tok = self.optional_with_expected(
            TokenType::SqlKeyword(SqlKeyword::As),
            TokenType::Identifier { dollar: false },
        )?;
        match alias_tok {
            Some(tok) => {
                proof {
                    self.lemma_name(self.current - 1);
                    if at(t, p, skw(SqlKeyword::As)) {
                        assert(self.current == p + 2);
                    } else {
                        assert(self.current == p + 1);
                    }
                }
                let alias = tok.extract_identifier().unwrap();
                proof {
                    assert(name_of(alias) == name_at(t, self.current - 1));
                }
                Ok(Some(alias))
            },
            None => {
                proof {
                    assert(!at(t, p, skw(SqlKeyword::As)));
                    assert(!at(t, p, ident()));
                }
                Ok(None)
            },
        }
    }

    /// `name`, `name AS alias`, `namespace.name` or `namespace.name AS alias`.
    #[verifier::spinoff_prover]
    pub(super) fn sql_collection_identifier(&mut self) -> (r: ParseResult<Option<SqlCollectionIdentifier>>)
        requires
            old(self).tok_inv(),
        ensures
            !(r matches Err(ParseError::NoTokens)),
            final(self).tok_inv(),
            final(self).moved(*old(self)),
            old(self).current <= final(self).current,
            r matches Ok(Some(_)) ==> old(self).current < final(self).current,
            match p_collection(old(self).tts(), old(self).current as int) {
                None => r matches Ok(None) && final(self).current == old(self).current,
                Some(o) => final(self).outcome(r, o, *old(self)) && !(r matches Ok(None)) && (r matches Ok(
                    Some(c),
                ) ==> collection_tree(c) == tree_of(o)),
            },
    {
        let ghost t = self.tts();
        let ghost p = self.current as int;
        if self.check_tok(&TokenType::Identifier { dollar: false }) {
            let qualified = [
                TokenType::Identifier { dollar: false },
                TokenType::Symbol(Symbol::Dot),
                TokenType::Identifier { dollar: false },
            ];
            proof {
                assert(qualified@ =~= seq![ident(), sym(Symbol::Dot), ident()]);
                lemma_starts_with3(t, p, ident(), sym(Symbol::Dot), ident());
            }
            if self.match_next_all_of(&qualified) {
                proof {
                    self.lemma_name(self.current - 3);
                    self.lemma_name(self.current - 1);
                }
                let namespace = Some(self.peek_bw(3).extract_identifier().unwrap());
                let name = self.peek_bw(1).extract_identifier().unwrap();
                let alias = self.sql_alias()?;
                return Ok(Some(SqlCollectionIdentifier { namespace, name, alias }));
            }
            proof {
                self.lemma_name(p);
            }
            let name = self.expected(TokenType::Identifier { dollar: false })?.extract_identifier().unwrap();
            let alias = self.sql_alias()?;
            return Ok(Some(SqlCollectionIdentifier { namespace: None, name, alias }));
        }
        Ok(None)
    }

    #[verifier::spinoff_prover]
    pub(super) fn sql_insert(&mut self) -> (r: ParseResult<ExprId>)
        requires
            old(self).inv(),
        ensures
            !(r matches Err(ParseError::NoTokens)),
            final(self).expr_outcome(r, p_insert(old(self).tts(), old(self).current as int, (old(self).in_select_depth > 0)), *old(self)),
            r matches Ok(id) ==> final(self).advanced(*old(self)) && final(self).expr_valid(id),
        decreases old(self).remaining(), 28int,
    {
        proof {
            lemma_p_insert(self.tts(), self.current as int, self.in_select_depth > 0);
        }
        let ghost t = self.tts();
        let ghost p0 = self.current as int;
        let ghost sel = self.in_select_depth > 0;
        if !self.match_next(TokenType::SqlKeyword(SqlKeyword::Insert)) {
            return self.sql_update();
        }
        self.expected(TokenType::SqlKeyword(SqlKeyword::Into))?;
        match self.sql_collection_identifier()? {
            Some(collection) => {
                let ghost s1 = *self;
                let values = if self.check_tok(&TokenType::SqlKeyword(SqlKeyword::Select)) {
                    let select_inner = self.sql_select_inner()?;
                    SqlValues::Select(select_inner)
                } else if self.match_next(TokenType::SqlKeyword(SqlKeyword::Values)) {
                    self.expected(TokenType::Symbol(Symbol::LeftParen))?;
                    let ghost p3 = self.current as int;
                    let ghost mut accs: Seq<Tree> = Seq::empty();
                    let mut values: Vec<SqlExprId> = Vec::new();
                    loop
                        invariant_except_break
                            p_values(t, p3, sel, Seq::empty()) == p_values(t, self.current as int, sel, accs),
                        invariant
                            accs.len() == values@.len(),
                            forall|i: int| 0 <= i < values@.len() ==> sql_tree(self.arena, #[trigger] values@[i]) == accs[i],
                            self.kept(s1),
                            self.tokens == old(self).tokens,
                            self.current > s1.current,
                            old(self).current < self.current,
                            forall|i: int| 0 <= i < values@.len() ==> self.sql_valid(#[trigger] values@[i]),
                            t == old(self).tts(),
                            sel == (self.in_select_depth > 0),
                            p0 == old(self).current,
                            sel == (old(self).in_select_depth > 0),
                            p_values(t, p3, sel, Seq::empty()) is Fail ==> p_insert(t, p0, sel) == p_values(t, p3, sel, Seq::empty()),
                        ensures
                            self.kept(s1),
                            old(self).current < self.current,
                            forall|i: int| 0 <= i < values@.len() ==> self.sql_valid(#[trigger] values@[i]),
                            accs.len() == values@.len(),
                            forall|i: int| 0 <= i < values@.len() ==> sql_tree(self.arena, #[trigger] values@[i]) == accs[i],
                            p_values(t, p3, sel, Seq::empty()) == leaf(self.current as int, Tree::List(accs)),
                        decreases self.remaining(),
                    {
                        proof {
                            lemma_p_values(t, self.current as int, sel, accs);
                        }
                        let ghost s2 = *self;
                        let v = self.sql_expression()?;
                        proof {
                            lemma_sql_trees_stable(self.arena, s2.arena);
                            accs = accs.push(tree_of(p_sql_expression(t, s2.current as int, sel)));
                        }
                        values.push(v);
                        proof {
                            Self::lemma_kept_trans(*self, s2, s1);
                        }
                        if !self.match_next(TokenType::Symbol(Symbol::Comma)) {
                            break;
                        }
                    }
                    self.expected(TokenType::Symbol(Symbol::RightParen))?;
                    proof {
                        let c = self.arena.clock();
                        lemma_child_sqls_pointwise(self.arena, values@, c);
                        assert(child_sqls(self.arena, values@, c) =~= accs);
                    }
                    SqlValues::Values { values }
                } else {
                    return Err(ParseError::UnexpectedToken { token: self.peek_bw(0).clone() });
                };
                let id = self.arena.alloc_expression(
                    Expr::Insert { command: SqlInsert { collection, values }, span: Span::default() },
                );
                proof {
                    self.arena.lemma_extends_trans(s1.arena, old(self).arena);
                }
                Ok(id)
            },
            None => Err(ParseError::UnexpectedToken { token: self.peek_bw(0).clone() }),
        }
    }

    #[verifier::spinoff_prover]
    pub(super) fn sql_update(&mut self) -> (r: ParseResult<ExprId>)
        requires
            old(self).inv(),
        ensures
            !(r matches Err(ParseError::NoTokens)),
            final(self).expr_outcome(r, p_update(old(self).tts(), old(self).current as int, (old(self).in_select_depth > 0)), *old(self)),
            r matches Ok(id) ==> final(self).advanced(*old(self)) && final(self).expr_valid(id),
        decreases old(self).remaining(), 27int,
    {
        proof {
            lemma_p_update(self.tts(), self.current as int, self.in_select_depth > 0);
        }
        let ghost t = self.tts();
        let ghost p0 = self.current as int;
        let ghost sel = self.in_select_depth > 0;
        if !self.match_next(TokenType::SqlKeyword(SqlKeyword::Update)) {
            return self.sql_delete();
        }
        let collection_tok = self.peek_bw(0);
        let collection = self.sql_collection_identifier()?;
        self.expected(TokenType::SqlKeyword(SqlKeyword::SetKw))?;
        let ghost s1 = *self;
        let ghost q0 = self.current as int;
        let ghost mut accs: Seq<Tree> = Seq::empty();
        let mut assignments: Vec<SqlExprId> = Vec::new();
        loop
            invariant_except_break
                p_assignments(t, q0, sel, Seq::empty()) == p_assignments(t, self.current as int, sel, accs),
            invariant
                accs.len() == assignments@.len(),
                forall|i: int| 0 <= i < assignments@.len() ==> sql_tree(self.arena, #[trigger] assignments@[i]) == accs[i],
                self.kept(s1),
                self.tokens == old(self).tokens,
                old(self).current < self.current,
                forall|i: int| 0 <= i < assignments@.len() ==> self.sql_valid(#[trigger] assignments@[i]),
                t == old(self).tts(),
                sel == (self.in_select_depth > 0),
                p0 == old(self).current,
                sel == (old(self).in_select_depth > 0),
                p_assignments(t, q0, sel, Seq::empty()) is Fail ==> p_update(t, p0, sel) == p_assignments(t, q0, sel, Seq::empty()),
            ensures
                self.kept(s1),
                old(self).current < self.current,
                forall|i: int| 0 <= i < assignments@.len() ==> self.sql_valid(#[trigger] assignments@[i]),
                accs.len() == assignments@.len(),
                forall|i: int| 0 <= i < assignments@.len() ==> sql_tree(self.arena, #[trigger] assignments@[i]) == accs[i],
                p_assignments(t, q0, sel, Seq::empty()) == leaf(self.current as int, Tree::List(accs)),
            decreases self.remaining(),
        {
            proof {
                lemma_p_assignments(t, self.current as int, sel, accs);
            }
            let ghost s2 = *self;
            self.expected(TokenType::Identifier { dollar: false })?;
            self.expected(TokenType::Symbol(Symbol::Equal))?;
            let ghost s3 = *self;
            let v = self.sql_expression()?;
            proof {
                lemma_sql_trees_stable(self.arena, s3.arena);
                accs = accs.push(tree_of(p_sql_expression(t, s3.current as int, sel)));
            }
            assignments.push(v);
            proof {
                Self::lemma_kept_trans(*self, s3, s1);
            }
            if !self.match_next(TokenType::Symbol(Symbol::Comma)) {
                break;
            }
        }
        let ghost s4 = *self;
        proof {
            lemma_p_where(t, self.current as int, sel);
        }
        let where_clause = if self.match_next(TokenType::SqlKeyword(SqlKeyword::Where)) {
            Some(self.sql_expression()?)
        } else {
            None
        };
        proof {
            Self::lemma_kept_trans(s4, s1, *old(self));
            Self::lemma_kept_trans(*self, s4, *old(self));
            lemma_sql_trees_stable(self.arena, s4.arena);
            let c = self.arena.clock();
            lemma_child_sqls_pointwise(self.arena, assignments@, c);
            assert(child_sqls(self.arena, assignments@, c) =~= accs);
            lemma_child_opt_sql(self.arena, where_clause, c);
        }
        match collection {
            Some(collection) => {
                let ghost s5 = *self;
                let id = self.arena.alloc_expression(
                    Expr::Update {
                        command: SqlUpdate { collection, assignments, where_clause },
                        span: Span::default(),
                    },
                );
                proof {
                    self.arena.lemma_extends_trans(s5.arena, old(self).arena);
                }
                Ok(id)
            },
            None => Err(ParseError::UnexpectedToken { token: collection_tok.clone() }),
        }
    }

    #[verifier::spinoff_prover]
    pub(super) fn sql_delete(&mut self) -> (r: ParseResult<ExprId>)
        requires
            old(self).inv(),
        ensures
            !(r matches Err(ParseError::NoTokens)),
            final(self).expr_outcome(r, p_delete(old(self).tts(), old(self).current as int, (old(self).in_select_depth > 0)), *old(self)),
            r matches Ok(id) ==> final(self).advanced(*old(self)) && final(self).expr_valid(id),
        decreases old(self).remaining(), 26int,
    {
        proof {
            lemma_p_delete(self.tts(), self.current as int, self.in_select_depth > 0);
        }
        if !self.match_next(TokenType::SqlKeyword(SqlKeyword::Delete)) {
            return self.sql_select();
        }
        self.expected(TokenType::SqlKeyword(SqlKeyword::From))?;
        match self.sql_collection_identifier()? {
            Some(collection) => {
                let ghost s1 = *self;
                proof {
                    lemma_p_where(self.tts(), self.current as int, self.in_select_depth > 0);
                }
                let where_clause = if self.match_next(TokenType::SqlKeyword(SqlKeyword::Where)) {
                    Some(self.sql_expression()?)
                } else {
                    None
                };
                proof {
                    lemma_child_opt_sql(self.arena, where_clause, self.arena.clock());
                }
                let id = self.arena.alloc_expression(
                    Expr::Delete { command: SqlDelete { collection, where_clause }, span: Span::default() },
                );
                proof {
                    self.arena.lemma_extends_trans(s1.arena, old(self).arena);
                }
                Ok(id)
            },
            None => Err(ParseError::UnexpectedToken { token: self.peek_bw(0).clone() }),
        }
    }

    #[verifier::spinoff_prover]
    pub(super) fn sql_select(&mut self) -> (r: ParseResult<ExprId>)
        requires
            old(self).inv(),
        ensures
            !(r matches Err(ParseError::NoTokens)),
            final(self).expr_outcome(r, p_select(old(self).tts(), old(self).current as int, (old(self).in_select_depth > 0)), *old(self)),
            r matches Ok(id) ==> final(self).advanced(*old(self)) && final(self).expr_valid(id),
        decreases old(self).remaining(), 25int,
    {
        proof {
            lemma_p_select(self.tts(), self.current as int, self.in_select_depth > 0);
        }
        if !self.check_tok(&TokenType::SqlKeyword(SqlKeyword::Select)) {
            return self.call();
        }
        let query = self.sql_select_inner()?;
        let ghost s1 = *self;
        let id = self.arena.alloc_expression(Expr::Select { span: Span::default(), query });
        proof {
            self.arena.lemma_extends_trans(s1.arena, old(self).arena);
        }
        Ok(id)
    }

    #[verifier::spinoff_prover]
    pub(super) fn sql_select_inner(&mut self) -> (r: ParseResult<SqlSelect>)
        requires
            old(self).inv(),
            old(self).current >= 1 || old(self).cur() == TokenType::SqlKeyword(SqlKeyword::Select),
        ensures
            !(r matches Err(ParseError::NoTokens)),
            final(self).outcome(r, p_select_inner(old(self).tts(), old(self).current as int), *old(self)),
            r matches Ok(q) ==> final(self).advanced(*old(self)) && final(self).arena.select_ok(
                q,
                final(self).arena.clock(),
            ) && select_tree(final(self).arena, q, final(self).arena.clock()) == tree_of(
                p_select_inner(old(self).tts(), old(self).current as int),
            ),
        decreases old(self).remaining(), 24int,
    {
        proof {
            lemma_p_select_inner(self.tts(), self.current as int);
        }
        self.in_select_depth = self.in_select_depth + 1;
        let ghost s0 = *self;
        let core = self.sql_select_core()?;
        let ghost s1 = *self;
        let order_by = self.sql_select_order_by()?;
        let ghost s2 = *self;
        let limit = self.sql_select_limit()?;
        let ghost s3 = *self;
        proof {
            Self::lemma_kept_trans(s2, s1, s0);
            Self::lemma_kept_trans(s3, s2, s0);
        }
        self.in_select_depth = self.in_select_depth - 1;
        proof {
            let a = self.arena;
            let c = a.clock();
            a.lemma_core_mono(s1.arena, core, s1.arena.clock(), c);
            lemma_core_stable(a, s1.arena, core, s1.arena.clock(), c);
            if let Some(o) = &order_by {
                a.lemma_refs_mono(s2.arena);
                assert forall|i: int| 0 <= i < o@.len() implies a.sql_ref_ok(#[trigger] o@[i].expr, c) by {
                    assert(s2.arena.sql_ref_ok(o@[i].expr, s2.arena.clock()));
                }
                lemma_orderings_stable(a, s2.arena, o@, s2.arena.clock(), c);
            }
        }
        Ok(SqlSelect { core, order_by, limit })
    }

    /// An optional `ORDER BY` with its clauses.
    #[verifier::spinoff_prover]
    pub(super) fn sql_select_order_by(&mut self) -> (r: ParseResult<Option<Vec<SqlOrderByClause>>>)
        requires
            (old(self).in_select_depth > 0),
            old(self).inv(),
        ensures
            !(r matches Err(ParseError::NoTokens)),
            final(self).outcome(r, p_order_by(old(self).tts(), old(self).current as int), *old(self)),
            r matches Ok(o) ==> final(self).kept(*old(self)) && (o matches Some(v) ==> forall|i: int|
                0 <= i < v@.len() ==> final(self).arena.sql_ref_ok(
                    #[trigger] v@[i].expr,
                    final(self).arena.clock(),
                )),
            r matches Ok(o) ==> orderings_of(tree_of(p_order_by(old(self).tts(), old(self).current as int)))
                == match o {
                Some(v) => Some(orderings_tree(final(self).arena, v@, final(self).arena.clock())),
                None => None,
            },
        decreases old(self).remaining(), 47int,
    {
        proof {
            lemma_p_order_by(self.tts(), self.current as int);
        }
        let ghost t = self.tts();
        let ghost p0 = self.current as int;
        if !self.match_next(TokenType::SqlKeyword(SqlKeyword::Order)) {
            return Ok(None);
        }
        self.expected(TokenType::SqlKeyword(SqlKeyword::By))?;
        let ghost q0 = self.current as int;
        let ghost mut accs: Seq<(Tree, SqlOrdering)> = Seq::empty();
        let mut ordering: Vec<SqlOrderByClause> = Vec::new();
        loop
            invariant_except_break
                p_orderings(t, q0, Seq::empty()) == p_orderings(t, self.current as int, accs),
            invariant
                self.kept(*old(self)),
                self.current > old(self).current,
                forall|i: int| 0 <= i < ordering@.len() ==> self.sql_valid(#[trigger] ordering@[i].expr),
                t == old(self).tts(),
                self.in_select_depth > 0,
                p0 == old(self).current,
                p_order_by(t, p0) == p_orderings(t, q0, Seq::empty()),
                accs.len() == ordering@.len(),
                forall|i: int|
                    0 <= i < ordering@.len() ==> #[trigger] accs[i] == (
                        sql_tree(self.arena, ordering@[i].expr),
                        ordering@[i].ordering,
                    ),
            ensures
                self.kept(*old(self)),
                forall|i: int| 0 <= i < ordering@.len() ==> self.sql_valid(#[trigger] ordering@[i].expr),
                accs.len() == ordering@.len(),
                forall|i: int|
                    0 <= i < ordering@.len() ==> #[trigger] accs[i] == (
                        sql_tree(self.arena, ordering@[i].expr),
                        ordering@[i].ordering,
                    ),
                p_order_by(t, p0) == leaf(self.current as int, Tree::Orderings(accs)),
            decreases self.remaining(),
        {
            proof {
                lemma_p_orderings(t, self.current as int, accs);
            }
            let ghost s2 = *self;
            let order_expr = self.sql_expression()?;
            let order = if self.match_next(TokenType::SqlKeyword(SqlKeyword::Desc)) {
                SqlOrdering::Desc
            } else {
                self.match_next(TokenType::SqlKeyword(SqlKeyword::Asc));
                SqlOrdering::Asc
            };
            proof {
                lemma_sql_trees_stable(self.arena, s2.arena);
                accs = accs.push((tree_of(p_sql_expression(t, s2.current as int, true)), order));
            }
            ordering.push(SqlOrderByClause { expr: order_expr, ordering: order });
            proof {
                Self::lemma_kept_trans(*self, s2, *old(self));
            }
            if !self.match_next(TokenType::Symbol(Symbol::Comma)) {
                break;
            }
        }
        proof {
            let a = self.arena;
            let c = a.clock();
            assert forall|i: int| 0 <= i < ordering@.len() implies a.sql_ref_ok(#[trigger] ordering@[i].expr, c) by {
                assert(a.sql_times@[ordering@[i].expr.0 as int] < c);
            }
            lemma_orderings_pointwise(a, ordering@, c);
            assert(orderings_tree(a, ordering@, c) =~= accs);
        }
        Ok(Some(ordering))
    }

    /// After a second expression of `LIMIT`, both expressions keep their
    /// trees and can be read from a clause made at the current time.
    proof fn lemma_limit_trees(&self, s4: Parser<'a>, s1: Parser<'a>, first: SqlExprId, second: SqlExprId)
        requires
            s4.kept(s1),
            self.kept(s4),
            s4.sql_valid(first),
            self.sql_valid(second),
        ensures
            self.kept(s1),
            self.arena.sql_ref_ok(first, self.arena.clock()),
            self.arena.sql_ref_ok(second, self.arena.clock()),
            sql_tree(self.arena, first) == sql_tree(s4.arena, first),
            child_opt_sql(self.arena, Some(first), self.arena.clock()) == Some(Box::new(sql_tree(self.arena, first))),
            child_opt_sql(self.arena, Some(second), self.arena.clock()) == Some(Box::new(sql_tree(self.arena, second))),
    {
        Self::lemma_kept_trans(*self, s4, s1);
        lemma_sql_trees_stable(self.arena, s4.arena);
        let a = self.arena;
        assert(a.sql_ref_ok(first, a.clock()));
        assert(a.sql_ref_ok(second, a.clock()));
        lemma_child_opt_sql(a, Some(first), a.clock());
        lemma_child_opt_sql(a, Some(second), a.clock());
    }

    /// An optional `LIMIT` with its count and offset.
    #[verifier::spinoff_prover]
    pub(super) fn sql_select_limit(&mut self) -> (r: ParseResult<Option<SqlLimitClause>>)
        requires
            (old(self).in_select_depth > 0),
            old(self).inv(),
        ensures
            !(r matches Err(ParseError::NoTokens)),
            final(self).outcome(r, p_limit(old(self).tts(), old(self).current as int), *old(self)),
            r matches Ok(l) ==> final(self).kept(*old(self)) && (l matches Some(c) ==> final(self).arena.sql_ref_ok(
                c.count,
                final(self).arena.clock(),
            ) && final(self).arena.opt_sql_ok(
                c.offset,
                final(self).arena.clock(),
            )),
            r matches Ok(l) ==> limit_of(tree_of(p_limit(old(self).tts(), old(self).current as int))) == match l {
                Some(c) => Some(
                    (
                        Box::new(child_sql(final(self).arena, c.count, final(self).arena.clock())),
                        child_opt_sql(final(self).arena, c.offset, final(self).arena.clock()),
                    ),
                ),
                None => None,
            },
        decreases old(self).remaining(), 47int,
    {
        proof {
            lemma_p_limit(self.tts(), self.current as int);
        }
        if !self.match_next(TokenType::SqlKeyword(SqlKeyword::Limit)) {
            return Ok(None);
        }
        let ghost s1 = *self;
        let first_expr = self.sql_expression()?;
        let ghost s4 = *self;
        if self.match_next(TokenType::SqlKeyword(SqlKeyword::Offset)) {
            let offset = self.sql_expression()?;
            proof {
                self.lemma_limit_trees(s4, s1, first_expr, offset);
            }
            return Ok(Some(SqlLimitClause { count: first_expr, offset: Some(offset) }));
        }
        if self.match_next(TokenType::Symbol(Symbol::Comma)) {
            let count = self.sql_expression()?;
            proof {
                self.lemma_limit_trees(s4, s1, first_expr, count);
            }
            return Ok(Some(SqlLimitClause { count, offset: Some(first_expr) }));
        }
        proof {
            Self::lemma_kept_trans(*self, s4, s1);
            let a = self.arena;
            assert(a.sql_ref_ok(first_expr, a.clock()));
        }
        Ok(Some(SqlLimitClause { count: first_expr, offset: None }))
    }
} // impl

impl<'a> Parser<'a> {
    /// The state on entry to a query core: the depth of queries was raised
    /// before its first token was read.
    pub(super) open spec fn core_entry(&self) -> bool {
        &&& self.tok_inv()
        &&& self.arena.wf()
        &&& self.in_select_depth <= self.current + 1
        &&& self.in_array_depth <= self.current
        &&& self.in_object_depth <= self.current
    }

    #[verifier::spinoff_prover]
    #[verifier::rlimit(40)]
    pub(super) fn sql_select_core(&mut self) -> (r: ParseResult<SqlSelectCore>)
        requires
            old(self).core_entry(),
            old(self).in_select_depth >= 1,
            old(self).current >= 1 || old(self).cur() == TokenType::SqlKeyword(SqlKeyword::Select),
        ensures
            !(r matches Err(ParseError::NoTokens)),
            final(self).outcome(r, p_core(old(self).tts(), old(self).current as int), *old(self)),
            r matches Ok(c) ==> final(self).advanced(*old(self)) && final(self).arena.core_ok(
                c,
                final(self).arena.clock(),
            ) && core_tree(final(self).arena, c, final(self).arena.clock()) == tree_of(
                p_core(old(self).tts(), old(self).current as int),
            ),
        decreases old(self).remaining(), 23int,
    {
        proof {
            lemma_p_core(self.tts(), self.current as int);
        }
        let ghost t = self.tts();
        self.expected(TokenType::SqlKeyword(SqlKeyword::Select))?;
        let distinct = if self.match_next(TokenType::SqlKeyword(SqlKeyword::Distinct)) {
            SqlDistinct::Distinct
        } else if self.match_next(TokenType::SqlKeyword(SqlKeyword::All)) {
            SqlDistinct::All
        } else {
            SqlDistinct::ImplicitAll
        };
        let ghost s0 = *self;
        let projection = self.sql_select_projection()?;
        let ghost s1 = *self;
        let from = self.sql_select_from()?;
        let ghost s2 = *self;
        let where_clause = self.sql_select_where()?;
        let ghost s3 = *self;
        let group_by = self.sql_select_group_by()?;
        let ghost s4 = *self;
        let having = if group_by.is_some() && self.match_next(
            TokenType::SqlKeyword(SqlKeyword::Having),
        ) {
            Some(self.sql_expression()?)
        } else {
            None
        };
        let ghost s5 = *self;
        proof {
            Self::lemma_kept_trans(s2, s1, s0);
            Self::lemma_kept_trans(s3, s2, s0);
            Self::lemma_kept_trans(s4, s3, s0);
            Self::lemma_kept_trans(s5, s4, s0);
        }
        let compound = self.sql_select_compound()?;
        proof {
            Self::lemma_kept_trans(*self, s5, s0);
            let a = self.arena;
            let c = a.clock();
            a.lemma_projections_mono(s1.arena, projection@, s1.arena.clock(), c);
            lemma_projections_stable(a, s1.arena, projection@, s1.arena.clock(), c);
            if let Some(q) = &from {
                a.lemma_subquery_mono(s2.arena, *q, s2.arena.clock(), c);
                lemma_subquery_stable(a, s2.arena, *q, s2.arena.clock(), c);
            }
            lemma_sql_trees_stable(a, s3.arena);
            lemma_child_opt_sql(a, where_clause, c);
            if let Some(g) = &group_by {
                a.lemma_refs_mono(s4.arena);
                assert(a.sqls_ok(g@, c)) by {
                    assert forall|i: int| 0 <= i < g@.len() implies a.sql_ref_ok(#[trigger] g@[i], c) by {
                        assert(s4.arena.sql_ref_ok(g@[i], s4.arena.clock()));
                    }
                }
                lemma_child_sqls_stable(a, s4.arena, g@, s4.arena.clock(), c);
            }
            lemma_sql_trees_stable(a, s5.arena);
            lemma_child_opt_sql(a, having, c);
        }
        Ok(
            SqlSelectCore {
                distinct,
                projection,
                from,
                where_clause,
                group_by,
                having,
                compound,
            },
        )
    }

    /// An optional `UNION`, `UNION ALL`, `INTERSECT` or `EXCEPT` and the
    /// query core after it.
    #[verifier::spinoff_prover]
    pub(super) fn sql_select_compound(&mut self) -> (r: ParseResult<Option<Box<SqlSelectCompound>>>)
        requires
            (old(self).in_select_depth > 0),
            old(self).inv(),
        ensures
            !(r matches Err(ParseError::NoTokens)),
            final(self).outcome(r, p_compound(old(self).tts(), old(self).current as int), *old(self)),
            r matches Ok(compound) ==> final(self).kept(*old(self)) && (compound matches Some(b)
                ==> final(self).arena.core_ok(b.core, final(self).arena.clock())),
            r matches Ok(compound) ==> compound_of(tree_of(p_compound(old(self).tts(), old(self).current as int)))
                == match compound {
                Some(b) => Some((b.operator, Box::new(core_tree(final(self).arena, b.core, final(self).arena.clock())))),
                None => None,
            },
        decreases old(self).remaining(), 47int,
    {
        proof {
            lemma_p_compound(self.tts(), self.current as int);
        }
        let ghost t = self.tts();
        let ghost p0 = self.current as int;
        let compound_kw = [
            TokenType::SqlKeyword(SqlKeyword::Union),
            TokenType::SqlKeyword(SqlKeyword::Intersect),
            TokenType::SqlKeyword(SqlKeyword::Except),
        ];
        proof {
            assert(compound_kw@ =~= compound_ops());
        }
        if !self.match_next_one_of(&compound_kw) {
            return Ok(None);
        }
        let op = self.peek_bw(1);
        proof {
            assert(t[p0] == self.tokens@[p0]@);
        }
        let compound_op = if op.tok_type == TokenType::SqlKeyword(SqlKeyword::Union)
            && self.match_next(TokenType::SqlKeyword(SqlKeyword::All)) {
            SqlCompoundOperator::UnionAll
        } else {
            match op.tok_type {
                TokenType::SqlKeyword(SqlKeyword::Union) => SqlCompoundOperator::Union,
                TokenType::SqlKeyword(SqlKeyword::Intersect) => SqlCompoundOperator::Intersect,
                TokenType::SqlKeyword(SqlKeyword::Except) => SqlCompoundOperator::Except,
                _ => {
                    return Err(ParseError::UnexpectedToken { token: op.clone() });
                },
            }
        };
        let core = self.sql_select_core()?;
        Ok(Some(Box::new(SqlSelectCompound { operator: compound_op, core })))
    }

    #[verifier::spinoff_prover]
    pub(super) fn sql_select_projection(&mut self) -> (r: ParseResult<Vec<SqlProjection>>)
        requires
            (old(self).in_select_depth > 0),
            old(self).inv(),
        ensures
            !(r matches Err(ParseError::NoTokens)),
            final(self).outcome(r, p_projection(old(self).tts(), old(self).current as int, Seq::empty()), *old(self)),
            r matches Ok(ps) ==> final(self).advanced(*old(self)) && final(self).arena.projections_ok(
                ps@,
                final(self).arena.clock(),
            ) && projections_tree(final(self).arena, ps@, final(self).arena.clock()) == list_of(
                tree_of(p_projection(old(self).tts(), old(self).current as int, Seq::empty())),
            ),
        decreases old(self).remaining(), 43int,
    {
        let ghost t = self.tts();
        let ghost p0 = self.current as int;
        let ghost mut accs: Seq<Tree> = Seq::empty();
        let mut projections: Vec<SqlProjection> = Vec::new();
        let qualified_star = [
            TokenType::Identifier { dollar: false },
            TokenType::Symbol(Symbol::Dot),
            TokenType::Symbol(Symbol::Star),
        ];
        proof {
            assert(qualified_star@ =~= seq![ident(), sym(Symbol::Dot), sym(Symbol::Star)]);
        }
        loop
            invariant_except_break
                p_projection(t, p0, Seq::empty()) == p_projection(t, self.current as int, accs),
            invariant
                self.kept(*old(self)),
                self.in_select_depth > 0,
                t == old(self).tts(),
                p0 == old(self).current,
                qualified_star@ == seq![ident(), sym(Symbol::Dot), sym(Symbol::Star)],
                projections@.len() > 0 ==> self.current > old(self).current,
                forall|i: int|
                    0 <= i < projections@.len() ==> (#[trigger] projections@[i] matches SqlProjection::Expr { expr, .. }
                        ==> self.sql_valid(expr)),
                accs.len() == projections@.len(),
                forall|i: int| 0 <= i < projections@.len() ==> #[trigger] accs[i] == projection_node(self.arena, projections@[i]),
            ensures
                self.kept(*old(self)),
                self.current > old(self).current,
                p_projection(t, p0, Seq::empty()) == leaf(self.current as int, Tree::List(accs)),
                forall|i: int|
                    0 <= i < projections@.len() ==> (#[trigger] projections@[i] matches SqlProjection::Expr { expr, .. }
                        ==> self.sql_valid(expr)),
                accs.len() == projections@.len(),
                forall|i: int| 0 <= i < projections@.len() ==> #[trigger] accs[i] == projection_node(self.arena, projections@[i]),
            decreases self.remaining(), if projections@.len() == 0 { 1int } else { 0int },
        {
            proof {
                lemma_p_projection(t, self.current as int, accs);
                lemma_starts_with3(t, self.current as int, ident(), sym(Symbol::Dot), sym(Symbol::Star));
            }
            let ghost s1 = *self;
            if self.match_next(TokenType::Symbol(Symbol::Star)) {
                projections.push(SqlProjection::All { collection: None });
                proof {
                    accs = accs.push(Tree::ProjectAll(None));
                }
            } else if self.match_next_all_of(&qualified_star) {
                proof {
                    self.lemma_name(self.current - 3);
                }
                let collection = Some(self.peek_bw(3).extract_identifier().unwrap());
                projections.push(SqlProjection::All { collection });
                proof {
                    accs = accs.push(Tree::ProjectAll(Some(name_at(t, s1.current as int))));
                }
            } else {
                let expr = self.sql_expression()?;
                let ghost s2 = *self;
                let alias = self.sql_alias()?;
                proof {
                    lemma_sql_trees_stable(self.arena, s1.arena);
                    accs = accs.push(
                        Tree::ProjectExpr(
                            Box::new(tree_of(p_sql_expression(t, s1.current as int, true))),
                            alias_at(t, s2.current as int),
                        ),
                    );
                }
                projections.push(SqlProjection::Expr { expr, alias });
            }
            proof {
                Self::lemma_kept_trans(*self, s1, *old(self));
            }
            if !self.match_next(TokenType::Symbol(Symbol::Comma)) {
                break;
            }
        }
        proof {
            let a = self.arena;
            assert forall|i: int| 0 <= i < projections@.len() implies (#[trigger] projections@[i] matches SqlProjection::Expr { expr, .. }
                ==> a.sql_ref_ok(expr, a.clock())) by {
                if let SqlProjection::Expr { expr, .. } = projections@[i] {
                    assert(a.sql_times@[expr.0 as int] < a.clock());
                }
            }
            lemma_projections_pointwise(a, projections@, a.clock());
            assert(projections_tree(a, projections@, a.clock()) =~= accs);
        }
        Ok(projections)
    }

    #[verifier::spinoff_prover]
    pub(super) fn sql_select_from(&mut self) -> (r: ParseResult<Option<SqlCollectionSubquery>>)
        requires
            (old(self).in_select_depth > 0),
            old(self).inv(),
        ensures
            !(r matches Err(ParseError::NoTokens)),
            final(self).outcome(r, p_from(old(self).tts(), old(self).current as int), *old(self)),
            r matches Ok(f) ==> final(self).kept(*old(self)) && (f matches Some(q)
                ==> final(self).arena.subquery_ok(q, final(self).arena.clock())) && maybe_of(
                tree_of(p_from(old(self).tts(), old(self).current as int)),
            ) == match f {
                Some(q) => Some(Box::new(subquery_tree(final(self).arena, q, final(self).arena.clock()))),
                None => None,
            },
        decreases old(self).remaining(), 47int,
    {
        proof {
            lemma_p_from(self.tts(), self.current as int);
        }
        if self.match_next(TokenType::SqlKeyword(SqlKeyword::From)) {
            let q = self.sql_select_subquery_join()?;
            return Ok(Some(q));
        }
        Ok(None)
    }

    #[verifier::spinoff_prover]
    #[verifier::rlimit(40)]
    pub(super) fn sql_select_subquery_join(&mut self) -> (r: ParseResult<SqlCollectionSubquery>)
        requires
            (old(self).in_select_depth > 0),
            old(self).inv(),
            old(self).current >= 1,
        ensures
            !(r matches Err(ParseError::NoTokens)),
            final(self).outcome(r, p_subquery_join(old(self).tts(), old(self).current as int), *old(self)),
            r matches Ok(q) ==> final(self).advanced(*old(self)) && final(self).arena.subquery_ok(
                q,
                final(self).arena.clock(),
            ) && subquery_tree(final(self).arena, q, final(self).arena.clock()) == tree_of(
                p_subquery_join(old(self).tts(), old(self).current as int),
            ),
        decreases old(self).remaining(), 45int,
    {
        proof {
            lemma_p_subquery_join(self.tts(), self.current as int);
        }
        let ghost t = self.tts();
        let ghost p0 = self.current as int;
        let join_kw = [
            TokenType::SqlKeyword(SqlKeyword::Left),
            TokenType::SqlKeyword(SqlKeyword::Right),
            TokenType::SqlKeyword(SqlKeyword::Inner),
            TokenType::SqlKeyword(SqlKeyword::Join),
        ];
        proof {
            assert(join_kw@ =~= join_ops());
        }
        let ghost mut accs: Seq<Tree> = Seq::empty();
        let mut subquery_group: Vec<SqlCollectionSubquery> = Vec::new();
        loop
            invariant_except_break
                p_subquery_join(t, p0) == p_join_groups(t, self.current as int, accs),
            invariant
                self.kept(*old(self)),
                self.current >= 1,
                self.in_select_depth > 0,
                t == old(self).tts(),
                p0 == old(self).current,
                join_kw@ == join_ops(),
                subquery_group@.len() > 0 ==> self.current > old(self).current,
                accs.len() == subquery_group@.len(),
                forall|i: int|
                    0 <= i < subquery_group@.len() ==> self.arena.subquery_ok(
                        #[trigger] subquery_group@[i],
                        self.arena.clock(),
                    ),
                forall|i: int|
                    0 <= i < subquery_group@.len() ==> subquery_tree(
                        self.arena,
                        #[trigger] subquery_group@[i],
                        self.arena.clock(),
                    ) == accs[i],
            ensures
                self.kept(*old(self)),
                self.current > old(self).current,
                p_subquery_join(t, p0) == leaf(self.current as int, Tree::Group(accs)),
                accs.len() == subquery_group@.len(),
                forall|i: int|
                    0 <= i < subquery_group@.len() ==> self.arena.subquery_ok(
                        #[trigger] subquery_group@[i],
                        self.arena.clock(),
                    ),
                forall|i: int|
                    0 <= i < subquery_group@.len() ==> subquery_tree(
                        self.arena,
                        #[trigger] subquery_group@[i],
                        self.arena.clock(),
                    ) == accs[i],
            decreases self.remaining(), if subquery_group@.len() == 0 { 1int } else { 0int },
        {
            let ghost c = self.current as int;
            proof {
                lemma_p_join_groups(t, c, accs);
            }
            let ghost s1 = *self;
            let ghost g1 = subquery_group@;
            let left = self.sql_select_subquery_collection()?;
            let ghost lt0 = tree_of(p_subquery_collection(t, c));
            subquery_group.push(left);
            let ghost p1 = self.current as int;
            proof {
                let a = self.arena;
                assert forall|i: int| 0 <= i < g1.len() implies a.subquery_ok(
                    #[trigger] subquery_group@[i],
                    a.clock(),
                ) && subquery_tree(a, subquery_group@[i], a.clock()) == accs[i] by {
                    assert(subquery_group@[i] == g1[i]);
                    a.lemma_subquery_mono(s1.arena, g1[i], s1.arena.clock(), a.clock());
                    lemma_subquery_stable(a, s1.arena, g1[i], s1.arena.clock(), a.clock());
                }
                assert(subquery_group@[g1.len() as int] == left);
                Self::lemma_kept_trans(*self, s1, *old(self));
            }
            let ghost mut lt: Tree = lt0;
            loop
                invariant_except_break
                    p_joins(t, p1, lt0) == p_joins(t, self.current as int, lt),
                invariant
                    self.kept(*old(self)),
                    self.current > old(self).current,
                    self.current > s1.current,
                    self.in_select_depth > 0,
                    t == old(self).tts(),
                    join_kw@ == join_ops(),
                    subquery_group@.len() == accs.len() + 1,
                    p0 == old(self).current,
                    c == s1.current,
                    p_subquery_join(t, p0) == p_join_groups(t, c, accs),
                    p_join_groups(t, c, accs) == (match p_joins(t, p1, lt0) {
                        POut::Done { pos: p2, tree, .. } => if at(t, p2, sym(Symbol::Comma)) {
                            if p2 >= c {
                                p_join_groups(t, p2 + 1, accs.push(tree))
                            } else {
                                POut::Fail(PErr::Stuck)
                            }
                        } else {
                            leaf(p2, Tree::Group(accs.push(tree)))
                        },
                        f => f,
                    }),
                    c < p1,
                    forall|i: int|
                        0 <= i < subquery_group@.len() ==> self.arena.subquery_ok(
                            #[trigger] subquery_group@[i],
                            self.arena.clock(),
                        ),
                    forall|i: int|
                        0 <= i < accs.len() ==> subquery_tree(
                            self.arena,
                            #[trigger] subquery_group@[i],
                            self.arena.clock(),
                        ) == accs[i],
                    subquery_tree(self.arena, subquery_group@[accs.len() as int], self.arena.clock()) == lt,
                ensures
                    self.kept(*old(self)),
                    self.current > old(self).current,
                    self.current > s1.current,
                    p_join_groups(t, c, accs) == (if at(t, self.current as int, sym(Symbol::Comma)) {
                        p_join_groups(t, self.current + 1, accs.push(lt))
                    } else {
                        leaf(self.current as int, Tree::Group(accs.push(lt)))
                    }),
                    subquery_group@.len() == accs.len() + 1,
                    forall|i: int|
                        0 <= i < subquery_group@.len() ==> self.arena.subquery_ok(
                            #[trigger] subquery_group@[i],
                            self.arena.clock(),
                        ),
                    forall|i: int|
                        0 <= i < accs.len() ==> subquery_tree(
                            self.arena,
                            #[trigger] subquery_group@[i],
                            self.arena.clock(),
                        ) == accs[i],
                    subquery_tree(self.arena, subquery_group@[accs.len() as int], self.arena.clock()) == lt,
                decreases self.remaining(),
            {
                proof {
                    lemma_p_joins(t, self.current as int, lt);
                }
                let ghost s2 = *self;
                if !self.match_next_one_of(&join_kw) {
                    break;
                }
                let ghost g2 = subquery_group@;
                let left_popped = subquery_group.pop().unwrap();
                proof {
                    assert(g2[accs.len() as int] == left_popped);
                }
                let joined = self.sql_select_join(left_popped)?;
                subquery_group.push(joined);
                proof {
                    Self::lemma_kept_trans(*self, s2, *old(self));
                    let a = self.arena;
                    let ca = a.clock();
                    assert forall|i: int| 0 <= i < subquery_group@.len() implies a.subquery_ok(
                        #[trigger] subquery_group@[i],
                        ca,
                    ) && (i < accs.len() ==> subquery_tree(a, subquery_group@[i], ca) == accs[i]) by {
                        if i < accs.len() {
                            assert(subquery_group@[i] == g2[i]);
                            a.lemma_subquery_mono(s2.arena, g2[i], s2.arena.clock(), ca);
                            lemma_subquery_stable(a, s2.arena, g2[i], s2.arena.clock(), ca);
                        }
                    }
                    lt = tree_of(p_join(t, s2.current as int, lt));
                }
            }
            proof {
                accs = accs.push(lt);
            }
            if !self.match_next(TokenType::Symbol(Symbol::Comma)) {
                break;
            }
        }
        proof {
            let a = self.arena;
            lemma_subqueries_pointwise(a, subquery_group@, a.clock());
            assert(subqueries_tree(a, subquery_group@, a.clock()) =~= accs);
        }
        Ok(SqlCollectionSubquery::Group { values: subquery_group })
    }

    /// A join after its first keyword, with `left` on its left side.
    #[verifier::spinoff_prover]
    fn sql_select_join(&mut self, left: SqlCollectionSubquery) -> (r: ParseResult<SqlCollectionSubquery>)
        requires
            (old(self).in_select_depth > 0),
            old(self).inv(),
            old(self).current >= 1,
            op_in(old(self).tts(), old(self).current - 1, join_ops()),
            old(self).arena.subquery_ok(left, old(self).arena.clock()),
        ensures
            !(r matches Err(ParseError::NoTokens)),
            final(self).outcome(
                r,
                p_join(
                    old(self).tts(),
                    old(self).current - 1,
                    subquery_tree(old(self).arena, left, old(self).arena.clock()),
                ),
                *old(self),
            ),
            r matches Ok(j) ==> final(self).advanced(*old(self)) && final(self).arena.subquery_ok(
                j,
                final(self).arena.clock(),
            ) && subquery_tree(final(self).arena, j, final(self).arena.clock()) == tree_of(
                p_join(
                    old(self).tts(),
                    old(self).current - 1,
                    subquery_tree(old(self).arena, left, old(self).arena.clock()),
                ),
            ),
        decreases old(self).remaining(), 45int,
    {
        let ghost t = self.tts();
        let ghost p = self.current - 1;
        let ghost lt = subquery_tree(self.arena, left, self.arena.clock());
        proof {
            lemma_p_join(t, p, lt);
        }
        let peek = self.peek_bw(1);
        proof {
            assert(t[p] == self.tokens@[p]@);
        }
        let join_type = if peek.tok_type == TokenType::SqlKeyword(SqlKeyword::Inner) {
            self.expected(TokenType::SqlKeyword(SqlKeyword::Join))?;
            SqlJoinType::Inner
        } else if peek.tok_type == TokenType::SqlKeyword(SqlKeyword::Left) {
            self.optional_with_expected(
                TokenType::SqlKeyword(SqlKeyword::Outer),
                TokenType::SqlKeyword(SqlKeyword::Join),
            )?;
            SqlJoinType::Left
        } else if peek.tok_type == TokenType::SqlKeyword(SqlKeyword::Right) {
            self.optional_with_expected(
                TokenType::SqlKeyword(SqlKeyword::Outer),
                TokenType::SqlKeyword(SqlKeyword::Join),
            )?;
            SqlJoinType::Right
        } else if peek.tok_type == TokenType::SqlKeyword(SqlKeyword::Join) {
            SqlJoinType::Inner
        } else {
            return Err(ParseError::UnexpectedToken { token: peek.clone() });
        };
        let ghost s3 = *self;
        let right = self.sql_select_subquery_collection()?;
        let ghost s4 = *self;
        let ghost rt = tree_of(p_subquery_collection(t, s3.current as int));
        let join_constraint: Option<SqlExprId> = if self.match_next(TokenType::SqlKeyword(SqlKeyword::On)) {
            Some(self.sql_expression()?)
        } else {
            None
        };
        proof {
            Self::lemma_kept_trans(*self, s4, s3);
            let a = self.arena;
            let ca = a.clock();
            a.lemma_subquery_mono(s4.arena, right, s4.arena.clock(), ca);
            lemma_subquery_stable(a, s4.arena, right, s4.arena.clock(), ca);
            a.lemma_subquery_mono(old(self).arena, left, old(self).arena.clock(), ca);
            lemma_subquery_stable(a, old(self).arena, left, old(self).arena.clock(), ca);
            if let Some(e) = join_constraint {
                assert(a.sql_times@[e.0 as int] < ca);
            }
            lemma_child_opt_sql(a, join_constraint, ca);
        }
        Ok(
            SqlCollectionSubquery::Join {
                left: Box::new(left),
                right: Box::new(right),
                join_type,
                constraint: join_constraint,
            },
        )
    }

    #[verifier::spinoff_prover]
    pub(super) fn sql_select_where(&mut self) -> (r: ParseResult<Option<SqlExprId>>)
        requires
            (old(self).in_select_depth > 0),
            old(self).inv(),
        ensures
            !(r matches Err(ParseError::NoTokens)),
            final(self).outcome(r, p_where(old(self).tts(), old(self).current as int, true), *old(self)),
            r matches Ok(w) ==> final(self).kept(*old(self)) && (w matches Some(id)
                ==> final(self).sql_valid(id)) && maybe_of(
                tree_of(p_where(old(self).tts(), old(self).current as int, true)),
            ) == match w {
                Some(id) => Some(Box::new(sql_tree(final(self).arena, id))),
                None => None,
            },
        decreases old(self).remaining(), 47int,
    {
        proof {
            lemma_p_where(self.tts(), self.current as int, true);
        }
        if self.match_next(TokenType::SqlKeyword(SqlKeyword::Where)) {
            let e = self.sql_expression()?;
            return Ok(Some(e));
        }
        Ok(None)
    }

    #[verifier::spinoff_prover]
    pub(super) fn sql_select_group_by(&mut self) -> (r: ParseResult<Option<Vec<SqlExprId>>>)
        requires
            (old(self).in_select_depth > 0),
            old(self).inv(),
        ensures
            !(r matches Err(ParseError::NoTokens)),
            final(self).outcome(r, p_group_by(old(self).tts(), old(self).current as int), *old(self)),
            r matches Ok(g) ==> final(self).kept(*old(self)) && (g matches Some(ids)
                ==> forall|i: int| 0 <= i < ids@.len() ==> final(self).sql_valid(#[trigger] ids@[i])),
            r matches Ok(g) ==> (g is Some <==> final(self).current > old(self).current),
            r matches Ok(g) ==> group_of(tree_of(p_group_by(old(self).tts(), old(self).current as int))) == match g {
                Some(ids) => Some(child_sqls(final(self).arena, ids@, final(self).arena.clock())),
                None => None,
            },
        decreases old(self).remaining(), 47int,
    {
        proof {
            lemma_p_group_by(self.tts(), self.current as int);
        }
        let ghost t = self.tts();
        let ghost p0 = self.current as int;
        if self.match_next(TokenType::SqlKeyword(SqlKeyword::Group)) {
            self.expected(TokenType::SqlKeyword(SqlKeyword::By))?;
            let ghost q0 = self.current as int;
            let ghost mut accs: Seq<Tree> = Seq::empty();
            let mut groups: Vec<SqlExprId> = Vec::new();
            loop
                invariant_except_break
                    p_values(t, q0, true, Seq::empty()) == p_values(t, self.current as int, true, accs),
                invariant
                    accs.len() == groups@.len(),
                    forall|i: int| 0 <= i < groups@.len() ==> sql_tree(self.arena, #[trigger] groups@[i]) == accs[i],
                    self.kept(*old(self)),
                    self.current > old(self).current,
                    forall|i: int| 0 <= i < groups@.len() ==> self.sql_valid(#[trigger] groups@[i]),
                    t == old(self).tts(),
                    self.in_select_depth > 0,
                    p0 == old(self).current,
                    p_group_by(t, p0) == (match p_values(t, q0, true, Seq::empty()) {
                        POut::Done { pos, tree, .. } => leaf(pos, Tree::Maybe(Some(Box::new(tree)))),
                        f => f,
                    }),
                ensures
                    self.kept(*old(self)),
                    self.current > old(self).current,
                    forall|i: int| 0 <= i < groups@.len() ==> self.sql_valid(#[trigger] groups@[i]),
                    accs.len() == groups@.len(),
                    forall|i: int| 0 <= i < groups@.len() ==> sql_tree(self.arena, #[trigger] groups@[i]) == accs[i],
                    p_group_by(t, p0) == leaf(self.current as int, Tree::Maybe(Some(Box::new(Tree::List(accs))))),
                decreases self.remaining(),
            {
                proof {
                    lemma_p_values(t, self.current as int, true, accs);
                }
                let ghost s1 = *self;
                let sql_expr = self.sql_expression()?;
                proof {
                    lemma_sql_trees_stable(self.arena, s1.arena);
                    accs = accs.push(tree_of(p_sql_expression(t, s1.current as int, true)));
                }
                groups.push(sql_expr);
                proof {
                    Self::lemma_kept_trans(*self, s1, *old(self));
                }
                if !self.match_next(TokenType::Symbol(Symbol::Comma)) {
                    break;
                }
            }
            proof {
                let c = self.arena.clock();
                lemma_child_sqls_pointwise(self.arena, groups@, c);
                assert(child_sqls(self.arena, groups@, c) =~= accs);
            }
            Ok(Some(groups))
        } else {
            Ok(None)
        }
    }

    #[verifier::spinoff_prover]
    pub(super) fn sql_select_subquery_collection(&mut self) -> (r: ParseResult<SqlCollectionSubquery>)
        requires
            (old(self).in_select_depth > 0),
            old(self).inv(),
            old(self).current >= 1,
        ensures
            !(r matches Err(ParseError::NoTokens)),
            final(self).outcome(r, p_subquery_collection(old(self).tts(), old(self).current as int), *old(self)),
            r matches Ok(q) ==> final(self).advanced(*old(self)) && final(self).arena.subquery_ok(
                q,
                final(self).arena.clock(),
            ) && subquery_tree(final(self).arena, q, final(self).arena.clock()) == tree_of(
                p_subquery_collection(old(self).tts(), old(self).current as int),
            ),
        decreases old(self).remaining(), 44int,
    {
        proof {
            lemma_p_subquery_collection(self.tts(), self.current as int);
        }
        let ghost t = self.tts();
        if self.match_next(TokenType::Symbol(Symbol::LeftParen)) {
            let ghost s1 = *self;
            if self.check_tok(&TokenType::SqlKeyword(SqlKeyword::Select)) {
                let expr = self.sql_select()?;
                self.expected(TokenType::Symbol(Symbol::RightParen))?;
                let ghost p2 = self.current as int;
                let alias = self.sql_alias()?;
                proof {
                    Self::lemma_kept_trans(*self, s1, *old(self));
                    assert(self.arena.expr_times@[expr.0 as int] < self.arena.clock());
                    assert(expr_tree(self.arena, expr) == tree_of(p_select(t, s1.current as int, true)));
                    assert(child_expr(self.arena, expr, self.arena.clock()) == expr_tree(self.arena, expr));
                    assert(opt_name(alias) == alias_at(t, p2));
                    assert(subquery_tree(
                        self.arena,
                        SqlCollectionSubquery::Select { expr, alias },
                        self.arena.clock(),
                    ) == Tree::SubSelect(Box::new(tree_of(p_select(t, s1.current as int, true))), alias_at(t, p2)));
                }
                return Ok(SqlCollectionSubquery::Select { expr, alias });
            }
            let parsed = self.sql_select_subquery_join()?;
            self.expected(TokenType::Symbol(Symbol::RightParen))?;
            proof {
                Self::lemma_kept_trans(*self, s1, *old(self));
            }
            return Ok(parsed);
        }
        match self.sql_collection_identifier()? {
            Some(collection) => Ok(SqlCollectionSubquery::Collection(collection)),
            None => Err(ParseError::UnexpectedToken { token: self.peek_bw(0).clone() }),
        }
    }

    #[verifier::spinoff_prover]
    pub(super) fn sql_expression(&mut self) -> (r: ParseResult<SqlExprId>)
        requires
            old(self).inv(),
        ensures
            !(r matches Err(ParseError::NoTokens)),
            final(self).sql_outcome(r, p_sql_expression(old(self).tts(), old(self).current as int, (old(self).in_select_depth > 0)), *old(self)),
            r matches Ok(id) ==> final(self).advanced(*old(self)) && final(self).sql_valid(id),
        decreases old(self).remaining(), 42int,
    {
        proof {
            lemma_p_sql_expression(self.tts(), self.current as int, self.in_select_depth > 0);
        }
        let expr = self.expression()?;
        let ghost s1 = *self;
        let conj = [
            TokenType::SqlKeyword(SqlKeyword::Is),
            TokenType::SqlKeyword(SqlKeyword::Not),
            TokenType::SqlKeyword(SqlKeyword::In),
            TokenType::SqlKeyword(SqlKeyword::Between),
            TokenType::SqlKeyword(SqlKeyword::Like),
        ];
        proof {
            assert(conj@ =~= conj_ops());
        }
        let expr_conj_fst = if self.match_next_one_of(&conj) {
            Some(self.peek_bw(1).tok_type)
        } else {
            None
        };
        let expr_conj_sec = if expr_conj_fst.is_some() && self.match_next_one_of(&conj) {
            Some(self.peek_bw(1).tok_type)
        } else {
            None
        };
        proof {
            assert(self.arena.expr_times@[expr.0 as int] < self.arena.clock());
        }
        let left = self.arena.alloc_sql_expression(SqlExpr::Default(expr));
        let ghost s2 = *self;
        proof {
            Self::lemma_kept_trans(s2, s1, *old(self));
        }
        if expr_conj_fst.is_none() && expr_conj_sec.is_none() {
            return Ok(left);
        }
        match (expr_conj_fst, expr_conj_sec) {
            (Some(TokenType::SqlKeyword(SqlKeyword::Is)), None) => {
                let right = self.sql_expression()?;
                proof {
                    lemma_sql_tree_stable(self.arena, s2.arena, left);
                }
                let id = self.arena.alloc_sql_expression(SqlExpr::Is { left, right });
                proof {
                    self.arena.lemma_extends_trans(s2.arena, old(self).arena);
                }
                Ok(id)
            },
            (Some(TokenType::SqlKeyword(SqlKeyword::Is)), Some(TokenType::SqlKeyword(SqlKeyword::Not))) => {
                let right = self.sql_expression()?;
                proof {
                    lemma_sql_tree_stable(self.arena, s2.arena, left);
                }
                let id = self.arena.alloc_sql_expression(SqlExpr::IsNot { left, right });
                proof {
                    self.arena.lemma_extends_trans(s2.arena, old(self).arena);
                }
                Ok(id)
            },
            (Some(TokenType::SqlKeyword(SqlKeyword::In)), None) => {
                let right = self.sql_expression()?;
                proof {
                    lemma_sql_tree_stable(self.arena, s2.arena, left);
                }
                let id = self.arena.alloc_sql_expression(SqlExpr::In { left, right });
                proof {
                    self.arena.lemma_extends_trans(s2.arena, old(self).arena);
                }
                Ok(id)
            },
            (Some(TokenType::SqlKeyword(SqlKeyword::Not)), Some(TokenType::SqlKeyword(SqlKeyword::In))) => {
                let right = self.sql_expression()?;
                proof {
                    lemma_sql_tree_stable(self.arena, s2.arena, left);
                }
                let id = self.arena.alloc_sql_expression(SqlExpr::NotIn { left, right });
                proof {
                    self.arena.lemma_extends_trans(s2.arena, old(self).arena);
                }
                Ok(id)
            },
            (Some(TokenType::SqlKeyword(SqlKeyword::Like)), None) => {
                let right = self.sql_expression()?;
                proof {
                    lemma_sql_tree_stable(self.arena, s2.arena, left);
                }
                let id = self.arena.alloc_sql_expression(SqlExpr::Like { left, right });
                proof {
                    self.arena.lemma_extends_trans(s2.arena, old(self).arena);
                }
                Ok(id)
            },
            (Some(TokenType::SqlKeyword(SqlKeyword::Not)), Some(TokenType::SqlKeyword(SqlKeyword::Like))) => {
                let right = self.sql_expression()?;
                proof {
                    lemma_sql_tree_stable(self.arena, s2.arena, left);
                }
                let id = self.arena.alloc_sql_expression(SqlExpr::NotLike { left, right });
                proof {
                    self.arena.lemma_extends_trans(s2.arena, old(self).arena);
                }
                Ok(id)
            },
            (Some(TokenType::SqlKeyword(SqlKeyword::Between)), None) => {
                let id = self.sql_expression_between_and(left, false)?;
                proof {
                    Self::lemma_kept_trans(*self, s2, *old(self));
                }
                Ok(id)
            },
            (Some(TokenType::SqlKeyword(SqlKeyword::Not)), Some(TokenType::SqlKeyword(SqlKeyword::Between))) => {
                let id = self.sql_expression_between_and(left, true)?;
                proof {
                    Self::lemma_kept_trans(*self, s2, *old(self));
                }
                Ok(id)
            },
            _ => {
                let id = self.arena.alloc_sql_expression(SqlExpr::Default(expr));
                proof {
                    self.arena.lemma_extends_trans(s2.arena, old(self).arena);
                }
                Ok(id)
            },
        }
    }

    #[verifier::spinoff_prover]
    pub(super) fn sql_expression_between_and(&mut self, left: SqlExprId, not: bool) -> (r: ParseResult<SqlExprId>)
        requires
            old(self).inv(),
            old(self).sql_valid(left),
        ensures
            !(r matches Err(ParseError::NoTokens)),
            final(self).outcome(r, p_between(old(self).tts(), old(self).current as int, (old(self).in_select_depth > 0)), *old(self)),
            r matches Ok(id) ==> final(self).advanced(*old(self)) && final(self).sql_valid(id)
                && sql_tree(final(self).arena, id) == Tree::SqlBetween(
                    not,
                    Box::new(sql_tree(old(self).arena, left)),
                    Box::new(list_of(tree_of(p_between(old(self).tts(), old(self).current as int, (old(self).in_select_depth > 0))))[0]),
                    Box::new(list_of(tree_of(p_between(old(self).tts(), old(self).current as int, (old(self).in_select_depth > 0))))[1]),
                ),
        decreases old(self).remaining(), 35int,
    {
        let ghost t = self.tts();
        let ghost sel = self.in_select_depth > 0;
        let ghost p0 = self.current as int;
        let lower = match self.sql_default_equality() {
            Ok(lower) => lower,
            Err(e) => {
                proof {
                    lemma_p_between(t, p0, sel);
                }
                return Err(e);
            },
        };
        let ghost s1 = *self;
        if let Err(e) = self.expected(TokenType::SqlKeyword(SqlKeyword::And)) {
            proof {
                lemma_p_between(t, p0, sel);
            }
            return Err(e);
        }
        let ghost p2 = self.current as int;
        let upper = match self.sql_default_equality() {
            Ok(upper) => upper,
            Err(e) => {
                proof {
                    lemma_p_between(t, p0, sel);
                }
                return Err(e);
            },
        };
        let ghost s2 = *self;
        proof {
            Self::lemma_kept_trans(s2, s1, *old(self));
            lemma_sql_tree_stable(self.arena, old(self).arena, left);
            lemma_sql_tree_stable(self.arena, s1.arena, lower);
            lemma_between_bounds(t, p0, sel, s1.current as int, p2, self.current as int);
        }
        let id = self.alloc_sql_between(not, left, lower, upper);
        proof {
            Self::lemma_kept_trans(*self, s2, *old(self));
        }
        Ok(id)
    }

    /// An equality expression as the operand of an SQL node.
    #[verifier::spinoff_prover]
    fn sql_default_equality(&mut self) -> (r: ParseResult<SqlExprId>)
        requires
            old(self).inv(),
        ensures
            !(r matches Err(ParseError::NoTokens)),
            final(self).outcome(r, p_equality(old(self).tts(), old(self).current as int, (old(self).in_select_depth > 0)), *old(self)),
            r matches Ok(id) ==> final(self).advanced(*old(self)) && final(self).sql_valid(id) && sql_tree(
                final(self).arena,
                id,
            ) == Tree::SqlDefault(
                Box::new(tree_of(p_equality(old(self).tts(), old(self).current as int, (old(self).in_select_depth > 0)))),
            ),
        decreases old(self).remaining(), 34int,
    {
        let e = self.equality()?;
        let ghost s1 = *self;
        let id = self.alloc_sql_default(e);
        proof {
            Self::lemma_kept_trans(*self, s1, *old(self));
        }
        Ok(id)
    }

    /// Allocates an SQL node that wraps the expression `e`.
    #[verifier::spinoff_prover]
    fn alloc_sql_default(&mut self, e: ExprId) -> (r: SqlExprId)
        requires
            old(self).inv(),
            old(self).expr_valid(e),
        ensures
            final(self).kept(*old(self)),
            final(self).current == old(self).current,
            final(self).sql_valid(r),
            sql_tree(final(self).arena, r) == Tree::SqlDefault(Box::new(expr_tree(old(self).arena, e))),
    {
        proof {
            assert(self.arena.expr_times@[e.0 as int] < self.arena.clock());
            lemma_default_node(self.arena, e);
        }
        self.arena.alloc_sql_expression(SqlExpr::Default(e))
    }

    /// Allocates a `BETWEEN` or `NOT BETWEEN` node over three earlier nodes.
    #[verifier::spinoff_prover]
    fn alloc_sql_between(&mut self, not: bool, left: SqlExprId, lower: SqlExprId, upper: SqlExprId) -> (r: SqlExprId)
        requires
            old(self).inv(),
            old(self).sql_valid(left),
            old(self).sql_valid(lower),
            old(self).sql_valid(upper),
        ensures
            final(self).kept(*old(self)),
            final(self).current == old(self).current,
            final(self).sql_valid(r),
            sql_tree(final(self).arena, r) == Tree::SqlBetween(
                not,
                Box::new(sql_tree(old(self).arena, left)),
                Box::new(sql_tree(old(self).arena, lower)),
                Box::new(sql_tree(old(self).arena, upper)),
            ),
    {
        let node = if not {
            SqlExpr::NotBetween { expr: left, lower, upper }
        } else {
            SqlExpr::Between { expr: left, lower, upper }
        };
        proof {
            let a = self.arena;
            assert(a.sql_times@[left.0 as int] < a.clock());
            assert(a.sql_times@[lower.0 as int] < a.clock());
            assert(a.sql_times@[upper.0 as int] < a.clock());
            lemma_between_node(a, node, not, left, lower, upper);
        }
        self.arena.alloc_sql_expression(node)
    }
} // impl

/// Where both bounds of a `BETWEEN` were read, the rule gives them as its
/// list, each wrapped in an SQL node.
proof fn lemma_between_bounds(t: Seq<SpecToken>, p0: int, sel: bool, p1: int, p2: int, p3: int)
    requires
        0 <= p0 < t.len(),
        p_equality(t, p0, sel) matches POut::Done { pos, .. } && pos == p1,
        expect(t, p1, skw(SqlKeyword::And)) matches POut::Done { pos, .. } && pos == p2,
        p2 > p0,
        p_equality(t, p2, sel) matches POut::Done { pos, .. } && pos == p3,
    ensures
        p_between(t, p0, sel) is Done,
        p_between(t, p0, sel)->pos == p3,
        list_of(tree_of(p_between(t, p0, sel))).len() == 2,
        list_of(tree_of(p_between(t, p0, sel)))[0] == Tree::SqlDefault(Box::new(tree_of(p_equality(t, p0, sel)))),
        list_of(tree_of(p_between(t, p0, sel)))[1] == Tree::SqlDefault(Box::new(tree_of(p_equality(t, p2, sel)))),
{
    lemma_p_between(t, p0, sel);
}

/// The tree of a node that wraps an expression made before it.
proof fn lemma_default_node(a: AstArena, e: ExprId)
    requires
        a.expr_ref_ok(e, a.clock()),
    ensures
        a.sql_ok(SqlExpr::Default(e), a.clock()),
        sql_node_tree(a, SqlExpr::Default(e), a.clock()) == Tree::SqlDefault(Box::new(expr_tree(a, e))),
{
}

/// The tree of a `BETWEEN` node made from three earlier nodes.
proof fn lemma_between_node(a: AstArena, node: SqlExpr, not: bool, left: SqlExprId, lower: SqlExprId, upper: SqlExprId)
    requires
        a.sql_ref_ok(left, a.clock()),
        a.sql_ref_ok(lower, a.clock()),
        a.sql_ref_ok(upper, a.clock()),
        node == if not {
            SqlExpr::NotBetween { expr: left, lower, upper }
        } else {
            SqlExpr::Between { expr: left, lower, upper }
        },
    ensures
        a.sql_ok(node, a.clock()),
        sql_node_tree(a, node, a.clock()) == Tree::SqlBetween(
            not,
            Box::new(sql_tree(a, left)),
            Box::new(sql_tree(a, lower)),
            Box::new(sql_tree(a, upper)),
        ),
{
}

} // verus!
