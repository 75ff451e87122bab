use vstd::prelude::*;
use std::sync::Arc;

use crate::ast::{clone_ids, Literal};
use crate::ast::expr::{Expr, ExprId};
use crate::ast::stmt::{Stmt, StmtId};
use crate::ast::tree::{
    child_stmts, expr_tree, lemma_expr_span, lemma_stmt_span, lemma_child_opt_expr, lemma_child_opt_stmt, lemma_child_stmts_pointwise, lemma_trees_stable, names_view, stmt_tree, Tree,
};
use crate::tokens::{Identifier, Keyword, Span, Spanned, Symbol, Token, TokenType};

use super::grammar::{
    sym, ident, expect, p_expression, p_params_rest, p_fun, p_declaration, p_statement, p_expression_statement, p_return, p_var, p_if, p_loop, p_while, p_for, p_block_body, p_block, p_program_body, p_program,
};
use super::grammar::{block_closed, leaf, name_at, then_expect, tree_of, with_tree};
use super::unfold::{
    lemma_p_params_rest, lemma_p_fun, lemma_p_declaration, lemma_p_statement, lemma_p_expression_statement, lemma_p_return, lemma_p_var, lemma_p_if, lemma_p_loop, lemma_p_while, lemma_p_for_condition, lemma_p_for_increment, lemma_p_for, lemma_p_block_body, lemma_p_block, lemma_p_program_body,
};
use super::{ParseError, ParseResult, Parser};

verus! {

impl<'a> Parser<'a> {
    #[verifier::spinoff_prover]
    pub(super) fn fun_declaration(&mut self) -> (r: ParseResult<ExprId>)
        requires
            old(self).inv(),
            old(self).current >= 1,
        ensures
            !(r matches Err(ParseError::NoTokens)),
            final(self).expr_outcome(r, p_fun(old(self).tts(), old(self).current as int, (old(self).in_select_depth > 0)), *old(self)),
            r matches Ok(id) ==> final(self).advanced(*old(self)) && final(self).expr_valid(id),
        decreases old(self).remaining(), 46int,
    {
        proof {
            lemma_p_fun(self.tts(), self.current as int, self.in_select_depth > 0);
        }
        let ghost t = self.tts();
        let ghost p0 = self.current as int;
        let ghost sel = self.in_select_depth > 0;
        let fun_tok = self.peek_bw(1);
        let token: Option<&Token> = if self.check_tok(&TokenType::Identifier { dollar: false }) {
            Some(self.expected(TokenType::Identifier { dollar: false })?)
        } else {
            None
        };
        self.expected(TokenType::Symbol(Symbol::LeftParen))?;
        let ghost p2 = self.current as int;
        let mut parameters: Vec<Identifier> = Vec::new();
        if !self.check_tok(&TokenType::Symbol(Symbol::RightParen)) {
            let p = self.expected(TokenType::Identifier { dollar: true })?;
            parameters.push(p.extract_identifier().unwrap());
            let ghost p3 = self.current as int;
            let ghost first = seq![name_at(t, p2)];
            proof {
                assert(names_view(parameters@) =~= first);
            }
            loop
                invariant_except_break
                    p_params_rest(t, p3, first) == p_params_rest(t, self.current as int, names_view(parameters@)),
                invariant
                    p_params_rest(t, p3, first) is Fail ==> p_fun(t, old(self).current as int, sel) == p_params_rest(t, p3, first),
                    sel == (old(self).in_select_depth > 0),
                    self.tok_inv(),
                    self.moved(*old(self)),
                    self.current > old(self).current,
                    t == old(self).tts(),
                ensures
                    self.tok_inv(),
                    self.moved(*old(self)),
                    self.current > old(self).current,
                    p_params_rest(t, p3, first) == leaf(self.current as int, Tree::Names(names_view(parameters@))),
                decreases self.remaining(),
            {
                proof {
                    lemma_p_params_rest(t, self.current as int, names_view(parameters@));
                }
                let ghost c = self.current as int;
                let ghost before = parameters@;
                if !self.match_next(TokenType::Symbol(Symbol::Comma)) {
                    break;
                }
                let q = self.expected(TokenType::Identifier { dollar: true })?;
                parameters.push(q.extract_identifier().unwrap());
                proof {
                    assert(names_view(parameters@) =~= names_view(before).push(name_at(t, c + 1)));
                }
            }
        }
        proof {
            if parameters@.len() == 0 {
                assert(names_view(parameters@) =~= Seq::<crate::ast::tree::NameView>::empty());
            }
        }
        self.expected(TokenType::Symbol(Symbol::RightParen))?;
        self.expected(TokenType::Symbol(Symbol::LeftBrace))?;
        proof {
            lemma_p_block(t, self.current as int, sel);
        }
        let ghost s1 = *self;
        let stmt_idx = self.block()?;
        let body: Vec<StmtId> = match self.arena.get_statement(stmt_idx) {
            Stmt::Block { body: stmts, .. } => {
                proof {
                    let a = self.arena;
                    let tb = a.stmt_times@[stmt_idx.0 as int];
                    assert(tb < a.clock());
                    lemma_child_stmts_pointwise(a, stmts@, tb);
                    lemma_child_stmts_pointwise(a, stmts@, a.clock());
                    assert(child_stmts(a, stmts@, a.clock()) =~= child_stmts(a, stmts@, tb));
                }
                clone_ids(stmts)
            },
            _ => vec![stmt_idx],
        };
        let name = match token {
            Some(t) => Some(t.extract_identifier().unwrap()),
            None => None,
        };
        proof {
            lemma_stmt_span(self.arena, stmt_idx);
            self.lemma_tts(old(self).current - 1);
        }
        let span = self.get_merged_span(
            &fun_tok.span,
            &self.arena.get_statement(stmt_idx).get_span(),
        );
        let id = self.arena.alloc_expression(
            Expr::Function { name, parameters, body: Arc::new(body), span },
        );
        proof {
            self.arena.lemma_extends_trans(s1.arena, old(self).arena);
        }
        Ok(id)
    }

    #[verifier::spinoff_prover]
    pub(super) fn declaration(&mut self) -> (r: ParseResult<StmtId>)
        requires
            old(self).inv(),
        ensures
            !(r matches Err(ParseError::NoTokens)),
            final(self).stmt_outcome(r, p_declaration(old(self).tts(), old(self).current as int, (old(self).in_select_depth > 0)), *old(self)),
            r matches Ok(id) ==> final(self).advanced(*old(self)) && final(self).stmt_valid(id),
        decreases old(self).remaining(), 40int,
    {
        proof {
            lemma_p_declaration(self.tts(), self.current as int, self.in_select_depth > 0);
        }
        if self.match_next(TokenType::Keyword(Keyword::Var)) {
            return self.var_declaration();
        }
        self.statement()
    }

    #[verifier::spinoff_prover]
    pub(super) fn statement(&mut self) -> (r: ParseResult<StmtId>)
        requires
            old(self).inv(),
        ensures
            !(r matches Err(ParseError::NoTokens)),
            final(self).stmt_outcome(r, p_statement(old(self).tts(), old(self).current as int, (old(self).in_select_depth > 0)), *old(self)),
            r matches Ok(id) ==> final(self).advanced(*old(self)) && final(self).stmt_valid(id),
        decreases old(self).remaining(), 39int,
    {
        proof {
            lemma_p_statement(self.tts(), self.current as int, self.in_select_depth > 0);
        }
        if self.match_next(TokenType::Keyword(Keyword::If)) {
            return self.if_statement();
        }
        if self.match_next(TokenType::Keyword(Keyword::While)) {
            return self.while_statement();
        }
        if self.match_next(TokenType::Keyword(Keyword::For)) {
            return self.for_statement();
        }
        if self.match_next(TokenType::Keyword(Keyword::Loop)) {
            return self.loop_statement();
        }
        if self.match_next(TokenType::Keyword(Keyword::Break)) {
            return self.break_statement();
        }
        if self.match_next(TokenType::Keyword(Keyword::Continue)) {
            return self.continue_statement();
        }
        if self.match_next(TokenType::Keyword(Keyword::Return)) {
            return self.return_statement();
        }
        let named = [
            TokenType::Symbol(Symbol::LeftBrace),
            TokenType::Identifier { dollar: false },
            TokenType::Symbol(Symbol::Colon),
        ];
        let quoted = [
            TokenType::Symbol(Symbol::LeftBrace),
            TokenType::Str,
            TokenType::Symbol(Symbol::Colon),
        ];
        let numbered = [
            TokenType::Symbol(Symbol::LeftBrace),
            TokenType::Num,
            TokenType::Symbol(Symbol::Colon),
        ];
        let empty = [TokenType::Symbol(Symbol::LeftBrace), TokenType::Symbol(Symbol::RightBrace)];
        proof {
            assert(named@ =~= seq![sym(Symbol::LeftBrace), ident(), sym(Symbol::Colon)]);
            assert(quoted@ =~= seq![sym(Symbol::LeftBrace), TokenType::Str, sym(Symbol::Colon)]);
            assert(numbered@ =~= seq![sym(Symbol::LeftBrace), TokenType::Num, sym(Symbol::Colon)]);
            assert(empty@ =~= seq![sym(Symbol::LeftBrace), sym(Symbol::RightBrace)]);
        }
        if self.peek_next_all_of(&named) || self.peek_next_all_of(&quoted)
            || self.peek_next_all_of(&numbered) || self.peek_next_all_of(&empty) {
            return self.expression_statement();
        }
        if self.match_next(TokenType::Symbol(Symbol::LeftBrace)) {
            return self.block();
        }
        self.expression_statement()
    }

    #[verifier::spinoff_prover]
    pub(super) fn if_statement(&mut self) -> (r: ParseResult<StmtId>)
        requires
            old(self).inv(),
            old(self).current >= 1,
        ensures
            !(r matches Err(ParseError::NoTokens)),
            final(self).stmt_outcome(r, p_if(old(self).tts(), old(self).current as int, (old(self).in_select_depth > 0)), *old(self)),
            r matches Ok(id) ==> final(self).advanced(*old(self)) && final(self).stmt_valid(id),
        decreases old(self).remaining(), 39int,
    {
        proof {
            lemma_p_if(self.tts(), self.current as int, self.in_select_depth > 0);
        }
        let if_tok = self.peek_bw(1);
        self.expected(TokenType::Symbol(Symbol::LeftParen))?;
        let ghost s1 = *self;
        let condition = self.expression()?;
        self.expected(TokenType::Symbol(Symbol::RightParen))?;
        let ghost s2 = *self;
        let if_branch = self.statement()?;
        proof {
            lemma_trees_stable(self.arena, s2.arena);
            Self::lemma_kept_trans(s2, s1, *old(self));
            Self::lemma_kept_trans(*self, s2, *old(self));
        }
        let ghost s3 = *self;
        if self.match_next(TokenType::Keyword(Keyword::Else)) {
            let ghost s4 = *self;
            let else_branch = self.statement()?;
            proof {
                lemma_trees_stable(self.arena, s4.arena);
            }
            proof {
                lemma_stmt_span(self.arena, else_branch);
                self.lemma_tts(old(self).current - 1);
            }
            let span = self.get_merged_span(&if_tok.span, self.arena.get_statement(else_branch));
            let ghost a_pre = self.arena;
            proof {
                lemma_child_opt_stmt(self.arena, Some(else_branch), self.arena.clock());
                assert(expr_tree(a_pre, condition) == tree_of(p_expression(old(self).tts(), s1.current as int, s1.in_select_depth > 0)));
                assert(stmt_tree(a_pre, if_branch) == tree_of(p_statement(old(self).tts(), s2.current as int, s1.in_select_depth > 0)));
                assert(stmt_tree(a_pre, else_branch) == tree_of(p_statement(old(self).tts(), s4.current as int, s1.in_select_depth > 0)));
            }
            let id = self.arena.alloc_statement(
                Stmt::If { condition, body: if_branch, else_body: Some(else_branch), span },
            );
            proof {
                assert(stmt_tree(self.arena, id) == Tree::If(
                    Box::new(expr_tree(a_pre, condition)),
                    Box::new(stmt_tree(a_pre, if_branch)),
                    Some(Box::new(stmt_tree(a_pre, else_branch))),
                    span,
                ));
            }
            proof {
                Self::lemma_kept_trans(s4, s3, *old(self));
                Self::lemma_kept_trans(*self, s4, *old(self));
            }
            return Ok(id);
        }
        proof {
            lemma_stmt_span(self.arena, if_branch);
            self.lemma_tts(old(self).current - 1);
        }
        let span = self.get_merged_span(&if_tok.span, self.arena.get_statement(if_branch));
        let ghost a_pre = self.arena;
        proof {
            lemma_child_opt_stmt(self.arena, None, self.arena.clock());
            assert(expr_tree(a_pre, condition) == tree_of(p_expression(old(self).tts(), s1.current as int, s1.in_select_depth > 0)));
            assert(stmt_tree(a_pre, if_branch) == tree_of(p_statement(old(self).tts(), s2.current as int, s1.in_select_depth > 0)));
        }
        let id = self.arena.alloc_statement(
            Stmt::If { condition, body: if_branch, else_body: None, span },
        );
        proof {
            assert(stmt_tree(self.arena, id) == Tree::If(Box::new(expr_tree(a_pre, condition)), Box::new(stmt_tree(a_pre, if_branch)), None, span));
        }
        proof {
            Self::lemma_kept_trans(*self, s3, *old(self));
        }
        Ok(id)
    }

    #[verifier::spinoff_prover]
    pub(super) fn loop_statement(&mut self) -> (r: ParseResult<StmtId>)
        requires
            old(self).inv(),
            old(self).current >= 1,
        ensures
            !(r matches Err(ParseError::NoTokens)),
            final(self).stmt_outcome(r, p_loop(old(self).tts(), old(self).current as int, (old(self).in_select_depth > 0)), *old(self)),
            r matches Ok(id) ==> final(self).advanced(*old(self)) && final(self).stmt_valid(id),
        decreases old(self).remaining(), 39int,
    {
        proof {
            lemma_p_loop(self.tts(), self.current as int, self.in_select_depth > 0);
        }
        let loop_tok = self.peek_bw(1);
        self.expected(TokenType::Symbol(Symbol::LeftBrace))?;
        let ghost s1 = *self;
        let inner_stmt = self.block()?;
        self.match_next(TokenType::Symbol(Symbol::Semicolon));
        proof {
            lemma_stmt_span(self.arena, inner_stmt);
            self.lemma_tts(old(self).current - 1);
        }
        let span = self.get_merged_span(&loop_tok.span, self.arena.get_statement(inner_stmt));
        let id = self.arena.alloc_statement(
            Stmt::Loop { condition: None, body: inner_stmt, post: None, span },
        );
        proof {
            Self::lemma_kept_trans(*self, s1, *old(self));
        }
        Ok(id)
    }

    #[verifier::spinoff_prover]
    pub(super) fn while_statement(&mut self) -> (r: ParseResult<StmtId>)
        requires
            old(self).inv(),
            old(self).current >= 1,
        ensures
            !(r matches Err(ParseError::NoTokens)),
            final(self).stmt_outcome(r, p_while(old(self).tts(), old(self).current as int, (old(self).in_select_depth > 0)), *old(self)),
            r matches Ok(id) ==> final(self).advanced(*old(self)) && final(self).stmt_valid(id),
        decreases old(self).remaining(), 39int,
    {
        proof {
            lemma_p_while(self.tts(), self.current as int, self.in_select_depth > 0);
        }
        let while_tok = self.peek_bw(1);
        self.expected(TokenType::Symbol(Symbol::LeftParen))?;
        let ghost s1 = *self;
        let condition = self.expression()?;
        self.expected(TokenType::Symbol(Symbol::RightParen))?;
        self.expected(TokenType::Symbol(Symbol::LeftBrace))?;
        let ghost s2 = *self;
        let inner_stmt = self.block()?;
        proof {
            lemma_trees_stable(self.arena, s2.arena);
        }
        self.match_next(TokenType::Symbol(Symbol::Semicolon));
        proof {
            lemma_stmt_span(self.arena, inner_stmt);
            self.lemma_tts(old(self).current - 1);
        }
        let span = self.get_merged_span(&while_tok.span, self.arena.get_statement(inner_stmt));
        proof {
            let c = self.arena.clock();
            lemma_child_opt_expr(self.arena, Some(condition), c);
            lemma_child_opt_stmt(self.arena, None, c);
        }
        let id = self.arena.alloc_statement(
            Stmt::Loop { condition: Some(condition), body: inner_stmt, post: None, span },
        );
        proof {
            Self::lemma_kept_trans(s2, s1, *old(self));
            Self::lemma_kept_trans(*self, s2, *old(self));
        }
        Ok(id)
    }

    #[verifier::spinoff_prover]
    pub(super) fn return_statement(&mut self) -> (r: ParseResult<StmtId>)
        requires
            old(self).inv(),
            old(self).current >= 1,
        ensures
            !(r matches Err(ParseError::NoTokens)),
            final(self).stmt_outcome(r, p_return(old(self).tts(), old(self).current as int, (old(self).in_select_depth > 0)), *old(self)),
            r matches Ok(id) ==> final(self).advanced(*old(self)) && final(self).stmt_valid(id),
        decreases old(self).remaining(), 38int,
    {
        proof {
            lemma_p_return(self.tts(), self.current as int, self.in_select_depth > 0);
        }
        let ret_tok = self.peek_bw(1);
        let mut expr: Option<ExprId> = None;
        if !self.check_tok(&TokenType::Symbol(Symbol::Semicolon)) {
            expr = Some(self.expression()?);
        }
        let ghost s1 = *self;
        self.expected(TokenType::Symbol(Symbol::Semicolon))?;
        match expr {
            None => {
                proof {
                    self.lemma_tts(old(self).current - 1);
                }
                let id = self.arena.alloc_statement(Stmt::Return { span: ret_tok.span, expr: None });
                Ok(id)
            },
            Some(e) => {
                proof {
                    lemma_expr_span(self.arena, e);
                    self.lemma_tts(old(self).current - 1);
                }
                let span = self.get_merged_span(&ret_tok.span, self.arena.get_expression(e));
                let id = self.arena.alloc_statement(Stmt::Return { span, expr });
                proof {
                    Self::lemma_kept_trans(*self, s1, *old(self));
                }
                Ok(id)
            },
        }
    }

    #[verifier::spinoff_prover]
    #[verifier::rlimit(40)]
    pub(super) fn for_statement(&mut self) -> (r: ParseResult<StmtId>)
        requires
            old(self).inv(),
            old(self).current >= 1,
        ensures
            !(r matches Err(ParseError::NoTokens)),
            final(self).stmt_outcome(r, p_for(old(self).tts(), old(self).current as int, (old(self).in_select_depth > 0)), *old(self)),
            r matches Ok(id) ==> final(self).advanced(*old(self)) && final(self).stmt_valid(id),
        decreases old(self).remaining(), 39int,
    {
        proof {
            lemma_p_for(self.tts(), self.current as int, self.in_select_depth > 0);
        }
        let for_tok = self.peek_bw(1);
        self.expected(TokenType::Symbol(Symbol::LeftParen))?;
        let ghost s0 = *self;
        let initializer = if self.match_next(TokenType::Symbol(Symbol::Semicolon)) {
            None
        } else {
            Some(self.declaration()?)
        };
        let ghost s1 = *self;
        proof {
            lemma_p_for_condition(self.tts(), self.current as int, self.in_select_depth > 0);
        }
        let condition = if self.match_next(TokenType::Symbol(Symbol::Semicolon)) {
            None
        } else {
            let wrapped = self.expression()?;
            self.expected(TokenType::Symbol(Symbol::Semicolon))?;
            Some(wrapped)
        };
        proof {
            Self::lemma_kept_trans(s1, s0, *old(self));
            Self::lemma_kept_trans(*self, s1, *old(self));
        }
        let ghost s2 = *self;
        proof {
            lemma_trees_stable(self.arena, s1.arena);
            lemma_p_for_increment(self.tts(), self.current as int, self.in_select_depth > 0);
        }
        let increment = if self.match_next(TokenType::Symbol(Symbol::RightParen)) {
            None
        } else {
            let wrapped = self.expression()?;
            self.expected(TokenType::Symbol(Symbol::RightParen))?;
            proof {
                lemma_expr_span(self.arena, wrapped);
            }
            let span = self.arena.get_expression(wrapped).get_span();
            Some(self.arena.alloc_statement(Stmt::Expression { expr: wrapped, span }))
        };
        proof {
            lemma_trees_stable(self.arena, s2.arena);
            Self::lemma_kept_trans(*self, s2, *old(self));
        }
        self.expected(TokenType::Symbol(Symbol::LeftBrace))?;
        let ghost s3 = *self;
        let inner_stmt = self.block()?;
        self.match_next(TokenType::Symbol(Symbol::Semicolon));
        proof {
            lemma_trees_stable(self.arena, s3.arena);
            Self::lemma_kept_trans(*self, s3, *old(self));
        }
        let ghost s4 = *self;
        proof {
            let c = self.arena.clock();
            lemma_child_opt_expr(self.arena, condition, c);
            lemma_child_opt_stmt(self.arena, increment, c);
        }
        proof {
            lemma_stmt_span(self.arena, inner_stmt);
            self.lemma_tts(old(self).current - 1);
        }
        let span = self.get_merged_span(&for_tok.span, self.arena.get_statement(inner_stmt));
        match initializer {
            None => {
                let id = self.arena.alloc_statement(
                    Stmt::Loop { condition, body: inner_stmt, post: increment, span },
                );
                proof {
                    Self::lemma_kept_trans(*self, s4, *old(self));
                }
                Ok(id)
            },
            Some(init) => {
                let loop_stmt = self.arena.alloc_statement(
                    Stmt::Loop { condition, body: inner_stmt, post: increment, span },
                );
                proof {
                    lemma_trees_stable(self.arena, s4.arena);
                    lemma_stmt_span(self.arena, inner_stmt);
                }
                let span = self.get_merged_span(&for_tok.span, self.arena.get_statement(inner_stmt));
                let body = vec![init, loop_stmt];
                proof {
                    let c = self.arena.clock();
                    lemma_child_stmts_pointwise(self.arena, body@, c);
                    assert(child_stmts(self.arena, body@, c) =~= seq![
                        stmt_tree(self.arena, init),
                        stmt_tree(self.arena, loop_stmt),
                    ]);
                }
                let id = self.arena.alloc_statement(Stmt::Block { body, span });
                proof {
                    Self::lemma_kept_trans(*self, s4, *old(self));
                }
                Ok(id)
            },
        }
    }

    #[verifier::spinoff_prover]
    pub(super) fn block(&mut self) -> (r: ParseResult<StmtId>)
        requires
            old(self).inv(),
            old(self).current >= 1,
        ensures
            !(r matches Err(ParseError::NoTokens)),
            final(self).stmt_outcome(r, p_block(old(self).tts(), old(self).current as int, (old(self).in_select_depth > 0)), *old(self)),
            r matches Ok(id) ==> final(self).advanced(*old(self)) && final(self).stmt_valid(id)
                && final(self).arena.statements@[id.0 as int] is Block,
        decreases old(self).remaining(), 41int,
    {
        proof {
            lemma_p_block(self.tts(), self.current as int, self.in_select_depth > 0);
        }
        let ghost t = self.tts();
        let ghost p0 = self.current as int;
        let ghost sel = self.in_select_depth > 0;
        let ghost mut accs: Seq<Tree> = Seq::empty();
        let mut statements: Vec<StmtId> = Vec::new();
        let opening_brace = self.peek_bw(1);
        loop
            invariant_except_break
                p_block(t, p0, sel) == block_closed(p_block_body(t, self.current as int, sel, accs), t, p0 - 1),
            invariant
                self.kept(*old(self)),
                self.current >= 1,
                forall|i: int| 0 <= i < statements@.len() ==> self.stmt_valid(#[trigger] statements@[i]),
                t == old(self).tts(),
                p0 == old(self).current,
                sel == (old(self).in_select_depth > 0),
                accs.len() == statements@.len(),
                forall|i: int| 0 <= i < statements@.len() ==> stmt_tree(self.arena, #[trigger] statements@[i]) == accs[i],
            ensures
                self.kept(*old(self)),
                self.current >= 1,
                forall|i: int| 0 <= i < statements@.len() ==> self.stmt_valid(#[trigger] statements@[i]),
                accs.len() == statements@.len(),
                forall|i: int| 0 <= i < statements@.len() ==> stmt_tree(self.arena, #[trigger] statements@[i]) == accs[i],
                p_block(t, p0, sel) == block_closed(leaf(self.current as int, Tree::Block(accs, Span::spec_zero())), t, p0 - 1),
            decreases self.remaining(),
        {
            proof {
                lemma_p_block_body(t, self.current as int, sel, accs);
            }
            if self.check_tok(&TokenType::Symbol(Symbol::RightBrace)) || self.is_at_end() {
                break;
            }
            let ghost s1 = *self;
            let stmt = self.declaration()?;
            proof {
                lemma_trees_stable(self.arena, s1.arena);
                accs = accs.push(tree_of(p_declaration(t, s1.current as int, sel)));
            }
            statements.push(stmt);
            proof {
                Self::lemma_kept_trans(*self, s1, *old(self));
            }
        }
        let closing_brace = self.peek_bw(1);
        proof {
            self.lemma_tts(p0 - 1);
            self.lemma_tts(self.current - 1);
        }
        let ghost s2 = *self;
        self.expected(TokenType::Symbol(Symbol::RightBrace))?;
        let span = self.get_merged_span(&opening_brace.span, &closing_brace.span);
        proof {
            let c = self.arena.clock();
            lemma_child_stmts_pointwise(self.arena, statements@, c);
            assert(child_stmts(self.arena, statements@, c) =~= accs);
        }
        let id = self.arena.alloc_statement(Stmt::Block { body: statements, span });
        proof {
            Self::lemma_kept_trans(*self, s2, *old(self));
        }
        Ok(id)
    }

    #[verifier::spinoff_prover]
    pub(super) fn break_statement(&mut self) -> (r: ParseResult<StmtId>)
        requires
            old(self).inv(),
            old(self).current >= 1,
        ensures
            !(r matches Err(ParseError::NoTokens)),
            final(self).stmt_outcome(r, with_tree(expect(old(self).tts(), old(self).current as int, sym(Symbol::Semicolon)), Tree::Break(old(self).tts()[old(self).current - 1].span)), *old(self)),
            r matches Ok(id) ==> final(self).advanced(*old(self)) && final(self).stmt_valid(id),
    {
        let tok = self.peek_bw(1);
        proof {
            self.lemma_tts(self.current - 1);
        }
        self.expected(TokenType::Symbol(Symbol::Semicolon))?;
        Ok(self.arena.alloc_statement(Stmt::Break { span: tok.span }))
    }

    #[verifier::spinoff_prover]
    pub(super) fn continue_statement(&mut self) -> (r: ParseResult<StmtId>)
        requires
            old(self).inv(),
            old(self).current >= 1,
        ensures
            !(r matches Err(ParseError::NoTokens)),
            final(self).stmt_outcome(r, with_tree(expect(old(self).tts(), old(self).current as int, sym(Symbol::Semicolon)), Tree::Continue(old(self).tts()[old(self).current - 1].span)), *old(self)),
            r matches Ok(id) ==> final(self).advanced(*old(self)) && final(self).stmt_valid(id),
    {
        let tok = self.peek_bw(1);
        proof {
            self.lemma_tts(self.current - 1);
        }
        self.expected(TokenType::Symbol(Symbol::Semicolon))?;
        Ok(self.arena.alloc_statement(Stmt::Continue { span: tok.span }))
    }

    #[verifier::spinoff_prover]
    pub(super) fn expression_statement(&mut self) -> (r: ParseResult<StmtId>)
        requires
            old(self).inv(),
        ensures
            !(r matches Err(ParseError::NoTokens)),
            final(self).stmt_outcome(r, p_expression_statement(old(self).tts(), old(self).current as int, (old(self).in_select_depth > 0)), *old(self)),
            r matches Ok(id) ==> final(self).advanced(*old(self)) && final(self).stmt_valid(id),
        decreases old(self).remaining(), 38int,
    {
        proof {
            lemma_p_expression_statement(self.tts(), self.current as int, self.in_select_depth > 0);
        }
        let expr = self.expression()?;
        let ghost s1 = *self;
        self.expected(TokenType::Symbol(Symbol::Semicolon))?;
        proof {
            lemma_expr_span(self.arena, expr);
        }
        let span = self.arena.get_expression(expr).get_span();
        let id = self.arena.alloc_statement(Stmt::Expression { expr, span });
        proof {
            Self::lemma_kept_trans(*self, s1, *old(self));
        }
        Ok(id)
    }

    #[verifier::spinoff_prover]
    pub(super) fn var_declaration(&mut self) -> (r: ParseResult<StmtId>)
        requires
            old(self).inv(),
            old(self).current >= 1,
        ensures
            !(r matches Err(ParseError::NoTokens)),
            final(self).stmt_outcome(r, p_var(old(self).tts(), old(self).current as int, (old(self).in_select_depth > 0)), *old(self)),
            r matches Ok(id) ==> final(self).advanced(*old(self)) && final(self).stmt_valid(id),
        decreases old(self).remaining(), 39int,
    {
        proof {
            lemma_p_var(self.tts(), self.current as int, self.in_select_depth > 0);
        }
        let var_tok = self.peek_bw(1);
        proof {
            self.lemma_tts(self.current - 1);
            self.lemma_tts(self.current as int);
        }
        let ident = self.expected(TokenType::Identifier { dollar: true })?;
        let ghost s1 = *self;
        let expr = if self.match_next(TokenType::Symbol(Symbol::Equal)) {
            self.expression()?
        } else {
            let span = self.get_merged_span(&var_tok.span, &ident.span);
            self.arena.alloc_expression(
                Expr::Literal { value: Literal::Undefined, raw: "undefined".to_owned(), span },
            )
        };
        let ghost s2 = *self;
        self.expected(TokenType::Symbol(Symbol::Semicolon))?;
        let dst = ident.extract_identifier().unwrap();
        proof {
            lemma_expr_span(self.arena, expr);
        }
        let span = self.get_merged_span(
            &var_tok.span,
            &self.arena.get_expression(expr).get_span(),
        );
        let id = self.arena.alloc_statement(Stmt::Declaration { dst, expr, span });
        proof {
            Self::lemma_kept_trans(s2, s1, *old(self));
            Self::lemma_kept_trans(*self, s2, *old(self));
        }
        Ok(id)
    }

    #[verifier::spinoff_prover]
    pub(super) fn program(&mut self) -> (r: ParseResult<StmtId>)
        requires
            old(self).inv(),
            old(self).current == 0,
            old(self).cur() != TokenType::Eof,
        ensures
            !(r matches Err(ParseError::NoTokens)),
            final(self).stmt_outcome(r, p_program(old(self).tts()), *old(self)),
            r matches Ok(id) ==> {
                &&& final(self).kept(*old(self))
                &&& final(self).stmt_valid(id)
                &&& final(self).arena.statements@[id.0 as int] is Program
            },
    {
        let ghost t = self.tts();
        let ghost mut accs: Seq<Tree> = Seq::empty();
        let mut statements: Vec<StmtId> = Vec::new();
        while !self.is_at_end()
            invariant
                self.kept(*old(self)),
                statements@.len() == 0 ==> self.current == 0,
                old(self).current == 0,
                old(self).cur() != TokenType::Eof,
                forall|i: int| 0 <= i < statements@.len() ==> self.stmt_valid(#[trigger] statements@[i]),
                t == old(self).tts(),
                self.in_select_depth == 0,
                p_program(t) == then_expect(p_program_body(t, self.current as int, accs), t, TokenType::Eof),
                accs.len() == statements@.len(),
                forall|i: int| 0 <= i < statements@.len() ==> stmt_tree(self.arena, #[trigger] statements@[i]) == accs[i],
            decreases self.remaining(),
        {
            proof {
                lemma_p_program_body(t, self.current as int, accs);
            }
            let ghost s1 = *self;
            let stmt = self.declaration()?;
            proof {
                lemma_trees_stable(self.arena, s1.arena);
                accs = accs.push(tree_of(p_declaration(t, s1.current as int, false)));
            }
            statements.push(stmt);
            proof {
                Self::lemma_kept_trans(*self, s1, *old(self));
            }
        }
        proof {
            lemma_p_program_body(t, self.current as int, accs);
        }
        let ghost s2 = *self;
        self.expected(TokenType::Eof)?;
        proof {
            let c = self.arena.clock();
            lemma_child_stmts_pointwise(self.arena, statements@, c);
            assert(child_stmts(self.arena, statements@, c) =~= accs);
        }
        let first = statements[0];
        let last = statements[statements.len() - 1];
        proof {
            lemma_stmt_span(self.arena, first);
            lemma_stmt_span(self.arena, last);
            assert(accs[0] == stmt_tree(self.arena, first));
            assert(accs.last() == stmt_tree(self.arena, last));
        }
        let span = self.get_merged_span(
            self.arena.get_statement(first),
            self.arena.get_statement(last),
        );
        let id = self.arena.alloc_statement(Stmt::Program { body: statements, span });
        proof {
            Self::lemma_kept_trans(*self, s2, *old(self));
        }
        Ok(id)
    }
} // impl

} // verus!
