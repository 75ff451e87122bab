use vstd::prelude::*;

use crate::ast::{AstArena, Literal, ObjectKey};
use crate::ast::expr::{Expr, ExprId, Operation};
use crate::ast::stmt::StmtId;
use crate::scanner::tokens_view;
use crate::ast::sql::SqlExprId;
use crate::tokens::{
    token_ok, tokens_ok, Identifier, Span, SpecToken, Spanned, SqlKeyword, Symbol, Token, TokenType,
};

pub mod grammar;
pub mod unfold;
pub mod program;
mod expressions;
mod statements;
mod query;

use self::grammar::{
    EKind, PErr, POut, name_at, starts_with, sym, inside, expect, p_program, tree_insert, tree_key_index, tree_of,
};
use crate::ast::tree::{expr_tree, sql_tree, stmt_tree, Tree};

use self::program::Program;
use std::rc::Rc;

verus! {

/// Why a token stream is not a program.
#[derive(Debug)]
pub enum ParseError {
    UnexpectedToken { token: Token },
    MissingToken { token: Token, expected: TokenType },
    InvalidAssignmentTarget { left: Token },
    NoTokens,
}

pub type ParseResult<T> = Result<T, ParseError>;

/// The operation that an operator token stands for, inside a query or not.
pub open spec fn spec_op(t: TokenType, in_select: bool) -> Option<Operation> {
    match t {
        TokenType::Symbol(s) => match s {
            Symbol::Plus => Some(Operation::Add),
            Symbol::Minus => Some(Operation::Subtract),
            Symbol::Star => Some(Operation::Multiply),
            Symbol::Slash => Some(Operation::Divide),
            Symbol::EqualEqual => Some(Operation::IsEqual),
            Symbol::BangEqual => Some(Operation::IsNotEqual),
            Symbol::Greater => Some(Operation::Greater),
            Symbol::GreaterEqual => Some(Operation::GreaterEqual),
            Symbol::Less => Some(Operation::Less),
            Symbol::LessEqual => Some(Operation::LessEqual),
            Symbol::Bang => Some(Operation::Not),
            Symbol::LogicalAnd => Some(Operation::And),
            Symbol::LogicalOr => Some(Operation::Or),
            Symbol::Equal => if in_select {
                Some(Operation::IsEqual)
            } else {
                None
            },
            _ => None,
        },
        TokenType::SqlKeyword(k) => match k {
            SqlKeyword::And => Some(Operation::And),
            SqlKeyword::Or => Some(Operation::Or),
            _ => None,
        },
        _ => None,
    }
}

/// The symbol that spells an operation in a script.
pub open spec fn op_symbol(o: Operation) -> Symbol {
    match o {
        Operation::Add => Symbol::Plus,
        Operation::Subtract => Symbol::Minus,
        Operation::Multiply => Symbol::Star,
        Operation::Divide => Symbol::Slash,
        Operation::IsEqual => Symbol::EqualEqual,
        Operation::IsNotEqual => Symbol::BangEqual,
        Operation::Greater => Symbol::Greater,
        Operation::GreaterEqual => Symbol::GreaterEqual,
        Operation::Less => Symbol::Less,
        Operation::LessEqual => Symbol::LessEqual,
        Operation::And => Symbol::LogicalAnd,
        Operation::Or => Symbol::LogicalOr,
        Operation::Not => Symbol::Bang,
    }
}

/// Every operation is read from the symbol that spells it, and an operator
/// symbol stands for no other operation than the one it spells; the only
/// other readings are `=` as equality inside a query and the keywords `AND`
/// and `OR`. So two different operator symbols never give one operation.
pub proof fn law_operator_symbols(sel: bool)
    ensures
        forall|o: Operation| #[trigger] spec_op(TokenType::Symbol(op_symbol(o)), sel) == Some(o),
        forall|sy: Symbol|
            #[trigger] spec_op(TokenType::Symbol(sy), sel) is Some ==> sy == op_symbol(
                spec_op(TokenType::Symbol(sy), sel)->0,
            ) || (sel && sy == Symbol::Equal && spec_op(TokenType::Symbol(sy), sel) == Some(Operation::IsEqual)),
        forall|s1: Symbol, s2: Symbol|
            #![trigger spec_op(TokenType::Symbol(s1), sel), spec_op(TokenType::Symbol(s2), sel)]
            s1 != Symbol::Equal && s2 != Symbol::Equal && spec_op(TokenType::Symbol(s1), sel) is Some
                && spec_op(TokenType::Symbol(s1), sel) == spec_op(TokenType::Symbol(s2), sel) ==> s1 == s2,
        spec_op(TokenType::SqlKeyword(SqlKeyword::And), sel) == Some(Operation::And),
        spec_op(TokenType::SqlKeyword(SqlKeyword::Or), sel) == Some(Operation::Or),
{
    assert forall|o: Operation| #[trigger] spec_op(TokenType::Symbol(op_symbol(o)), sel) == Some(o) by {
        match o {
            _ => {},
        }
    }
}

/// The error `e` is the one that `pe` describes, over the tokens `ts`.
pub open spec fn error_names(e: ParseError, pe: PErr, ts: Seq<Token>) -> bool {
    match pe {
        PErr::Unexpected(i) => e matches ParseError::UnexpectedToken { token } && 0 <= i < ts.len()
            && token@ == ts[i]@,
        PErr::Missing(i, ty) => e matches ParseError::MissingToken { token, expected } && 0 <= i
            < ts.len() && token@ == ts[i]@ && expected == ty,
        PErr::InvalidTarget(i) => e matches ParseError::InvalidAssignmentTarget { left } && 0 <= i
            < ts.len() && left@ == ts[i]@,
        PErr::Stuck => false,
    }
}

/// Whether an expression node is of the kind that the grammar says.
pub open spec fn kind_matches(e: Expr, k: EKind) -> bool {
    match k {
        EKind::Variable => e is Variable,
        EKind::Get => e is Get,
        EKind::Other => !(e is Variable) && !(e is Get),
    }
}

/// A recursive descent parser over a token stream. Nodes go into an arena
/// where every index names a node allocated before the one that holds it.
pub struct Parser<'a> {
    tokens: &'a Vec<Token>,
    current: usize,
    arena: AstArena,
    in_select_depth: usize,
    in_array_depth: usize,
    in_object_depth: usize,
}

impl<'a> Parser<'a> {
    /// Whether the parser is inside a query.
    pub closed spec fn in_select(&self) -> bool {
        self.in_select_depth > 0
    }

    proof fn lemma_in_select(&self)
        ensures
            self.in_select() == (self.in_select_depth > 0),
    {
    }

    spec fn tok_inv(&self) -> bool {
        &&& tokens_ok(tokens_view(self.tokens@))
        &&& self.current < self.tokens@.len()
        &&& self.tokens@.len() <= usize::MAX
    }

    spec fn inv(&self) -> bool {
        &&& self.tok_inv()
        &&& self.arena.wf()
        &&& self.in_select_depth <= self.current
        &&& self.in_array_depth <= self.current
        &&& self.in_object_depth <= self.current
    }

    spec fn cur(&self) -> TokenType {
        self.tokens@[self.current as int].tok_type
    }

    /// Only the position may have changed.
    spec fn moved(self, old: Parser<'a>) -> bool {
        &&& self.tokens == old.tokens
        &&& self.arena == old.arena
        &&& self.in_select_depth == old.in_select_depth
        &&& self.in_array_depth == old.in_array_depth
        &&& self.in_object_depth == old.in_object_depth
    }

    /// The state after a successful step: the invariant holds, the position
    /// did not go back and the arena only grew.
    spec fn kept(self, old: Parser<'a>) -> bool {
        &&& self.inv()
        &&& self.tokens == old.tokens
        &&& old.current <= self.current
        &&& self.arena.extends(old.arena)
        &&& self.in_select_depth == old.in_select_depth
        &&& self.in_array_depth == old.in_array_depth
        &&& self.in_object_depth == old.in_object_depth
    }

    spec fn advanced(self, old: Parser<'a>) -> bool {
        self.kept(old) && old.current < self.current
    }

    spec fn expr_valid(self, id: ExprId) -> bool {
        id.0 < self.arena.expressions@.len()
    }

    spec fn sql_valid(self, id: SqlExprId) -> bool {
        id.0 < self.arena.sql_expressions@.len()
    }

    spec fn stmt_valid(self, id: StmtId) -> bool {
        id.0 < self.arena.statements@.len()
    }

    proof fn lemma_token(&self, i: int)
        requires
            self.tok_inv(),
            0 <= i < self.tokens@.len(),
        ensures
            token_ok(self.tokens@[i]@),
            self.tokens@[i].tok_type != TokenType::Eof ==> i + 1 < self.tokens@.len(),
    {
        assert(tokens_view(self.tokens@)[i] == self.tokens@[i]@);
        assert(tokens_view(self.tokens@).last() == self.tokens@.last()@);
    }

    /// The grammar reads each token through its view.
    proof fn lemma_tts(&self, i: int)
        requires
            0 <= i < self.tokens@.len(),
        ensures
            self.tts()[i] == self.tokens@[i]@,
    {
    }

    /// An identifier token carries the name that the grammar reads from it.
    proof fn lemma_name(&self, i: int)
        requires
            self.tok_inv(),
            0 <= i < self.tokens@.len(),
            self.tokens@[i].tok_type is Identifier,
        ensures
            self.tokens@[i].spec_identifier() == Some(name_at(self.tts(), i)),
    {
        self.lemma_token(i);
        assert(self.tts()[i] == self.tokens@[i]@);
    }

    fn peek_bw(&self, offset: usize) -> (r: &'a Token)
        requires
            self.tok_inv(),
            offset <= self.current,
        ensures
            *r == self.tokens@[self.current - offset],
    {
        &self.tokens[self.current - offset]
    }

    fn check_tok(&self, t: &TokenType) -> (r: bool)
        requires
            self.tok_inv(),
        ensures
            r == (self.cur() == *t),
    {
        self.tokens[self.current].tok_type == *t
    }

    fn is_at_end(&self) -> (r: bool)
        requires
            self.tok_inv(),
        ensures
            r == (self.cur() == TokenType::Eof),
    {
        self.check_tok(&TokenType::Eof)
    }

    /// Moves past the current token unless it ends the input.
    fn advance(&mut self)
        requires
            old(self).tok_inv(),
        ensures
            final(self).tok_inv(),
            final(self).moved(*old(self)),
            final(self).current == if old(self).cur() == TokenType::Eof {
                old(self).current as int
            } else {
                old(self).current + 1
            },
    {
        proof {
            self.lemma_token(self.current as int);
        }
        if !self.is_at_end() {
            self.current = self.current + 1;
        }
    }

    fn match_next(&mut self, t: TokenType) -> (r: bool)
        requires
            old(self).tok_inv(),
            t != TokenType::Eof,
        ensures
            r == (old(self).cur() == t),
            final(self).tok_inv(),
            final(self).moved(*old(self)),
            final(self).current == if r {
                old(self).current + 1
            } else {
                old(self).current as int
            },
    {
        if self.check_tok(&t) {
            self.advance();
            return true;
        }
        false
    }

    fn match_next_one_of(&mut self, types: &[TokenType]) -> (r: bool)
        requires
            old(self).tok_inv(),
            !types@.contains(TokenType::Eof),
        ensures
            r == types@.contains(old(self).cur()),
            final(self).tok_inv(),
            final(self).moved(*old(self)),
            final(self).current == if r {
                old(self).current + 1
            } else {
                old(self).current as int
            },
    {
        let mut i: usize = 0;
        while i < types.len()
            invariant
                i <= types@.len(),
                self.tok_inv(),
                *self == *old(self),
                !types@.contains(TokenType::Eof),
                forall|j: int| 0 <= j < i ==> types@[j] != self.cur(),
            decreases types@.len() - i,
        {
            if self.check_tok(&types[i]) {
                assert(types@[i as int] != TokenType::Eof);
                self.advance();
                return true;
            }
            i = i + 1;
        }
        false
    }

    /// Whether the tokens from the current one on start with `types`.
    fn peek_next_all_of(&self, types: &[TokenType]) -> (r: bool)
        requires
            self.tok_inv(),
            !types@.contains(TokenType::Eof),
        ensures
            r == starts_with(self.tts(), self.current as int, types@),
    {
        let ghost t = self.tts();
        let mut i: usize = 0;
        while i < types.len()
            invariant
                i <= types@.len(),
                self.tok_inv(),
                t == self.tts(),
                !types@.contains(TokenType::Eof),
                self.current + i < self.tokens@.len(),
                forall|j: int|
                    0 <= j < i ==> self.current + j < t.len() && #[trigger] t[self.current + j].tok_type
                        == types@[j],
            decreases types@.len() - i,
        {
            assert(t[self.current + i].tok_type == self.tokens@[self.current + i as int].tok_type);
            if self.tokens[self.current + i].tok_type != types[i] {
                return false;
            }
            proof {
                assert(types@[i as int] != TokenType::Eof);
                self.lemma_token(self.current + i);
            }
            i = i + 1;
        }
        true
    }

    /// Moves past the tokens from the current one on if they start with
    /// `types`.
    fn match_next_all_of(&mut self, types: &[TokenType]) -> (r: bool)
        requires
            old(self).tok_inv(),
            !types@.contains(TokenType::Eof),
        ensures
            r == starts_with(old(self).tts(), old(self).current as int, types@),
            final(self).tok_inv(),
            final(self).moved(*old(self)),
            final(self).current == if r {
                old(self).current + types@.len()
            } else {
                old(self).current as int
            },
    {
        if !self.peek_next_all_of(types) {
            return false;
        }
        let ghost t = self.tts();
        let n = types.len();
        let mut k: usize = 0;
        while k < n
            invariant
                n == types@.len(),
                k <= n,
                self.tok_inv(),
                self.moved(*old(self)),
                t == old(self).tts(),
                self.current == old(self).current + k,
                starts_with(t, old(self).current as int, types@),
                !types@.contains(TokenType::Eof),
            decreases n - k,
        {
            assert(t[old(self).current + k as int].tok_type == types@[k as int]);
            assert(types@[k as int] != TokenType::Eof);
            self.advance();
            k = k + 1;
        }
        true
    }

    /// Moves past the current token if it is of type `t`; otherwise fails
    /// with the token before it.
    fn expected(&mut self, t: TokenType) -> (r: ParseResult<&'a Token>)
        requires
            old(self).tok_inv(),
            old(self).current >= 1 || old(self).cur() == t,
        ensures
            !(r matches Err(ParseError::NoTokens)),
            final(self).outcome(r, expect(old(self).tts(), old(self).current as int, t), *old(self)),
            r is Ok == (old(self).cur() == t),
            r is Err ==> final(self).current == old(self).current,
            final(self).tok_inv(),
            final(self).moved(*old(self)),
            r matches Ok(tok) ==> {
                &&& *tok == old(self).tokens@[old(self).current as int]
                &&& tok.tok_type == t
                &&& token_ok(tok@)
                &&& final(self).current == if t == TokenType::Eof {
                    old(self).current as int
                } else {
                    old(self).current + 1
                }
            },
    {
        proof {
            self.lemma_token(self.current as int);
        }
        if self.check_tok(&t) {
            let tok = self.peek_bw(0);
            self.advance();
            return Ok(tok);
        }
        let prev_token = self.peek_bw(1);
        Err(ParseError::MissingToken { token: prev_token.clone(), expected: t })
    }

    /// The operation that an operator token stands for.
    pub fn tok_type_to_op(&self, tok_t: TokenType) -> (r: Operation)
        requires
            spec_op(tok_t, self.in_select()) is Some,
        ensures
            r == spec_op(tok_t, self.in_select())->0,
    {
        match tok_t {
            TokenType::Symbol(sym) => match sym {
                Symbol::Plus => Operation::Add,
                Symbol::Minus => Operation::Subtract,
                Symbol::Star => Operation::Multiply,
                Symbol::Slash => Operation::Divide,
                Symbol::EqualEqual => Operation::IsEqual,
                Symbol::BangEqual => Operation::IsNotEqual,
                Symbol::Greater => Operation::Greater,
                Symbol::GreaterEqual => Operation::GreaterEqual,
                Symbol::Less => Operation::Less,
                Symbol::LessEqual => Operation::LessEqual,
                Symbol::Bang => Operation::Not,
                Symbol::LogicalAnd => Operation::And,
                Symbol::LogicalOr => Operation::Or,
                _ => Operation::IsEqual,
            },
            TokenType::SqlKeyword(SqlKeyword::And) => Operation::And,
            _ => Operation::Or,
        }
    }

    fn get_merged_span<L: Spanned, R: Spanned>(&self, left: &L, right: &R) -> (r: Span)
        ensures
            r == left.spec_span().spec_merge(right.spec_span()),
    {
        let left_span = left.get_span();
        let right_span = right.get_span();
        left_span.merge(&right_span)
    }
    spec fn tts(&self) -> Seq<SpecToken> {
        tokens_view(self.tokens@)
    }

    /// The result and the position reached are those of the grammar.
    spec fn outcome<T>(self, r: ParseResult<T>, out: POut, old: Parser<'a>) -> bool {
        match out {
            POut::Done { pos, .. } => r is Ok && self.current == pos,
            POut::Fail(e) => r matches Err(err) && error_names(err, e, old.tokens@),
        }
    }

    /// The outcome of an expression rule: the node returned is of the kind
    /// and has the tree that the grammar says.
    spec fn expr_outcome(self, r: ParseResult<ExprId>, out: POut, old: Parser<'a>) -> bool {
        &&& self.outcome(r, out, old)
        &&& (out matches POut::Done { kind, tree, .. } ==> r matches Ok(id) && id.0
            < self.arena.expressions@.len() && kind_matches(
            self.arena.expressions@[id.0 as int],
            kind,
        ) && expr_tree(self.arena, id) == tree)
    }

    /// The outcome of an SQL expression rule: the node returned has the tree
    /// that the grammar says.
    spec fn sql_outcome(self, r: ParseResult<SqlExprId>, out: POut, old: Parser<'a>) -> bool {
        &&& self.outcome(r, out, old)
        &&& (out matches POut::Done { tree, .. } ==> r matches Ok(id) && sql_tree(self.arena, id)
            == tree)
    }

    /// The outcome of a statement rule: the statement returned has the tree
    /// that the grammar says.
    spec fn stmt_outcome(self, r: ParseResult<StmtId>, out: POut, old: Parser<'a>) -> bool {
        &&& self.outcome(r, out, old)
        &&& (out matches POut::Done { tree, .. } ==> r matches Ok(id) && stmt_tree(self.arena, id)
            == tree)
    }

    spec fn remaining(&self) -> int {
        self.tokens@.len() - self.current
    }

    proof fn lemma_kept_trans(c: Parser<'a>, b: Parser<'a>, a: Parser<'a>)
        requires
            c.kept(b),
            b.kept(a),
        ensures
            c.kept(a),
    {
        c.arena.lemma_extends_trans(b.arena, a.arena);
    }
}

/// The position of `k` among the keys of `s`, if it is there.
pub open spec fn key_index(s: Seq<(crate::ast::ObjectKeyView, ExprId)>, k: crate::ast::ObjectKeyView) -> int {
    choose|i: int| 0 <= i < s.len() && s[i].0 == k
}

pub open spec fn keys_unique(s: Seq<(crate::ast::ObjectKeyView, ExprId)>) -> bool {
    forall|i: int, j: int| 0 <= i < j < s.len() ==> s[i].0 != s[j].0
}

/// The entries of an object literal after `key: value` is read: the value of
/// a key already there is replaced, a new key goes last.
pub open spec fn object_insert(
    s: Seq<(crate::ast::ObjectKeyView, ExprId)>,
    k: crate::ast::ObjectKeyView,
    v: ExprId,
) -> Seq<(crate::ast::ObjectKeyView, ExprId)> {
    if exists|i: int| 0 <= i < s.len() && s[i].0 == k {
        s.update(key_index(s, k), (k, v))
    } else {
        s.push((k, v))
    }
}

/// The entries `s` of an object literal have, over the arena `a`, the keys
/// and value trees that `acc` lists.
pub open spec fn entries_trees(a: AstArena, s: Seq<(crate::ast::ObjectKeyView, ExprId)>, acc: Seq<(crate::ast::ObjectKeyView, Tree)>) -> bool {
    &&& s.len() == acc.len()
    &&& forall|i: int| 0 <= i < s.len() ==> #[trigger] acc[i] == (s[i].0, expr_tree(a, s[i].1))
}

/// Reading `k: v` into the entries keeps their trees in step.
proof fn lemma_entries_trees_insert(
    a: AstArena,
    s: Seq<(crate::ast::ObjectKeyView, ExprId)>,
    acc: Seq<(crate::ast::ObjectKeyView, Tree)>,
    k: crate::ast::ObjectKeyView,
    v: ExprId,
    vt: Tree,
)
    requires
        entries_trees(a, s, acc),
        keys_unique(s),
        expr_tree(a, v) == vt,
    ensures
        entries_trees(a, object_insert(s, k, v), tree_insert(acc, k, vt)),
{
    if exists|i: int| 0 <= i < s.len() && s[i].0 == k {
        let i = key_index(s, k);
        assert(acc[i].0 == k);
        assert(exists|j: int| 0 <= j < acc.len() && acc[j].0 == k);
        let j = tree_key_index(acc, k);
        assert(acc[j] == (s[j].0, expr_tree(a, s[j].1)));
        assert(s[j].0 == k);
        if i != j {
            if i < j {
                assert(s[i].0 != s[j].0);
            } else {
                assert(s[j].0 != s[i].0);
            }
        }
        let s2 = object_insert(s, k, v);
        let acc2 = tree_insert(acc, k, vt);
        assert forall|m: int| 0 <= m < s2.len() implies #[trigger] acc2[m] == (s2[m].0, expr_tree(a, s2[m].1)) by {
            if m != i {
                assert(acc[m] == (s[m].0, expr_tree(a, s[m].1)));
            }
        }
    } else {
        assert forall|j: int| 0 <= j < acc.len() implies acc[j].0 != k by {
            assert(acc[j] == (s[j].0, expr_tree(a, s[j].1)));
        }
        let s2 = object_insert(s, k, v);
        let acc2 = tree_insert(acc, k, vt);
        assert forall|m: int| 0 <= m < s2.len() implies #[trigger] acc2[m] == (s2[m].0, expr_tree(a, s2[m].1)) by {
            if m < s.len() {
                assert(acc[m] == (s[m].0, expr_tree(a, s[m].1)));
            }
        }
    }
}

fn keys_equal(a: &ObjectKey, b: &ObjectKey) -> (r: bool)
    ensures
        r == (a@ == b@),
{
    match (a, b) {
        (ObjectKey::Name(x), ObjectKey::Name(y)) => x.eq(y),
        (ObjectKey::Number(x), ObjectKey::Number(y)) => x.eq(y),
        _ => false,
    }
}

/// Adds `key: value` to the entries of an object literal.
fn insert_entry(entries: &mut Vec<(ObjectKey, ExprId)>, key: ObjectKey, value: ExprId)
    requires
        keys_unique(crate::ast::entries_view(old(entries)@)),
    ensures
        crate::ast::entries_view(final(entries)@) == object_insert(
            crate::ast::entries_view(old(entries)@),
            key@,
            value,
        ),
        keys_unique(crate::ast::entries_view(final(entries)@)),
        forall|i: int|
            0 <= i < final(entries)@.len() ==> #[trigger] final(entries)@[i].1 == value || (i
                < old(entries)@.len() && final(entries)@[i].1 == old(entries)@[i].1),
{
    let ghost ov = crate::ast::entries_view(entries@);
    let mut i: usize = 0;
    while i < entries.len()
        invariant
            i <= entries@.len(),
            entries@ == old(entries)@,
            ov == crate::ast::entries_view(entries@),
            keys_unique(ov),
            forall|j: int| 0 <= j < i ==> ov[j].0 != key@,
        decreases entries@.len() - i,
    {
        if keys_equal(&entries[i].0, &key) {
            proof {
                assert(ov[i as int].0 == key@);
                assert(key_index(ov, key@) == i as int);
            }
            entries.set(i, (key, value));
            proof {
                assert(crate::ast::entries_view(entries@) =~= ov.update(i as int, (key@, value)));
            }
            return;
        }
        i = i + 1;
    }
    let ghost kv = key@;
    entries.push((key, value));
    proof {
        assert(crate::ast::entries_view(entries@) =~= ov.push((kv, value)));
    }
}

/// A parsed program together with the arena that holds its nodes.
pub struct Parsed {
    pub program: StmtId,
    pub arena: Rc<AstArena>,
}

impl Parsed {
    pub fn new(program: StmtId, arena: Rc<AstArena>) -> (r: Parsed)
        ensures
            r.program == program,
            r.arena == arena,
    {
        Parsed { program, arena }
    }
}

/// Checks that a token stream can be handed to [`Parser::parse`]: it is
/// empty, or starts with the end-of-input token, or it ends with the
/// end-of-input token and each token carries what the parser reads from it.
pub fn tokens_are_parseable(tokens: &Vec<Token>) -> (r: bool)
    ensures
        r == (tokens@.len() == 0 || tokens@[0].tok_type == TokenType::Eof || tokens_ok(
            tokens_view(tokens@),
        )),
{
    let n = tokens.len();
    if n == 0 || tokens[0].tok_type == TokenType::Eof {
        return true;
    }
    if tokens[n - 1].tok_type != TokenType::Eof {
        assert(tokens_view(tokens@).last() == tokens@[n - 1]@);
        return false;
    }
    let mut i: usize = 0;
    while i < n
        invariant
            n == tokens@.len(),
            n > 0,
            tokens@[0].tok_type != TokenType::Eof,
            i <= n,
            forall|j: int| 0 <= j < i ==> token_ok(#[trigger] tokens_view(tokens@)[j]),
        decreases n - i,
    {
        let t = &tokens[i];
        let ok = match t.tok_type {
            TokenType::Identifier { .. } | TokenType::Str => t.lexeme.is_some() && match &t.literal {
                Some(Literal::Str(_)) => true,
                _ => false,
            },
            TokenType::Num => t.lexeme.is_some() && match &t.literal {
                Some(Literal::Num(_)) => true,
                _ => false,
            },
            _ => true,
        };
        assert(tokens_view(tokens@)[i as int] == t@);
        if !ok {
            return false;
        }
        i = i + 1;
    }
    assert(tokens_view(tokens@).last() == tokens@[n - 1]@);
    true
}

impl<'a> Parser<'a> {
    /// Parses a token stream into a program. An empty stream, or one that
    /// starts with the end of input, has no program in it.
    pub fn parse(tokens: &Vec<Token>) -> (r: ParseResult<Program>)
        requires
            tokens@.len() == 0 || tokens@[0].tok_type == TokenType::Eof || tokens_ok(
                tokens_view(tokens@),
            ),
        ensures
            (r matches Err(ParseError::NoTokens)) <==> (tokens@.len() == 0 || tokens@[0].tok_type
                == TokenType::Eof),
            !(tokens@.len() == 0 || tokens@[0].tok_type == TokenType::Eof) ==> {
                &&& !(p_program(tokens_view(tokens@)) matches POut::Fail(PErr::Stuck))
                &&& match p_program(tokens_view(tokens@)) {
                    POut::Done { .. } => r is Ok,
                    POut::Fail(e) => r matches Err(err) && error_names(err, e, tokens@),
                }
            },
            r matches Ok(p) ==> {
                &&& p.wf()
                &&& p.nodes().statements@[p.root_id().0 as int] is Program
                &&& p.distances() is None
                &&& stmt_tree(p.nodes(), p.root_id()) == tree_of(p_program(tokens_view(tokens@)))
            },
    {
        if tokens.len() == 0 || tokens[0].tok_type == TokenType::Eof {
            return Err(ParseError::NoTokens);
        }
        let arena = AstArena::new();
        let mut parser = Parser {
            tokens,
            current: 0,
            arena,
            in_select_depth: 0,
            in_array_depth: 0,
            in_object_depth: 0,
        };
        let program = parser.program()?;
        Ok(Program::new(program, parser.arena))
    }
}

} // verus!
