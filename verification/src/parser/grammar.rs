//! The grammar that the parser accepts, as functions over the tokens: from
//! where a rule starts, where it ends and the tree it builds, or the error it
//! meets.
use vstd::prelude::*;

use crate::ast::{LiteralView, ObjectKeyView};
use crate::ast::expr::Operation;
use crate::ast::sql::{SqlCompoundOperator, SqlDistinct, SqlJoinType, SqlOrdering};
use crate::ast::tree::{span_of, NameView, SqlPred, Tree};
use crate::tokens::{Keyword, Span, SpecToken, SqlKeyword, Symbol, TokenType};

use super::spec_op;

verus! {

/// What an expression turned out to be, as far as an assignment needs to
/// know: a variable, a property access, or anything else.
pub enum EKind {
    Variable,
    Get,
    Other,
}

/// An error, by the index of the token it names.
pub enum PErr {
    Unexpected(int),
    Missing(int, TokenType),
    InvalidTarget(int),
    /// A position outside the stream, or no progress where progress is due.
    /// `Parser::parse` shows that no program over a scanned token stream
    /// meets it.
    Stuck,
}

/// Where a rule ends, what kind of expression it read and the tree it built;
/// or the error it met.
pub enum POut {
    Done { pos: int, kind: EKind, tree: Tree },
    Fail(PErr),
}

pub open spec fn sym(s: Symbol) -> TokenType {
    TokenType::Symbol(s)
}

pub open spec fn kw(k: Keyword) -> TokenType {
    TokenType::Keyword(k)
}

pub open spec fn skw(k: SqlKeyword) -> TokenType {
    TokenType::SqlKeyword(k)
}

pub open spec fn ident() -> TokenType {
    TokenType::Identifier { dollar: false }
}

pub open spec fn dollar_ident() -> TokenType {
    TokenType::Identifier { dollar: true }
}

/// How much of the stream is left from `p`.
pub open spec fn rem(t: Seq<SpecToken>, p: int) -> nat {
    if 0 <= p < t.len() {
        (t.len() - p) as nat
    } else {
        0
    }
}

pub open spec fn at(t: Seq<SpecToken>, p: int, ty: TokenType) -> bool {
    0 <= p < t.len() && t[p].tok_type == ty
}

pub open spec fn inside(t: Seq<SpecToken>, p: int) -> bool {
    0 <= p < t.len()
}

pub open spec fn done(p: int) -> POut {
    POut::Done { pos: p, kind: EKind::Other, tree: Tree::Empty }
}

/// The rule ends at `p` with the tree `tree`.
pub open spec fn leaf(p: int, tree: Tree) -> POut {
    POut::Done { pos: p, kind: EKind::Other, tree }
}

/// `o` with its tree replaced by `tree`.
pub open spec fn with_tree(o: POut, tree: Tree) -> POut {
    match o {
        POut::Done { pos, kind, .. } => POut::Done { pos, kind, tree },
        f => f,
    }
}

/// The tree of a successful outcome.
pub open spec fn tree_of(o: POut) -> Tree {
    match o {
        POut::Done { tree, .. } => tree,
        _ => Tree::Empty,
    }
}

pub open spec fn binary(left: Tree, op: Operation, right: Tree) -> Tree {
    Tree::Binary(Box::new(left), op, Box::new(right), span_of(left).spec_merge(span_of(right)))
}

/// `tree` with the span `s` in place of the one it carries.
pub open spec fn with_span(tree: Tree, s: Span) -> Tree {
    match tree {
        Tree::Array(e, r, _) => Tree::Array(e, r, s),
        Tree::Object(e, r, _) => Tree::Object(e, r, s),
        Tree::Block(b, _) => Tree::Block(b, s),
        _ => tree,
    }
}

/// A literal whose items `o` read, closed by a token of type `ty`; it spans
/// from its opening token at `open` to the token after the closing one.
pub open spec fn closed_by(o: POut, t: Seq<SpecToken>, open: int, ty: TokenType) -> POut {
    match o {
        POut::Done { pos: q, tree, .. } => match expect(t, q, ty) {
            POut::Done { pos: q1, .. } => leaf(q1, with_span(tree, t[open].span.spec_merge(t[q1].span))),
            f => f,
        },
        f => f,
    }
}

/// A block whose statements `o` read, closed by a brace; it spans from its
/// opening brace at `open` to the token before the closing one.
pub open spec fn block_closed(o: POut, t: Seq<SpecToken>, open: int) -> POut {
    match o {
        POut::Done { pos: q, tree, .. } => with_tree(
            expect(t, q, sym(Symbol::RightBrace)),
            with_span(tree, t[open].span.spec_merge(t[q - 1].span)),
        ),
        f => f,
    }
}

/// A program of the declarations `acc`, spanning from the first to the last.
pub open spec fn program_of(acc: Seq<Tree>) -> Tree {
    Tree::Program(acc, span_of(acc[0]).spec_merge(span_of(acc.last())))
}

/// The operation of the operator token at `p`.
pub open spec fn op_at(t: Seq<SpecToken>, p: int, sel: bool) -> Operation {
    match spec_op(t[p].tok_type, sel) {
        Some(o) => o,
        None => Operation::Add,
    }
}

/// The name that the identifier token at `p` carries.
pub open spec fn name_at(t: Seq<SpecToken>, p: int) -> NameView {
    match t[p].tok_type {
        TokenType::Identifier { dollar } => (
            match t[p].lexeme {
                Some(l) => l,
                None => Seq::empty(),
            },
            dollar,
        ),
        _ => (Seq::empty(), false),
    }
}

/// The literal value of the token at `p`.
pub open spec fn literal_at(t: Seq<SpecToken>, p: int) -> LiteralView {
    match t[p].literal {
        Some(l) => l,
        None => LiteralView::Null,
    }
}

/// The text of the token at `p`.
pub open spec fn lexeme_at(t: Seq<SpecToken>, p: int) -> Seq<char> {
    match t[p].lexeme {
        Some(l) => l,
        None => Seq::empty(),
    }
}

/// The key that the token at `p` gives an object literal: a number keeps its
/// text, a name or a string its value.
pub open spec fn key_at(t: Seq<SpecToken>, p: int) -> ObjectKeyView {
    if t[p].tok_type == TokenType::Num {
        match t[p].literal {
            Some(LiteralView::Num(n)) => ObjectKeyView::Number(n),
            _ => ObjectKeyView::Number(Seq::empty()),
        }
    } else {
        match t[p].literal {
            Some(LiteralView::Str(s)) => ObjectKeyView::Name(s),
            _ => ObjectKeyView::Name(Seq::empty()),
        }
    }
}

/// The position of the key `k` among the entries `s`.
pub open spec fn tree_key_index(s: Seq<(ObjectKeyView, Tree)>, k: ObjectKeyView) -> int {
    choose|i: int| 0 <= i < s.len() && s[i].0 == k
}

/// The entries after `k: v` is read: the value of a key already there is
/// replaced, a new key goes last.
pub open spec fn tree_insert(s: Seq<(ObjectKeyView, Tree)>, k: ObjectKeyView, v: Tree) -> Seq<(ObjectKeyView, Tree)> {
    if exists|i: int| 0 <= i < s.len() && s[i].0 == k {
        s.update(tree_key_index(s, k), (k, v))
    } else {
        s.push((k, v))
    }
}

/// What an assignment to the target `target` builds.
pub open spec fn assign_to(target: Tree, value: Tree) -> Tree {
    match target {
        Tree::Variable(n, s) => Tree::Assignment(n, Box::new(value), s.spec_merge(span_of(value))),
        Tree::Get(object, n, s) => Tree::SetProperty(object, n, Box::new(value), s.spec_merge(span_of(value))),
        _ => Tree::Empty,
    }
}

pub open spec fn list_of(tree: Tree) -> Seq<Tree> {
    match tree {
        Tree::List(s) => s,
        _ => Seq::empty(),
    }
}

pub open spec fn names_of(tree: Tree) -> Seq<NameView> {
    match tree {
        Tree::Names(s) => s,
        _ => Seq::empty(),
    }
}

/// The statements of a block.
pub open spec fn block_of(tree: Tree) -> Seq<Tree> {
    match tree {
        Tree::Block(s, _) => s,
        _ => Seq::empty(),
    }
}

pub open spec fn maybe_of(tree: Tree) -> Option<Box<Tree>> {
    match tree {
        Tree::Maybe(o) => o,
        _ => None,
    }
}

/// A `for` loop whose keyword spans `s`: its loop, inside a block after the
/// initializer if there is one.
pub open spec fn for_tree(s: Span, init: Tree, condition: Tree, increment: Tree, body: Tree) -> Tree {
    let span = s.spec_merge(span_of(body));
    let l = Tree::Loop(maybe_of(condition), Box::new(body), maybe_of(increment), span);
    match init {
        Tree::Maybe(Some(i)) => Tree::Block(seq![*i, l], span),
        _ => l,
    }
}

/// What `o` gives when a token of type `ty` must follow it.
pub open spec fn then_expect(o: POut, t: Seq<SpecToken>, ty: TokenType) -> POut {
    match o {
        POut::Done { pos, tree, .. } => with_tree(expect(t, pos, ty), tree),
        f => f,
    }
}

/// The kind of expression a successful outcome names.
pub open spec fn kind_of(o: POut) -> EKind {
    match o {
        POut::Done { kind, .. } => kind,
        _ => EKind::Other,
    }
}

/// A token of type `ty` at `p`; otherwise the error names the token before.
pub open spec fn expect(t: Seq<SpecToken>, p: int, ty: TokenType) -> POut {
    if at(t, p, ty) {
        done(
            if ty == TokenType::Eof {
                p
            } else {
                p + 1
            },
        )
    } else {
        POut::Fail(PErr::Missing(p - 1, ty))
    }
}

/// `optional expected`, or `expected`, or nothing.
pub open spec fn opt_with_expected(t: Seq<SpecToken>, p: int, optional: TokenType, expected: TokenType) -> POut {
    if at(t, p, optional) {
        expect(t, p + 1, expected)
    } else if at(t, p, expected) {
        done(p + 1)
    } else {
        done(p)
    }
}

/// The alias after `AS` at `q`, or the name at `q`, if either is there.
pub open spec fn alias_at(t: Seq<SpecToken>, q: int) -> Option<NameView> {
    if at(t, q, skw(SqlKeyword::As)) {
        Some(name_at(t, q + 1))
    } else if at(t, q, ident()) {
        Some(name_at(t, q))
    } else {
        None
    }
}

/// A collection name, if one starts at `p`.
pub open spec fn p_collection(t: Seq<SpecToken>, p: int) -> Option<POut> {
    if at(t, p, ident()) {
        if at(t, p + 1, sym(Symbol::Dot)) && at(t, p + 2, ident()) {
            Some(
                with_tree(
                    opt_with_expected(t, p + 3, skw(SqlKeyword::As), ident()),
                    Tree::Collection(Some(name_at(t, p)), name_at(t, p + 2), alias_at(t, p + 3)),
                ),
            )
        } else {
            Some(
                with_tree(
                    opt_with_expected(t, p + 1, skw(SqlKeyword::As), ident()),
                    Tree::Collection(None, name_at(t, p), alias_at(t, p + 1)),
                ),
            )
        }
    } else {
        None
    }
}

pub open spec fn orderings_of(tree: Tree) -> Option<Seq<(Tree, SqlOrdering)>> {
    match tree {
        Tree::Orderings(os) => Some(os),
        _ => None,
    }
}

pub open spec fn limit_of(tree: Tree) -> Option<(Box<Tree>, Option<Box<Tree>>)> {
    match tree {
        Tree::Limit(l) => l,
        _ => None,
    }
}

pub open spec fn group_of(tree: Tree) -> Option<Seq<Tree>> {
    match tree {
        Tree::Maybe(Some(b)) => Some(list_of(*b)),
        _ => None,
    }
}

pub open spec fn compound_of(tree: Tree) -> Option<(SqlCompoundOperator, Box<Tree>)> {
    match tree {
        Tree::Compound(c) => c,
        _ => None,
    }
}

/// The predicate that the keywords `fst` and `sec` after an operand name.
pub open spec fn pred_of(fst: Option<TokenType>, sec: Option<TokenType>) -> Option<SqlPred> {
    match (fst, sec) {
        (Some(TokenType::SqlKeyword(SqlKeyword::Is)), None) => Some(SqlPred::Is),
        (Some(TokenType::SqlKeyword(SqlKeyword::Is)), Some(TokenType::SqlKeyword(SqlKeyword::Not))) => Some(SqlPred::IsNot),
        (Some(TokenType::SqlKeyword(SqlKeyword::In)), None) => Some(SqlPred::In),
        (Some(TokenType::SqlKeyword(SqlKeyword::Not)), Some(TokenType::SqlKeyword(SqlKeyword::In))) => Some(SqlPred::NotIn),
        (Some(TokenType::SqlKeyword(SqlKeyword::Like)), None) => Some(SqlPred::Like),
        (Some(TokenType::SqlKeyword(SqlKeyword::Not)), Some(TokenType::SqlKeyword(SqlKeyword::Like))) => Some(SqlPred::NotLike),
        _ => None,
    }
}

/// Whether a predicate is the negated form, written with `NOT`.
pub open spec fn pred_negated(p: SqlPred) -> bool {
    match p {
        SqlPred::IsNot | SqlPred::NotIn | SqlPred::NotLike => true,
        _ => false,
    }
}

/// The keyword, other than `NOT`, that a predicate is written with.
pub open spec fn pred_keyword(p: SqlPred) -> SqlKeyword {
    match p {
        SqlPred::Is | SqlPred::IsNot => SqlKeyword::Is,
        SqlPred::In | SqlPred::NotIn => SqlKeyword::In,
        SqlPred::Like | SqlPred::NotLike => SqlKeyword::Like,
    }
}

/// A predicate read from two keywords is written with the keyword that
/// names it, and it is the negated form exactly when `NOT` is among them. So
/// `NOT LIKE`, `NOT IN` and `IS NOT` never read as `LIKE`, `IN` and `IS`, nor
/// the other way round.
pub proof fn law_predicates_follow_their_keywords(fst: Option<TokenType>, sec: Option<TokenType>)
    ensures
        pred_of(fst, sec) matches Some(p) ==> {
            &&& pred_negated(p) == (fst == Some(skw(SqlKeyword::Not)) || sec == Some(skw(SqlKeyword::Not)))
            &&& (fst == Some(skw(pred_keyword(p))) || sec == Some(skw(pred_keyword(p))))
        },
        pred_of(Some(skw(SqlKeyword::Is)), None) is Some,
        pred_of(Some(skw(SqlKeyword::Is)), Some(skw(SqlKeyword::Not))) is Some,
        pred_of(Some(skw(SqlKeyword::In)), None) is Some,
        pred_of(Some(skw(SqlKeyword::Not)), Some(skw(SqlKeyword::In))) is Some,
        pred_of(Some(skw(SqlKeyword::Like)), None) is Some,
        pred_of(Some(skw(SqlKeyword::Not)), Some(skw(SqlKeyword::Like))) is Some,
{
}

/// Where the alias rule reads an identifier, with `AS` before it or not, the
/// alias is that identifier's name; where it reads nothing, there is no
/// alias.
pub proof fn law_alias_is_the_identifier_read(t: Seq<SpecToken>, q: int)
    ensures
        opt_with_expected(t, q, skw(SqlKeyword::As), ident()) matches POut::Done { pos, .. } ==> {
            &&& pos > q ==> alias_at(t, q) == Some(name_at(t, pos - 1)) && at(t, pos - 1, ident())
            &&& pos == q ==> alias_at(t, q) is None
        },
{
}

/// Whether `fst` and `sec` start a `BETWEEN` or `NOT BETWEEN`.
pub open spec fn is_between(fst: Option<TokenType>, sec: Option<TokenType>) -> bool {
    match (fst, sec) {
        (Some(TokenType::SqlKeyword(SqlKeyword::Between)), None) => true,
        (Some(TokenType::SqlKeyword(SqlKeyword::Not)), Some(TokenType::SqlKeyword(SqlKeyword::Between))) => true,
        _ => false,
    }
}

pub open spec fn op_in(t: Seq<SpecToken>, p: int, ops: Seq<TokenType>) -> bool {
    inside(t, p) && ops.contains(t[p].tok_type)
}

pub open spec fn equality_ops(sel: bool) -> Seq<TokenType> {
    if sel {
        seq![sym(Symbol::BangEqual), sym(Symbol::Equal)]
    } else {
        seq![sym(Symbol::BangEqual), sym(Symbol::EqualEqual)]
    }
}

pub open spec fn comparison_ops() -> Seq<TokenType> {
    seq![sym(Symbol::Greater), sym(Symbol::GreaterEqual), sym(Symbol::Less), sym(Symbol::LessEqual)]
}

pub open spec fn term_ops() -> Seq<TokenType> {
    seq![sym(Symbol::Plus), sym(Symbol::Minus)]
}

pub open spec fn factor_ops() -> Seq<TokenType> {
    seq![sym(Symbol::Star), sym(Symbol::Slash)]
}

pub open spec fn unary_ops() -> Seq<TokenType> {
    seq![sym(Symbol::Minus), sym(Symbol::Bang)]
}

pub open spec fn key_types() -> Seq<TokenType> {
    seq![ident(), TokenType::Str, TokenType::Num]
}

pub open spec fn conj_ops() -> Seq<TokenType> {
    seq![
        skw(SqlKeyword::Is),
        skw(SqlKeyword::Not),
        skw(SqlKeyword::In),
        skw(SqlKeyword::Between),
        skw(SqlKeyword::Like),
    ]
}

pub open spec fn join_ops() -> Seq<TokenType> {
    seq![skw(SqlKeyword::Left), skw(SqlKeyword::Right), skw(SqlKeyword::Inner), skw(SqlKeyword::Join)]
}

pub open spec fn compound_ops() -> Seq<TokenType> {
    seq![skw(SqlKeyword::Union), skw(SqlKeyword::Intersect), skw(SqlKeyword::Except)]
}

/// The tokens from `p` on start with `pattern`.
pub open spec fn starts_with(t: Seq<SpecToken>, p: int, pattern: Seq<TokenType>) -> bool {
    forall|j: int| 0 <= j < pattern.len() ==> p + j < t.len() && #[trigger] t[p + j].tok_type == pattern[j]
}

/// Three given tokens from `p` on.
pub proof fn lemma_starts_with3(t: Seq<SpecToken>, p: int, a: TokenType, b: TokenType, c: TokenType)
    requires
        0 <= p,
    ensures
        starts_with(t, p, seq![a, b, c]) == (at(t, p, a) && at(t, p + 1, b) && at(t, p + 2, c)),
{
    let s = seq![a, b, c];
    if at(t, p, a) && at(t, p + 1, b) && at(t, p + 2, c) {
        assert forall|j: int| 0 <= j < s.len() implies p + j < t.len() && #[trigger] t[p + j].tok_type
            == s[j] by {
            if j == 0 {
            } else if j == 1 {
            } else {
            }
        }
    }
    if starts_with(t, p, s) {
        assert(t[p + 0].tok_type == s[0]);
        assert(t[p + 1].tok_type == s[1]);
        assert(t[p + 2].tok_type == s[2]);
    }
}

/// Parameters after the first: `, $name` as long as a comma follows.
#[verifier::opaque]
pub open spec fn p_params_rest(t: Seq<SpecToken>, p: int, acc: Seq<NameView>) -> POut
    decreases rem(t, p),
{
    if !inside(t, p) {
        POut::Fail(PErr::Stuck)
    } else if at(t, p, sym(Symbol::Comma)) {
        if at(t, p + 1, dollar_ident()) {
            p_params_rest(t, p + 2, acc.push(name_at(t, p + 1)))
        } else {
            POut::Fail(PErr::Missing(p, dollar_ident()))
        }
    } else {
        leaf(p, Tree::Names(acc))
    }
}

#[verifier::opaque]
pub open spec fn p_equality(t: Seq<SpecToken>, p: int, sel: bool) -> POut
    decreases rem(t, p), 33nat,
{
    if !inside(t, p) {
        POut::Fail(PErr::Stuck)
    } else {
        match p_comparison(t, p, sel) {
            POut::Done { pos: p1, kind, tree } => if p1 > p {
                p_equality_rest(t, p1, sel, kind, tree)
            } else {
                POut::Fail(PErr::Stuck)
            },
            f => f,
        }
    }
}

/// After the first operand: `op operand` as long as an operator follows.
#[verifier::opaque]
pub open spec fn p_equality_rest(t: Seq<SpecToken>, p: int, sel: bool, kind: EKind, acc: Tree) -> POut
    decreases rem(t, p), 33nat,
{
    if !inside(t, p) {
        POut::Fail(PErr::Stuck)
    } else if op_in(t, p, equality_ops(sel)) {
        match p_comparison(t, p + 1, sel) {
            POut::Done { pos: p2, tree, .. } => if p2 > p {
                p_equality_rest(t, p2, sel, EKind::Other, binary(acc, op_at(t, p, sel), tree))
            } else {
                POut::Fail(PErr::Stuck)
            },
            f => f,
        }
    } else {
        POut::Done { pos: p, kind, tree: acc }
    }
}

#[verifier::opaque]
pub open spec fn p_comparison(t: Seq<SpecToken>, p: int, sel: bool) -> POut
    decreases rem(t, p), 32nat,
{
    if !inside(t, p) {
        POut::Fail(PErr::Stuck)
    } else {
        match p_term(t, p, sel) {
            POut::Done { pos: p1, kind, tree } => if p1 > p {
                p_comparison_rest(t, p1, sel, kind, tree)
            } else {
                POut::Fail(PErr::Stuck)
            },
            f => f,
        }
    }
}

/// After the first operand: `op operand` as long as an operator follows.
#[verifier::opaque]
pub open spec fn p_comparison_rest(t: Seq<SpecToken>, p: int, sel: bool, kind: EKind, acc: Tree) -> POut
    decreases rem(t, p), 32nat,
{
    if !inside(t, p) {
        POut::Fail(PErr::Stuck)
    } else if op_in(t, p, comparison_ops()) {
        match p_term(t, p + 1, sel) {
            POut::Done { pos: p2, tree, .. } => if p2 > p {
                p_comparison_rest(t, p2, sel, EKind::Other, binary(acc, op_at(t, p, sel), tree))
            } else {
                POut::Fail(PErr::Stuck)
            },
            f => f,
        }
    } else {
        POut::Done { pos: p, kind, tree: acc }
    }
}

#[verifier::opaque]
pub open spec fn p_term(t: Seq<SpecToken>, p: int, sel: bool) -> POut
    decreases rem(t, p), 31nat,
{
    if !inside(t, p) {
        POut::Fail(PErr::Stuck)
    } else {
        match p_factor(t, p, sel) {
            POut::Done { pos: p1, kind, tree } => if p1 > p {
                p_term_rest(t, p1, sel, kind, tree)
            } else {
                POut::Fail(PErr::Stuck)
            },
            f => f,
        }
    }
}

/// After the first operand: `op operand` as long as an operator follows.
#[verifier::opaque]
pub open spec fn p_term_rest(t: Seq<SpecToken>, p: int, sel: bool, kind: EKind, acc: Tree) -> POut
    decreases rem(t, p), 31nat,
{
    if !inside(t, p) {
        POut::Fail(PErr::Stuck)
    } else if op_in(t, p, term_ops()) {
        match p_factor(t, p + 1, sel) {
            POut::Done { pos: p2, tree, .. } => if p2 > p {
                p_term_rest(t, p2, sel, EKind::Other, binary(acc, op_at(t, p, sel), tree))
            } else {
                POut::Fail(PErr::Stuck)
            },
            f => f,
        }
    } else {
        POut::Done { pos: p, kind, tree: acc }
    }
}

#[verifier::opaque]
pub open spec fn p_factor(t: Seq<SpecToken>, p: int, sel: bool) -> POut
    decreases rem(t, p), 30nat,
{
    if !inside(t, p) {
        POut::Fail(PErr::Stuck)
    } else {
        match p_unary(t, p, sel) {
            POut::Done { pos: p1, kind, tree } => if p1 > p {
                p_factor_rest(t, p1, sel, kind, tree)
            } else {
                POut::Fail(PErr::Stuck)
            },
            f => f,
        }
    }
}

/// After the first operand: `op operand` as long as an operator follows.
#[verifier::opaque]
pub open spec fn p_factor_rest(t: Seq<SpecToken>, p: int, sel: bool, kind: EKind, acc: Tree) -> POut
    decreases rem(t, p), 30nat,
{
    if !inside(t, p) {
        POut::Fail(PErr::Stuck)
    } else if op_in(t, p, factor_ops()) {
        match p_unary(t, p + 1, sel) {
            POut::Done { pos: p2, tree, .. } => if p2 > p {
                p_factor_rest(t, p2, sel, EKind::Other, binary(acc, op_at(t, p, sel), tree))
            } else {
                POut::Fail(PErr::Stuck)
            },
            f => f,
        }
    } else {
        POut::Done { pos: p, kind, tree: acc }
    }
}

#[verifier::opaque]
pub open spec fn p_expression(t: Seq<SpecToken>, p: int, sel: bool) -> POut
    decreases rem(t, p), 37nat,
{
    if !inside(t, p) {
        POut::Fail(PErr::Stuck)
    } else if at(t, p, kw(Keyword::Fun)) {
        p_fun(t, p + 1, sel)
    } else {
        p_assignment(t, p, sel)
    }
}

#[verifier::opaque]
pub open spec fn p_assignment(t: Seq<SpecToken>, p: int, sel: bool) -> POut
    decreases rem(t, p), 36nat,
{
    if !inside(t, p) {
        POut::Fail(PErr::Stuck)
    } else {
        match p_or(t, p, sel) {
            POut::Done { pos: p1, kind, tree } => if at(t, p1, sym(Symbol::Equal)) {
                if p1 >= p {
                    match p_assignment(t, p1 + 1, sel) {
                        POut::Done { pos: p2, tree: value, .. } => match kind {
                            EKind::Other => POut::Fail(PErr::InvalidTarget(p2 - 3)),
                            _ => leaf(p2, assign_to(tree, value)),
                        },
                        f => f,
                    }
                } else {
                    POut::Fail(PErr::Stuck)
                }
            } else {
                POut::Done { pos: p1, kind, tree }
            },
            f => f,
        }
    }
}

pub open spec fn or_op(sel: bool) -> TokenType {
    if sel {
        skw(SqlKeyword::Or)
    } else {
        sym(Symbol::LogicalOr)
    }
}

pub open spec fn and_op(sel: bool) -> TokenType {
    if sel {
        skw(SqlKeyword::And)
    } else {
        sym(Symbol::LogicalAnd)
    }
}

#[verifier::opaque]
pub open spec fn p_or(t: Seq<SpecToken>, p: int, sel: bool) -> POut
    decreases rem(t, p), 35nat,
{
    if !inside(t, p) {
        POut::Fail(PErr::Stuck)
    } else {
        match p_and(t, p, sel) {
            POut::Done { pos: p1, kind, tree } => if at(t, p1, or_op(sel)) {
                if p1 >= p {
                    match p_and(t, p1 + 1, sel) {
                        POut::Done { pos: p2, tree: right, .. } => leaf(
                            p2,
                            Tree::Logical(
                                Box::new(tree),
                                op_at(t, p1, sel),
                                Box::new(right),
                                span_of(tree).spec_merge(span_of(right)),
                            ),
                        ),
                        f => f,
                    }
                } else {
                    POut::Fail(PErr::Stuck)
                }
            } else {
                POut::Done { pos: p1, kind, tree }
            },
            f => f,
        }
    }
}

#[verifier::opaque]
pub open spec fn p_and(t: Seq<SpecToken>, p: int, sel: bool) -> POut
    decreases rem(t, p), 34nat,
{
    if !inside(t, p) {
        POut::Fail(PErr::Stuck)
    } else {
        match p_equality(t, p, sel) {
            POut::Done { pos: p1, kind, tree } => if at(t, p1, and_op(sel)) {
                if p1 >= p {
                    match p_equality(t, p1 + 1, sel) {
                        POut::Done { pos: p2, tree: right, .. } => leaf(
                            p2,
                            Tree::Logical(
                                Box::new(tree),
                                op_at(t, p1, sel),
                                Box::new(right),
                                span_of(tree).spec_merge(span_of(right)),
                            ),
                        ),
                        f => f,
                    }
                } else {
                    POut::Fail(PErr::Stuck)
                }
            } else {
                POut::Done { pos: p1, kind, tree }
            },
            f => f,
        }
    }
}

#[verifier::opaque]
pub open spec fn p_unary(t: Seq<SpecToken>, p: int, sel: bool) -> POut
    decreases rem(t, p), 29nat,
{
    if !inside(t, p) {
        POut::Fail(PErr::Stuck)
    } else if op_in(t, p, unary_ops()) {
        match p_unary(t, p + 1, sel) {
            POut::Done { pos: p2, tree, .. } => leaf(
                p2,
                Tree::Unary(op_at(t, p, sel), Box::new(tree), t[p].span.spec_merge(span_of(tree))),
            ),
            f => f,
        }
    } else {
        p_insert(t, p, sel)
    }
}

#[verifier::opaque]
pub open spec fn p_call(t: Seq<SpecToken>, p: int, sel: bool) -> POut
    decreases rem(t, p), 22nat,
{
    if !inside(t, p) {
        POut::Fail(PErr::Stuck)
    } else {
        match p_primary(t, p, sel) {
            POut::Done { pos: p1, kind, tree } => if p1 > p {
                p_call_rest(t, p1, sel, kind, tree)
            } else {
                POut::Fail(PErr::Stuck)
            },
            f => f,
        }
    }
}

/// After a primary: calls and property accesses, as long as they follow.
#[verifier::opaque]
pub open spec fn p_call_rest(t: Seq<SpecToken>, p: int, sel: bool, kind: EKind, acc: Tree) -> POut
    decreases rem(t, p), 22nat,
{
    if !inside(t, p) {
        POut::Fail(PErr::Stuck)
    } else if at(t, p, sym(Symbol::LeftParen)) {
        match p_finish_call(t, p + 1, sel) {
            POut::Done { pos: p2, tree, .. } => if p2 > p {
                p_call_rest(
                    t,
                    p2,
                    sel,
                    EKind::Other,
                    Tree::Call(Box::new(acc), list_of(tree), span_of(acc).spec_merge(t[p2 - 1].span)),
                )
            } else {
                POut::Fail(PErr::Stuck)
            },
            f => f,
        }
    } else if at(t, p, sym(Symbol::Dot)) {
        if at(t, p + 1, ident()) {
            p_call_rest(
                t,
                p + 2,
                sel,
                EKind::Get,
                Tree::Get(Box::new(acc), name_at(t, p + 1), span_of(acc).spec_merge(t[p + 1].span)),
            )
        } else {
            POut::Fail(PErr::Missing(p, ident()))
        }
    } else {
        POut::Done { pos: p, kind, tree: acc }
    }
}

/// The arguments of a call and its closing parenthesis.
#[verifier::opaque]
pub open spec fn p_finish_call(t: Seq<SpecToken>, p: int, sel: bool) -> POut
    decreases rem(t, p), 38nat,
{
    if !inside(t, p) {
        POut::Fail(PErr::Stuck)
    } else if at(t, p, sym(Symbol::RightParen)) {
        with_tree(expect(t, p, sym(Symbol::RightParen)), Tree::List(Seq::empty()))
    } else {
        match p_expression(t, p, sel) {
            POut::Done { pos: p1, tree, .. } => if p1 > p {
                then_expect(p_args_rest(t, p1, sel, seq![tree]), t, sym(Symbol::RightParen))
            } else {
                POut::Fail(PErr::Stuck)
            },
            f => f,
        }
    }
}

/// Arguments after the first: `, expression` as long as a comma follows.
#[verifier::opaque]
pub open spec fn p_args_rest(t: Seq<SpecToken>, p: int, sel: bool, acc: Seq<Tree>) -> POut
    decreases rem(t, p), 38nat,
{
    if !inside(t, p) {
        POut::Fail(PErr::Stuck)
    } else if at(t, p, sym(Symbol::Comma)) {
        match p_expression(t, p + 1, sel) {
            POut::Done { pos: p2, tree, .. } => if p2 > p {
                p_args_rest(t, p2, sel, acc.push(tree))
            } else {
                POut::Fail(PErr::Stuck)
            },
            f => f,
        }
    } else {
        leaf(p, Tree::List(acc))
    }
}

/// The entries of an object literal, from after its opening brace, up to its
/// closing brace.
#[verifier::opaque]
pub open spec fn p_object_entries(t: Seq<SpecToken>, p: int, sel: bool, acc: Seq<(ObjectKeyView, Tree)>) -> POut
    decreases rem(t, p), 38nat,
{
    if !inside(t, p) {
        POut::Fail(PErr::Stuck)
    } else if at(t, p, sym(Symbol::RightBrace)) {
        leaf(p, Tree::Object(acc, ""@, Span::spec_zero()))
    } else if op_in(t, p, key_types()) {
        if !at(t, p + 1, sym(Symbol::Colon)) {
            POut::Fail(PErr::Missing(p, sym(Symbol::Colon)))
        } else {
            match p_expression(t, p + 2, sel) {
                POut::Done { pos: p2, tree, .. } => if at(t, p2, sym(Symbol::Comma)) {
                    if p2 >= p {
                        p_object_entries(t, p2 + 1, sel, tree_insert(acc, key_at(t, p), tree))
                    } else {
                        POut::Fail(PErr::Stuck)
                    }
                } else {
                    leaf(p2, Tree::Object(tree_insert(acc, key_at(t, p), tree), ""@, Span::spec_zero()))
                },
                f => f,
            }
        }
    } else {
        POut::Fail(PErr::Unexpected(p - 1))
    }
}

#[verifier::opaque]
pub open spec fn p_object(t: Seq<SpecToken>, p: int, sel: bool) -> POut
    decreases rem(t, p), 39nat,
{
    if !inside(t, p) {
        POut::Fail(PErr::Stuck)
    } else {
        closed_by(p_object_entries(t, p, sel, Seq::empty()), t, p - 1, sym(Symbol::RightBrace))
    }
}

/// The elements of an array literal, from after its opening bracket.
#[verifier::opaque]
pub open spec fn p_array_elements(t: Seq<SpecToken>, p: int, sel: bool, acc: Seq<Tree>) -> POut
    decreases rem(t, p), 38nat,
{
    if !inside(t, p) {
        POut::Fail(PErr::Stuck)
    } else if at(t, p, sym(Symbol::RightBracket)) {
        leaf(p, Tree::Array(acc, ""@, Span::spec_zero()))
    } else {
        match p_expression(t, p, sel) {
            POut::Done { pos: p2, tree, .. } => if at(t, p2, sym(Symbol::Comma)) {
                if p2 >= p {
                    p_array_elements(t, p2 + 1, sel, acc.push(tree))
                } else {
                    POut::Fail(PErr::Stuck)
                }
            } else {
                leaf(p2, Tree::Array(acc.push(tree), ""@, Span::spec_zero()))
            },
            f => f,
        }
    }
}

#[verifier::opaque]
pub open spec fn p_array(t: Seq<SpecToken>, p: int, sel: bool) -> POut
    decreases rem(t, p), 39nat,
{
    if !inside(t, p) {
        POut::Fail(PErr::Stuck)
    } else {
        closed_by(p_array_elements(t, p, sel, Seq::empty()), t, p - 1, sym(Symbol::RightBracket))
    }
}

#[verifier::opaque]
pub open spec fn p_primary(t: Seq<SpecToken>, p: int, sel: bool) -> POut
    decreases rem(t, p), 21nat,
{
    if !inside(t, p) {
        POut::Fail(PErr::Stuck)
    } else {
        match t[p].tok_type {
            TokenType::Symbol(Symbol::LeftBrace) => p_object(t, p + 1, sel),
            TokenType::Symbol(Symbol::LeftBracket) => p_array(t, p + 1, sel),
            TokenType::Symbol(Symbol::LeftParen) => match p_expression(t, p + 1, sel) {
                POut::Done { pos: p1, tree, .. } => with_tree(
                    expect(t, p1, sym(Symbol::RightParen)),
                    Tree::Grouping(Box::new(tree), span_of(tree)),
                ),
                f => f,
            },
            TokenType::True => leaf(p + 1, Tree::Scalar(LiteralView::Bool(true), "true"@, t[p].span)),
            TokenType::False => leaf(p + 1, Tree::Scalar(LiteralView::Bool(false), "false"@, t[p].span)),
            TokenType::Null => leaf(p + 1, Tree::Scalar(LiteralView::Null, "null"@, t[p].span)),
            TokenType::Undefined => leaf(
                p + 1,
                Tree::Scalar(LiteralView::Undefined, "undefined"@, t[p].span),
            ),
            TokenType::Str | TokenType::Num => leaf(
                p + 1,
                Tree::Scalar(literal_at(t, p), lexeme_at(t, p), t[p].span),
            ),
            TokenType::Identifier { .. } => POut::Done {
                pos: p + 1,
                kind: EKind::Variable,
                tree: Tree::Variable(name_at(t, p), t[p].span),
            },
            _ => POut::Fail(PErr::Unexpected(p)),
        }
    }
}

/// A function after `fun`: an optional name, parameters and a body.
#[verifier::opaque]
pub open spec fn p_fun(t: Seq<SpecToken>, p: int, sel: bool) -> POut
    decreases rem(t, p), 46nat,
{
    if !inside(t, p) {
        POut::Fail(PErr::Stuck)
    } else {
        let p1 = if at(t, p, ident()) {
            p + 1
        } else {
            p
        };
        let name = if at(t, p, ident()) {
            Some(name_at(t, p))
        } else {
            None
        };
        match expect(t, p1, sym(Symbol::LeftParen)) {
            POut::Done { pos: p2, .. } => {
                let params = if at(t, p2, sym(Symbol::RightParen)) {
                    leaf(p2, Tree::Names(Seq::empty()))
                } else {
                    match expect(t, p2, dollar_ident()) {
                        POut::Done { pos: p3, .. } => p_params_rest(t, p3, seq![name_at(t, p2)]),
                        f => f,
                    }
                };
                match params {
                    POut::Done { pos: p4, tree: names, .. } => match expect(t, p4, sym(Symbol::RightParen)) {
                        POut::Done { pos: p5, .. } => match expect(t, p5, sym(Symbol::LeftBrace)) {
                            POut::Done { pos: p6, .. } => if p6 > p {
                                match p_block(t, p6, sel) {
                                    POut::Done { pos: p7, tree: body, .. } => leaf(
                                        p7,
                                        Tree::Function(
                                            name,
                                            names_of(names),
                                            block_of(body),
                                            t[p - 1].span.spec_merge(span_of(body)),
                                        ),
                                    ),
                                    f => f,
                                }
                            } else {
                                POut::Fail(PErr::Stuck)
                            },
                            f => f,
                        },
                        f => f,
                    },
                    f => f,
                }
            },
            f => f,
        }
    }
}

#[verifier::opaque]
pub open spec fn p_declaration(t: Seq<SpecToken>, p: int, sel: bool) -> POut
    decreases rem(t, p), 40nat,
{
    if !inside(t, p) {
        POut::Fail(PErr::Stuck)
    } else if at(t, p, kw(Keyword::Var)) {
        p_var(t, p + 1, sel)
    } else {
        p_statement(t, p, sel)
    }
}

/// Where a statement that starts with a brace is an object literal.
pub open spec fn starts_object(t: Seq<SpecToken>, p: int) -> bool {
    ||| starts_with(t, p, seq![sym(Symbol::LeftBrace), ident(), sym(Symbol::Colon)])
    ||| starts_with(t, p, seq![sym(Symbol::LeftBrace), TokenType::Str, sym(Symbol::Colon)])
    ||| starts_with(t, p, seq![sym(Symbol::LeftBrace), TokenType::Num, sym(Symbol::Colon)])
    ||| starts_with(t, p, seq![sym(Symbol::LeftBrace), sym(Symbol::RightBrace)])
}

#[verifier::opaque]
pub open spec fn p_statement(t: Seq<SpecToken>, p: int, sel: bool) -> POut
    decreases rem(t, p), 39nat,
{
    if !inside(t, p) {
        POut::Fail(PErr::Stuck)
    } else if at(t, p, kw(Keyword::If)) {
        p_if(t, p + 1, sel)
    } else if at(t, p, kw(Keyword::While)) {
        p_while(t, p + 1, sel)
    } else if at(t, p, kw(Keyword::For)) {
        p_for(t, p + 1, sel)
    } else if at(t, p, kw(Keyword::Loop)) {
        p_loop(t, p + 1, sel)
    } else if at(t, p, kw(Keyword::Break)) {
        with_tree(expect(t, p + 1, sym(Symbol::Semicolon)), Tree::Break(t[p].span))
    } else if at(t, p, kw(Keyword::Continue)) {
        with_tree(expect(t, p + 1, sym(Symbol::Semicolon)), Tree::Continue(t[p].span))
    } else if at(t, p, kw(Keyword::Return)) {
        p_return(t, p + 1, sel)
    } else if starts_object(t, p) {
        p_expression_statement(t, p, sel)
    } else if at(t, p, sym(Symbol::LeftBrace)) {
        p_block(t, p + 1, sel)
    } else {
        p_expression_statement(t, p, sel)
    }
}

#[verifier::opaque]
pub open spec fn p_expression_statement(t: Seq<SpecToken>, p: int, sel: bool) -> POut
    decreases rem(t, p), 38nat,
{
    if !inside(t, p) {
        POut::Fail(PErr::Stuck)
    } else {
        match p_expression(t, p, sel) {
            POut::Done { pos: p1, tree, .. } => with_tree(
                expect(t, p1, sym(Symbol::Semicolon)),
                Tree::Expression(Box::new(tree), span_of(tree)),
            ),
            f => f,
        }
    }
}

#[verifier::opaque]
pub open spec fn p_return(t: Seq<SpecToken>, p: int, sel: bool) -> POut
    decreases rem(t, p), 38nat,
{
    if !inside(t, p) {
        POut::Fail(PErr::Stuck)
    } else if at(t, p, sym(Symbol::Semicolon)) {
        with_tree(expect(t, p, sym(Symbol::Semicolon)), Tree::Return(None, t[p - 1].span))
    } else {
        match p_expression(t, p, sel) {
            POut::Done { pos: p1, tree, .. } => with_tree(
                expect(t, p1, sym(Symbol::Semicolon)),
                Tree::Return(Some(Box::new(tree)), t[p - 1].span.spec_merge(span_of(tree))),
            ),
            f => f,
        }
    }
}

#[verifier::opaque]
pub open spec fn p_var(t: Seq<SpecToken>, p: int, sel: bool) -> POut
    decreases rem(t, p), 39nat,
{
    if !inside(t, p) {
        POut::Fail(PErr::Stuck)
    } else {
        match expect(t, p, dollar_ident()) {
            POut::Done { pos: p1, .. } => if at(t, p1, sym(Symbol::Equal)) {
                if p1 >= p {
                    match p_expression(t, p1 + 1, sel) {
                        POut::Done { pos: p2, tree, .. } => with_tree(
                            expect(t, p2, sym(Symbol::Semicolon)),
                            Tree::Declaration(
                                name_at(t, p),
                                Box::new(tree),
                                t[p - 1].span.spec_merge(span_of(tree)),
                            ),
                        ),
                        f => f,
                    }
                } else {
                    POut::Fail(PErr::Stuck)
                }
            } else {
                with_tree(
                    expect(t, p1, sym(Symbol::Semicolon)),
                    Tree::Declaration(
                        name_at(t, p),
                        Box::new(
                            Tree::Scalar(
                                LiteralView::Undefined,
                                "undefined"@,
                                t[p - 1].span.spec_merge(t[p].span),
                            ),
                        ),
                        t[p - 1].span.spec_merge(t[p - 1].span.spec_merge(t[p].span)),
                    ),
                )
            },
            f => f,
        }
    }
}

/// An optional semicolon.
pub open spec fn skip_semicolon(t: Seq<SpecToken>, p: int) -> int {
    if at(t, p, sym(Symbol::Semicolon)) {
        p + 1
    } else {
        p
    }
}

#[verifier::opaque]
pub open spec fn p_if(t: Seq<SpecToken>, p: int, sel: bool) -> POut
    decreases rem(t, p), 39nat,
{
    if !inside(t, p) {
        POut::Fail(PErr::Stuck)
    } else {
        match expect(t, p, sym(Symbol::LeftParen)) {
            POut::Done { pos: p1, .. } => match p_expression(t, p1, sel) {
                POut::Done { pos: p2, tree: condition, .. } => match expect(t, p2, sym(Symbol::RightParen)) {
                    POut::Done { pos: p3, .. } => if p3 > p {
                        match p_statement(t, p3, sel) {
                            POut::Done { pos: p4, tree: body, .. } => if at(t, p4, kw(Keyword::Else)) {
                                if p4 >= p {
                                    match p_statement(t, p4 + 1, sel) {
                                        POut::Done { pos: p5, tree: other, .. } => leaf(
                                            p5,
                                            Tree::If(
                                                Box::new(condition),
                                                Box::new(body),
                                                Some(Box::new(other)),
                                                t[p - 1].span.spec_merge(span_of(other)),
                                            ),
                                        ),
                                        f => f,
                                    }
                                } else {
                                    POut::Fail(PErr::Stuck)
                                }
                            } else {
                                leaf(
                                    p4,
                                    Tree::If(
                                        Box::new(condition),
                                        Box::new(body),
                                        None,
                                        t[p - 1].span.spec_merge(span_of(body)),
                                    ),
                                )
                            },
                            f => f,
                        }
                    } else {
                        POut::Fail(PErr::Stuck)
                    },
                    f => f,
                },
                f => f,
            },
            f => f,
        }
    }
}

#[verifier::opaque]
pub open spec fn p_loop(t: Seq<SpecToken>, p: int, sel: bool) -> POut
    decreases rem(t, p), 39nat,
{
    if !inside(t, p) {
        POut::Fail(PErr::Stuck)
    } else {
        match expect(t, p, sym(Symbol::LeftBrace)) {
            POut::Done { pos: p1, .. } => match p_block(t, p1, sel) {
                POut::Done { pos: p2, tree, .. } => leaf(
                    skip_semicolon(t, p2),
                    Tree::Loop(None, Box::new(tree), None, t[p - 1].span.spec_merge(span_of(tree))),
                ),
                f => f,
            },
            f => f,
        }
    }
}

#[verifier::opaque]
pub open spec fn p_while(t: Seq<SpecToken>, p: int, sel: bool) -> POut
    decreases rem(t, p), 39nat,
{
    if !inside(t, p) {
        POut::Fail(PErr::Stuck)
    } else {
        match expect(t, p, sym(Symbol::LeftParen)) {
            POut::Done { pos: p1, .. } => match p_expression(t, p1, sel) {
                POut::Done { pos: p2, tree: condition, .. } => match expect(t, p2, sym(Symbol::RightParen)) {
                    POut::Done { pos: p3, .. } => match expect(t, p3, sym(Symbol::LeftBrace)) {
                        POut::Done { pos: p4, .. } => if p4 > p {
                            match p_block(t, p4, sel) {
                                POut::Done { pos: p5, tree, .. } => leaf(
                                    skip_semicolon(t, p5),
                                    Tree::Loop(
                                        Some(Box::new(condition)),
                                        Box::new(tree),
                                        None,
                                        t[p - 1].span.spec_merge(span_of(tree)),
                                    ),
                                ),
                                f => f,
                            }
                        } else {
                            POut::Fail(PErr::Stuck)
                        },
                        f => f,
                    },
                    f => f,
                },
                f => f,
            },
            f => f,
        }
    }
}

/// The condition of a `for` loop and its semicolon, if any.
#[verifier::opaque]
pub open spec fn p_for_condition(t: Seq<SpecToken>, p: int, sel: bool) -> POut
    decreases rem(t, p), 38nat,
{
    if !inside(t, p) {
        POut::Fail(PErr::Stuck)
    } else if at(t, p, sym(Symbol::Semicolon)) {
        leaf(p + 1, Tree::Maybe(None))
    } else {
        match p_expression(t, p, sel) {
            POut::Done { pos: p1, tree, .. } => with_tree(
                expect(t, p1, sym(Symbol::Semicolon)),
                Tree::Maybe(Some(Box::new(tree))),
            ),
            f => f,
        }
    }
}

/// The increment of a `for` loop and its closing parenthesis, if any.
#[verifier::opaque]
pub open spec fn p_for_increment(t: Seq<SpecToken>, p: int, sel: bool) -> POut
    decreases rem(t, p), 38nat,
{
    if !inside(t, p) {
        POut::Fail(PErr::Stuck)
    } else if at(t, p, sym(Symbol::RightParen)) {
        leaf(p + 1, Tree::Maybe(None))
    } else {
        match p_expression(t, p, sel) {
            POut::Done { pos: p1, tree, .. } => with_tree(
                expect(t, p1, sym(Symbol::RightParen)),
                Tree::Maybe(Some(Box::new(Tree::Expression(Box::new(tree), span_of(tree))))),
            ),
            f => f,
        }
    }
}

#[verifier::opaque]
pub open spec fn p_for(t: Seq<SpecToken>, p: int, sel: bool) -> POut
    decreases rem(t, p), 39nat,
{
    if !inside(t, p) {
        POut::Fail(PErr::Stuck)
    } else {
        match expect(t, p, sym(Symbol::LeftParen)) {
            POut::Done { pos: p1, .. } => {
                let init = if at(t, p1, sym(Symbol::Semicolon)) {
                    leaf(p1 + 1, Tree::Maybe(None))
                } else if p1 > p {
                    match p_declaration(t, p1, sel) {
                        POut::Done { pos, tree, .. } => leaf(pos, Tree::Maybe(Some(Box::new(tree)))),
                        f => f,
                    }
                } else {
                    POut::Fail(PErr::Stuck)
                };
                match init {
                    POut::Done { pos: p2, tree: init_tree, .. } => if p2 > p {
                        match p_for_condition(t, p2, sel) {
                            POut::Done { pos: p3, tree: condition, .. } => if p3 > p {
                                match p_for_increment(t, p3, sel) {
                                    POut::Done { pos: p4, tree: increment, .. } => match expect(
                                        t,
                                        p4,
                                        sym(Symbol::LeftBrace),
                                    ) {
                                        POut::Done { pos: p5, .. } => if p5 > p {
                                            match p_block(t, p5, sel) {
                                                POut::Done { pos: p6, tree: body, .. } => leaf(
                                                    skip_semicolon(t, p6),
                                                    for_tree(t[p - 1].span, init_tree, condition, increment, body),
                                                ),
                                                f => f,
                                            }
                                        } else {
                                            POut::Fail(PErr::Stuck)
                                        },
                                        f => f,
                                    },
                                    f => f,
                                }
                            } else {
                                POut::Fail(PErr::Stuck)
                            },
                            f => f,
                        }
                    } else {
                        POut::Fail(PErr::Stuck)
                    },
                    f => f,
                }
            },
            f => f,
        }
    }
}

/// The statements of a block, from after its opening brace.
#[verifier::opaque]
pub open spec fn p_block_body(t: Seq<SpecToken>, p: int, sel: bool, acc: Seq<Tree>) -> POut
    decreases rem(t, p), 41nat,
{
    if !inside(t, p) {
        POut::Fail(PErr::Stuck)
    } else if at(t, p, sym(Symbol::RightBrace)) || at(t, p, TokenType::Eof) {
        leaf(p, Tree::Block(acc, Span::spec_zero()))
    } else {
        match p_declaration(t, p, sel) {
            POut::Done { pos: p1, tree, .. } => if p1 > p {
                p_block_body(t, p1, sel, acc.push(tree))
            } else {
                POut::Fail(PErr::Stuck)
            },
            f => f,
        }
    }
}

#[verifier::opaque]
pub open spec fn p_block(t: Seq<SpecToken>, p: int, sel: bool) -> POut
    decreases rem(t, p), 42nat,
{
    if !inside(t, p) {
        POut::Fail(PErr::Stuck)
    } else {
        block_closed(p_block_body(t, p, sel, Seq::empty()), t, p - 1)
    }
}

/// Values after the first in `VALUES (...)`, from a value on.
#[verifier::opaque]
pub open spec fn p_values(t: Seq<SpecToken>, p: int, sel: bool, acc: Seq<Tree>) -> POut
    decreases rem(t, p), 43nat,
{
    if !inside(t, p) {
        POut::Fail(PErr::Stuck)
    } else {
        match p_sql_expression(t, p, sel) {
            POut::Done { pos: p1, tree, .. } => if at(t, p1, sym(Symbol::Comma)) {
                if p1 >= p {
                    p_values(t, p1 + 1, sel, acc.push(tree))
                } else {
                    POut::Fail(PErr::Stuck)
                }
            } else {
                leaf(p1, Tree::List(acc.push(tree)))
            },
            f => f,
        }
    }
}

#[verifier::opaque]
pub open spec fn p_insert(t: Seq<SpecToken>, p: int, sel: bool) -> POut
    decreases rem(t, p), 28nat,
{
    if !inside(t, p) {
        POut::Fail(PErr::Stuck)
    } else if !at(t, p, skw(SqlKeyword::Insert)) {
        p_update(t, p, sel)
    } else {
        match expect(t, p + 1, skw(SqlKeyword::Into)) {
            POut::Done { pos: p1, .. } => match p_collection(t, p1) {
                None => POut::Fail(PErr::Unexpected(p1)),
                Some(POut::Fail(e)) => POut::Fail(e),
                Some(POut::Done { pos: p2, tree: collection, .. }) => if at(t, p2, skw(SqlKeyword::Select)) {
                    if p2 > p {
                        match p_select_inner(t, p2) {
                            POut::Done { pos: p3, tree: query, .. } => leaf(
                                p3,
                                Tree::Insert(Box::new(collection), Box::new(query), Span::spec_zero()),
                            ),
                            f => f,
                        }
                    } else {
                        POut::Fail(PErr::Stuck)
                    }
                } else if at(t, p2, skw(SqlKeyword::Values)) {
                    match expect(t, p2 + 1, sym(Symbol::LeftParen)) {
                        POut::Done { pos: p3, .. } => if p3 > p {
                            match p_values(t, p3, sel, Seq::empty()) {
                                POut::Done { pos: p4, tree: values, .. } => with_tree(
                                    expect(t, p4, sym(Symbol::RightParen)),
                                    Tree::Insert(
                                        Box::new(collection),
                                        Box::new(Tree::Values(list_of(values))),
                                        Span::spec_zero(),
                                    ),
                                ),
                                f => f,
                            }
                        } else {
                            POut::Fail(PErr::Stuck)
                        },
                        f => f,
                    }
                } else {
                    POut::Fail(PErr::Unexpected(p2))
                },
            },
            f => f,
        }
    }
}

/// The assignments of an update: `name = value` separated by commas. The
/// tree keeps the values.
#[verifier::opaque]
pub open spec fn p_assignments(t: Seq<SpecToken>, p: int, sel: bool, acc: Seq<Tree>) -> POut
    decreases rem(t, p), 43nat,
{
    if !inside(t, p) {
        POut::Fail(PErr::Stuck)
    } else {
        match expect(t, p, ident()) {
            POut::Done { pos: p1, .. } => match expect(t, p1, sym(Symbol::Equal)) {
                POut::Done { pos: p2, .. } => match p_sql_expression(t, p2, sel) {
                    POut::Done { pos: p3, tree, .. } => if at(t, p3, sym(Symbol::Comma)) {
                        if p3 >= p {
                            p_assignments(t, p3 + 1, sel, acc.push(tree))
                        } else {
                            POut::Fail(PErr::Stuck)
                        }
                    } else {
                        leaf(p3, Tree::List(acc.push(tree)))
                    },
                    f => f,
                },
                f => f,
            },
            f => f,
        }
    }
}

/// An optional `WHERE` clause.
#[verifier::opaque]
pub open spec fn p_where(t: Seq<SpecToken>, p: int, sel: bool) -> POut
    decreases rem(t, p), 47nat,
{
    if !inside(t, p) {
        POut::Fail(PErr::Stuck)
    } else if at(t, p, skw(SqlKeyword::Where)) {
        match p_sql_expression(t, p + 1, sel) {
            POut::Done { pos, tree, .. } => leaf(pos, Tree::Maybe(Some(Box::new(tree)))),
            f => f,
        }
    } else {
        leaf(p, Tree::Maybe(None))
    }
}

#[verifier::opaque]
pub open spec fn p_update(t: Seq<SpecToken>, p: int, sel: bool) -> POut
    decreases rem(t, p), 27nat,
{
    if !inside(t, p) {
        POut::Fail(PErr::Stuck)
    } else if !at(t, p, skw(SqlKeyword::Update)) {
        p_delete(t, p, sel)
    } else {
        let c = p_collection(t, p + 1);
        let p1 = match c {
            Some(POut::Done { pos, .. }) => pos,
            _ => p + 1,
        };
        match c {
            Some(POut::Fail(e)) => POut::Fail(e),
            _ => match expect(t, p1, skw(SqlKeyword::SetKw)) {
                POut::Done { pos: p2, .. } => if p2 > p {
                    match p_assignments(t, p2, sel, Seq::empty()) {
                        POut::Done { pos: p3, tree: assignments, .. } => if p3 > p {
                            match p_where(t, p3, sel) {
                                POut::Done { pos: p4, tree: w, .. } => match c {
                                    Some(POut::Done { tree: collection, .. }) => leaf(
                                        p4,
                                        Tree::Update(
                                            Box::new(collection),
                                            list_of(assignments),
                                            maybe_of(w),
                                            Span::spec_zero(),
                                        ),
                                    ),
                                    _ => POut::Fail(PErr::Unexpected(p + 1)),
                                },
                                f => f,
                            }
                        } else {
                            POut::Fail(PErr::Stuck)
                        },
                        f => f,
                    }
                } else {
                    POut::Fail(PErr::Stuck)
                },
                f => f,
            },
        }
    }
}

#[verifier::opaque]
pub open spec fn p_delete(t: Seq<SpecToken>, p: int, sel: bool) -> POut
    decreases rem(t, p), 26nat,
{
    if !inside(t, p) {
        POut::Fail(PErr::Stuck)
    } else if !at(t, p, skw(SqlKeyword::Delete)) {
        p_select(t, p, sel)
    } else {
        match expect(t, p + 1, skw(SqlKeyword::From)) {
            POut::Done { pos: p1, .. } => match p_collection(t, p1) {
                None => POut::Fail(PErr::Unexpected(p1)),
                Some(POut::Fail(e)) => POut::Fail(e),
                Some(POut::Done { pos: p2, tree: collection, .. }) => if p2 > p {
                    match p_where(t, p2, sel) {
                        POut::Done { pos: p3, tree: w, .. } => leaf(
                            p3,
                            Tree::Delete(Box::new(collection), maybe_of(w), Span::spec_zero()),
                        ),
                        f => f,
                    }
                } else {
                    POut::Fail(PErr::Stuck)
                },
            },
            f => f,
        }
    }
}

#[verifier::opaque]
pub open spec fn p_select(t: Seq<SpecToken>, p: int, sel: bool) -> POut
    decreases rem(t, p), 25nat,
{
    if !inside(t, p) {
        POut::Fail(PErr::Stuck)
    } else if !at(t, p, skw(SqlKeyword::Select)) {
        p_call(t, p, sel)
    } else {
        match p_select_inner(t, p) {
            POut::Done { pos: p1, tree, .. } => leaf(p1, Tree::Select(Box::new(tree), Span::spec_zero())),
            f => f,
        }
    }
}

/// The clauses of `ORDER BY`, from an expression on.
#[verifier::opaque]
pub open spec fn p_orderings(t: Seq<SpecToken>, p: int, acc: Seq<(Tree, SqlOrdering)>) -> POut
    decreases rem(t, p), 43nat,
{
    if !inside(t, p) {
        POut::Fail(PErr::Stuck)
    } else {
        match p_sql_expression(t, p, true) {
            POut::Done { pos: p1, tree, .. } => {
                let ordering = if at(t, p1, skw(SqlKeyword::Desc)) {
                    SqlOrdering::Desc
                } else {
                    SqlOrdering::Asc
                };
                let p2 = if at(t, p1, skw(SqlKeyword::Desc)) || at(t, p1, skw(SqlKeyword::Asc)) {
                    p1 + 1
                } else {
                    p1
                };
                if at(t, p2, sym(Symbol::Comma)) {
                    if p2 >= p {
                        p_orderings(t, p2 + 1, acc.push((tree, ordering)))
                    } else {
                        POut::Fail(PErr::Stuck)
                    }
                } else {
                    leaf(p2, Tree::Orderings(acc.push((tree, ordering))))
                }
            },
            f => f,
        }
    }
}

/// An optional `ORDER BY`.
#[verifier::opaque]
pub open spec fn p_order_by(t: Seq<SpecToken>, p: int) -> POut
    decreases rem(t, p), 47nat,
{
    if !inside(t, p) {
        POut::Fail(PErr::Stuck)
    } else if at(t, p, skw(SqlKeyword::Order)) {
        match expect(t, p + 1, skw(SqlKeyword::By)) {
            POut::Done { pos: p1, .. } => p_orderings(t, p1, Seq::empty()),
            f => f,
        }
    } else {
        leaf(p, Tree::Maybe(None))
    }
}

/// An optional `LIMIT`, with an optional `OFFSET` or second count.
#[verifier::opaque]
pub open spec fn p_limit(t: Seq<SpecToken>, p: int) -> POut
    decreases rem(t, p), 47nat,
{
    if !inside(t, p) {
        POut::Fail(PErr::Stuck)
    } else if at(t, p, skw(SqlKeyword::Limit)) {
        match p_sql_expression(t, p + 1, true) {
            POut::Done { pos: p1, tree: first, .. } => if at(t, p1, skw(SqlKeyword::Offset)) || at(
                t,
                p1,
                sym(Symbol::Comma),
            ) {
                if p1 >= p {
                    match p_sql_expression(t, p1 + 1, true) {
                        POut::Done { pos: p2, tree: second, .. } => leaf(
                            p2,
                            Tree::Limit(
                                Some(
                                    if at(t, p1, sym(Symbol::Comma)) {
                                        (Box::new(second), Some(Box::new(first)))
                                    } else {
                                        (Box::new(first), Some(Box::new(second)))
                                    },
                                ),
                            ),
                        ),
                        f => f,
                    }
                } else {
                    POut::Fail(PErr::Stuck)
                }
            } else {
                leaf(p1, Tree::Limit(Some((Box::new(first), None))))
            },
            f => f,
        }
    } else {
        leaf(p, Tree::Limit(None))
    }
}

#[verifier::opaque]
pub open spec fn p_select_inner(t: Seq<SpecToken>, p: int) -> POut
    decreases rem(t, p), 24nat,
{
    if !inside(t, p) {
        POut::Fail(PErr::Stuck)
    } else {
        match p_core(t, p) {
            POut::Done { pos: p1, tree: core, .. } => if p1 > p {
                match p_order_by(t, p1) {
                    POut::Done { pos: p2, tree: order_by, .. } => if p2 > p {
                        match p_limit(t, p2) {
                            POut::Done { pos: p3, tree: limit, .. } => leaf(
                                p3,
                                Tree::Query {
                                    core: Box::new(core),
                                    order_by: orderings_of(order_by),
                                    limit: limit_of(limit),
                                },
                            ),
                            f => f,
                        }
                    } else {
                        POut::Fail(PErr::Stuck)
                    },
                    f => f,
                }
            } else {
                POut::Fail(PErr::Stuck)
            },
            f => f,
        }
    }
}

/// An optional `GROUP BY`.
#[verifier::opaque]
pub open spec fn p_group_by(t: Seq<SpecToken>, p: int) -> POut
    decreases rem(t, p), 47nat,
{
    if !inside(t, p) {
        POut::Fail(PErr::Stuck)
    } else if at(t, p, skw(SqlKeyword::Group)) {
        match expect(t, p + 1, skw(SqlKeyword::By)) {
            POut::Done { pos: p1, .. } => match p_values(t, p1, true, Seq::empty()) {
                POut::Done { pos, tree, .. } => leaf(pos, Tree::Maybe(Some(Box::new(tree)))),
                f => f,
            },
            f => f,
        }
    } else {
        leaf(p, Tree::Maybe(None))
    }
}

/// An optional `FROM`.
#[verifier::opaque]
pub open spec fn p_from(t: Seq<SpecToken>, p: int) -> POut
    decreases rem(t, p), 47nat,
{
    if !inside(t, p) {
        POut::Fail(PErr::Stuck)
    } else if at(t, p, skw(SqlKeyword::From)) {
        match p_subquery_join(t, p + 1) {
            POut::Done { pos, tree, .. } => leaf(pos, Tree::Maybe(Some(Box::new(tree)))),
            f => f,
        }
    } else {
        leaf(p, Tree::Maybe(None))
    }
}

#[verifier::opaque]
pub open spec fn p_core(t: Seq<SpecToken>, p: int) -> POut
    decreases rem(t, p), 23nat,
{
    if !inside(t, p) {
        POut::Fail(PErr::Stuck)
    } else {
        match expect(t, p, skw(SqlKeyword::Select)) {
            POut::Done { pos: p1, .. } => {
                let distinct = if at(t, p1, skw(SqlKeyword::Distinct)) {
                    SqlDistinct::Distinct
                } else if at(t, p1, skw(SqlKeyword::All)) {
                    SqlDistinct::All
                } else {
                    SqlDistinct::ImplicitAll
                };
                let p2 = if at(t, p1, skw(SqlKeyword::Distinct)) || at(t, p1, skw(SqlKeyword::All)) {
                    p1 + 1
                } else {
                    p1
                };
                if p2 > p {
                    match p_projection(t, p2, Seq::empty()) {
                        POut::Done { pos: p3, tree: projection, .. } => if p3 > p {
                            match p_from(t, p3) {
                                POut::Done { pos: p4, tree: from, .. } => if p4 > p {
                                    match p_where(t, p4, true) {
                                        POut::Done { pos: p5, tree: w, .. } => if p5 > p {
                                            match p_group_by(t, p5) {
                                                POut::Done { pos: p6, tree: group_by, .. } => if p6 > p {
                                                    let having = if p6 > p5 && at(
                                                        t,
                                                        p6,
                                                        skw(SqlKeyword::Having),
                                                    ) {
                                                        match p_sql_expression(t, p6 + 1, true) {
                                                            POut::Done { pos, tree, .. } => leaf(
                                                                pos,
                                                                Tree::Maybe(Some(Box::new(tree))),
                                                            ),
                                                            f => f,
                                                        }
                                                    } else {
                                                        leaf(p6, Tree::Maybe(None))
                                                    };
                                                    match having {
                                                        POut::Done { pos: p7, tree: h, .. } => if p7 > p {
                                                            match p_compound(t, p7) {
                                                                POut::Done { pos: p8, tree: compound, .. } => leaf(
                                                                    p8,
                                                                    Tree::Core {
                                                                        distinct,
                                                                        projection: list_of(projection),
                                                                        from: maybe_of(from),
                                                                        where_clause: maybe_of(w),
                                                                        group_by: group_of(group_by),
                                                                        having: maybe_of(h),
                                                                        compound: compound_of(compound),
                                                                    },
                                                                ),
                                                                f => f,
                                                            }
                                                        } else {
                                                            POut::Fail(PErr::Stuck)
                                                        },
                                                        f => f,
                                                    }
                                                } else {
                                                    POut::Fail(PErr::Stuck)
                                                },
                                                f => f,
                                            }
                                        } else {
                                            POut::Fail(PErr::Stuck)
                                        },
                                        f => f,
                                    }
                                } else {
                                    POut::Fail(PErr::Stuck)
                                },
                                f => f,
                            }
                        } else {
                            POut::Fail(PErr::Stuck)
                        },
                        f => f,
                    }
                } else {
                    POut::Fail(PErr::Stuck)
                }
            },
            f => f,
        }
    }
}

/// An optional `UNION`, `UNION ALL`, `INTERSECT` or `EXCEPT` and the core
/// after it.
#[verifier::opaque]
pub open spec fn p_compound(t: Seq<SpecToken>, p: int) -> POut
    decreases rem(t, p), 47nat,
{
    if !inside(t, p) {
        POut::Fail(PErr::Stuck)
    } else if op_in(t, p, compound_ops()) {
        let all = t[p].tok_type == skw(SqlKeyword::Union) && at(t, p + 1, skw(SqlKeyword::All));
        let p1 = if all {
            p + 2
        } else {
            p + 1
        };
        let operator = if all {
            SqlCompoundOperator::UnionAll
        } else if t[p].tok_type == skw(SqlKeyword::Union) {
            SqlCompoundOperator::Union
        } else if t[p].tok_type == skw(SqlKeyword::Intersect) {
            SqlCompoundOperator::Intersect
        } else {
            SqlCompoundOperator::Except
        };
        match p_core(t, p1) {
            POut::Done { pos, tree, .. } => leaf(pos, Tree::Compound(Some((operator, Box::new(tree))))),
            f => f,
        }
    } else {
        leaf(p, Tree::Compound(None))
    }
}

#[verifier::opaque]
pub open spec fn p_projection(t: Seq<SpecToken>, p: int, acc: Seq<Tree>) -> POut
    decreases rem(t, p), 43nat,
{
    if !inside(t, p) {
        POut::Fail(PErr::Stuck)
    } else {
        let item = if at(t, p, sym(Symbol::Star)) {
            leaf(p + 1, Tree::ProjectAll(None))
        } else if starts_with(t, p, seq![ident(), sym(Symbol::Dot), sym(Symbol::Star)]) {
            leaf(p + 3, Tree::ProjectAll(Some(name_at(t, p))))
        } else {
            match p_sql_expression(t, p, true) {
                POut::Done { pos: p1, tree, .. } => with_tree(
                    opt_with_expected(t, p1, skw(SqlKeyword::As), ident()),
                    Tree::ProjectExpr(Box::new(tree), alias_at(t, p1)),
                ),
                f => f,
            }
        };
        match item {
            POut::Done { pos: p2, tree, .. } => if at(t, p2, sym(Symbol::Comma)) {
                if p2 >= p {
                    p_projection(t, p2 + 1, acc.push(tree))
                } else {
                    POut::Fail(PErr::Stuck)
                }
            } else {
                leaf(p2, Tree::List(acc.push(tree)))
            },
            f => f,
        }
    }
}

/// A join at `p`: `JOIN`, `INNER JOIN`, `LEFT [OUTER] JOIN` or `RIGHT
/// [OUTER] JOIN`, a collection and an optional `ON`, with `left` on its left
/// side.
#[verifier::opaque]
pub open spec fn p_join(t: Seq<SpecToken>, p: int, left: Tree) -> POut
    decreases rem(t, p), 44nat,
{
    if !inside(t, p) {
        POut::Fail(PErr::Stuck)
    } else {
        let kind = if t[p].tok_type == skw(SqlKeyword::Inner) {
            expect(t, p + 1, skw(SqlKeyword::Join))
        } else if t[p].tok_type == skw(SqlKeyword::Left) || t[p].tok_type == skw(SqlKeyword::Right) {
            opt_with_expected(t, p + 1, skw(SqlKeyword::Outer), skw(SqlKeyword::Join))
        } else {
            done(p + 1)
        };
        let join_type = if t[p].tok_type == skw(SqlKeyword::Left) {
            SqlJoinType::Left
        } else if t[p].tok_type == skw(SqlKeyword::Right) {
            SqlJoinType::Right
        } else {
            SqlJoinType::Inner
        };
        match kind {
            POut::Done { pos: p1, .. } => if p1 > p {
                match p_subquery_collection(t, p1) {
                    POut::Done { pos: p2, tree: right, .. } => {
                        let on = if at(t, p2, skw(SqlKeyword::On)) {
                            if p2 >= p {
                                match p_sql_expression(t, p2 + 1, true) {
                                    POut::Done { pos, tree, .. } => leaf(
                                        pos,
                                        Tree::Maybe(Some(Box::new(tree))),
                                    ),
                                    f => f,
                                }
                            } else {
                                POut::Fail(PErr::Stuck)
                            }
                        } else {
                            leaf(p2, Tree::Maybe(None))
                        };
                        match on {
                            POut::Done { pos: p3, tree: constraint, .. } => leaf(
                                p3,
                                Tree::Join(Box::new(left), Box::new(right), join_type, maybe_of(constraint)),
                            ),
                            f => f,
                        }
                    },
                    f => f,
                }
            } else {
                POut::Fail(PErr::Stuck)
            },
            f => f,
        }
    }
}

/// The joins that follow a collection. Each join takes what came before it
/// as its left side.
#[verifier::opaque]
pub open spec fn p_joins(t: Seq<SpecToken>, p: int, left: Tree) -> POut
    decreases rem(t, p), 45nat,
{
    if !inside(t, p) {
        POut::Fail(PErr::Stuck)
    } else if op_in(t, p, join_ops()) {
        match p_join(t, p, left) {
            POut::Done { pos, tree, .. } => if pos > p {
                p_joins(t, pos, tree)
            } else {
                POut::Fail(PErr::Stuck)
            },
            f => f,
        }
    } else {
        leaf(p, left)
    }
}

/// Collections with their joins, separated by commas.
#[verifier::opaque]
pub open spec fn p_join_groups(t: Seq<SpecToken>, p: int, acc: Seq<Tree>) -> POut
    decreases rem(t, p), 45nat,
{
    if !inside(t, p) {
        POut::Fail(PErr::Stuck)
    } else {
        match p_subquery_collection(t, p) {
            POut::Done { pos: p1, tree: left, .. } => if p1 > p {
                match p_joins(t, p1, left) {
                    POut::Done { pos: p2, tree, .. } => if at(t, p2, sym(Symbol::Comma)) {
                        if p2 >= p {
                            p_join_groups(t, p2 + 1, acc.push(tree))
                        } else {
                            POut::Fail(PErr::Stuck)
                        }
                    } else {
                        leaf(p2, Tree::Group(acc.push(tree)))
                    },
                    f => f,
                }
            } else {
                POut::Fail(PErr::Stuck)
            },
            f => f,
        }
    }
}

#[verifier::opaque]
pub open spec fn p_subquery_join(t: Seq<SpecToken>, p: int) -> POut
    decreases rem(t, p), 46nat,
{
    if !inside(t, p) {
        POut::Fail(PErr::Stuck)
    } else {
        p_join_groups(t, p, Seq::empty())
    }
}

#[verifier::opaque]
pub open spec fn p_subquery_collection(t: Seq<SpecToken>, p: int) -> POut
    decreases rem(t, p), 44nat,
{
    if !inside(t, p) {
        POut::Fail(PErr::Stuck)
    } else if at(t, p, sym(Symbol::LeftParen)) {
        if at(t, p + 1, skw(SqlKeyword::Select)) {
            match p_select(t, p + 1, true) {
                POut::Done { pos: p1, tree, .. } => match expect(t, p1, sym(Symbol::RightParen)) {
                    POut::Done { pos: p2, .. } => with_tree(
                        opt_with_expected(t, p2, skw(SqlKeyword::As), ident()),
                        Tree::SubSelect(Box::new(tree), alias_at(t, p2)),
                    ),
                    f => f,
                },
                f => f,
            }
        } else {
            match p_subquery_join(t, p + 1) {
                POut::Done { pos: p1, tree, .. } => with_tree(expect(t, p1, sym(Symbol::RightParen)), tree),
                f => f,
            }
        }
    } else {
        match p_collection(t, p) {
            None => POut::Fail(PErr::Unexpected(p)),
            Some(r) => r,
        }
    }
}

/// The keyword of an SQL predicate at `p`, if there is one.
pub open spec fn conj_at(t: Seq<SpecToken>, p: int) -> Option<TokenType> {
    if op_in(t, p, conj_ops()) {
        Some(t[p].tok_type)
    } else {
        None
    }
}

#[verifier::opaque]
pub open spec fn p_sql_expression(t: Seq<SpecToken>, p: int, sel: bool) -> POut
    decreases rem(t, p), 42nat,
{
    if !inside(t, p) {
        POut::Fail(PErr::Stuck)
    } else {
        match p_expression(t, p, sel) {
            POut::Done { pos: p1, tree: e, .. } => {
                let left = Tree::SqlDefault(Box::new(e));
                let fst = conj_at(t, p1);
                let q1 = if fst is Some {
                    p1 + 1
                } else {
                    p1
                };
                let sec = if fst is Some {
                    conj_at(t, q1)
                } else {
                    None
                };
                let q2 = if sec is Some {
                    q1 + 1
                } else {
                    q1
                };
                if fst is None {
                    leaf(q2, left)
                } else if q2 > p {
                    match pred_of(fst, sec) {
                        Some(pred) => match p_sql_expression(t, q2, sel) {
                            POut::Done { pos, tree, .. } => leaf(
                                pos,
                                Tree::SqlPredicate(pred, Box::new(left), Box::new(tree)),
                            ),
                            f => f,
                        },
                        None => if is_between(fst, sec) {
                            match p_between(t, q2, sel) {
                                POut::Done { pos, tree, .. } => leaf(
                                    pos,
                                    Tree::SqlBetween(
                                        fst == Some(skw(SqlKeyword::Not)),
                                        Box::new(left),
                                        Box::new(list_of(tree)[0]),
                                        Box::new(list_of(tree)[1]),
                                    ),
                                ),
                                f => f,
                            }
                        } else {
                            leaf(q2, left)
                        },
                    }
                } else {
                    POut::Fail(PErr::Stuck)
                }
            },
            f => f,
        }
    }
}

#[verifier::opaque]
pub open spec fn p_between(t: Seq<SpecToken>, p: int, sel: bool) -> POut
    decreases rem(t, p), 34nat,
{
    if !inside(t, p) {
        POut::Fail(PErr::Stuck)
    } else {
        match p_equality(t, p, sel) {
            POut::Done { pos: p1, tree: lower, .. } => match expect(t, p1, skw(SqlKeyword::And)) {
                POut::Done { pos: p2, .. } => if p2 > p {
                    match p_equality(t, p2, sel) {
                        POut::Done { pos: p3, tree: upper, .. } => leaf(
                            p3,
                            Tree::List(
                                seq![
                                    Tree::SqlDefault(Box::new(lower)),
                                    Tree::SqlDefault(Box::new(upper)),
                                ],
                            ),
                        ),
                        f => f,
                    }
                } else {
                    POut::Fail(PErr::Stuck)
                },
                f => f,
            },
            f => f,
        }
    }
}

/// The declarations of a program up to the end of input.
#[verifier::opaque]
pub open spec fn p_program_body(t: Seq<SpecToken>, p: int, acc: Seq<Tree>) -> POut
    decreases rem(t, p),
{
    if !inside(t, p) {
        POut::Fail(PErr::Stuck)
    } else if at(t, p, TokenType::Eof) {
        leaf(p, program_of(acc))
    } else {
        match p_declaration(t, p, false) {
            POut::Done { pos: p1, tree, .. } => if p1 > p {
                p_program_body(t, p1, acc.push(tree))
            } else {
                POut::Fail(PErr::Stuck)
            },
            f => f,
        }
    }
}

/// A program: its declarations and the end of input.
pub open spec fn p_program(t: Seq<SpecToken>) -> POut {
    then_expect(p_program_body(t, 0, Seq::empty()), t, TokenType::Eof)
}

} // verus!
