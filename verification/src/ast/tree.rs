//! The syntax tree that a node of the arena stands for, with its children in
//! place of their indices and without spans.
use vstd::prelude::*;

use super::{entries_view, AstArena, Literal, LiteralView, ObjectKeyView};
use super::expr::{Expr, ExprId, Operation};
use super::stmt::{Stmt, StmtId};
use super::sql::{
    SqlCollectionIdentifier, SqlCollectionSubquery, SqlCompoundOperator, SqlDistinct, SqlExpr,
    SqlExprId, SqlJoinType, SqlOrderByClause, SqlOrdering, SqlProjection, SqlSelect, SqlSelectCore,
    SqlValues,
};
use crate::tokens::{Identifier, Span, Spanned};

verus! {

/// A name and whether it was written with a dollar sign.
pub type NameView = (Seq<char>, bool);

pub open spec fn name_of(i: Identifier) -> NameView {
    (i.name@, i.dollar)
}

/// The names of a list of identifiers.
pub open spec fn names_view(v: Seq<Identifier>) -> Seq<NameView> {
    v.map_values(|i: Identifier| name_of(i))
}

/// A syntax tree. `List`, `Names` and `Maybe` carry the parts of a node while
/// the parser reads them.
pub enum Tree {
    Empty,
    Select(Box<Tree>, Span),
    Insert(Box<Tree>, Box<Tree>, Span),
    Update(Box<Tree>, Seq<Tree>, Option<Box<Tree>>, Span),
    Delete(Box<Tree>, Option<Box<Tree>>, Span),
    Variable(NameView, Span),
    Grouping(Box<Tree>, Span),
    Scalar(LiteralView, Seq<char>, Span),
    Array(Seq<Tree>, Seq<char>, Span),
    Object(Seq<(ObjectKeyView, Tree)>, Seq<char>, Span),
    Function(Option<NameView>, Seq<NameView>, Seq<Tree>, Span),
    Binary(Box<Tree>, Operation, Box<Tree>, Span),
    Unary(Operation, Box<Tree>, Span),
    Assignment(NameView, Box<Tree>, Span),
    Logical(Box<Tree>, Operation, Box<Tree>, Span),
    Call(Box<Tree>, Seq<Tree>, Span),
    Get(Box<Tree>, NameView, Span),
    SetProperty(Box<Tree>, NameView, Box<Tree>, Span),
    Program(Seq<Tree>, Span),
    Expression(Box<Tree>, Span),
    Break(Span),
    Continue(Span),
    Block(Seq<Tree>, Span),
    Declaration(NameView, Box<Tree>, Span),
    If(Box<Tree>, Box<Tree>, Option<Box<Tree>>, Span),
    Loop(Option<Box<Tree>>, Box<Tree>, Option<Box<Tree>>, Span),
    Return(Option<Box<Tree>>, Span),
    SqlDefault(Box<Tree>),
    SqlPredicate(SqlPred, Box<Tree>, Box<Tree>),
    SqlBetween(bool, Box<Tree>, Box<Tree>, Box<Tree>),
    Collection(Option<NameView>, NameView, Option<NameView>),
    Group(Seq<Tree>),
    Join(Box<Tree>, Box<Tree>, SqlJoinType, Option<Box<Tree>>),
    SubSelect(Box<Tree>, Option<NameView>),
    ProjectAll(Option<NameView>),
    ProjectExpr(Box<Tree>, Option<NameView>),
    Core {
        distinct: SqlDistinct,
        projection: Seq<Tree>,
        from: Option<Box<Tree>>,
        where_clause: Option<Box<Tree>>,
        group_by: Option<Seq<Tree>>,
        having: Option<Box<Tree>>,
        compound: Option<(SqlCompoundOperator, Box<Tree>)>,
    },
    Query {
        core: Box<Tree>,
        order_by: Option<Seq<(Tree, SqlOrdering)>>,
        limit: Option<(Box<Tree>, Option<Box<Tree>>)>,
    },
    Values(Seq<Tree>),
    List(Seq<Tree>),
    Names(Seq<NameView>),
    Maybe(Option<Box<Tree>>),
    Orderings(Seq<(Tree, SqlOrdering)>),
    Limit(Option<(Box<Tree>, Option<Box<Tree>>)>),
    Compound(Option<(SqlCompoundOperator, Box<Tree>)>),
}

/// The span that an expression or statement tree carries.
pub open spec fn span_of(tree: Tree) -> Span {
    match tree {
        Tree::Select(_, s) => s,
        Tree::Insert(_, _, s) => s,
        Tree::Update(_, _, _, s) => s,
        Tree::Delete(_, _, s) => s,
        Tree::Variable(_, s) => s,
        Tree::Grouping(_, s) => s,
        Tree::Scalar(_, _, s) => s,
        Tree::Array(_, _, s) => s,
        Tree::Object(_, _, s) => s,
        Tree::Function(_, _, _, s) => s,
        Tree::Binary(_, _, _, s) => s,
        Tree::Unary(_, _, s) => s,
        Tree::Assignment(_, _, s) => s,
        Tree::Logical(_, _, _, s) => s,
        Tree::Call(_, _, s) => s,
        Tree::Get(_, _, s) => s,
        Tree::SetProperty(_, _, _, s) => s,
        Tree::Program(_, s) => s,
        Tree::Expression(_, s) => s,
        Tree::Break(s) => s,
        Tree::Continue(s) => s,
        Tree::Block(_, s) => s,
        Tree::Declaration(_, _, s) => s,
        Tree::If(_, _, _, s) => s,
        Tree::Loop(_, _, _, s) => s,
        Tree::Return(_, s) => s,
        _ => Span::spec_zero(),
    }
}

/// The SQL predicates between two operands.
pub enum SqlPred {
    Is,
    IsNot,
    In,
    NotIn,
    Like,
    NotLike,
}

pub open spec fn opt_name(i: Option<Identifier>) -> Option<NameView> {
    match i {
        Some(n) => Some(name_of(n)),
        None => None,
    }
}

/// The tree of a collection named in a query.
pub open spec fn collection_tree(c: SqlCollectionIdentifier) -> Tree {
    Tree::Collection(opt_name(c.namespace), name_of(c.name), opt_name(c.alias))
}

/// The tree of the expression at `id`.
pub open spec fn expr_tree(a: AstArena, id: ExprId) -> Tree
    decreases a.expr_times@[id.0 as int], 4nat, 0nat,
{
    if id.0 < a.expressions@.len() {
        expr_node_tree(a, a.expressions@[id.0 as int], a.expr_times@[id.0 as int])
    } else {
        Tree::Empty
    }
}

/// The tree of the statement at `id`.
pub open spec fn stmt_tree(a: AstArena, id: StmtId) -> Tree
    decreases a.stmt_times@[id.0 as int], 4nat, 0nat,
{
    if id.0 < a.statements@.len() {
        stmt_node_tree(a, a.statements@[id.0 as int], a.stmt_times@[id.0 as int])
    } else {
        Tree::Empty
    }
}

/// The tree of a child expression of a node allocated at time `t`.
pub open spec fn child_expr(a: AstArena, id: ExprId, t: nat) -> Tree
    decreases t, 0nat, 0nat,
{
    if a.expr_ref_ok(id, t) {
        expr_tree(a, id)
    } else {
        Tree::Empty
    }
}

/// The tree of a child statement of a node allocated at time `t`.
pub open spec fn child_stmt(a: AstArena, id: StmtId, t: nat) -> Tree
    decreases t, 0nat, 0nat,
{
    if a.stmt_ref_ok(id, t) {
        stmt_tree(a, id)
    } else {
        Tree::Empty
    }
}

pub open spec fn child_opt_expr(a: AstArena, id: Option<ExprId>, t: nat) -> Option<Box<Tree>>
    decreases t, 1nat, 0nat,
{
    match id {
        Some(e) => Some(Box::new(child_expr(a, e, t))),
        None => None,
    }
}

pub open spec fn child_opt_stmt(a: AstArena, id: Option<StmtId>, t: nat) -> Option<Box<Tree>>
    decreases t, 1nat, 0nat,
{
    match id {
        Some(s) => Some(Box::new(child_stmt(a, s, t))),
        None => None,
    }
}

/// The trees of child expressions.
pub open spec fn child_exprs(a: AstArena, ids: Seq<ExprId>, t: nat) -> Seq<Tree>
    decreases t, 1nat, ids.len(),
{
    if ids.len() == 0 {
        Seq::empty()
    } else {
        child_exprs(a, ids.drop_last(), t).push(child_expr(a, ids.last(), t))
    }
}

/// The trees of child statements.
pub open spec fn child_stmts(a: AstArena, ids: Seq<StmtId>, t: nat) -> Seq<Tree>
    decreases t, 1nat, ids.len(),
{
    if ids.len() == 0 {
        Seq::empty()
    } else {
        child_stmts(a, ids.drop_last(), t).push(child_stmt(a, ids.last(), t))
    }
}

/// The entries of an object literal with the trees of their values.
pub open spec fn child_entries(a: AstArena, es: Seq<(ObjectKeyView, ExprId)>, t: nat) -> Seq<(ObjectKeyView, Tree)>
    decreases t, 1nat, es.len(),
{
    if es.len() == 0 {
        Seq::empty()
    } else {
        child_entries(a, es.drop_last(), t).push((es.last().0, child_expr(a, es.last().1, t)))
    }
}

/// The tree of an expression node allocated at time `t`.
pub open spec fn expr_node_tree(a: AstArena, e: Expr, t: nat) -> Tree
    decreases t, 3nat, 0nat,
{
    match e {
        Expr::Select { query, span } => Tree::Select(Box::new(select_tree(a, query, t)), span),
        Expr::Insert { command, span } => Tree::Insert(
            Box::new(collection_tree(command.collection)),
            Box::new(
                match command.values {
                    SqlValues::Values { values } => Tree::Values(child_sqls(a, values@, t)),
                    SqlValues::Select(s) => select_tree(a, s, t),
                },
            ),
            span,
        ),
        Expr::Update { command, span } => Tree::Update(
            Box::new(collection_tree(command.collection)),
            child_sqls(a, command.assignments@, t),
            child_opt_sql(a, command.where_clause, t),
            span,
        ),
        Expr::Delete { command, span } => Tree::Delete(
            Box::new(collection_tree(command.collection)),
            child_opt_sql(a, command.where_clause, t),
            span,
        ),
        Expr::Variable { name, span } => Tree::Variable(name_of(name), span),
        Expr::Grouping { expr, span } => Tree::Grouping(Box::new(child_expr(a, expr, t)), span),
        Expr::Literal { value, raw, span } => match value@ {
            LiteralView::Array(items) => Tree::Array(child_exprs(a, items, t), raw@, span),
            LiteralView::Object(es) => Tree::Object(child_entries(a, es, t), raw@, span),
            v => Tree::Scalar(v, raw@, span),
        },
        Expr::Function { name, parameters, body, span } => Tree::Function(
            match name {
                Some(n) => Some(name_of(n)),
                None => None,
            },
            names_view(parameters@),
            child_stmts(a, body@, t),
            span,
        ),
        Expr::Binary { left, operation, right, span } => Tree::Binary(
            Box::new(child_expr(a, left, t)),
            operation,
            Box::new(child_expr(a, right, t)),
            span,
        ),
        Expr::Unary { operation, expr, span } => Tree::Unary(operation, Box::new(child_expr(a, expr, t)), span),
        Expr::Assignment { dst, expr, span } => Tree::Assignment(
            name_of(dst),
            Box::new(child_expr(a, expr, t)),
            span,
        ),
        Expr::Logical { left, operation, right, span } => Tree::Logical(
            Box::new(child_expr(a, left, t)),
            operation,
            Box::new(child_expr(a, right, t)),
            span,
        ),
        Expr::Call { callee, args, span } => Tree::Call(
            Box::new(child_expr(a, callee, t)),
            child_exprs(a, args@, t),
            span,
        ),
        Expr::Get { object, name, span } => Tree::Get(Box::new(child_expr(a, object, t)), name_of(name), span),
        Expr::SetProperty { object, name, value, span } => Tree::SetProperty(
            Box::new(child_expr(a, object, t)),
            name_of(name),
            Box::new(child_expr(a, value, t)),
            span,
        ),
    }
}

/// The tree of the SQL expression at `id`.
pub open spec fn sql_tree(a: AstArena, id: SqlExprId) -> Tree
    decreases a.sql_times@[id.0 as int], 4nat, 0nat,
{
    if id.0 < a.sql_expressions@.len() {
        sql_node_tree(a, a.sql_expressions@[id.0 as int], a.sql_times@[id.0 as int])
    } else {
        Tree::Empty
    }
}

/// The tree of a child SQL expression of a node allocated at time `t`.
pub open spec fn child_sql(a: AstArena, id: SqlExprId, t: nat) -> Tree
    decreases t, 0nat, 0nat,
{
    if a.sql_ref_ok(id, t) {
        sql_tree(a, id)
    } else {
        Tree::Empty
    }
}

pub open spec fn child_opt_sql(a: AstArena, id: Option<SqlExprId>, t: nat) -> Option<Box<Tree>>
    decreases t, 1nat, 0nat,
{
    match id {
        Some(e) => Some(Box::new(child_sql(a, e, t))),
        None => None,
    }
}

/// The trees of child SQL expressions.
pub open spec fn child_sqls(a: AstArena, ids: Seq<SqlExprId>, t: nat) -> Seq<Tree>
    decreases t, 1nat, ids.len(),
{
    if ids.len() == 0 {
        Seq::empty()
    } else {
        child_sqls(a, ids.drop_last(), t).push(child_sql(a, ids.last(), t))
    }
}

/// The tree of an SQL expression node allocated at time `t`.
pub open spec fn sql_node_tree(a: AstArena, q: SqlExpr, t: nat) -> Tree
    decreases t, 3nat, 0nat,
{
    let pred = |p: SqlPred, l: SqlExprId, r: SqlExprId|
        Tree::SqlPredicate(p, Box::new(child_sql(a, l, t)), Box::new(child_sql(a, r, t)));
    match q {
        SqlExpr::Default(e) => Tree::SqlDefault(Box::new(child_expr(a, e, t))),
        SqlExpr::Is { left, right } => pred(SqlPred::Is, left, right),
        SqlExpr::IsNot { left, right } => pred(SqlPred::IsNot, left, right),
        SqlExpr::In { left, right } => pred(SqlPred::In, left, right),
        SqlExpr::NotIn { left, right } => pred(SqlPred::NotIn, left, right),
        SqlExpr::Like { left, right } => pred(SqlPred::Like, left, right),
        SqlExpr::NotLike { left, right } => pred(SqlPred::NotLike, left, right),
        SqlExpr::Between { expr, lower, upper } => Tree::SqlBetween(
            false,
            Box::new(child_sql(a, expr, t)),
            Box::new(child_sql(a, lower, t)),
            Box::new(child_sql(a, upper, t)),
        ),
        SqlExpr::NotBetween { expr, lower, upper } => Tree::SqlBetween(
            true,
            Box::new(child_sql(a, expr, t)),
            Box::new(child_sql(a, lower, t)),
            Box::new(child_sql(a, upper, t)),
        ),
    }
}

pub open spec fn projection_tree(a: AstArena, p: SqlProjection, t: nat) -> Tree
    decreases t, 1nat, 0nat,
{
    match p {
        SqlProjection::All { collection } => Tree::ProjectAll(opt_name(collection)),
        SqlProjection::Expr { expr, alias } => Tree::ProjectExpr(Box::new(child_sql(a, expr, t)), opt_name(alias)),
    }
}

pub open spec fn projections_tree(a: AstArena, ps: Seq<SqlProjection>, t: nat) -> Seq<Tree>
    decreases t, 1nat, ps.len(),
{
    if ps.len() == 0 {
        Seq::empty()
    } else {
        projections_tree(a, ps.drop_last(), t).push(projection_tree(a, ps.last(), t))
    }
}

pub open spec fn orderings_tree(a: AstArena, os: Seq<SqlOrderByClause>, t: nat) -> Seq<(Tree, SqlOrdering)>
    decreases t, 1nat, os.len(),
{
    if os.len() == 0 {
        Seq::empty()
    } else {
        orderings_tree(a, os.drop_last(), t).push((child_sql(a, os.last().expr, t), os.last().ordering))
    }
}

/// How deeply a collection, subquery or join nests: it bounds the
/// recursion over its parts.
pub open spec fn subquery_size(q: SqlCollectionSubquery) -> nat
    decreases q,
{
    match q {
        SqlCollectionSubquery::Group { values } => 1 + subqueries_size(values@),
        SqlCollectionSubquery::Join { left, right, .. } => 1 + subquery_size(*left) + subquery_size(
            *right,
        ),
        _ => 1,
    }
}

pub open spec fn subqueries_size(qs: Seq<SqlCollectionSubquery>) -> nat
    decreases qs,
{
    if qs.len() == 0 {
        0
    } else {
        subqueries_size(qs.subrange(0, qs.len() - 1)) + subquery_size(qs[qs.len() - 1]) + 1
    }
}

/// How deeply the core of a query nests, with its compound cores.
pub open spec fn core_size(c: SqlSelectCore) -> nat
    decreases c,
{
    1 + match c.from {
        Some(q) => subquery_size(q),
        None => 0,
    } + match c.compound {
        Some(b) => core_size(b.core),
        None => 0,
    }
}

/// The tree of a collection, subquery or join in a query.
pub open spec fn subquery_tree(a: AstArena, q: SqlCollectionSubquery, t: nat) -> Tree
    decreases t, 2nat, subquery_size(q),
{
    match q {
        SqlCollectionSubquery::Group { values } => Tree::Group(subqueries_tree(a, values@, t)),
        SqlCollectionSubquery::Join { left, right, join_type, constraint } => Tree::Join(
            Box::new(subquery_tree(a, *left, t)),
            Box::new(subquery_tree(a, *right, t)),
            join_type,
            child_opt_sql(a, constraint, t),
        ),
        SqlCollectionSubquery::Collection(c) => collection_tree(c),
        SqlCollectionSubquery::Select { expr, alias } => Tree::SubSelect(
            Box::new(child_expr(a, expr, t)),
            opt_name(alias),
        ),
    }
}

pub open spec fn subqueries_tree(a: AstArena, qs: Seq<SqlCollectionSubquery>, t: nat) -> Seq<Tree>
    decreases t, 2nat, subqueries_size(qs),
{
    if qs.len() == 0 {
        Seq::empty()
    } else {
        subqueries_tree(a, qs.subrange(0, qs.len() - 1), t).push(subquery_tree(a, qs[qs.len() - 1], t))
    }
}

/// The tree of the core of a query.
pub open spec fn core_tree(a: AstArena, c: SqlSelectCore, t: nat) -> Tree
    decreases t, 2nat, core_size(c),
{
    Tree::Core {
        distinct: c.distinct,
        projection: projections_tree(a, c.projection@, t),
        from: match c.from {
            Some(q) => Some(Box::new(subquery_tree(a, q, t))),
            None => None,
        },
        where_clause: child_opt_sql(a, c.where_clause, t),
        group_by: match c.group_by {
            Some(g) => Some(child_sqls(a, g@, t)),
            None => None,
        },
        having: child_opt_sql(a, c.having, t),
        compound: match c.compound {
            Some(b) => Some((b.operator, Box::new(core_tree(a, b.core, t)))),
            None => None,
        },
    }
}

/// The tree of a query.
pub open spec fn select_tree(a: AstArena, s: SqlSelect, t: nat) -> Tree
    decreases t, 2nat, core_size(s.core) + 1,
{
    Tree::Query {
        core: Box::new(core_tree(a, s.core, t)),
        order_by: match s.order_by {
            Some(o) => Some(orderings_tree(a, o@, t)),
            None => None,
        },
        limit: match s.limit {
            Some(l) => Some((Box::new(child_sql(a, l.count, t)), child_opt_sql(a, l.offset, t))),
            None => None,
        },
    }
}

/// The tree of a statement node allocated at time `t`.
pub open spec fn stmt_node_tree(a: AstArena, s: Stmt, t: nat) -> Tree
    decreases t, 3nat, 0nat,
{
    match s {
        Stmt::Program { body, span } => Tree::Program(child_stmts(a, body@, t), span),
        Stmt::Expression { expr, span } => Tree::Expression(Box::new(child_expr(a, expr, t)), span),
        Stmt::Break { span } => Tree::Break(span),
        Stmt::Continue { span } => Tree::Continue(span),
        Stmt::Block { body, span } => Tree::Block(child_stmts(a, body@, t), span),
        Stmt::Declaration { dst, expr, span } => Tree::Declaration(
            name_of(dst),
            Box::new(child_expr(a, expr, t)),
            span,
        ),
        Stmt::If { condition, body, else_body, span } => Tree::If(
            Box::new(child_expr(a, condition, t)),
            Box::new(child_stmt(a, body, t)),
            child_opt_stmt(a, else_body, t),
            span,
        ),
        Stmt::Loop { condition, body, post, span } => Tree::Loop(
            child_opt_expr(a, condition, t),
            Box::new(child_stmt(a, body, t)),
            child_opt_stmt(a, post, t),
            span,
        ),
        Stmt::Return { expr, span } => Tree::Return(child_opt_expr(a, expr, t), span),
    }
}

/// The span that the tree of an expression carries is the node's own.
pub proof fn lemma_expr_span(a: AstArena, id: ExprId)
    requires
        id.0 < a.expressions@.len(),
    ensures
        span_of(expr_tree(a, id)) == a.expressions@[id.0 as int].spec_span(),
{
}

/// The span that the tree of a statement carries is the node's own.
pub proof fn lemma_stmt_span(a: AstArena, id: StmtId)
    requires
        id.0 < a.statements@.len(),
    ensures
        span_of(stmt_tree(a, id)) == a.statements@[id.0 as int].spec_span(),
{
}

/// The tree of an expression does not change when the arena grows.
pub proof fn lemma_expr_tree_stable(new: AstArena, old: AstArena, id: ExprId)
    requires
        new.extends(old),
        old.wf(),
        id.0 < old.expressions@.len(),
    ensures
        expr_tree(new, id) == expr_tree(old, id),
    decreases old.expr_times@[id.0 as int], 4nat, 0nat,
{
    let t = old.expr_times@[id.0 as int];
    lemma_expr_node_stable(new, old, old.expressions@[id.0 as int], t);
}

/// The tree of a statement does not change when the arena grows.
pub proof fn lemma_stmt_tree_stable(new: AstArena, old: AstArena, id: StmtId)
    requires
        new.extends(old),
        old.wf(),
        id.0 < old.statements@.len(),
    ensures
        stmt_tree(new, id) == stmt_tree(old, id),
    decreases old.stmt_times@[id.0 as int], 4nat, 0nat,
{
    let t = old.stmt_times@[id.0 as int];
    lemma_stmt_node_stable(new, old, old.statements@[id.0 as int], t);
}

proof fn lemma_child_expr_stable(new: AstArena, old: AstArena, id: ExprId, t: nat)
    requires
        new.extends(old),
        old.wf(),
        old.expr_ref_ok(id, t),
    ensures
        child_expr(new, id, t) == child_expr(old, id, t),
    decreases t, 0nat, 0nat,
{
    lemma_expr_tree_stable(new, old, id);
}

proof fn lemma_child_stmt_stable(new: AstArena, old: AstArena, id: StmtId, t: nat)
    requires
        new.extends(old),
        old.wf(),
        old.stmt_ref_ok(id, t),
    ensures
        child_stmt(new, id, t) == child_stmt(old, id, t),
    decreases t, 0nat, 0nat,
{
    lemma_stmt_tree_stable(new, old, id);
}

proof fn lemma_child_exprs_stable(new: AstArena, old: AstArena, ids: Seq<ExprId>, t: nat)
    requires
        new.extends(old),
        old.wf(),
        old.exprs_ok(ids, t),
    ensures
        child_exprs(new, ids, t) == child_exprs(old, ids, t),
    decreases t, 1nat, ids.len(),
{
    if ids.len() > 0 {
        assert(old.expr_ref_ok(ids[ids.len() - 1], t));
        lemma_child_exprs_stable(new, old, ids.drop_last(), t);
        lemma_child_expr_stable(new, old, ids.last(), t);
    }
}

proof fn lemma_child_stmts_stable(new: AstArena, old: AstArena, ids: Seq<StmtId>, t: nat)
    requires
        new.extends(old),
        old.wf(),
        old.stmts_ok(ids, t),
    ensures
        child_stmts(new, ids, t) == child_stmts(old, ids, t),
    decreases t, 1nat, ids.len(),
{
    if ids.len() > 0 {
        assert(old.stmt_ref_ok(ids[ids.len() - 1], t));
        lemma_child_stmts_stable(new, old, ids.drop_last(), t);
        lemma_child_stmt_stable(new, old, ids.last(), t);
    }
}

proof fn lemma_child_entries_stable(new: AstArena, old: AstArena, es: Seq<(ObjectKeyView, ExprId)>, t: nat)
    requires
        new.extends(old),
        old.wf(),
        forall|i: int| 0 <= i < es.len() ==> old.expr_ref_ok(#[trigger] es[i].1, t),
    ensures
        child_entries(new, es, t) == child_entries(old, es, t),
    decreases t, 1nat, es.len(),
{
    if es.len() > 0 {
        assert(old.expr_ref_ok(es[es.len() - 1].1, t));
        lemma_child_entries_stable(new, old, es.drop_last(), t);
        lemma_child_expr_stable(new, old, es.last().1, t);
    }
}

/// The tree of an expression node whose children are in `old` is the same
/// over any arena that extends `old`.
pub proof fn lemma_expr_node_stable(new: AstArena, old: AstArena, e: Expr, t: nat)
    requires
        new.extends(old),
        old.wf(),
        old.expr_ok(e, t),
    ensures
        expr_node_tree(new, e, t) == expr_node_tree(old, e, t),
    decreases t, 3nat, 0nat,
{
    match e {
        Expr::Select { query, .. } => lemma_select_stable(new, old, query, t, t),
        Expr::Insert { command, .. } => match command.values {
            SqlValues::Values { values } => lemma_child_sqls_stable(new, old, values@, t, t),
            SqlValues::Select(q) => lemma_select_stable(new, old, q, t, t),
        },
        Expr::Update { command, .. } => {
            lemma_child_sqls_stable(new, old, command.assignments@, t, t);
            lemma_child_opt_sql_stable(new, old, command.where_clause, t, t);
        },
        Expr::Delete { command, .. } => lemma_child_opt_sql_stable(new, old, command.where_clause, t, t),
        Expr::Grouping { expr, .. } => lemma_child_expr_stable(new, old, expr, t),
        Expr::Literal { value, .. } => match value {
            Literal::Array(items) => lemma_child_exprs_stable(new, old, items@, t),
            Literal::Object(es) => {
                let v = entries_view(es@);
                assert forall|i: int| 0 <= i < v.len() implies old.expr_ref_ok(#[trigger] v[i].1, t) by {
                    assert(v[i].1 == es@[i].1);
                }
                lemma_child_entries_stable(new, old, v, t);
            },
            _ => {},
        },
        Expr::Function { body, .. } => lemma_child_stmts_stable(new, old, body@, t),
        Expr::Binary { left, right, .. } => {
            lemma_child_expr_stable(new, old, left, t);
            lemma_child_expr_stable(new, old, right, t);
        },
        Expr::Unary { expr, .. } => lemma_child_expr_stable(new, old, expr, t),
        Expr::Assignment { expr, .. } => lemma_child_expr_stable(new, old, expr, t),
        Expr::Logical { left, right, .. } => {
            lemma_child_expr_stable(new, old, left, t);
            lemma_child_expr_stable(new, old, right, t);
        },
        Expr::Call { callee, args, .. } => {
            lemma_child_expr_stable(new, old, callee, t);
            lemma_child_exprs_stable(new, old, args@, t);
        },
        Expr::Get { object, .. } => lemma_child_expr_stable(new, old, object, t),
        Expr::SetProperty { object, value, .. } => {
            lemma_child_expr_stable(new, old, object, t);
            lemma_child_expr_stable(new, old, value, t);
        },
        _ => {},
    }
}

/// The tree of a statement node whose children are in `old` is the same over
/// any arena that extends `old`.
pub proof fn lemma_stmt_node_stable(new: AstArena, old: AstArena, s: Stmt, t: nat)
    requires
        new.extends(old),
        old.wf(),
        old.stmt_ok(s, t),
    ensures
        stmt_node_tree(new, s, t) == stmt_node_tree(old, s, t),
    decreases t, 3nat, 0nat,
{
    match s {
        Stmt::Program { body, .. } => lemma_child_stmts_stable(new, old, body@, t),
        Stmt::Expression { expr, .. } => lemma_child_expr_stable(new, old, expr, t),
        Stmt::Block { body, .. } => lemma_child_stmts_stable(new, old, body@, t),
        Stmt::Declaration { expr, .. } => lemma_child_expr_stable(new, old, expr, t),
        Stmt::If { condition, body, else_body, .. } => {
            lemma_child_expr_stable(new, old, condition, t);
            lemma_child_stmt_stable(new, old, body, t);
            if let Some(e) = else_body {
                lemma_child_stmt_stable(new, old, e, t);
            }
        },
        Stmt::Loop { condition, body, post, .. } => {
            if let Some(c) = condition {
                lemma_child_expr_stable(new, old, c, t);
            }
            lemma_child_stmt_stable(new, old, body, t);
            if let Some(p) = post {
                lemma_child_stmt_stable(new, old, p, t);
            }
        },
        Stmt::Return { expr, .. } => {
            if let Some(e) = expr {
                lemma_child_expr_stable(new, old, e, t);
            }
        },
        _ => {},
    }
}

/// The trees of child expressions, one by one.
pub proof fn lemma_child_exprs_pointwise(a: AstArena, ids: Seq<ExprId>, t: nat)
    requires
        a.exprs_ok(ids, t),
    ensures
        child_exprs(a, ids, t).len() == ids.len(),
        forall|i: int| 0 <= i < ids.len() ==> #[trigger] child_exprs(a, ids, t)[i] == expr_tree(a, ids[i]),
    decreases ids.len(),
{
    if ids.len() > 0 {
        assert(a.expr_ref_ok(ids[ids.len() - 1], t));
        lemma_child_exprs_pointwise(a, ids.drop_last(), t);
        assert(child_exprs(a, ids, t) == child_exprs(a, ids.drop_last(), t).push(child_expr(a, ids.last(), t)));
        assert(child_expr(a, ids.last(), t) == expr_tree(a, ids.last()));
        assert forall|i: int| 0 <= i < ids.len() implies #[trigger] child_exprs(a, ids, t)[i] == expr_tree(a, ids[i]) by {
            if i < ids.len() - 1 {
                assert(ids.drop_last()[i] == ids[i]);
            }
        }
    }
}

/// The trees of child statements, one by one.
pub proof fn lemma_child_stmts_pointwise(a: AstArena, ids: Seq<StmtId>, t: nat)
    requires
        a.stmts_ok(ids, t),
    ensures
        child_stmts(a, ids, t).len() == ids.len(),
        forall|i: int| 0 <= i < ids.len() ==> #[trigger] child_stmts(a, ids, t)[i] == stmt_tree(a, ids[i]),
    decreases ids.len(),
{
    if ids.len() > 0 {
        assert(a.stmt_ref_ok(ids[ids.len() - 1], t));
        lemma_child_stmts_pointwise(a, ids.drop_last(), t);
        assert(child_stmts(a, ids, t) == child_stmts(a, ids.drop_last(), t).push(child_stmt(a, ids.last(), t)));
        assert(child_stmt(a, ids.last(), t) == stmt_tree(a, ids.last()));
        assert forall|i: int| 0 <= i < ids.len() implies #[trigger] child_stmts(a, ids, t)[i] == stmt_tree(a, ids[i]) by {
            if i < ids.len() - 1 {
                assert(ids.drop_last()[i] == ids[i]);
            }
        }
    }
}

/// The entries of an object literal with their trees, one by one.
pub proof fn lemma_child_entries_pointwise(a: AstArena, es: Seq<(ObjectKeyView, ExprId)>, t: nat)
    requires
        forall|i: int| 0 <= i < es.len() ==> a.expr_ref_ok(#[trigger] es[i].1, t),
    ensures
        child_entries(a, es, t).len() == es.len(),
        forall|i: int| 0 <= i < es.len() ==> #[trigger] child_entries(a, es, t)[i] == (es[i].0, expr_tree(a, es[i].1)),
    decreases es.len(),
{
    if es.len() > 0 {
        assert(a.expr_ref_ok(es[es.len() - 1].1, t));
        lemma_child_entries_pointwise(a, es.drop_last(), t);
        assert(child_entries(a, es, t) == child_entries(a, es.drop_last(), t).push((es.last().0, child_expr(a, es.last().1, t))));
        assert(child_expr(a, es.last().1, t) == expr_tree(a, es.last().1));
        assert forall|i: int| 0 <= i < es.len() implies #[trigger] child_entries(a, es, t)[i] == (es[i].0, expr_tree(a, es[i].1)) by {
            if i < es.len() - 1 {
                assert(es.drop_last()[i] == es[i]);
            }
        }
    }
}

/// Every tree of `old` is kept when the arena grows.
pub proof fn lemma_trees_stable(new: AstArena, old: AstArena)
    requires
        new.extends(old),
        old.wf(),
    ensures
        forall|id: ExprId| id.0 < old.expressions@.len() ==> #[trigger] expr_tree(new, id) == expr_tree(old, id),
        forall|id: StmtId| id.0 < old.statements@.len() ==> #[trigger] stmt_tree(new, id) == stmt_tree(old, id),
{
    assert forall|id: ExprId| id.0 < old.expressions@.len() implies #[trigger] expr_tree(new, id) == expr_tree(old, id) by {
        lemma_expr_tree_stable(new, old, id);
    }
    assert forall|id: StmtId| id.0 < old.statements@.len() implies #[trigger] stmt_tree(new, id) == stmt_tree(old, id) by {
        lemma_stmt_tree_stable(new, old, id);
    }
}

/// The tree of an optional child expression.
pub proof fn lemma_child_opt_expr(a: AstArena, id: Option<ExprId>, t: nat)
    requires
        a.opt_expr_ok(id, t),
    ensures
        child_opt_expr(a, id, t) == match id {
            Some(e) => Some(Box::new(expr_tree(a, e))),
            None => None,
        },
{
}

/// The tree of an optional child statement.
pub proof fn lemma_child_opt_stmt(a: AstArena, id: Option<StmtId>, t: nat)
    requires
        a.opt_stmt_ok(id, t),
    ensures
        child_opt_stmt(a, id, t) == match id {
            Some(s) => Some(Box::new(stmt_tree(a, s))),
            None => None,
        },
{
}

/// The tree of an SQL expression does not change when the arena grows.
pub proof fn lemma_sql_tree_stable(new: AstArena, old: AstArena, id: SqlExprId)
    requires
        new.extends(old),
        old.wf(),
        id.0 < old.sql_expressions@.len(),
    ensures
        sql_tree(new, id) == sql_tree(old, id),
    decreases old.sql_times@[id.0 as int], 4nat, 0nat,
{
    let t = old.sql_times@[id.0 as int];
    lemma_sql_node_stable(new, old, old.sql_expressions@[id.0 as int], t);
}

/// The tree of an SQL node whose children are in `old` is the same over any
/// arena that extends `old`.
pub proof fn lemma_sql_node_stable(new: AstArena, old: AstArena, q: SqlExpr, t: nat)
    requires
        new.extends(old),
        old.wf(),
        old.sql_ok(q, t),
    ensures
        sql_node_tree(new, q, t) == sql_node_tree(old, q, t),
    decreases t, 3nat, 0nat,
{
    match q {
        SqlExpr::Default(e) => lemma_child_expr_stable(new, old, e, t),
        SqlExpr::Is { left, right }
        | SqlExpr::IsNot { left, right }
        | SqlExpr::In { left, right }
        | SqlExpr::NotIn { left, right }
        | SqlExpr::Like { left, right }
        | SqlExpr::NotLike { left, right } => {
            lemma_child_sql_stable(new, old, left, t, t);
            lemma_child_sql_stable(new, old, right, t, t);
        },
        SqlExpr::Between { expr, lower, upper } | SqlExpr::NotBetween { expr, lower, upper } => {
            lemma_child_sql_stable(new, old, expr, t, t);
            lemma_child_sql_stable(new, old, lower, t, t);
            lemma_child_sql_stable(new, old, upper, t, t);
        },
    }
}

/// A child expression read under a later time bound, over a grown arena,
/// has the same tree.
pub proof fn lemma_child_expr_moved(new: AstArena, old: AstArena, id: ExprId, t1: nat, t2: nat)
    requires
        new.extends(old),
        old.wf(),
        old.expr_ref_ok(id, t1),
        t1 <= t2,
    ensures
        child_expr(new, id, t2) == child_expr(old, id, t1),
    decreases t1, 0nat, 0nat,
{
    lemma_expr_tree_stable(new, old, id);
}

pub proof fn lemma_child_sql_stable(new: AstArena, old: AstArena, id: SqlExprId, t1: nat, t2: nat)
    requires
        new.extends(old),
        old.wf(),
        old.sql_ref_ok(id, t1),
        t1 <= t2,
    ensures
        child_sql(new, id, t2) == child_sql(old, id, t1),
    decreases t1, 0nat, 0nat,
{
    lemma_sql_tree_stable(new, old, id);
}

pub proof fn lemma_child_opt_sql_stable(new: AstArena, old: AstArena, id: Option<SqlExprId>, t1: nat, t2: nat)
    requires
        new.extends(old),
        old.wf(),
        old.opt_sql_ok(id, t1),
        t1 <= t2,
    ensures
        child_opt_sql(new, id, t2) == child_opt_sql(old, id, t1),
    decreases t1, 1nat, 0nat,
{
    if let Some(e) = id {
        lemma_child_sql_stable(new, old, e, t1, t2);
    }
}

pub proof fn lemma_child_sqls_stable(new: AstArena, old: AstArena, ids: Seq<SqlExprId>, t1: nat, t2: nat)
    requires
        new.extends(old),
        old.wf(),
        old.sqls_ok(ids, t1),
        t1 <= t2,
    ensures
        child_sqls(new, ids, t2) == child_sqls(old, ids, t1),
    decreases t1, 1nat, ids.len(),
{
    if ids.len() > 0 {
        assert(old.sql_ref_ok(ids[ids.len() - 1], t1));
        lemma_child_sqls_stable(new, old, ids.drop_last(), t1, t2);
        lemma_child_sql_stable(new, old, ids.last(), t1, t2);
    }
}

pub proof fn lemma_projections_stable(new: AstArena, old: AstArena, ps: Seq<SqlProjection>, t1: nat, t2: nat)
    requires
        new.extends(old),
        old.wf(),
        old.projections_ok(ps, t1),
        t1 <= t2,
    ensures
        projections_tree(new, ps, t2) == projections_tree(old, ps, t1),
    decreases t1, 1nat, ps.len(),
{
    if ps.len() > 0 {
        let last = ps[ps.len() - 1];
        assert(last matches SqlProjection::Expr { expr, .. } ==> old.sql_ref_ok(expr, t1));
        assert(old.projections_ok(ps.drop_last(), t1)) by {
            assert forall|i: int| 0 <= i < ps.drop_last().len() implies (#[trigger] ps.drop_last()[i] matches SqlProjection::Expr { expr, .. } ==> old.sql_ref_ok(expr, t1)) by {
                assert(ps.drop_last()[i] == ps[i]);
            }
        }
        lemma_projections_stable(new, old, ps.drop_last(), t1, t2);
        if let SqlProjection::Expr { expr, .. } = last {
            lemma_child_sql_stable(new, old, expr, t1, t2);
        }
        assert(projection_tree(new, last, t2) == projection_tree(old, last, t1));
    }
}

pub proof fn lemma_orderings_stable(new: AstArena, old: AstArena, os: Seq<SqlOrderByClause>, t1: nat, t2: nat)
    requires
        new.extends(old),
        old.wf(),
        forall|i: int| 0 <= i < os.len() ==> old.sql_ref_ok(#[trigger] os[i].expr, t1),
        t1 <= t2,
    ensures
        orderings_tree(new, os, t2) == orderings_tree(old, os, t1),
    decreases t1, 1nat, os.len(),
{
    if os.len() > 0 {
        assert(old.sql_ref_ok(os[os.len() - 1].expr, t1));
        assert forall|i: int| 0 <= i < os.drop_last().len() implies old.sql_ref_ok(#[trigger] os.drop_last()[i].expr, t1) by {
            assert(os.drop_last()[i] == os[i]);
        }
        lemma_orderings_stable(new, old, os.drop_last(), t1, t2);
        lemma_child_sql_stable(new, old, os.last().expr, t1, t2);
    }
}

pub proof fn lemma_subquery_stable(new: AstArena, old: AstArena, q: SqlCollectionSubquery, t1: nat, t2: nat)
    requires
        new.extends(old),
        old.wf(),
        old.subquery_ok(q, t1),
        t1 <= t2,
    ensures
        subquery_tree(new, q, t2) == subquery_tree(old, q, t1),
    decreases t1, 2nat, subquery_size(q),
{
    match q {
        SqlCollectionSubquery::Group { values } => {
            lemma_subqueries_stable(new, old, values@, t1, t2);
        },
        SqlCollectionSubquery::Join { left, right, constraint, .. } => {
            lemma_subquery_stable(new, old, *left, t1, t2);
            lemma_subquery_stable(new, old, *right, t1, t2);
            lemma_child_opt_sql_stable(new, old, constraint, t1, t2);
        },
        SqlCollectionSubquery::Collection(_) => {},
        SqlCollectionSubquery::Select { expr, .. } => lemma_child_expr_moved(new, old, expr, t1, t2),
    }
}

pub proof fn lemma_subqueries_stable(new: AstArena, old: AstArena, qs: Seq<SqlCollectionSubquery>, t1: nat, t2: nat)
    requires
        new.extends(old),
        old.wf(),
        forall|i: int| 0 <= i < qs.len() ==> old.subquery_ok(#[trigger] qs[i], t1),
        t1 <= t2,
    ensures
        subqueries_tree(new, qs, t2) == subqueries_tree(old, qs, t1),
    decreases t1, 2nat, subqueries_size(qs),
{
    if qs.len() > 0 {
        let init = qs.subrange(0, qs.len() - 1);
        assert forall|i: int| 0 <= i < init.len() implies old.subquery_ok(#[trigger] init[i], t1) by {
            assert(init[i] == qs[i]);
        }
        assert(old.subquery_ok(qs[qs.len() - 1], t1));
        lemma_subqueries_stable(new, old, init, t1, t2);
        lemma_subquery_stable(new, old, qs[qs.len() - 1], t1, t2);
    }
}

pub proof fn lemma_core_stable(new: AstArena, old: AstArena, c: SqlSelectCore, t1: nat, t2: nat)
    requires
        new.extends(old),
        old.wf(),
        old.core_ok(c, t1),
        t1 <= t2,
    ensures
        core_tree(new, c, t2) == core_tree(old, c, t1),
    decreases t1, 2nat, core_size(c),
{
    lemma_projections_stable(new, old, c.projection@, t1, t2);
    if let Some(q) = c.from {
        lemma_subquery_stable(new, old, q, t1, t2);
    }
    lemma_child_opt_sql_stable(new, old, c.where_clause, t1, t2);
    if let Some(g) = c.group_by {
        lemma_child_sqls_stable(new, old, g@, t1, t2);
    }
    lemma_child_opt_sql_stable(new, old, c.having, t1, t2);
    if let Some(b) = c.compound {
        lemma_core_stable(new, old, b.core, t1, t2);
    }
}

pub proof fn lemma_select_stable(new: AstArena, old: AstArena, s: SqlSelect, t1: nat, t2: nat)
    requires
        new.extends(old),
        old.wf(),
        old.select_ok(s, t1),
        t1 <= t2,
    ensures
        select_tree(new, s, t2) == select_tree(old, s, t1),
    decreases t1, 2nat, core_size(s.core) + 1,
{
    lemma_core_stable(new, old, s.core, t1, t2);
    if let Some(o) = s.order_by {
        lemma_orderings_stable(new, old, o@, t1, t2);
    }
    if let Some(l) = s.limit {
        lemma_child_sql_stable(new, old, l.count, t1, t2);
        lemma_child_opt_sql_stable(new, old, l.offset, t1, t2);
    }
}

/// The trees of child SQL expressions, one by one.
pub proof fn lemma_child_sqls_pointwise(a: AstArena, ids: Seq<SqlExprId>, t: nat)
    requires
        a.sqls_ok(ids, t),
    ensures
        child_sqls(a, ids, t).len() == ids.len(),
        forall|i: int| 0 <= i < ids.len() ==> #[trigger] child_sqls(a, ids, t)[i] == sql_tree(a, ids[i]),
    decreases ids.len(),
{
    if ids.len() > 0 {
        assert(a.sql_ref_ok(ids[ids.len() - 1], t));
        lemma_child_sqls_pointwise(a, ids.drop_last(), t);
        assert(child_sqls(a, ids, t) == child_sqls(a, ids.drop_last(), t).push(child_sql(a, ids.last(), t)));
        assert(child_sql(a, ids.last(), t) == sql_tree(a, ids.last()));
        assert forall|i: int| 0 <= i < ids.len() implies #[trigger] child_sqls(a, ids, t)[i] == sql_tree(a, ids[i]) by {
            if i < ids.len() - 1 {
                assert(ids.drop_last()[i] == ids[i]);
            }
        }
    }
}

/// Every SQL tree of `old` is kept when the arena grows.
pub proof fn lemma_sql_trees_stable(new: AstArena, old: AstArena)
    requires
        new.extends(old),
        old.wf(),
    ensures
        forall|id: SqlExprId| id.0 < old.sql_expressions@.len() ==> #[trigger] sql_tree(new, id) == sql_tree(old, id),
{
    assert forall|id: SqlExprId| id.0 < old.sql_expressions@.len() implies #[trigger] sql_tree(new, id) == sql_tree(old, id) by {
        lemma_sql_tree_stable(new, old, id);
    }
}

/// The tree of an optional child SQL expression.
pub proof fn lemma_child_opt_sql(a: AstArena, id: Option<SqlExprId>, t: nat)
    requires
        a.opt_sql_ok(id, t),
    ensures
        child_opt_sql(a, id, t) == match id {
            Some(e) => Some(Box::new(sql_tree(a, e))),
            None => None,
        },
{
}

/// The tree of a projection, its expression read at any time.
pub open spec fn projection_node(a: AstArena, p: SqlProjection) -> Tree {
    match p {
        SqlProjection::All { collection } => Tree::ProjectAll(opt_name(collection)),
        SqlProjection::Expr { expr, alias } => Tree::ProjectExpr(Box::new(sql_tree(a, expr)), opt_name(alias)),
    }
}

/// The trees of projections, one by one.
pub proof fn lemma_projections_pointwise(a: AstArena, ps: Seq<SqlProjection>, t: nat)
    requires
        a.projections_ok(ps, t),
    ensures
        projections_tree(a, ps, t).len() == ps.len(),
        forall|i: int| 0 <= i < ps.len() ==> #[trigger] projections_tree(a, ps, t)[i] == projection_node(a, ps[i]),
    decreases ps.len(),
{
    if ps.len() > 0 {
        let last = ps[ps.len() - 1];
        assert(last matches SqlProjection::Expr { expr, .. } ==> a.sql_ref_ok(expr, t));
        assert(a.projections_ok(ps.drop_last(), t)) by {
            assert forall|i: int| 0 <= i < ps.drop_last().len() implies (#[trigger] ps.drop_last()[i] matches SqlProjection::Expr { expr, .. } ==> a.sql_ref_ok(expr, t)) by {
                assert(ps.drop_last()[i] == ps[i]);
            }
        }
        lemma_projections_pointwise(a, ps.drop_last(), t);
        assert(projections_tree(a, ps, t) == projections_tree(a, ps.drop_last(), t).push(projection_tree(a, ps.last(), t)));
        assert(projection_tree(a, ps.last(), t) == projection_node(a, ps.last()));
        assert forall|i: int| 0 <= i < ps.len() implies #[trigger] projections_tree(a, ps, t)[i] == projection_node(a, ps[i]) by {
            if i < ps.len() - 1 {
                assert(ps.drop_last()[i] == ps[i]);
            }
        }
    }
}

/// The trees of `ORDER BY` clauses, one by one.
pub proof fn lemma_orderings_pointwise(a: AstArena, os: Seq<SqlOrderByClause>, t: nat)
    requires
        forall|i: int| 0 <= i < os.len() ==> a.sql_ref_ok(#[trigger] os[i].expr, t),
    ensures
        orderings_tree(a, os, t).len() == os.len(),
        forall|i: int| 0 <= i < os.len() ==> #[trigger] orderings_tree(a, os, t)[i] == (sql_tree(a, os[i].expr), os[i].ordering),
    decreases os.len(),
{
    if os.len() > 0 {
        assert(a.sql_ref_ok(os[os.len() - 1].expr, t));
        assert forall|i: int| 0 <= i < os.drop_last().len() implies a.sql_ref_ok(#[trigger] os.drop_last()[i].expr, t) by {
            assert(os.drop_last()[i] == os[i]);
        }
        lemma_orderings_pointwise(a, os.drop_last(), t);
        assert(child_sql(a, os.last().expr, t) == sql_tree(a, os.last().expr));
        assert forall|i: int| 0 <= i < os.len() implies #[trigger] orderings_tree(a, os, t)[i] == (sql_tree(a, os[i].expr), os[i].ordering) by {
            if i < os.len() - 1 {
                assert(os.drop_last()[i] == os[i]);
            }
        }
    }
}

/// The trees of subqueries, one by one.
pub proof fn lemma_subqueries_pointwise(a: AstArena, qs: Seq<SqlCollectionSubquery>, t: nat)
    ensures
        subqueries_tree(a, qs, t).len() == qs.len(),
        forall|i: int| 0 <= i < qs.len() ==> #[trigger] subqueries_tree(a, qs, t)[i] == subquery_tree(a, qs[i], t),
    decreases qs.len(),
{
    if qs.len() > 0 {
        let init = qs.subrange(0, qs.len() - 1);
        lemma_subqueries_pointwise(a, init, t);
        assert forall|i: int| 0 <= i < qs.len() implies #[trigger] subqueries_tree(a, qs, t)[i] == subquery_tree(a, qs[i], t) by {
            if i < qs.len() - 1 {
                assert(init[i] == qs[i]);
            }
        }
    }
}

} // verus!
