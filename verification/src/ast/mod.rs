use vstd::prelude::*;
use std::marker::PhantomData;

pub mod expr;
pub mod sql;
pub mod stmt;
pub mod resolver;
pub mod tree;

use self::expr::{Expr, ExprId};
use self::sql::{SqlExpr, SqlSelect, SqlSelectCore, SqlCollectionSubquery, SqlValues, SqlProjection, SqlExprId};
use self::stmt::{Stmt, StmtId};
use self::tree::{
    expr_node_tree, expr_tree, lemma_expr_node_stable, lemma_sql_node_stable, lemma_stmt_node_stable,
    sql_node_tree, sql_tree, stmt_node_tree, stmt_tree,
};

verus! {

/// The index of a node of type `T` in an [`AstPool`].
#[derive(Debug, PartialEq, Eq)]
pub struct AstRef<T>(pub usize, pub PhantomData<T>);

impl<T> AstRef<T> {
    pub fn new(num: u32) -> (r: Self)
        ensures
            r.0 == num as usize,
    {
        AstRef(num as usize, PhantomData)
    }
}

impl<T> Clone for AstRef<T> {
    fn clone(&self) -> (r: Self)
        ensures
            r == *self,
    {
        *self
    }
}

impl<T> Copy for AstRef<T> {}

/// A growable store of syntax nodes, addressed by [`AstRef`].
pub struct AstPool<T> {
    nodes: Vec<T>,
}

impl<T> View for AstPool<T> {
    type V = Seq<T>;

    closed spec fn view(&self) -> Seq<T> {
        self.nodes@
    }
}

impl<T> AstPool<T> {
    pub fn new() -> (r: Self)
        ensures
            r@ == Seq::<T>::empty(),
    {
        AstPool { nodes: Vec::new() }
    }

    /// Stores `expr` and returns its index.
    pub fn allocate(&mut self, expr: T) -> (r: AstRef<T>)
        ensures
            final(self)@ == old(self)@.push(expr),
            r.0 == old(self)@.len(),
    {
        self.nodes.push(expr);
        AstRef::<T>(self.nodes.len() - 1, PhantomData)
    }

    pub fn get(&self, idx: AstRef<T>) -> (r: &T)
        requires
            idx.0 < self@.len(),
        ensures
            *r == self@[idx.0 as int],
    {
        &self.nodes[idx.0]
    }

    pub fn len(&self) -> (r: usize)
        ensures
            r == self@.len(),
    {
        self.nodes.len()
    }
}

/// A key of an object literal. A number key keeps the text of the number.
#[derive(Debug, PartialEq, Eq)]
pub enum ObjectKey {
    Name(String),
    Number(String),
}

pub enum ObjectKeyView {
    Name(Seq<char>),
    Number(Seq<char>),
}

impl View for ObjectKey {
    type V = ObjectKeyView;

    open spec fn view(&self) -> ObjectKeyView {
        match self {
            ObjectKey::Name(s) => ObjectKeyView::Name(s@),
            ObjectKey::Number(s) => ObjectKeyView::Number(s@),
        }
    }
}

impl Clone for ObjectKey {
    fn clone(&self) -> (r: Self)
        ensures
            r@ == self@,
    {
        match self {
            ObjectKey::Name(s) => ObjectKey::Name(s.clone()),
            ObjectKey::Number(s) => ObjectKey::Number(s.clone()),
        }
    }
}

/// A literal value of the scripting language. A number keeps the text it was
/// written with; an object keeps its entries in the order of their keys'
/// first appearance, each key once.
#[derive(Debug, PartialEq, Eq)]
pub enum Literal {
    Str(String),
    Num(String),
    Bool(bool),
    Undefined,
    Object(Vec<(ObjectKey, ExprId)>),
    Array(Vec<ExprId>),
    NaN,
    Null,
}

pub enum LiteralView {
    Str(Seq<char>),
    Num(Seq<char>),
    Bool(bool),
    Undefined,
    Object(Seq<(ObjectKeyView, ExprId)>),
    Array(Seq<ExprId>),
    NaN,
    Null,
}

pub open spec fn entries_view(e: Seq<(ObjectKey, ExprId)>) -> Seq<(ObjectKeyView, ExprId)> {
    e.map_values(|p: (ObjectKey, ExprId)| (p.0@, p.1))
}

impl View for Literal {
    type V = LiteralView;

    open spec fn view(&self) -> LiteralView {
        match self {
            Literal::Str(s) => LiteralView::Str(s@),
            Literal::Num(s) => LiteralView::Num(s@),
            Literal::Bool(b) => LiteralView::Bool(*b),
            Literal::Undefined => LiteralView::Undefined,
            Literal::Object(e) => LiteralView::Object(entries_view(e@)),
            Literal::Array(a) => LiteralView::Array(a@),
            Literal::NaN => LiteralView::NaN,
            Literal::Null => LiteralView::Null,
        }
    }
}

/// Copies a list of expression indices.
pub fn clone_ids<T>(v: &Vec<AstRef<T>>) -> (r: Vec<AstRef<T>>)
    ensures
        r@ == v@,
{
    let mut r: Vec<AstRef<T>> = Vec::new();
    let mut i: usize = 0;
    while i < v.len()
        invariant
            i <= v@.len(),
            r@ == v@.subrange(0, i as int),
        decreases v@.len() - i,
    {
        r.push(v[i]);
        i = i + 1;
    }
    assert(r@ =~= v@);
    r
}

impl Clone for Literal {
    fn clone(&self) -> (r: Self)
        ensures
            r@ == self@,
    {
        match self {
            Literal::Str(s) => Literal::Str(s.clone()),
            Literal::Num(s) => Literal::Num(s.clone()),
            Literal::Bool(b) => Literal::Bool(*b),
            Literal::Undefined => Literal::Undefined,
            Literal::Object(e) => {
                let mut r: Vec<(ObjectKey, ExprId)> = Vec::new();
                let mut i: usize = 0;
                while i < e.len()
                    invariant
                        i <= e@.len(),
                        r@.len() == i,
                        forall|j: int| 0 <= j < i ==> r@[j].0@ == e@[j].0@ && r@[j].1 == e@[j].1,
                    decreases e@.len() - i,
                {
                    let k = e[i].0.clone();
                    r.push((k, e[i].1));
                    i = i + 1;
                }
                assert(entries_view(r@) =~= entries_view(e@));
                Literal::Object(r)
            },
            Literal::Array(a) => Literal::Array(clone_ids(a)),
            Literal::NaN => Literal::NaN,
            Literal::Null => Literal::Null,
        }
    }
}

impl Literal {
    pub fn as_str(&self) -> (r: Option<&str>)
        ensures
            match self {
                Literal::Str(s) => r matches Some(x) && x@ == s@,
                _ => r is None,
            },
    {
        match self {
            Literal::Str(s) => Some(s.as_str()),
            _ => None,
        }
    }
}

/// The three pools that hold the nodes of one program. Each node also has a
/// ghost time stamp: how many nodes of any kind were allocated before it.
pub struct AstArena {
    pub expressions: AstPool<Expr>,
    pub sql_expressions: AstPool<SqlExpr>,
    pub statements: AstPool<Stmt>,
    pub expr_times: Ghost<Seq<nat>>,
    pub sql_times: Ghost<Seq<nat>>,
    pub stmt_times: Ghost<Seq<nat>>,
}

impl AstArena {
    /// The number of nodes allocated so far.
    pub open spec fn clock(self) -> nat {
        self.expressions@.len() + self.sql_expressions@.len() + self.statements@.len()
    }

    pub open spec fn expr_ref_ok(self, r: ExprId, t: nat) -> bool {
        r.0 < self.expressions@.len() && self.expr_times@[r.0 as int] < t
    }

    pub open spec fn sql_ref_ok(self, r: SqlExprId, t: nat) -> bool {
        r.0 < self.sql_expressions@.len() && self.sql_times@[r.0 as int] < t
    }

    pub open spec fn stmt_ref_ok(self, r: StmtId, t: nat) -> bool {
        r.0 < self.statements@.len() && self.stmt_times@[r.0 as int] < t
    }

    pub open spec fn opt_expr_ok(self, r: Option<ExprId>, t: nat) -> bool {
        r matches Some(x) ==> self.expr_ref_ok(x, t)
    }

    pub open spec fn opt_sql_ok(self, r: Option<SqlExprId>, t: nat) -> bool {
        r matches Some(x) ==> self.sql_ref_ok(x, t)
    }

    pub open spec fn opt_stmt_ok(self, r: Option<StmtId>, t: nat) -> bool {
        r matches Some(x) ==> self.stmt_ref_ok(x, t)
    }

    pub open spec fn exprs_ok(self, rs: Seq<ExprId>, t: nat) -> bool {
        forall|i: int| 0 <= i < rs.len() ==> self.expr_ref_ok(#[trigger] rs[i], t)
    }

    pub open spec fn sqls_ok(self, rs: Seq<SqlExprId>, t: nat) -> bool {
        forall|i: int| 0 <= i < rs.len() ==> self.sql_ref_ok(#[trigger] rs[i], t)
    }

    pub open spec fn stmts_ok(self, rs: Seq<StmtId>, t: nat) -> bool {
        forall|i: int| 0 <= i < rs.len() ==> self.stmt_ref_ok(#[trigger] rs[i], t)
    }

    pub open spec fn literal_ok(self, l: Literal, t: nat) -> bool {
        match l {
            Literal::Object(e) => forall|i: int|
                0 <= i < e@.len() ==> self.expr_ref_ok(#[trigger] e@[i].1, t),
            Literal::Array(a) => self.exprs_ok(a@, t),
            _ => true,
        }
    }

    pub open spec fn projections_ok(self, ps: Seq<SqlProjection>, t: nat) -> bool {
        forall|i: int|
            0 <= i < ps.len() ==> (#[trigger] ps[i] matches SqlProjection::Expr { expr, .. }
                ==> self.sql_ref_ok(expr, t))
    }

    pub open spec fn subquery_ok(self, q: SqlCollectionSubquery, t: nat) -> bool
        decreases q,
    {
        match q {
            SqlCollectionSubquery::Group { values } => forall|i: int|
                0 <= i < values@.len() ==> self.subquery_ok(#[trigger] values@[i], t),
            SqlCollectionSubquery::Join { left, right, constraint, .. } => self.subquery_ok(
                *left,
                t,
            ) && self.subquery_ok(*right, t) && self.opt_sql_ok(constraint, t),
            SqlCollectionSubquery::Collection(_) => true,
            SqlCollectionSubquery::Select { expr, .. } => self.expr_ref_ok(expr, t),
        }
    }

    pub open spec fn core_ok(self, c: SqlSelectCore, t: nat) -> bool
        decreases c,
    {
        &&& self.projections_ok(c.projection@, t)
        &&& (c.from matches Some(f) ==> self.subquery_ok(f, t))
        &&& self.opt_sql_ok(c.where_clause, t)
        &&& (c.group_by matches Some(g) ==> self.sqls_ok(g@, t))
        &&& self.opt_sql_ok(c.having, t)
        &&& (c.compound matches Some(b) ==> self.core_ok(b.core, t))
    }

    pub open spec fn select_ok(self, s: SqlSelect, t: nat) -> bool {
        &&& self.core_ok(s.core, t)
        &&& (s.order_by matches Some(o) ==> forall|i: int|
            0 <= i < o@.len() ==> self.sql_ref_ok(#[trigger] o@[i].expr, t))
        &&& (s.limit matches Some(l) ==> self.sql_ref_ok(l.count, t) && self.opt_sql_ok(
            l.offset,
            t,
        ))
    }

    pub open spec fn expr_ok(self, e: Expr, t: nat) -> bool {
        match e {
            Expr::Select { query, .. } => self.select_ok(query, t),
            Expr::Insert { command, .. } => match command.values {
                SqlValues::Values { values } => self.sqls_ok(values@, t),
                SqlValues::Select(s) => self.select_ok(s, t),
            },
            Expr::Update { command, .. } => self.sqls_ok(command.assignments@, t)
                && self.opt_sql_ok(command.where_clause, t),
            Expr::Delete { command, .. } => self.opt_sql_ok(command.where_clause, t),
            Expr::Variable { .. } => true,
            Expr::Grouping { expr, .. } => self.expr_ref_ok(expr, t),
            Expr::Literal { value, .. } => self.literal_ok(value, t),
            Expr::Function { body, .. } => self.stmts_ok(body@, t),
            Expr::Binary { left, right, .. } => self.expr_ref_ok(left, t) && self.expr_ref_ok(
                right,
                t,
            ),
            Expr::Unary { expr, .. } => self.expr_ref_ok(expr, t),
            Expr::Assignment { expr, .. } => self.expr_ref_ok(expr, t),
            Expr::Logical { left, right, .. } => self.expr_ref_ok(left, t) && self.expr_ref_ok(
                right,
                t,
            ),
            Expr::Call { callee, args, .. } => self.expr_ref_ok(callee, t) && self.exprs_ok(
                args@,
                t,
            ),
            Expr::Get { object, .. } => self.expr_ref_ok(object, t),
            Expr::SetProperty { object, value, .. } => self.expr_ref_ok(object, t)
                && self.expr_ref_ok(value, t),
        }
    }

    pub open spec fn sql_ok(self, q: SqlExpr, t: nat) -> bool {
        match q {
            SqlExpr::Default(e) => self.expr_ref_ok(e, t),
            SqlExpr::Is { left, right }
            | SqlExpr::IsNot { left, right }
            | SqlExpr::In { left, right }
            | SqlExpr::NotIn { left, right }
            | SqlExpr::Like { left, right }
            | SqlExpr::NotLike { left, right } => self.sql_ref_ok(left, t) && self.sql_ref_ok(
                right,
                t,
            ),
            SqlExpr::Between { expr, lower, upper } | SqlExpr::NotBetween {
                expr,
                lower,
                upper,
            } => self.sql_ref_ok(expr, t) && self.sql_ref_ok(lower, t) && self.sql_ref_ok(
                upper,
                t,
            ),
        }
    }

    pub open spec fn stmt_ok(self, s: Stmt, t: nat) -> bool {
        match s {
            Stmt::Program { body, .. } => self.stmts_ok(body@, t),
            Stmt::Expression { expr, .. } => self.expr_ref_ok(expr, t),
            Stmt::Break { .. } => true,
            Stmt::Continue { .. } => true,
            Stmt::Block { body, .. } => self.stmts_ok(body@, t),
            Stmt::Declaration { expr, .. } => self.expr_ref_ok(expr, t),
            Stmt::If { condition, body, else_body, .. } => self.expr_ref_ok(condition, t)
                && self.stmt_ref_ok(body, t) && self.opt_stmt_ok(else_body, t),
            Stmt::Loop { condition, body, post, .. } => self.opt_expr_ok(condition, t)
                && self.stmt_ref_ok(body, t) && self.opt_stmt_ok(post, t),
            Stmt::Return { expr, .. } => self.opt_expr_ok(expr, t),
        }
    }

    /// Every index stored in a node names a node of the arena that was
    /// allocated before it.
    pub open spec fn wf(self) -> bool {
        &&& self.expr_times@.len() == self.expressions@.len()
        &&& self.sql_times@.len() == self.sql_expressions@.len()
        &&& self.stmt_times@.len() == self.statements@.len()
        &&& forall|i: int|
            0 <= i < self.expressions@.len() ==> #[trigger] self.expr_times@[i] < self.clock()
                && self.expr_ok(self.expressions@[i], self.expr_times@[i])
        &&& forall|i: int|
            0 <= i < self.sql_expressions@.len() ==> #[trigger] self.sql_times@[i] < self.clock()
                && self.sql_ok(self.sql_expressions@[i], self.sql_times@[i])
        &&& forall|i: int|
            0 <= i < self.statements@.len() ==> #[trigger] self.stmt_times@[i] < self.clock()
                && self.stmt_ok(self.statements@[i], self.stmt_times@[i])
    }

    /// `self` holds every node of `old`, at the same index and time.
    pub open spec fn extends(self, old: AstArena) -> bool {
        &&& old.expressions@.len() <= self.expressions@.len()
        &&& old.sql_expressions@.len() <= self.sql_expressions@.len()
        &&& old.statements@.len() <= self.statements@.len()
        &&& forall|i: int| 0 <= i < old.expressions@.len() ==> self.expressions@[i] == old.expressions@[i]
        &&& forall|i: int| 0 <= i < old.sql_expressions@.len() ==> self.sql_expressions@[i] == old.sql_expressions@[i]
        &&& forall|i: int| 0 <= i < old.statements@.len() ==> self.statements@[i] == old.statements@[i]
        &&& old.expr_times@.len() <= self.expr_times@.len()
        &&& old.sql_times@.len() <= self.sql_times@.len()
        &&& old.stmt_times@.len() <= self.stmt_times@.len()
        &&& forall|i: int| 0 <= i < old.expr_times@.len() ==> self.expr_times@[i] == old.expr_times@[i]
        &&& forall|i: int| 0 <= i < old.sql_times@.len() ==> self.sql_times@[i] == old.sql_times@[i]
        &&& forall|i: int| 0 <= i < old.stmt_times@.len() ==> self.stmt_times@[i] == old.stmt_times@[i]
    }

    pub open spec fn times_ok(self) -> bool {
        &&& self.expr_times@.len() == self.expressions@.len()
        &&& self.sql_times@.len() == self.sql_expressions@.len()
        &&& self.stmt_times@.len() == self.statements@.len()
    }

    /// Extension is transitive.
    pub proof fn lemma_extends_trans(self, mid: AstArena, old: AstArena)
        requires
            self.extends(mid),
            mid.extends(old),
        ensures
            self.extends(old),
    {
    }

    pub proof fn lemma_refs_mono(self, old: AstArena)
        requires
            self.extends(old),
            self.times_ok(),
            old.times_ok(),
        ensures
            forall|r: ExprId, t: nat, t2: nat| #![trigger old.expr_ref_ok(r, t), self.expr_ref_ok(r, t2)] old.expr_ref_ok(r, t) && t <= t2 ==> self.expr_ref_ok(r, t2),
            forall|r: SqlExprId, t: nat, t2: nat| #![trigger old.sql_ref_ok(r, t), self.sql_ref_ok(r, t2)] old.sql_ref_ok(r, t) && t <= t2 ==> self.sql_ref_ok(r, t2),
            forall|r: StmtId, t: nat, t2: nat| #![trigger old.stmt_ref_ok(r, t), self.stmt_ref_ok(r, t2)] old.stmt_ref_ok(r, t) && t <= t2 ==> self.stmt_ref_ok(r, t2),
    {
        assert forall|r: ExprId, t: nat, t2: nat| #![trigger old.expr_ref_ok(r, t), self.expr_ref_ok(r, t2)] old.expr_ref_ok(r, t) && t <= t2 implies self.expr_ref_ok(r, t2) by {
        }
        assert forall|r: SqlExprId, t: nat, t2: nat| #![trigger old.sql_ref_ok(r, t), self.sql_ref_ok(r, t2)] old.sql_ref_ok(r, t) && t <= t2 implies self.sql_ref_ok(r, t2) by {
        }
        assert forall|r: StmtId, t: nat, t2: nat| #![trigger old.stmt_ref_ok(r, t), self.stmt_ref_ok(r, t2)] old.stmt_ref_ok(r, t) && t <= t2 implies self.stmt_ref_ok(r, t2) by {
        }
    }

    pub proof fn lemma_subquery_mono(self, old: AstArena, q: SqlCollectionSubquery, t: nat, t2: nat)
        requires
            self.extends(old),
            self.times_ok(),
            old.times_ok(),
            old.subquery_ok(q, t),
            t <= t2,
        ensures
            self.subquery_ok(q, t2),
        decreases q,
    {
        self.lemma_refs_mono(old);
        match q {
            SqlCollectionSubquery::Group { values } => {
                assert forall|i: int| 0 <= i < values@.len() implies self.subquery_ok(#[trigger] values@[i], t2) by {
                    self.lemma_subquery_mono(old, values@[i], t, t2);
                }
            },
            SqlCollectionSubquery::Join { left, right, .. } => {
                self.lemma_subquery_mono(old, *left, t, t2);
                self.lemma_subquery_mono(old, *right, t, t2);
            },
            _ => {},
        }
    }

    pub proof fn lemma_projections_mono(self, old: AstArena, ps: Seq<SqlProjection>, t: nat, t2: nat)
        requires
            self.extends(old),
            self.times_ok(),
            old.times_ok(),
            old.projections_ok(ps, t),
            t <= t2,
        ensures
            self.projections_ok(ps, t2),
    {
        self.lemma_refs_mono(old);
        assert forall|i: int| 0 <= i < ps.len() implies (#[trigger] ps[i] matches SqlProjection::Expr { expr, .. }
                ==> self.sql_ref_ok(expr, t2)) by {
            if let SqlProjection::Expr { expr, .. } = ps[i] {
                assert(old.sql_ref_ok(expr, t));
            }
        }
    }

    pub proof fn lemma_core_mono(self, old: AstArena, c: SqlSelectCore, t: nat, t2: nat)
        requires
            self.extends(old),
            self.times_ok(),
            old.times_ok(),
            old.core_ok(c, t),
            t <= t2,
        ensures
            self.core_ok(c, t2),
        decreases c,
    {
        self.lemma_refs_mono(old);
        if let Some(f) = c.from {
            self.lemma_subquery_mono(old, f, t, t2);
        }
        self.lemma_projections_mono(old, c.projection@, t, t2);
        if let Some(b) = c.compound {
            self.lemma_core_mono(old, b.core, t, t2);
        }
        if let Some(g) = c.group_by {
            assert forall|i: int| 0 <= i < g@.len() implies self.sql_ref_ok(#[trigger] g@[i], t2) by {
                assert(old.sql_ref_ok(g@[i], t));
            }
        }
    }

    pub proof fn lemma_select_mono(self, old: AstArena, s: SqlSelect, t: nat, t2: nat)
        requires
            self.extends(old),
            self.times_ok(),
            old.times_ok(),
            old.select_ok(s, t),
            t <= t2,
        ensures
            self.select_ok(s, t2),
    {
        self.lemma_refs_mono(old);
        self.lemma_core_mono(old, s.core, t, t2);
        if let Some(o) = s.order_by {
            assert forall|i: int| 0 <= i < o@.len() implies self.sql_ref_ok(#[trigger] o@[i].expr, t2) by {
                assert(old.sql_ref_ok(o@[i].expr, t));
            }
        }
    }

    pub proof fn lemma_nodes_mono(self, old: AstArena)
        requires
            self.extends(old),
            self.times_ok(),
            old.times_ok(),
        ensures
            forall|e: Expr, t: nat| old.expr_ok(e, t) ==> #[trigger] self.expr_ok(e, t),
            forall|q: SqlExpr, t: nat| old.sql_ok(q, t) ==> #[trigger] self.sql_ok(q, t),
            forall|s: Stmt, t: nat| old.stmt_ok(s, t) ==> #[trigger] self.stmt_ok(s, t),
    {
        self.lemma_refs_mono(old);
        assert forall|e: Expr, t: nat| old.expr_ok(e, t) implies #[trigger] self.expr_ok(e, t) by {
            self.lemma_expr_mono(old, e, t, t);
        }
    }

    pub proof fn lemma_expr_mono(self, old: AstArena, e: Expr, t: nat, t2: nat)
        requires
            self.extends(old),
            self.times_ok(),
            old.times_ok(),
            old.expr_ok(e, t),
            t <= t2,
        ensures
            self.expr_ok(e, t2),
    {
        self.lemma_refs_mono(old);
        match e {
            Expr::Select { query, .. } => self.lemma_select_mono(old, query, t, t2),
            Expr::Insert { command, .. } => {
                match command.values {
                    SqlValues::Select(s) => self.lemma_select_mono(old, s, t, t2),
                    SqlValues::Values { values } => {
                        assert forall|i: int| 0 <= i < values@.len() implies self.sql_ref_ok(#[trigger] values@[i], t2) by {
                            assert(old.sql_ref_ok(values@[i], t));
                        }
                    },
                }
            },
            Expr::Update { command, .. } => {
                assert forall|i: int| 0 <= i < command.assignments@.len() implies self.sql_ref_ok(#[trigger] command.assignments@[i], t2) by {
                    assert(old.sql_ref_ok(command.assignments@[i], t));
                }
            },
            Expr::Literal { value, .. } => {
                match value {
                    Literal::Object(en) => {
                        assert forall|i: int| 0 <= i < en@.len() implies self.expr_ref_ok(#[trigger] en@[i].1, t2) by {
                            assert(old.expr_ref_ok(en@[i].1, t));
                        }
                    },
                    Literal::Array(a) => {
                        assert forall|i: int| 0 <= i < a@.len() implies self.expr_ref_ok(#[trigger] a@[i], t2) by {
                            assert(old.expr_ref_ok(a@[i], t));
                        }
                    },
                    _ => {},
                }
            },
            Expr::Function { body, .. } => {
                assert forall|i: int| 0 <= i < body@.len() implies self.stmt_ref_ok(#[trigger] body@[i], t2) by {
                    assert(old.stmt_ref_ok(body@[i], t));
                }
            },
            Expr::Call { args, .. } => {
                assert forall|i: int| 0 <= i < args@.len() implies self.expr_ref_ok(#[trigger] args@[i], t2) by {
                    assert(old.expr_ref_ok(args@[i], t));
                }
            },
            _ => {},
        }
    }

    /// Stores an expression whose indices all name earlier nodes.
    pub fn alloc_expression(&mut self, expr: Expr) -> (r: ExprId)
        requires
            old(self).wf(),
            old(self).expr_ok(expr, old(self).clock()),
        ensures
            final(self).wf(),
            final(self).extends(*old(self)),
            final(self).expressions@ == old(self).expressions@.push(expr),
            final(self).sql_expressions@ == old(self).sql_expressions@,
            final(self).statements@ == old(self).statements@,
            final(self).clock() == old(self).clock() + 1,
            r.0 == old(self).expressions@.len(),
            expr_tree(*final(self), r) == expr_node_tree(*old(self), expr, old(self).clock()),
    {
        let ghost t = self.clock();
        let r = self.expressions.allocate(expr);
        proof {
            self.expr_times@ = self.expr_times@.push(t);
            self.lemma_nodes_mono(*old(self));
            lemma_expr_node_stable(*self, *old(self), expr, t);
        }
        r
    }

    /// Stores an SQL expression whose indices all name earlier nodes.
    pub fn alloc_sql_expression(&mut self, expr: SqlExpr) -> (r: SqlExprId)
        requires
            old(self).wf(),
            old(self).sql_ok(expr, old(self).clock()),
        ensures
            final(self).wf(),
            final(self).extends(*old(self)),
            final(self).sql_expressions@ == old(self).sql_expressions@.push(expr),
            final(self).expressions@ == old(self).expressions@,
            final(self).statements@ == old(self).statements@,
            final(self).clock() == old(self).clock() + 1,
            r.0 == old(self).sql_expressions@.len(),
            sql_tree(*final(self), r) == sql_node_tree(*old(self), expr, old(self).clock()),
    {
        let ghost t = self.clock();
        let r = self.sql_expressions.allocate(expr);
        proof {
            self.sql_times@ = self.sql_times@.push(t);
            self.lemma_nodes_mono(*old(self));
            lemma_sql_node_stable(*self, *old(self), expr, t);
        }
        r
    }

    /// Stores a statement whose indices all name earlier nodes.
    pub fn alloc_statement(&mut self, stmt: Stmt) -> (r: StmtId)
        requires
            old(self).wf(),
            old(self).stmt_ok(stmt, old(self).clock()),
        ensures
            final(self).wf(),
            final(self).extends(*old(self)),
            final(self).statements@ == old(self).statements@.push(stmt),
            final(self).expressions@ == old(self).expressions@,
            final(self).sql_expressions@ == old(self).sql_expressions@,
            final(self).clock() == old(self).clock() + 1,
            r.0 == old(self).statements@.len(),
            stmt_tree(*final(self), r) == stmt_node_tree(*old(self), stmt, old(self).clock()),
    {
        let ghost t = self.clock();
        let r = self.statements.allocate(stmt);
        proof {
            self.stmt_times@ = self.stmt_times@.push(t);
            self.lemma_nodes_mono(*old(self));
            lemma_stmt_node_stable(*self, *old(self), stmt, t);
        }
        r
    }

    pub fn get_expression(&self, idx: ExprId) -> (r: &Expr)
        requires
            idx.0 < self.expressions@.len(),
        ensures
            *r == self.expressions@[idx.0 as int],
    {
        self.expressions.get(idx)
    }

    pub fn get_sql_expression(&self, idx: SqlExprId) -> (r: &SqlExpr)
        requires
            idx.0 < self.sql_expressions@.len(),
        ensures
            *r == self.sql_expressions@[idx.0 as int],
    {
        self.sql_expressions.get(idx)
    }

    pub fn get_statement(&self, idx: StmtId) -> (r: &Stmt)
        requires
            idx.0 < self.statements@.len(),
        ensures
            *r == self.statements@[idx.0 as int],
    {
        self.statements.get(idx)
    }

    pub fn new() -> (r: AstArena)
        ensures
            r.wf(),
            r.clock() == 0,
    {
        AstArena {
            expressions: AstPool::new(),
            sql_expressions: AstPool::new(),
            statements: AstPool::new(),
            expr_times: Ghost(Seq::empty()),
            sql_times: Ghost(Seq::empty()),
            stmt_times: Ghost(Seq::empty()),
        }
    }
}

} // verus!
