use vstd::prelude::*;
use super::AstRef;
use super::expr::ExprId;
use crate::tokens::Identifier;

verus! {

#[derive(Clone, Copy, Debug, PartialEq, Eq, Structural)]
pub enum SqlDistinct {
    ImplicitAll,
    All,
    Distinct,
}

#[derive(Clone, Copy, Debug, PartialEq, Eq, Structural)]
pub enum SqlJoinType {
    Left,
    LeftOuter,
    Right,
    Inner,
}

#[derive(Clone, Copy, Debug, PartialEq, Eq, Structural)]
pub enum SqlCompoundOperator {
    Union,
    UnionAll,
    Intersect,
    Except,
}

#[derive(Clone, Copy, Debug, PartialEq, Eq, Structural)]
pub enum SqlOrdering {
    Asc,
    Desc,
}

/// A collection named in a query: `namespace.name AS alias`.
#[derive(Debug, PartialEq, Eq)]
pub struct SqlCollectionIdentifier {
    pub namespace: Option<Identifier>,
    pub name: Identifier,
    pub alias: Option<Identifier>,
}

/// The index of an SQL expression in the arena.
pub type SqlExprId = AstRef<SqlExpr>;

/// An expression of the query language: a script expression, or one of the
/// SQL predicates built on other SQL expressions.
#[derive(Debug, PartialEq, Eq)]
pub enum SqlExpr {
    Default(ExprId),
    Is { left: SqlExprId, right: SqlExprId },
    IsNot { left: SqlExprId, right: SqlExprId },
    In { left: SqlExprId, right: SqlExprId },
    NotIn { left: SqlExprId, right: SqlExprId },
    Like { left: SqlExprId, right: SqlExprId },
    NotLike { left: SqlExprId, right: SqlExprId },
    Between { expr: SqlExprId, lower: SqlExprId, upper: SqlExprId },
    NotBetween { expr: SqlExprId, lower: SqlExprId, upper: SqlExprId },
}

#[derive(Debug, PartialEq, Eq)]
pub enum SqlProjection {
    All { collection: Option<Identifier> },
    Expr { expr: SqlExprId, alias: Option<Identifier> },
}

#[derive(Debug, PartialEq, Eq)]
pub struct SqlLimitClause {
    pub count: SqlExprId,
    pub offset: Option<SqlExprId>,
}

#[derive(Debug, PartialEq, Eq)]
pub struct SqlOrderByClause {
    pub expr: SqlExprId,
    pub ordering: SqlOrdering,
}

#[derive(Debug, PartialEq, Eq)]
pub struct SqlSelectCompound {
    pub operator: SqlCompoundOperator,
    pub core: SqlSelectCore,
}

#[derive(Debug, PartialEq, Eq)]
pub struct SqlJoin {
    pub join_type: SqlJoinType,
    pub subquery: SqlCollectionSubquery,
    pub join_constraint: Option<SqlExprId>,
}

#[derive(Debug, PartialEq, Eq)]
pub enum SqlCollectionSubquery {
    Group { values: Vec<SqlCollectionSubquery> },
    Join {
        left: Box<SqlCollectionSubquery>,
        right: Box<SqlCollectionSubquery>,
        join_type: SqlJoinType,
        constraint: Option<SqlExprId>,
    },
    Collection(SqlCollectionIdentifier),
    Select { expr: ExprId, alias: Option<Identifier> },
}

#[derive(Debug, PartialEq, Eq)]
pub struct SqlSelectCore {
    pub distinct: SqlDistinct,
    pub projection: Vec<SqlProjection>,
    pub from: Option<SqlCollectionSubquery>,
    pub where_clause: Option<SqlExprId>,
    pub group_by: Option<Vec<SqlExprId>>,
    pub having: Option<SqlExprId>,
    pub compound: Option<Box<SqlSelectCompound>>,
}

#[derive(Debug, PartialEq, Eq)]
pub struct SqlSelect {
    pub core: SqlSelectCore,
    pub order_by: Option<Vec<SqlOrderByClause>>,
    pub limit: Option<SqlLimitClause>,
}

#[derive(Debug, PartialEq, Eq)]
pub enum SqlValues {
    Values { values: Vec<SqlExprId> },
    Select(SqlSelect),
}

#[derive(Debug, PartialEq, Eq)]
pub struct SqlInsert {
    pub collection: SqlCollectionIdentifier,
    pub values: SqlValues,
}

#[derive(Debug, PartialEq, Eq)]
pub struct SqlUpdate {
    pub collection: SqlCollectionIdentifier,
    pub assignments: Vec<SqlExprId>,
    pub where_clause: Option<SqlExprId>,
}

#[derive(Debug, PartialEq, Eq)]
pub struct SqlDelete {
    pub collection: SqlCollectionIdentifier,
    pub where_clause: Option<SqlExprId>,
}

} // verus!
