use vstd::prelude::*;
use std::sync::Arc;
use super::{AstRef, Literal};
use super::sql::{SqlDelete, SqlInsert, SqlSelect, SqlUpdate};
use super::stmt::StmtId;
use crate::tokens::{Identifier, Span, Spanned};

verus! {

#[derive(Clone, Copy, Debug, PartialEq, Eq, Structural)]
pub enum Operation {
    Add,
    Subtract,
    Multiply,
    Divide,
    IsEqual,
    IsNotEqual,
    Greater,
    GreaterEqual,
    Less,
    LessEqual,
    And,
    Or,
    Not,
}

/// An expression of the scripting language.
#[allow(inconsistent_fields)]
#[derive(Debug, PartialEq, Eq)]
pub enum Expr {
    Select { query: SqlSelect, span: Span },
    Insert { command: SqlInsert, span: Span },
    Update { command: SqlUpdate, span: Span },
    Delete { command: SqlDelete, span: Span },
    Variable { name: Identifier, span: Span },
    Grouping { expr: ExprId, span: Span },
    Literal { value: Literal, raw: String, span: Span },
    Function {
        name: Option<Identifier>,
        parameters: Vec<Identifier>,
        body: Arc<Vec<StmtId>>,
        span: Span,
    },
    Binary { left: ExprId, operation: Operation, right: ExprId, span: Span },
    Unary { operation: Operation, expr: ExprId, span: Span },
    Assignment { dst: Identifier, expr: ExprId, span: Span },
    Logical { left: ExprId, operation: Operation, right: ExprId, span: Span },
    Call { callee: ExprId, args: Vec<ExprId>, span: Span },
    Get { object: ExprId, name: Identifier, span: Span },
    SetProperty { object: ExprId, name: Identifier, value: ExprId, span: Span },
}

impl Spanned for Expr {
    open spec fn spec_span(&self) -> Span {
        match self {
            Expr::Select { span, .. } => *span,
            Expr::Insert { span, .. } => *span,
            Expr::Update { span, .. } => *span,
            Expr::Delete { span, .. } => *span,
            Expr::Variable { span, .. } => *span,
            Expr::Grouping { span, .. } => *span,
            Expr::Literal { span, .. } => *span,
            Expr::Function { span, .. } => *span,
            Expr::Binary { span, .. } => *span,
            Expr::Unary { span, .. } => *span,
            Expr::Assignment { span, .. } => *span,
            Expr::Logical { span, .. } => *span,
            Expr::Call { span, .. } => *span,
            Expr::Get { span, .. } => *span,
            Expr::SetProperty { span, .. } => *span,
        }
    }

    fn get_span(&self) -> (s: Span) {
        match self {
            Expr::Select { span, .. } => *span,
            Expr::Insert { span, .. } => *span,
            Expr::Update { span, .. } => *span,
            Expr::Delete { span, .. } => *span,
            Expr::Variable { span, .. } => *span,
            Expr::Grouping { span, .. } => *span,
            Expr::Literal { span, .. } => *span,
            Expr::Function { span, .. } => *span,
            Expr::Binary { span, .. } => *span,
            Expr::Unary { span, .. } => *span,
            Expr::Assignment { span, .. } => *span,
            Expr::Logical { span, .. } => *span,
            Expr::Call { span, .. } => *span,
            Expr::Get { span, .. } => *span,
            Expr::SetProperty { span, .. } => *span,
        }
    }
}

/// The index of an expression in the arena.
pub type ExprId = AstRef<Expr>;

} // verus!
