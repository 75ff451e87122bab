use vstd::prelude::*;
use super::AstRef;
use super::expr::ExprId;
use crate::tokens::{Identifier, Span, Spanned};

verus! {

/// A statement of the scripting language.
#[allow(inconsistent_fields)]
#[derive(Debug, PartialEq, Eq)]
pub enum Stmt {
    Program { body: Vec<StmtId>, span: Span },
    Expression { expr: ExprId, span: Span },
    Break { span: Span },
    Continue { span: Span },
    Block { body: Vec<StmtId>, span: Span },
    Declaration { dst: Identifier, expr: ExprId, span: Span },
    If { condition: ExprId, body: StmtId, else_body: Option<StmtId>, span: Span },
    Loop { condition: Option<ExprId>, body: StmtId, post: Option<StmtId>, span: Span },
    Return { expr: Option<ExprId>, span: Span },
}

impl Spanned for Stmt {
    open spec fn spec_span(&self) -> Span {
        match self {
            Stmt::Program { span, .. } => *span,
            Stmt::Expression { span, .. } => *span,
            Stmt::Break { span } => *span,
            Stmt::Continue { span } => *span,
            Stmt::Block { span, .. } => *span,
            Stmt::Declaration { span, .. } => *span,
            Stmt::If { span, .. } => *span,
            Stmt::Loop { span, .. } => *span,
            Stmt::Return { span, .. } => *span,
        }
    }

    fn get_span(&self) -> (s: Span) {
        match self {
            Stmt::Program { span, .. } => *span,
            Stmt::Expression { span, .. } => *span,
            Stmt::Break { span } => *span,
            Stmt::Continue { span } => *span,
            Stmt::Block { span, .. } => *span,
            Stmt::Declaration { span, .. } => *span,
            Stmt::If { span, .. } => *span,
            Stmt::Loop { span, .. } => *span,
            Stmt::Return { span, .. } => *span,
        }
    }
}

/// The index of a statement in the arena.
pub type StmtId = AstRef<Stmt>;

} // verus!
