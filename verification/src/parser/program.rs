use vstd::prelude::*;
use rustc_hash::FxHashMap;

use crate::ast::AstArena;
use crate::ast::expr::{Expr, ExprId};
use crate::ast::stmt::{Stmt, StmtId};
use crate::fxmap::{local_entries, locals_get};

verus! {

/// A parsed program: the arena of its nodes, the index of its root statement
/// and, once resolution has run, the scope distance of each resolved variable
/// use, by expression index.
pub struct Program {
    root: StmtId,
    arena: AstArena,
    locals: Option<FxHashMap<usize, usize>>,
}

impl Program {
    pub closed spec fn root_id(&self) -> StmtId {
        self.root
    }

    pub closed spec fn nodes(&self) -> AstArena {
        self.arena
    }

    /// The resolved distances, if they were set.
    pub closed spec fn distances(&self) -> Option<Map<usize, usize>> {
        match self.locals {
            Some(m) => Some(local_entries(m)),
            None => None,
        }
    }

    /// The root names a statement of a well-formed arena.
    pub open spec fn wf(&self) -> bool {
        &&& self.nodes().wf()
        &&& self.root_id().0 < self.nodes().statements@.len()
    }

    pub fn new(root: StmtId, arena: AstArena) -> (r: Program)
        ensures
            r.root_id() == root,
            r.nodes() == arena,
            r.distances() is None,
    {
        Program { root, arena, locals: None }
    }

    pub fn set_locals(&mut self, locals: FxHashMap<usize, usize>)
        ensures
            final(self).root_id() == old(self).root_id(),
            final(self).nodes() == old(self).nodes(),
            final(self).distances() == Some(local_entries(locals)),
    {
        self.locals = Some(locals);
    }

    /// The scope distance recorded for the expression `eid`, if any.
    pub fn get_distance(&self, eid: ExprId) -> (r: Option<usize>)
        requires
            self.distances() is Some,
        ensures
            r == (if self.distances()->0.dom().contains(eid.0) {
                Some(self.distances()->0[eid.0])
            } else {
                None::<usize>
            }),
    {
        locals_get(self.locals.as_ref().unwrap(), eid.0)
    }

    pub fn get_expression(&self, idx: ExprId) -> (r: &Expr)
        requires
            idx.0 < self.nodes().expressions@.len(),
        ensures
            *r == self.nodes().expressions@[idx.0 as int],
    {
        self.arena.get_expression(idx)
    }

    pub fn get_statement(&self, idx: StmtId) -> (r: &Stmt)
        requires
            idx.0 < self.nodes().statements@.len(),
        ensures
            *r == self.nodes().statements@[idx.0 as int],
    {
        self.arena.get_statement(idx)
    }

    pub fn get_root(&self) -> (r: StmtId)
        ensures
            r == self.root_id(),
    {
        self.root
    }

    /// The arena that holds the program's nodes.
    pub fn get_arena(&self) -> (r: &AstArena)
        ensures
            *r == self.nodes(),
    {
        &self.arena
    }
}

} // verus!
