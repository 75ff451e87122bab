use vstd::prelude::*;
use rustc_hash::FxHashMap;

use super::{AstArena, Literal, ObjectKey};
use super::expr::{Expr, ExprId};
use super::stmt::{Stmt, StmtId};
use crate::fxmap::{
    empty_scope, local_entries, locals_clone, locals_insert, new_locals, new_scope, scope_clone,
    scope_contains, scope_entries, scope_get, scope_insert,
};
use crate::tokens::{Identifier, Span};

verus! {

#[derive(Debug)]
pub enum ResolveError {
    GenericError { span: Span, message: String },
}

/// The state of resolution: the scopes from the outermost to the innermost,
/// each mapping a name to whether its declaration is complete, and the
/// recorded distance of each resolved expression, by its index.
pub struct ResolveState {
    pub scopes: Seq<Map<Seq<char>, bool>>,
    pub locals: Map<usize, usize>,
}

/// How resolving a node ends: with a new state, with an error at a span and
/// the state it leaves, or by giving up (where the resolver stops the
/// program).
pub enum Resolution {
    Done(ResolveState),
    Failed(Span, ResolveState),
    Aborted,
}

/// The message of the error met where a variable is read in its own
/// initializer.
pub open spec fn own_initializer_message() -> Seq<char> {
    "Can't read local variable in its own initializer."@
}

pub open spec fn begin_scope_spec(s: ResolveState) -> ResolveState {
    ResolveState { scopes: s.scopes.push(empty_scope()), locals: s.locals }
}

pub open spec fn end_scope_spec(s: ResolveState) -> ResolveState {
    if s.scopes.len() > 0 {
        ResolveState { scopes: s.scopes.drop_last(), locals: s.locals }
    } else {
        s
    }
}

/// Records in the innermost scope, if there is one, whether `name` is
/// complete.
pub open spec fn mark_spec(s: ResolveState, name: Seq<char>, complete: bool) -> ResolveState {
    if s.scopes.len() == 0 {
        s
    } else {
        ResolveState {
            scopes: s.scopes.update(s.scopes.len() - 1, s.scopes.last().insert(name, complete)),
            locals: s.locals,
        }
    }
}

/// The index of the innermost scope that holds `name`.
pub open spec fn innermost(scopes: Seq<Map<Seq<char>, bool>>, name: Seq<char>) -> Option<int>
    decreases scopes.len(),
{
    if scopes.len() == 0 {
        None
    } else if scopes.last().dom().contains(name) {
        Some(scopes.len() - 1)
    } else {
        innermost(scopes.drop_last(), name)
    }
}

/// Records for expression `e` how many scopes out `name` was found, if it was.
pub open spec fn resolve_local_spec(s: ResolveState, e: usize, name: Seq<char>) -> ResolveState {
    match innermost(s.scopes, name) {
        Some(i) => ResolveState {
            scopes: s.scopes,
            locals: s.locals.insert(e, (s.scopes.len() - 1 - i) as usize),
        },
        None => s,
    }
}

/// Declares and defines each parameter, in order.
pub open spec fn declare_params_spec(s: ResolveState, ps: Seq<Identifier>) -> ResolveState
    decreases ps.len(),
{
    if ps.len() == 0 {
        s
    } else {
        declare_params_spec(
            mark_spec(mark_spec(s, ps[0].name@, false), ps[0].name@, true),
            ps.drop_first(),
        )
    }
}

/// Whether reading `name` now reads a variable inside its own initializer.
pub open spec fn reads_own_initializer(s: ResolveState, name: Seq<char>) -> bool {
    &&& s.scopes.len() > 0
    &&& s.scopes.last().dom().contains(name)
    &&& !s.scopes.last()[name]
}

/// Visiting the expression `e`. A child is reached only through an index that
/// names a node allocated before `e`; the arena of a parsed program has no
/// other.
pub open spec fn visit_expr_spec(a: AstArena, s: ResolveState, e: ExprId) -> Resolution
    decreases a.expr_times@[e.0 as int], 3nat, 0nat,
{
    let t = a.expr_times@[e.0 as int];
    match a.expressions@[e.0 as int] {
        Expr::Literal { value, .. } => match value {
            Literal::Object(entries) => visit_items_spec(
                a,
                s,
                entries@.map_values(|p: (ObjectKey, ExprId)| p.1),
                t,
            ),
            Literal::Array(items) => visit_items_spec(a, s, items@, t),
            _ => Resolution::Done(s),
        },
        Expr::Grouping { expr, .. } => resolve_expr_spec(a, s, expr, t),
        Expr::Unary { expr, .. } => resolve_expr_spec(a, s, expr, t),
        Expr::Get { object, .. } => resolve_expr_spec(a, s, object, t),
        Expr::Binary { left, right, .. } => match resolve_expr_spec(a, s, left, t) {
            Resolution::Done(s1) => resolve_expr_spec(a, s1, right, t),
            o => o,
        },
        Expr::Logical { left, right, .. } => match resolve_expr_spec(a, s, left, t) {
            Resolution::Done(s1) => resolve_expr_spec(a, s1, right, t),
            o => o,
        },
        Expr::SetProperty { object, value, .. } => match resolve_expr_spec(a, s, object, t) {
            Resolution::Done(s1) => resolve_expr_spec(a, s1, value, t),
            o => o,
        },
        Expr::Variable { name, span } => if reads_own_initializer(s, name.name@) {
            Resolution::Failed(span, s)
        } else {
            Resolution::Done(resolve_local_spec(s, e.0, name.name@))
        },
        Expr::Assignment { dst, expr, .. } => match resolve_expr_spec(a, s, expr, t) {
            Resolution::Done(s1) => Resolution::Done(resolve_local_spec(s1, e.0, dst.name@)),
            o => o,
        },
        Expr::Call { callee, args, .. } => match resolve_expr_spec(a, s, callee, t) {
            Resolution::Done(s1) => resolve_exprs_spec(a, s1, args@, t),
            o => o,
        },
        Expr::Function { name, parameters, body, .. } => {
            let s1 = match name {
                Some(n) => mark_spec(mark_spec(s, n.name@, false), n.name@, true),
                None => s,
            };
            let s2 = declare_params_spec(begin_scope_spec(s1), parameters@);
            match resolve_stmts_spec(a, s2, body@, t) {
                Resolution::Done(s3) => Resolution::Done(end_scope_spec(s3)),
                o => o,
            }
        },
        _ => Resolution::Done(s),
    }
}

/// Visiting the statement `st`.
pub open spec fn visit_stmt_spec(a: AstArena, s: ResolveState, st: StmtId) -> Resolution
    decreases a.stmt_times@[st.0 as int], 3nat, 0nat,
{
    let t = a.stmt_times@[st.0 as int];
    match a.statements@[st.0 as int] {
        Stmt::Program { body, .. } => resolve_stmts_spec(a, s, body@, t),
        Stmt::Block { body, .. } => match resolve_stmts_spec(a, begin_scope_spec(s), body@, t) {
            Resolution::Done(s1) => Resolution::Done(end_scope_spec(s1)),
            o => o,
        },
        Stmt::Break { .. } => Resolution::Done(s),
        Stmt::Continue { .. } => Resolution::Done(s),
        Stmt::Expression { expr, .. } => resolve_expr_spec(a, s, expr, t),
        Stmt::Declaration { dst, expr, .. } => match resolve_expr_spec(
            a,
            mark_spec(s, dst.name@, false),
            expr,
            t,
        ) {
            Resolution::Done(s1) => Resolution::Done(mark_spec(s1, dst.name@, true)),
            o => o,
        },
        Stmt::If { condition, body, else_body, .. } => match resolve_expr_spec(a, s, condition, t) {
            Resolution::Done(s1) => match resolve_stmt_spec(a, s1, body, t) {
                Resolution::Done(s2) => match else_body {
                    Some(eb) => resolve_stmt_spec(a, s2, eb, t),
                    None => Resolution::Done(s2),
                },
                o => o,
            },
            o => o,
        },
        Stmt::Loop { condition, body, post, .. } => {
            let r1 = match condition {
                Some(c) => resolve_expr_spec(a, s, c, t),
                None => Resolution::Done(s),
            };
            match r1 {
                Resolution::Done(s1) => match resolve_stmt_spec(a, s1, body, t) {
                    Resolution::Done(s2) => match post {
                        Some(p) => resolve_stmt_spec(a, s2, p, t),
                        None => Resolution::Done(s2),
                    },
                    o => o,
                },
                o => o,
            }
        },
        Stmt::Return { expr, .. } => match expr {
            Some(x) => resolve_expr_spec(a, s, x, t),
            None => Resolution::Done(s),
        },
    }
}

/// Resolving the expression `e` below a node of time `bound`: an error while
/// visiting it stops everything.
pub open spec fn resolve_expr_spec(a: AstArena, s: ResolveState, e: ExprId, bound: nat) -> Resolution
    decreases bound, 1nat, 0nat,
{
    if !a.expr_ref_ok(e, bound) {
        Resolution::Aborted
    } else {
        match visit_expr_spec(a, s, e) {
            Resolution::Done(s1) => Resolution::Done(s1),
            _ => Resolution::Aborted,
        }
    }
}

pub open spec fn resolve_stmt_spec(a: AstArena, s: ResolveState, st: StmtId, bound: nat) -> Resolution
    decreases bound, 1nat, 0nat,
{
    if !a.stmt_ref_ok(st, bound) {
        Resolution::Aborted
    } else {
        match visit_stmt_spec(a, s, st) {
            Resolution::Done(s1) => Resolution::Done(s1),
            _ => Resolution::Aborted,
        }
    }
}

pub open spec fn resolve_stmts_spec(a: AstArena, s: ResolveState, ids: Seq<StmtId>, bound: nat) -> Resolution
    decreases bound, 2nat, ids.len(),
{
    if ids.len() == 0 {
        Resolution::Done(s)
    } else {
        match resolve_stmt_spec(a, s, ids[0], bound) {
            Resolution::Done(s1) => resolve_stmts_spec(a, s1, ids.drop_first(), bound),
            o => o,
        }
    }
}

pub open spec fn resolve_exprs_spec(a: AstArena, s: ResolveState, ids: Seq<ExprId>, bound: nat) -> Resolution
    decreases bound, 2nat, ids.len(),
{
    if ids.len() == 0 {
        Resolution::Done(s)
    } else {
        match resolve_expr_spec(a, s, ids[0], bound) {
            Resolution::Done(s1) => resolve_exprs_spec(a, s1, ids.drop_first(), bound),
            o => o,
        }
    }
}

/// Visiting the elements of a literal in turn; an error in one ends the visit
/// with that error.
pub open spec fn visit_items_spec(a: AstArena, s: ResolveState, ids: Seq<ExprId>, bound: nat) -> Resolution
    decreases bound, 2nat, ids.len(),
{
    if ids.len() == 0 {
        Resolution::Done(s)
    } else if !a.expr_ref_ok(ids[0], bound) {
        Resolution::Aborted
    } else {
        match visit_expr_spec(a, s, ids[0]) {
            Resolution::Done(s1) => visit_items_spec(a, s1, ids.drop_first(), bound),
            o => o,
        }
    }
}

/// Why a visit stopped: an error to report, or a failure that stops the
/// resolver for good.
enum Halt {
    Error(ResolveError),
    Abort,
}

pub open spec fn scopes_view(v: Seq<FxHashMap<String, bool>>) -> Seq<Map<Seq<char>, bool>> {
    v.map_values(|m: FxHashMap<String, bool>| scope_entries(m))
}

/// Walks a program's syntax tree and records, for each variable use and
/// assignment, how many scopes out its variable was declared.
pub struct Resolver<'a> {
    scopes: Vec<FxHashMap<String, bool>>,
    locals: FxHashMap<usize, usize>,
    arena: &'a AstArena,
}

spec fn halt_matches(r: Result<(), Halt>, out: Resolution, after: ResolveState) -> bool {
    match out {
        Resolution::Done(s) => r is Ok && after == s,
        Resolution::Failed(sp, st) => r matches Err(Halt::Error(ResolveError::GenericError { span, message }))
            && span == sp && message@ == own_initializer_message() && after == st,
        Resolution::Aborted => r matches Err(Halt::Abort),
    }
}

impl<'a> Resolver<'a> {
    pub closed spec fn state(&self) -> ResolveState {
        ResolveState { scopes: scopes_view(self.scopes@), locals: local_entries(self.locals) }
    }

    pub closed spec fn tree(&self) -> AstArena {
        *self.arena
    }

    pub fn new(scopes: Vec<FxHashMap<String, bool>>, arena: &'a AstArena) -> (r: Resolver<'a>)
        ensures
            r.state() == (ResolveState { scopes: scopes_view(scopes@), locals: Map::empty() }),
            r.tree() == *arena,
    {
        let r = Resolver { scopes, locals: new_locals(), arena };
        proof {
            assert(local_entries(r.locals) =~= Map::<usize, usize>::empty());
        }
        r
    }

    fn begin_scope(&mut self)
        ensures
            final(self).state() == begin_scope_spec(old(self).state()),
            final(self).arena == old(self).arena,
    {
        let ghost before = self.scopes@;
        let m = new_scope();
        self.scopes.push(m);
        proof {
            assert(scopes_view(self.scopes@) =~= scopes_view(before).push(empty_scope()));
        }
    }

    fn end_scope(&mut self)
        ensures
            final(self).state() == end_scope_spec(old(self).state()),
            final(self).arena == old(self).arena,
    {
        let ghost before = self.scopes@;
        self.scopes.pop();
        proof {
            if before.len() > 0 {
                assert(scopes_view(self.scopes@) =~= scopes_view(before).drop_last());
            }
        }
    }

    /// Records in the innermost scope whether `name` is complete.
    fn mark(&mut self, name: &Identifier, complete: bool)
        ensures
            final(self).state() == mark_spec(old(self).state(), name.name@, complete),
            final(self).arena == old(self).arena,
    {
        if self.scopes.len() == 0 {
            return;
        }
        let ghost before = self.scopes@;
        let last = self.scopes.len() - 1;
        let key = name.name.clone();
        scope_insert(&mut self.scopes[last], key, complete);
        proof {
            assert(scopes_view(self.scopes@) =~= scopes_view(before).update(
                last as int,
                scopes_view(before).last().insert(name.name@, complete),
            ));
        }
    }

    fn declare(&mut self, name: &Identifier)
        ensures
            final(self).state() == mark_spec(old(self).state(), name.name@, false),
            final(self).arena == old(self).arena,
    {
        self.mark(name, false);
    }

    fn define(&mut self, name: &Identifier)
        ensures
            final(self).state() == mark_spec(old(self).state(), name.name@, true),
            final(self).arena == old(self).arena,
    {
        self.mark(name, true);
    }

    /// Records for `expr` the distance to the innermost scope that holds
    /// `name`, if one does.
    fn resolve_local(&mut self, expr: ExprId, name: &Identifier)
        ensures
            final(self).state() == resolve_local_spec(old(self).state(), expr.0, name.name@),
            final(self).arena == old(self).arena,
    {
        let ghost sv = scopes_view(self.scopes@);
        let n = self.scopes.len();
        let mut i = n;
        assert(sv.subrange(0, n as int) =~= sv);
        while i > 0
            invariant
                i <= n,
                n == self.scopes@.len(),
                sv == scopes_view(self.scopes@),
                *self == *old(self),
                innermost(sv, name.name@) == innermost(sv.subrange(0, i as int), name.name@),
            decreases i,
        {
            let ghost prefix = sv.subrange(0, i as int);
            assert(prefix.last() == sv[i - 1]);
            assert(prefix.drop_last() =~= sv.subrange(0, i - 1));
            if scope_contains(&self.scopes[i - 1], &name.name) {
                locals_insert(&mut self.locals, expr.0, n - 1 - (i - 1));
                return;
            }
            i = i - 1;
        }
    }

    fn visit_expr(&mut self, eidx: ExprId) -> (r: Result<(), Halt>)
        requires
            old(self).arena.wf(),
            eidx.0 < old(self).arena.expressions@.len(),
        ensures
            final(self).arena == old(self).arena,
            halt_matches(r, visit_expr_spec(*old(self).arena, old(self).state(), eidx), final(self).state()),
        decreases old(self).arena.expr_times@[eidx.0 as int], 3nat, 0nat,
    {
        let a = self.arena;
        let ghost t = a.expr_times@[eidx.0 as int];
        proof {
            assert(a.expr_times@[eidx.0 as int] < a.clock());
        }
        let e = a.get_expression(eidx);
        match e {
            Expr::Literal { value, .. } => match value {
                Literal::Object(entries) => {
                    let ghost ids = entries@.map_values(|p: (ObjectKey, ExprId)| p.1);
                    let ghost s0 = self.state();
                    let mut i: usize = 0;
                    assert(ids.subrange(0, ids.len() as int) =~= ids);
                    while i < entries.len()
                        invariant
                            self.arena == old(self).arena,
                            a == old(self).arena,
                            a.wf(),
                            a.expr_ok(*e, t),
                            *e == a.expressions@[eidx.0 as int],
                            e matches Expr::Literal { value: Literal::Object(en), .. } && en == *entries,
                            ids == entries@.map_values(|p: (ObjectKey, ExprId)| p.1),
                            s0 == old(self).state(),
                            i <= entries@.len(),
                            t == a.expr_times@[eidx.0 as int],
                            visit_items_spec(*a, self.state(), ids.subrange(i as int, ids.len() as int), t)
                                == visit_items_spec(*a, s0, ids, t),
                        decreases entries@.len() - i,
                    {
                        let id = entries[i].1;
                        let ghost rest = ids.subrange(i as int, ids.len() as int);
                        assert(rest[0] == id);
                        assert(rest.drop_first() =~= ids.subrange(i + 1, ids.len() as int));
                        assert(a.expr_ref_ok(entries@[i as int].1, t));
                        let ghost si = self.state();
                        match self.visit_expr(id) {
                            Ok(()) => {},
                            Err(h) => {
                                proof {
                                    assert(visit_items_spec(*a, si, rest, t) == visit_expr_spec(*a, si, id));
                                    assert(visit_expr_spec(*a, s0, eidx) == visit_items_spec(*a, s0, ids, t));
                                }
                                return Err(h);
                            },
                        }
                        i = i + 1;
                    }
                    assert(ids.subrange(ids.len() as int, ids.len() as int) =~= Seq::<ExprId>::empty());
                    Ok(())
                },
                Literal::Array(items) => {
                    let ghost s0 = self.state();
                    let mut i: usize = 0;
                    assert(items@.subrange(0, items@.len() as int) =~= items@);
                    while i < items.len()
                        invariant
                            self.arena == old(self).arena,
                            a == old(self).arena,
                            a.wf(),
                            a.expr_ok(*e, t),
                            *e == a.expressions@[eidx.0 as int],
                            e matches Expr::Literal { value: Literal::Array(it), .. } && it == *items,
                            s0 == old(self).state(),
                            i <= items@.len(),
                            t == a.expr_times@[eidx.0 as int],
                            visit_items_spec(*a, self.state(), items@.subrange(i as int, items@.len() as int), t)
                                == visit_items_spec(*a, s0, items@, t),
                        decreases items@.len() - i,
                    {
                        let id = items[i];
                        let ghost rest = items@.subrange(i as int, items@.len() as int);
                        assert(rest[0] == id);
                        assert(rest.drop_first() =~= items@.subrange(i + 1, items@.len() as int));
                        assert(a.expr_ref_ok(items@[i as int], t));
                        let ghost si = self.state();
                        match self.visit_expr(id) {
                            Ok(()) => {},
                            Err(h) => {
                                proof {
                                    assert(visit_items_spec(*a, si, rest, t) == visit_expr_spec(*a, si, id));
                                    assert(visit_expr_spec(*a, s0, eidx) == visit_items_spec(*a, s0, items@, t));
                                }
                                return Err(h);
                            },
                        }
                        i = i + 1;
                    }
                    assert(items@.subrange(items@.len() as int, items@.len() as int) =~= Seq::<ExprId>::empty());
                    Ok(())
                },
                _ => Ok(()),
            },
            Expr::Grouping { expr, .. } => self.resolve_expr(*expr, Ghost(t)),
            Expr::Unary { expr, .. } => self.resolve_expr(*expr, Ghost(t)),
            Expr::Get { object, .. } => self.resolve_expr(*object, Ghost(t)),
            Expr::Binary { left, right, .. } => {
                self.resolve_expr(*left, Ghost(t))?;
                self.resolve_expr(*right, Ghost(t))
            },
            Expr::Logical { left, right, .. } => {
                self.resolve_expr(*left, Ghost(t))?;
                self.resolve_expr(*right, Ghost(t))
            },
            Expr::SetProperty { object, value, .. } => {
                self.resolve_expr(*object, Ghost(t))?;
                self.resolve_expr(*value, Ghost(t))
            },
            Expr::Variable { name, span } => {
                if self.scopes.len() > 0 {
                    let last = self.scopes.len() - 1;
                    let value = scope_get(&self.scopes[last], &name.name);
                    proof {
                        assert(scopes_view(self.scopes@).last() == scope_entries(self.scopes@[last as int]));
                    }
                    if value.is_some() && !value.unwrap() {
                        return Err(
                            Halt::Error(
                                ResolveError::GenericError {
                                    span: *span,
                                    message: "Can't read local variable in its own initializer.".to_owned(),
                                },
                            ),
                        );
                    }
                }
                self.resolve_local(eidx, name);
                Ok(())
            },
            Expr::Assignment { dst, expr, .. } => {
                self.resolve_expr(*expr, Ghost(t))?;
                self.resolve_local(eidx, dst);
                Ok(())
            },
            Expr::Call { callee, args, .. } => {
                self.resolve_expr(*callee, Ghost(t))?;
                let ghost s0 = self.state();
                let mut i: usize = 0;
                assert(args@.subrange(0, args@.len() as int) =~= args@);
                while i < args.len()
                    invariant
                        self.arena == old(self).arena,
                        a == old(self).arena,
                        a.wf(),
                        a.exprs_ok(args@, t),
                        visit_expr_spec(*a, old(self).state(), eidx) == resolve_exprs_spec(*a, s0, args@, t),
                        i <= args@.len(),
                        t == a.expr_times@[eidx.0 as int],
                        resolve_exprs_spec(*a, self.state(), args@.subrange(i as int, args@.len() as int), t)
                            == resolve_exprs_spec(*a, s0, args@, t),
                    decreases args@.len() - i,
                {
                    let ghost rest = args@.subrange(i as int, args@.len() as int);
                    assert(rest[0] == args@[i as int]);
                    assert(rest.drop_first() =~= args@.subrange(i + 1, args@.len() as int));
                    let ghost si = self.state();
                    match self.resolve_expr(args[i], Ghost(t)) {
                        Ok(()) => {},
                        Err(h) => {
                            proof {
                                assert(resolve_exprs_spec(*a, si, rest, t) == resolve_expr_spec(*a, si, args@[i as int], t));
                            }
                            return Err(h);
                        },
                    }
                    i = i + 1;
                }
                assert(args@.subrange(args@.len() as int, args@.len() as int) =~= Seq::<ExprId>::empty());
                Ok(())
            },
            Expr::Function { name, parameters, body, .. } => {
                if name.is_some() {
                    let n = name.as_ref().unwrap();
                    self.declare(n);
                    self.define(n);
                }
                self.begin_scope();
                let ghost s0 = self.state();
                let mut i: usize = 0;
                assert(parameters@.subrange(0, parameters@.len() as int) =~= parameters@);
                while i < parameters.len()
                    invariant
                        self.arena == old(self).arena,
                        i <= parameters@.len(),
                        declare_params_spec(self.state(), parameters@.subrange(i as int, parameters@.len() as int))
                            == declare_params_spec(s0, parameters@),
                    decreases parameters@.len() - i,
                {
                    let ghost rest = parameters@.subrange(i as int, parameters@.len() as int);
                    assert(rest[0] == parameters@[i as int]);
                    assert(rest.drop_first() =~= parameters@.subrange(i + 1, parameters@.len() as int));
                    self.declare(&parameters[i]);
                    self.define(&parameters[i]);
                    i = i + 1;
                }
                assert(parameters@.subrange(parameters@.len() as int, parameters@.len() as int) =~= Seq::<Identifier>::empty());
                self.resolve_stmts(&**body, Ghost(t))?;
                self.end_scope();
                Ok(())
            },
            _ => Ok(()),
        }
    }

    fn visit_stmt(&mut self, sidx: StmtId) -> (r: Result<(), Halt>)
        requires
            old(self).arena.wf(),
            sidx.0 < old(self).arena.statements@.len(),
        ensures
            final(self).arena == old(self).arena,
            halt_matches(r, visit_stmt_spec(*old(self).arena, old(self).state(), sidx), final(self).state()),
        decreases old(self).arena.stmt_times@[sidx.0 as int], 3nat, 0nat,
    {
        let a = self.arena;
        let ghost t = a.stmt_times@[sidx.0 as int];
        proof {
            assert(a.stmt_times@[sidx.0 as int] < a.clock());
        }
        let s = a.get_statement(sidx);
        match s {
            Stmt::Program { body, .. } => self.resolve_stmts(body, Ghost(t)),
            Stmt::Block { body, .. } => {
                self.begin_scope();
                self.resolve_stmts(body, Ghost(t))?;
                self.end_scope();
                Ok(())
            },
            Stmt::Break { .. } | Stmt::Continue { .. } => Ok(()),
            Stmt::Expression { expr, .. } => self.resolve_expr(*expr, Ghost(t)),
            Stmt::Declaration { dst, expr, .. } => {
                self.declare(dst);
                self.resolve_expr(*expr, Ghost(t))?;
                self.define(dst);
                Ok(())
            },
            Stmt::If { condition, body, else_body, .. } => {
                self.resolve_expr(*condition, Ghost(t))?;
                self.resolve_stmt(*body, Ghost(t))?;
                if else_body.is_some() {
                    self.resolve_stmt(*else_body.as_ref().unwrap(), Ghost(t))?;
                }
                Ok(())
            },
            Stmt::Loop { condition, body, post, .. } => {
                if condition.is_some() {
                    self.resolve_expr(*condition.as_ref().unwrap(), Ghost(t))?;
                }
                self.resolve_stmt(*body, Ghost(t))?;
                if post.is_some() {
                    self.resolve_stmt(*post.as_ref().unwrap(), Ghost(t))?;
                }
                Ok(())
            },
            Stmt::Return { expr, .. } => {
                if expr.is_some() {
                    self.resolve_expr(expr.unwrap(), Ghost(t))?;
                }
                Ok(())
            },
        }
    }

    /// Resolves `expr`; an error while visiting it stops the resolver.
    fn resolve_expr(&mut self, expr: ExprId, Ghost(bound): Ghost<nat>) -> (r: Result<(), Halt>)
        requires
            old(self).arena.wf(),
            old(self).arena.expr_ref_ok(expr, bound),
        ensures
            final(self).arena == old(self).arena,
            halt_matches(r, resolve_expr_spec(*old(self).arena, old(self).state(), expr, bound), final(self).state()),
        decreases bound, 1nat, 0nat,
    {
        match self.visit_expr(expr) {
            Ok(()) => Ok(()),
            Err(_) => Err(Halt::Abort),
        }
    }

    fn resolve_stmt(&mut self, statement: StmtId, Ghost(bound): Ghost<nat>) -> (r: Result<(), Halt>)
        requires
            old(self).arena.wf(),
            old(self).arena.stmt_ref_ok(statement, bound),
        ensures
            final(self).arena == old(self).arena,
            halt_matches(r, resolve_stmt_spec(*old(self).arena, old(self).state(), statement, bound), final(self).state()),
        decreases bound, 1nat, 0nat,
    {
        match self.visit_stmt(statement) {
            Ok(()) => Ok(()),
            Err(_) => Err(Halt::Abort),
        }
    }

    fn resolve_stmts(&mut self, statements: &Vec<StmtId>, Ghost(bound): Ghost<nat>) -> (r: Result<(), Halt>)
        requires
            old(self).arena.wf(),
            old(self).arena.stmts_ok(statements@, bound),
        ensures
            final(self).arena == old(self).arena,
            halt_matches(r, resolve_stmts_spec(*old(self).arena, old(self).state(), statements@, bound), final(self).state()),
        decreases bound, 2nat, statements@.len(),
    {
        let ghost a = *self.arena;
        let ghost s0 = self.state();
        let mut i: usize = 0;
        assert(statements@.subrange(0, statements@.len() as int) =~= statements@);
        while i < statements.len()
            invariant
                self.arena == old(self).arena,
                a == *old(self).arena,
                a.wf(),
                a.stmts_ok(statements@, bound),
                s0 == old(self).state(),
                i <= statements@.len(),
                resolve_stmts_spec(a, self.state(), statements@.subrange(i as int, statements@.len() as int), bound)
                    == resolve_stmts_spec(a, s0, statements@, bound),
            decreases statements@.len() - i,
        {
            let ghost rest = statements@.subrange(i as int, statements@.len() as int);
            assert(rest[0] == statements@[i as int]);
            assert(rest.drop_first() =~= statements@.subrange(i + 1, statements@.len() as int));
            let ghost si = self.state();
            match self.resolve_stmt(statements[i], Ghost(bound)) {
                Ok(()) => {},
                Err(h) => {
                    proof {
                        assert(resolve_stmts_spec(a, si, rest, bound) == resolve_stmt_spec(a, si, statements@[i as int], bound));
                    }
                    return Err(h);
                },
            }
            i = i + 1;
        }
        assert(statements@.subrange(statements@.len() as int, statements@.len() as int) =~= Seq::<StmtId>::empty());
        Ok(())
    }
}

/// Copies the scopes, each with the same entries.
fn clone_scopes(v: &Vec<FxHashMap<String, bool>>) -> (r: Vec<FxHashMap<String, bool>>)
    ensures
        scopes_view(r@) == scopes_view(v@),
{
    let mut r: Vec<FxHashMap<String, bool>> = Vec::new();
    let mut i: usize = 0;
    while i < v.len()
        invariant
            i <= v@.len(),
            r@.len() == i,
            forall|j: int| 0 <= j < i ==> scope_entries(#[trigger] r@[j]) == scope_entries(v@[j]),
        decreases v@.len() - i,
    {
        r.push(scope_clone(&v[i]));
        i = i + 1;
    }
    assert(scopes_view(r@) =~= scopes_view(v@));
    r
}

impl<'a> Resolver<'a> {
    /// Resolves the statement `root`. Gives the scopes and the recorded
    /// distances afterwards, or the error met, or `None` where an error met
    /// below a statement stops the resolver.
    pub fn try_resolve(&mut self, arg: ((), StmtId)) -> (r: Option<
        Result<(Vec<FxHashMap<String, bool>>, FxHashMap<usize, usize>), ResolveError>,
    >)
        requires
            old(self).tree().wf(),
            arg.1.0 < old(self).tree().statements@.len(),
        ensures
            final(self).tree() == old(self).tree(),
            match visit_stmt_spec(old(self).tree(), old(self).state(), arg.1) {
                Resolution::Done(s) => {
                    &&& final(self).state() == s
                    &&& r matches Some(Ok((sc, lo))) && scopes_view(sc@) == s.scopes && local_entries(lo) == s.locals
                },
                Resolution::Failed(sp, st) => {
                    &&& final(self).state() == st
                    &&& r matches Some(Err(ResolveError::GenericError { span, message })) && span == sp
                        && message@ == own_initializer_message()
                },
                Resolution::Aborted => r is None,
            },
    {
        let (_payload, root) = arg;
        match self.visit_stmt(root) {
            Ok(()) => {
                let scopes = clone_scopes(&self.scopes);
                let locals = locals_clone(&self.locals);
                Some(Ok((scopes, locals)))
            },
            Err(Halt::Error(e)) => Some(Err(e)),
            Err(Halt::Abort) => None,
        }
    }

    /// Resolves the statement `root` and gives the scopes and the recorded
    /// distances afterwards.
    pub fn resolve(&mut self, arg: ((), StmtId)) -> (r: Result<
        (Vec<FxHashMap<String, bool>>, FxHashMap<usize, usize>),
        ResolveError,
    >)
        requires
            old(self).tree().wf(),
            arg.1.0 < old(self).tree().statements@.len(),
            !(visit_stmt_spec(old(self).tree(), old(self).state(), arg.1) is Aborted),
        ensures
            final(self).tree() == old(self).tree(),
            match visit_stmt_spec(old(self).tree(), old(self).state(), arg.1) {
                Resolution::Done(s) => {
                    &&& final(self).state() == s
                    &&& r matches Ok((sc, lo)) && scopes_view(sc@) == s.scopes && local_entries(lo) == s.locals
                },
                Resolution::Failed(sp, st) => {
                    &&& final(self).state() == st
                    &&& r matches Err(ResolveError::GenericError { span, message }) && span == sp
                        && message@ == own_initializer_message()
                },
                Resolution::Aborted => false,
            },
    {
        self.try_resolve(arg).unwrap()
    }
}

proof fn lemma_stmts_never_fail(a: AstArena, s: ResolveState, ids: Seq<StmtId>, bound: nat)
    ensures
        !(resolve_stmts_spec(a, s, ids, bound) is Failed),
    decreases ids.len(),
{
    if ids.len() > 0 {
        if let Resolution::Done(s1) = resolve_stmt_spec(a, s, ids[0], bound) {
            lemma_stmts_never_fail(a, s1, ids.drop_first(), bound);
        }
    }
}

/// What visiting a child gives its parent: the state it ends in, or a stop
/// of the whole resolver.
pub open spec fn as_child(r: Resolution) -> Resolution {
    match r {
        Resolution::Done(s1) => Resolution::Done(s1),
        _ => Resolution::Aborted,
    }
}

/// The first child is visited from the parent's state, the second from the
/// state the first leaves.
pub open spec fn one_then_other(a: AstArena, s: ResolveState, first: ExprId, second: ExprId) -> Resolution {
    match visit_expr_spec(a, s, first) {
        Resolution::Done(s1) => as_child(visit_expr_spec(a, s1, second)),
        _ => Resolution::Aborted,
    }
}

proof fn lemma_innermost_at(scopes: Seq<Map<Seq<char>, bool>>, name: Seq<char>, i: int)
    requires
        0 <= i < scopes.len(),
        scopes[i].dom().contains(name),
        forall|j: int| i < j < scopes.len() ==> !(#[trigger] scopes[j]).dom().contains(name),
    ensures
        innermost(scopes, name) == Some(i),
    decreases scopes.len(),
{
    if i < scopes.len() - 1 {
        let d = scopes.drop_last();
        assert forall|j: int| i < j < d.len() implies !(#[trigger] d[j]).dom().contains(name) by {
            assert(d[j] == scopes[j]);
        }
        lemma_innermost_at(d, name, i);
    }
}

proof fn lemma_innermost_none(scopes: Seq<Map<Seq<char>, bool>>, name: Seq<char>)
    requires
        forall|j: int| 0 <= j < scopes.len() ==> !(#[trigger] scopes[j]).dom().contains(name),
    ensures
        innermost(scopes, name) is None,
    decreases scopes.len(),
{
    if scopes.len() > 0 {
        let d = scopes.drop_last();
        assert forall|j: int| 0 <= j < d.len() implies !(#[trigger] d[j]).dom().contains(name) by {
            assert(d[j] == scopes[j]);
        }
        lemma_innermost_none(d, name);
    }
}

/// Reading a variable records, for that expression, how many scopes out its
/// name was declared: the innermost scope that holds the name counts, and
/// the scopes themselves do not change. A name in the innermost scope whose
/// declaration is not complete is read in its own initializer, the one case
/// left out here.
pub proof fn law_variable_read_records_distance(a: AstArena, s: ResolveState, e: ExprId, i: int)
    requires
        e.0 < a.expressions@.len(),
        a.expressions@[e.0 as int] is Variable,
        0 <= i < s.scopes.len(),
        s.scopes[i].dom().contains(a.expressions@[e.0 as int]->Variable_name.name@),
        forall|j: int|
            i < j < s.scopes.len() ==> !(#[trigger] s.scopes[j]).dom().contains(
                a.expressions@[e.0 as int]->Variable_name.name@,
            ),
        i == s.scopes.len() - 1 ==> s.scopes[i][a.expressions@[e.0 as int]->Variable_name.name@],
    ensures
        visit_expr_spec(a, s, e) == Resolution::Done(
            ResolveState {
                scopes: s.scopes,
                locals: s.locals.insert(e.0, (s.scopes.len() - 1 - i) as usize),
            },
        ),
{
    lemma_innermost_at(s.scopes, a.expressions@[e.0 as int]->Variable_name.name@, i);
}

/// Reading a name that no scope holds records nothing and changes nothing: it
/// is a global.
pub proof fn law_undeclared_read_records_nothing(a: AstArena, s: ResolveState, e: ExprId)
    requires
        e.0 < a.expressions@.len(),
        a.expressions@[e.0 as int] is Variable,
        forall|j: int|
            0 <= j < s.scopes.len() ==> !(#[trigger] s.scopes[j]).dom().contains(
                a.expressions@[e.0 as int]->Variable_name.name@,
            ),
    ensures
        visit_expr_spec(a, s, e) == Resolution::Done(s),
{
    lemma_innermost_none(s.scopes, a.expressions@[e.0 as int]->Variable_name.name@);
}

/// Both operands of a binary or logical expression are resolved: the left
/// one from the state before, the right one from the state the left leaves.
pub proof fn law_binary_visits_both_operands(a: AstArena, s: ResolveState, e: ExprId)
    requires
        a.wf(),
        e.0 < a.expressions@.len(),
    ensures
        a.expressions@[e.0 as int] matches Expr::Binary { left, right, .. } ==> visit_expr_spec(a, s, e)
            == one_then_other(a, s, left, right),
        a.expressions@[e.0 as int] matches Expr::Logical { left, right, .. } ==> visit_expr_spec(a, s, e)
            == one_then_other(a, s, left, right),
        a.expressions@[e.0 as int] matches Expr::SetProperty { object, value, .. } ==> visit_expr_spec(a, s, e)
            == one_then_other(a, s, object, value),
{
    assert(a.expr_times@[e.0 as int] < a.clock());
}

/// The operand of a grouping, a unary expression or a property read is
/// resolved from the state before it.
pub proof fn law_single_operand_visited(a: AstArena, s: ResolveState, e: ExprId)
    requires
        a.wf(),
        e.0 < a.expressions@.len(),
    ensures
        a.expressions@[e.0 as int] matches Expr::Grouping { expr, .. } ==> visit_expr_spec(a, s, e)
            == as_child(visit_expr_spec(a, s, expr)),
        a.expressions@[e.0 as int] matches Expr::Unary { expr, .. } ==> visit_expr_spec(a, s, e)
            == as_child(visit_expr_spec(a, s, expr)),
        a.expressions@[e.0 as int] matches Expr::Get { object, .. } ==> visit_expr_spec(a, s, e)
            == as_child(visit_expr_spec(a, s, object)),
{
    assert(a.expr_times@[e.0 as int] < a.clock());
}

/// An assignment resolves its value first, then records for itself how many
/// scopes out its target was declared, as a read of that name would.
pub proof fn law_assignment_records_target(a: AstArena, s: ResolveState, e: ExprId, i: int)
    requires
        a.wf(),
        e.0 < a.expressions@.len(),
        a.expressions@[e.0 as int] is Assignment,
        visit_expr_spec(a, s, a.expressions@[e.0 as int]->Assignment_expr) matches Resolution::Done(s1)
            && 0 <= i < s1.scopes.len() && s1.scopes[i].dom().contains(
            a.expressions@[e.0 as int]->Assignment_dst.name@,
        ) && forall|j: int|
            i < j < s1.scopes.len() ==> !(#[trigger] s1.scopes[j]).dom().contains(
                a.expressions@[e.0 as int]->Assignment_dst.name@,
            ),
    ensures
        ({
            let s1 = visit_expr_spec(a, s, a.expressions@[e.0 as int]->Assignment_expr)->Done_0;
            visit_expr_spec(a, s, e) == Resolution::Done(
                ResolveState {
                    scopes: s1.scopes,
                    locals: s1.locals.insert(e.0, (s1.scopes.len() - 1 - i) as usize),
                },
            )
        }),
{
    assert(a.expr_times@[e.0 as int] < a.clock());
    let s1 = visit_expr_spec(a, s, a.expressions@[e.0 as int]->Assignment_expr)->Done_0;
    lemma_innermost_at(s1.scopes, a.expressions@[e.0 as int]->Assignment_dst.name@, i);
}

/// Visiting the expressions `ids` one after another, each from the state the
/// one before leaves; a stop in any of them stops the whole resolver.
pub open spec fn visit_each(a: AstArena, s: ResolveState, ids: Seq<ExprId>) -> Resolution
    decreases ids.len(),
{
    if ids.len() == 0 {
        Resolution::Done(s)
    } else {
        match visit_expr_spec(a, s, ids[0]) {
            Resolution::Done(s1) => visit_each(a, s1, ids.drop_first()),
            _ => Resolution::Aborted,
        }
    }
}

proof fn lemma_resolve_exprs_each(a: AstArena, s: ResolveState, ids: Seq<ExprId>, t: nat)
    requires
        a.exprs_ok(ids, t),
    ensures
        resolve_exprs_spec(a, s, ids, t) == visit_each(a, s, ids),
    decreases ids.len(),
{
    if ids.len() > 0 {
        assert(a.expr_ref_ok(ids[0], t));
        let rest = ids.drop_first();
        assert forall|i: int| 0 <= i < rest.len() implies a.expr_ref_ok(#[trigger] rest[i], t) by {
            assert(rest[i] == ids[i + 1]);
        }
        assert(resolve_expr_spec(a, s, ids[0], t) == as_child(visit_expr_spec(a, s, ids[0])));
        match visit_expr_spec(a, s, ids[0]) {
            Resolution::Done(s1) => {
                lemma_resolve_exprs_each(a, s1, rest, t);
                assert(resolve_exprs_spec(a, s, ids, t) == resolve_exprs_spec(a, s1, rest, t));
                assert(visit_each(a, s, ids) == visit_each(a, s1, rest));
            },
            _ => {
                assert(resolve_exprs_spec(a, s, ids, t) == Resolution::Aborted);
                assert(visit_each(a, s, ids) == Resolution::Aborted);
            },
        }
    }
}

/// A call resolves its callee, then each argument in order, each from the
/// state the one before leaves.
pub proof fn law_call_visits_callee_then_arguments(a: AstArena, s: ResolveState, e: ExprId)
    requires
        a.wf(),
        e.0 < a.expressions@.len(),
        a.expressions@[e.0 as int] is Call,
    ensures
        visit_expr_spec(a, s, e) == match visit_expr_spec(a, s, a.expressions@[e.0 as int]->Call_callee) {
            Resolution::Done(s1) => visit_each(a, s1, a.expressions@[e.0 as int]->Call_args@),
            _ => Resolution::Aborted,
        },
{
    let t = a.expr_times@[e.0 as int];
    assert(t < a.clock());
    if let Resolution::Done(s1) = visit_expr_spec(a, s, a.expressions@[e.0 as int]->Call_callee) {
        lemma_resolve_exprs_each(a, s1, a.expressions@[e.0 as int]->Call_args@, t);
    }
}

/// A declaration puts its name in the innermost scope as not yet complete,
/// resolves the initializer so, and then marks the name complete; any other
/// name of that scope is left as it was.
pub proof fn law_declaration_defines_after_initializer(a: AstArena, s: ResolveState, st: StmtId)
    requires
        a.wf(),
        st.0 < a.statements@.len(),
        a.statements@[st.0 as int] is Declaration,
        s.scopes.len() > 0,
    ensures
        ({
            let n = a.statements@[st.0 as int]->Declaration_dst.name@;
            let k = s.scopes.len() - 1;
            let during = ResolveState {
                scopes: s.scopes.update(k, s.scopes[k].insert(n, false)),
                locals: s.locals,
            };
            visit_stmt_spec(a, s, st) == match visit_expr_spec(a, during, a.statements@[st.0 as int]->Declaration_expr) {
                Resolution::Done(s1) => Resolution::Done(
                    ResolveState { scopes: s1.scopes.update(k, s1.scopes[k].insert(n, true)), locals: s1.locals },
                ),
                _ => Resolution::Aborted,
            }
        }),
{
    let t = a.stmt_times@[st.0 as int];
    assert(t < a.clock());
    let n = a.statements@[st.0 as int]->Declaration_dst.name@;
    let during = mark_spec(s, n, false);
    lemma_depth_expr(a, during, a.statements@[st.0 as int]->Declaration_expr);
}

/// An `if` resolves its condition, then its body, then its other branch if
/// it has one, each from the state the one before leaves.
pub proof fn law_if_visits_condition_then_branches(a: AstArena, s: ResolveState, st: StmtId)
    requires
        a.wf(),
        st.0 < a.statements@.len(),
        a.statements@[st.0 as int] is If,
    ensures
        ({
            let node = a.statements@[st.0 as int];
            visit_stmt_spec(a, s, st) == match visit_expr_spec(a, s, node->If_condition) {
                Resolution::Done(s1) => match visit_stmt_spec(a, s1, node->If_body) {
                    Resolution::Done(s2) => match node->If_else_body {
                        Some(eb) => as_child(visit_stmt_spec(a, s2, eb)),
                        None => Resolution::Done(s2),
                    },
                    _ => Resolution::Aborted,
                },
                _ => Resolution::Aborted,
            }
        }),
{
    assert(a.stmt_times@[st.0 as int] < a.clock());
}

/// Resolving a statement never ends with an error to report: an error met in
/// an expression below it stops the resolver, so resolution either completes
/// or gives up.
pub proof fn law_statement_resolution_never_fails(a: AstArena, s: ResolveState, st: StmtId)
    ensures
        !(visit_stmt_spec(a, s, st) is Failed),
{
    let t = a.stmt_times@[st.0 as int];
    match a.statements@[st.0 as int] {
        Stmt::Program { body, .. } => lemma_stmts_never_fail(a, s, body@, t),
        Stmt::Block { body, .. } => lemma_stmts_never_fail(a, begin_scope_spec(s), body@, t),
        _ => {},
    }
}

pub open spec fn keeps_depth(r: Resolution, s: ResolveState) -> bool {
    r matches Resolution::Done(s1) ==> s1.scopes.len() == s.scopes.len()
}

proof fn lemma_params_depth(s: ResolveState, ps: Seq<Identifier>)
    ensures
        declare_params_spec(s, ps).scopes.len() == s.scopes.len(),
    decreases ps.len(),
{
    if ps.len() > 0 {
        lemma_params_depth(
            mark_spec(mark_spec(s, ps[0].name@, false), ps[0].name@, true),
            ps.drop_first(),
        );
    }
}

proof fn lemma_depth_expr(a: AstArena, s: ResolveState, e: ExprId)
    ensures
        keeps_depth(visit_expr_spec(a, s, e), s),
    decreases a.expr_times@[e.0 as int], 3nat, 0nat,
{
    let t = a.expr_times@[e.0 as int];
    match a.expressions@[e.0 as int] {
        Expr::Literal { value, .. } => match value {
            Literal::Object(entries) => lemma_depth_items(
                a,
                s,
                entries@.map_values(|p: (ObjectKey, ExprId)| p.1),
                t,
            ),
            Literal::Array(items) => lemma_depth_items(a, s, items@, t),
            _ => {},
        },
        Expr::Grouping { expr, .. } => lemma_depth_resolve_expr(a, s, expr, t),
        Expr::Unary { expr, .. } => lemma_depth_resolve_expr(a, s, expr, t),
        Expr::Get { object, .. } => lemma_depth_resolve_expr(a, s, object, t),
        Expr::Binary { left, right, .. } => {
            lemma_depth_resolve_expr(a, s, left, t);
            if let Resolution::Done(s1) = resolve_expr_spec(a, s, left, t) {
                lemma_depth_resolve_expr(a, s1, right, t);
            }
        },
        Expr::Logical { left, right, .. } => {
            lemma_depth_resolve_expr(a, s, left, t);
            if let Resolution::Done(s1) = resolve_expr_spec(a, s, left, t) {
                lemma_depth_resolve_expr(a, s1, right, t);
            }
        },
        Expr::SetProperty { object, value, .. } => {
            lemma_depth_resolve_expr(a, s, object, t);
            if let Resolution::Done(s1) = resolve_expr_spec(a, s, object, t) {
                lemma_depth_resolve_expr(a, s1, value, t);
            }
        },
        Expr::Assignment { expr, .. } => lemma_depth_resolve_expr(a, s, expr, t),
        Expr::Call { callee, args, .. } => {
            lemma_depth_resolve_expr(a, s, callee, t);
            if let Resolution::Done(s1) = resolve_expr_spec(a, s, callee, t) {
                lemma_depth_exprs(a, s1, args@, t);
            }
        },
        Expr::Function { name, parameters, body, .. } => {
            let s1 = match name {
                Some(n) => mark_spec(mark_spec(s, n.name@, false), n.name@, true),
                None => s,
            };
            lemma_params_depth(begin_scope_spec(s1), parameters@);
            let s2 = declare_params_spec(begin_scope_spec(s1), parameters@);
            lemma_depth_stmts(a, s2, body@, t);
        },
        _ => {},
    }
}

proof fn lemma_depth_stmt(a: AstArena, s: ResolveState, st: StmtId)
    ensures
        keeps_depth(visit_stmt_spec(a, s, st), s),
    decreases a.stmt_times@[st.0 as int], 3nat, 0nat,
{
    let t = a.stmt_times@[st.0 as int];
    match a.statements@[st.0 as int] {
        Stmt::Program { body, .. } => lemma_depth_stmts(a, s, body@, t),
        Stmt::Block { body, .. } => lemma_depth_stmts(a, begin_scope_spec(s), body@, t),
        Stmt::Expression { expr, .. } => lemma_depth_resolve_expr(a, s, expr, t),
        Stmt::Declaration { dst, expr, .. } => lemma_depth_resolve_expr(
            a,
            mark_spec(s, dst.name@, false),
            expr,
            t,
        ),
        Stmt::If { condition, body, else_body, .. } => {
            lemma_depth_resolve_expr(a, s, condition, t);
            if let Resolution::Done(s1) = resolve_expr_spec(a, s, condition, t) {
                lemma_depth_resolve_stmt(a, s1, body, t);
                if let Resolution::Done(s2) = resolve_stmt_spec(a, s1, body, t) {
                    if let Some(eb) = else_body {
                        lemma_depth_resolve_stmt(a, s2, eb, t);
                    }
                }
            }
        },
        Stmt::Loop { condition, body, post, .. } => {
            let r1 = match condition {
                Some(c) => resolve_expr_spec(a, s, c, t),
                None => Resolution::Done(s),
            };
            if let Some(c) = condition {
                lemma_depth_resolve_expr(a, s, c, t);
            }
            if let Resolution::Done(s1) = r1 {
                lemma_depth_resolve_stmt(a, s1, body, t);
                if let Resolution::Done(s2) = resolve_stmt_spec(a, s1, body, t) {
                    if let Some(p) = post {
                        lemma_depth_resolve_stmt(a, s2, p, t);
                    }
                }
            }
        },
        Stmt::Return { expr, .. } => {
            if let Some(x) = expr {
                lemma_depth_resolve_expr(a, s, x, t);
            }
        },
        _ => {},
    }
}

proof fn lemma_depth_resolve_expr(a: AstArena, s: ResolveState, e: ExprId, bound: nat)
    ensures
        keeps_depth(resolve_expr_spec(a, s, e, bound), s),
    decreases bound, 1nat, 0nat,
{
    if a.expr_ref_ok(e, bound) {
        lemma_depth_expr(a, s, e);
    }
}

proof fn lemma_depth_resolve_stmt(a: AstArena, s: ResolveState, st: StmtId, bound: nat)
    ensures
        keeps_depth(resolve_stmt_spec(a, s, st, bound), s),
    decreases bound, 1nat, 0nat,
{
    if a.stmt_ref_ok(st, bound) {
        lemma_depth_stmt(a, s, st);
    }
}

proof fn lemma_depth_stmts(a: AstArena, s: ResolveState, ids: Seq<StmtId>, bound: nat)
    ensures
        keeps_depth(resolve_stmts_spec(a, s, ids, bound), s),
    decreases bound, 2nat, ids.len(),
{
    if ids.len() > 0 {
        lemma_depth_resolve_stmt(a, s, ids[0], bound);
        if let Resolution::Done(s1) = resolve_stmt_spec(a, s, ids[0], bound) {
            lemma_depth_stmts(a, s1, ids.drop_first(), bound);
        }
    }
}

proof fn lemma_depth_exprs(a: AstArena, s: ResolveState, ids: Seq<ExprId>, bound: nat)
    ensures
        keeps_depth(resolve_exprs_spec(a, s, ids, bound), s),
    decreases bound, 2nat, ids.len(),
{
    if ids.len() > 0 {
        lemma_depth_resolve_expr(a, s, ids[0], bound);
        if let Resolution::Done(s1) = resolve_expr_spec(a, s, ids[0], bound) {
            lemma_depth_exprs(a, s1, ids.drop_first(), bound);
        }
    }
}

proof fn lemma_depth_items(a: AstArena, s: ResolveState, ids: Seq<ExprId>, bound: nat)
    ensures
        keeps_depth(visit_items_spec(a, s, ids, bound), s),
    decreases bound, 2nat, ids.len(),
{
    if ids.len() > 0 && a.expr_ref_ok(ids[0], bound) {
        lemma_depth_expr(a, s, ids[0]);
        if let Resolution::Done(s1) = visit_expr_spec(a, s, ids[0]) {
            lemma_depth_items(a, s1, ids.drop_first(), bound);
        }
    }
}

/// Every scope that resolving a statement opens, it closes again: when
/// resolution completes, there are as many scopes as before.
pub proof fn law_resolution_keeps_scope_depth(a: AstArena, s: ResolveState, st: StmtId)
    ensures
        visit_stmt_spec(a, s, st) matches Resolution::Done(s1) ==> s1.scopes.len() == s.scopes.len(),
{
    lemma_depth_stmt(a, s, st);
}

} // verus!
