use lykiadb::ast::expr::Expr;
use lykiadb::ast::resolver::Resolver;
use lykiadb::parser::program::Program;
use lykiadb::parser::Parser;
use lykiadb::scanner::Scanner;

fn program(source: &str) -> Program {
    let tokens = Scanner::scan(source).unwrap();
    Parser::parse(&tokens).unwrap()
}

/// The recorded distance of each use of the variable `name`, in the order of
/// their expression indices.
fn distances(source: &str, name: &str) -> Option<Vec<Option<usize>>> {
    let mut p = program(source);
    let mut resolver = Resolver::new(Vec::new(), p.get_arena());
    let (scopes, locals) = match resolver.try_resolve(((), p.get_root())) {
        Some(Ok(r)) => r,
        Some(Err(_)) => panic!("resolution reported an error"),
        None => return None,
    };
    assert!(scopes.is_empty());
    let mut uses = Vec::new();
    for i in 0..p.get_arena().expressions.len() {
        let id = lykiadb::ast::AstRef::new(i as u32);
        match p.get_expression(id) {
            Expr::Variable { name: n, .. } | Expr::Assignment { dst: n, .. } if n.name == name => uses.push(id),
            _ => {}
        }
    }
    p.set_locals(locals);
    Some(uses.into_iter().map(|id| p.get_distance(id)).collect())
}

#[test]
fn globals_are_not_recorded() {
    assert_eq!(distances("var $a = 1; $a;", "$a"), Some(vec![None]));
}

#[test]
fn block_locals_are_recorded_by_depth() {
    assert_eq!(distances("{ var $a = 1; $a; }", "$a"), Some(vec![Some(0)]));
    // The target of an assignment is first parsed as a variable node of its
    // own, which the assignment does not hold and resolution never visits.
    assert_eq!(
        distances("{ var $a = 1; { $a; { $a = 2; } } }", "$a"),
        Some(vec![Some(1), None, Some(2)])
    );
}

#[test]
fn shadowing_picks_the_innermost_declaration() {
    assert_eq!(distances("{ var $a = 1; { var $a = 2; $a; } $a; }", "$a"), Some(vec![Some(0), Some(0)]));
}

#[test]
fn function_parameters_live_in_their_own_scope() {
    assert_eq!(distances("{ fun f($x) { return $x; }; }", "$x"), Some(vec![Some(0)]));
    assert_eq!(distances("{ var $y = 1; fun f($x) { return $y; }; }", "$y"), Some(vec![Some(1)]));
}

#[test]
fn reading_in_own_initializer_stops_resolution() {
    assert_eq!(distances("{ var $a = $a; }", "$a"), None);
    assert_eq!(distances("var $a = $a;", "$a"), Some(vec![None]));
}

#[test]
fn resolve_gives_scopes_and_locals() {
    let p = program("{ var $a = 1; $a; }");
    let mut resolver = Resolver::new(Vec::new(), p.get_arena());
    let (scopes, locals) = resolver.resolve(((), p.get_root())).unwrap();
    assert!(scopes.is_empty());
    assert_eq!(locals.len(), 1);
    assert_eq!(locals.values().copied().collect::<Vec<usize>>(), vec![0]);
}
