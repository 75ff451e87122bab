use std::rc::Rc;

use lykiadb::ast::{AstArena, AstPool, AstRef, Literal};
use lykiadb::parser::Parsed;
use lykiadb::scanner::Scanner;
use lykiadb::tokens::Span;

#[test]
fn pool_allocates_in_order() {
    let mut pool: AstPool<u32> = AstPool::new();
    let a = pool.allocate(7);
    let b = pool.allocate(9);
    assert_eq!(a.0, 0);
    assert_eq!(b.0, 1);
    assert_eq!(*pool.get(a), 7);
    assert_eq!(*pool.get(b), 9);
    assert_eq!(pool.len(), 2);
    let r: AstRef<u32> = AstRef::new(1);
    assert_eq!(*pool.get(r), 9);
}

#[test]
fn span_merge_covers_both() {
    let a = Span { start: 4, end: 6, line: 1, line_end: 1 };
    let b = Span { start: 1, end: 3, line: 0, line_end: 2 };
    assert_eq!(a.merge(&b), Span { start: 1, end: 6, line: 0, line_end: 2 });
    assert_eq!(Span::default(), Span { start: 0, end: 0, line: 0, line_end: 0 });
}

#[test]
fn literal_as_str() {
    assert_eq!(Literal::Str("x".to_string()).as_str(), Some("x"));
    assert_eq!(Literal::Num("1".to_string()).as_str(), None);
}

#[test]
fn token_identifiers() {
    let tokens = Scanner::scan("$a b 1").unwrap();
    let a = tokens[0].extract_identifier().unwrap();
    assert_eq!((a.name.as_str(), a.dollar), ("$a", true));
    let b = tokens[1].extract_identifier().unwrap();
    assert_eq!((b.name.as_str(), b.dollar), ("b", false));
    assert!(tokens[2].extract_identifier().is_none());
}

#[test]
fn parsed_holds_program_and_arena() {
    let arena = Rc::new(AstArena::new());
    let parsed = Parsed::new(AstRef::new(0), arena.clone());
    assert_eq!(parsed.program.0, 0);
    assert!(Rc::ptr_eq(&parsed.arena, &arena));
}
