use lykiadb::ast::expr::{Expr, ExprId, Operation};
use lykiadb::ast::sql::{
    SqlCollectionIdentifier, SqlCollectionSubquery, SqlExpr, SqlExprId, SqlProjection, SqlSelect,
    SqlSelectCore, SqlValues,
};
use lykiadb::ast::stmt::{Stmt, StmtId};
use lykiadb::ast::{Literal, ObjectKey};
use lykiadb::parser::program::Program;
use lykiadb::parser::{tokens_are_parseable, ParseError, Parser};
use lykiadb::scanner::Scanner;
use lykiadb::tokens::{Identifier, TokenType};

fn parse(source: &str) -> Result<Program, ParseError> {
    let tokens = Scanner::scan(source).unwrap();
    assert!(tokens_are_parseable(&tokens));
    Parser::parse(&tokens)
}

fn op(o: &Operation) -> &'static str {
    match o {
        Operation::Add => "+",
        Operation::Subtract => "-",
        Operation::Multiply => "*",
        Operation::Divide => "/",
        Operation::IsEqual => "==",
        Operation::IsNotEqual => "!=",
        Operation::Greater => ">",
        Operation::GreaterEqual => ">=",
        Operation::Less => "<",
        Operation::LessEqual => "<=",
        Operation::And => "and",
        Operation::Or => "or",
        Operation::Not => "!",
    }
}

fn ident(i: &Identifier) -> String {
    i.name.clone()
}

fn opt_ident(i: &Option<Identifier>) -> String {
    match i {
        Some(i) => i.name.clone(),
        None => "_".to_string(),
    }
}

fn collection(c: &SqlCollectionIdentifier) -> String {
    format!("{}.{} as {}", opt_ident(&c.namespace), ident(&c.name), opt_ident(&c.alias))
}

fn render_expr(p: &Program, id: ExprId) -> String {
    match p.get_expression(id) {
        Expr::Literal { value, raw, .. } => match value {
            Literal::Str(s) => format!("(str {})", s),
            Literal::Num(n) => format!("(num {} {})", n.parse::<f64>().unwrap(), raw),
            Literal::Bool(b) => format!("(bool {})", b),
            Literal::Undefined => "undefined".to_string(),
            Literal::NaN => "nan".to_string(),
            Literal::Null => "null".to_string(),
            Literal::Array(items) => {
                let parts: Vec<String> = items.iter().map(|i| render_expr(p, *i)).collect();
                format!("[{}]", parts.join(", "))
            }
            Literal::Object(entries) => {
                let parts: Vec<String> = entries
                    .iter()
                    .map(|(k, v)| {
                        let key = match k {
                            ObjectKey::Name(n) => n.clone(),
                            ObjectKey::Number(n) => format!("#{}", n),
                        };
                        format!("{}: {}", key, render_expr(p, *v))
                    })
                    .collect();
                format!("{{{}}}", parts.join(", "))
            }
        },
        Expr::Variable { name, .. } => format!("(var {})", ident(name)),
        Expr::Grouping { expr, .. } => format!("(group {})", render_expr(p, *expr)),
        Expr::Unary { operation, expr, .. } => format!("({} {})", op(operation), render_expr(p, *expr)),
        Expr::Binary { left, operation, right, .. } => {
            format!("({} {} {})", op(operation), render_expr(p, *left), render_expr(p, *right))
        }
        Expr::Logical { left, operation, right, .. } => {
            format!("(logical {} {} {})", op(operation), render_expr(p, *left), render_expr(p, *right))
        }
        Expr::Assignment { dst, expr, .. } => format!("(assign {} {})", ident(dst), render_expr(p, *expr)),
        Expr::Call { callee, args, .. } => {
            let parts: Vec<String> = args.iter().map(|a| render_expr(p, *a)).collect();
            format!("(call {} [{}])", render_expr(p, *callee), parts.join(", "))
        }
        Expr::Get { object, name, .. } => format!("(get {} {})", render_expr(p, *object), ident(name)),
        Expr::SetProperty { object, name, value, .. } => {
            format!("(set {} {} {})", render_expr(p, *object), ident(name), render_expr(p, *value))
        }
        Expr::Function { name, parameters, body, .. } => {
            let params: Vec<String> = parameters.iter().map(ident).collect();
            let stmts: Vec<String> = body.iter().map(|s| render_stmt(p, *s)).collect();
            format!("(fun {} [{}] [{}])", opt_ident(name), params.join(", "), stmts.join(" "))
        }
        Expr::Select { query, .. } => render_select(p, query),
        Expr::Insert { command, .. } => {
            let values = match &command.values {
                SqlValues::Values { values } => {
                    let parts: Vec<String> = values.iter().map(|v| render_sql(p, *v)).collect();
                    format!("values [{}]", parts.join(", "))
                }
                SqlValues::Select(s) => render_select(p, s),
            };
            format!("(insert {} {})", collection(&command.collection), values)
        }
        Expr::Update { command, .. } => {
            let parts: Vec<String> = command.assignments.iter().map(|v| render_sql(p, *v)).collect();
            let w = match command.where_clause {
                Some(w) => render_sql(p, w),
                None => "_".to_string(),
            };
            format!("(update {} [{}] where {})", collection(&command.collection), parts.join(", "), w)
        }
        Expr::Delete { command, .. } => {
            let w = match command.where_clause {
                Some(w) => render_sql(p, w),
                None => "_".to_string(),
            };
            format!("(delete {} where {})", collection(&command.collection), w)
        }
    }
}

fn render_sql(p: &Program, id: SqlExprId) -> String {
    match p.get_arena().get_sql_expression(id) {
        SqlExpr::Default(e) => render_expr(p, *e),
        SqlExpr::Is { left, right } => format!("(is {} {})", render_sql(p, *left), render_sql(p, *right)),
        SqlExpr::IsNot { left, right } => format!("(is-not {} {})", render_sql(p, *left), render_sql(p, *right)),
        SqlExpr::In { left, right } => format!("(in {} {})", render_sql(p, *left), render_sql(p, *right)),
        SqlExpr::NotIn { left, right } => format!("(not-in {} {})", render_sql(p, *left), render_sql(p, *right)),
        SqlExpr::Like { left, right } => format!("(like {} {})", render_sql(p, *left), render_sql(p, *right)),
        SqlExpr::NotLike { left, right } => {
            format!("(not-like {} {})", render_sql(p, *left), render_sql(p, *right))
        }
        SqlExpr::Between { expr, lower, upper } => format!(
            "(between {} {} {})",
            render_sql(p, *expr),
            render_sql(p, *lower),
            render_sql(p, *upper)
        ),
        SqlExpr::NotBetween { expr, lower, upper } => format!(
            "(not-between {} {} {})",
            render_sql(p, *expr),
            render_sql(p, *lower),
            render_sql(p, *upper)
        ),
    }
}

fn render_subquery(p: &Program, q: &SqlCollectionSubquery) -> String {
    match q {
        SqlCollectionSubquery::Group { values } => {
            let parts: Vec<String> = values.iter().map(|v| render_subquery(p, v)).collect();
            format!("(group {})", parts.join(", "))
        }
        SqlCollectionSubquery::Join { left, right, join_type, constraint } => format!(
            "(join {:?} {} {} on {})",
            join_type,
            render_subquery(p, left),
            render_subquery(p, right),
            match constraint {
                Some(c) => render_sql(p, *c),
                None => "_".to_string(),
            }
        ),
        SqlCollectionSubquery::Collection(c) => collection(c),
        SqlCollectionSubquery::Select { expr, alias } => {
            format!("(subquery {} as {})", render_expr(p, *expr), opt_ident(alias))
        }
    }
}

fn render_core(p: &Program, c: &SqlSelectCore) -> String {
    let projection: Vec<String> = c
        .projection
        .iter()
        .map(|pr| match pr {
            SqlProjection::All { collection } => format!("{}.*", opt_ident(collection)),
            SqlProjection::Expr { expr, alias } => format!("{} as {}", render_sql(p, *expr), opt_ident(alias)),
        })
        .collect();
    let from = match &c.from {
        Some(f) => render_subquery(p, f),
        None => "_".to_string(),
    };
    let where_clause = match c.where_clause {
        Some(w) => render_sql(p, w),
        None => "_".to_string(),
    };
    let group_by = match &c.group_by {
        Some(g) => {
            let parts: Vec<String> = g.iter().map(|e| render_sql(p, *e)).collect();
            format!("[{}]", parts.join(", "))
        }
        None => "_".to_string(),
    };
    let having = match c.having {
        Some(h) => render_sql(p, h),
        None => "_".to_string(),
    };
    let compound = match &c.compound {
        Some(b) => format!(" {:?} {}", b.operator, render_core(p, &b.core)),
        None => String::new(),
    };
    format!(
        "(core {:?} [{}] from {} where {} group {} having {}{})",
        c.distinct,
        projection.join(", "),
        from,
        where_clause,
        group_by,
        having,
        compound
    )
}

fn render_select(p: &Program, s: &SqlSelect) -> String {
    let order = match &s.order_by {
        Some(o) => {
            let parts: Vec<String> = o
                .iter()
                .map(|c| format!("{} {:?}", render_sql(p, c.expr), c.ordering))
                .collect();
            format!("[{}]", parts.join(", "))
        }
        None => "_".to_string(),
    };
    let limit = match &s.limit {
        Some(l) => format!(
            "{} offset {}",
            render_sql(p, l.count),
            match l.offset {
                Some(o) => render_sql(p, o),
                None => "_".to_string(),
            }
        ),
        None => "_".to_string(),
    };
    format!("(select {} order {} limit {})", render_core(p, &s.core), order, limit)
}

fn render_stmt(p: &Program, id: StmtId) -> String {
    match p.get_statement(id) {
        Stmt::Program { body, .. } => {
            let parts: Vec<String> = body.iter().map(|s| render_stmt(p, *s)).collect();
            format!("(program {})", parts.join(" "))
        }
        Stmt::Expression { expr, .. } => format!("(expr {})", render_expr(p, *expr)),
        Stmt::Break { .. } => "break".to_string(),
        Stmt::Continue { .. } => "continue".to_string(),
        Stmt::Block { body, .. } => {
            let parts: Vec<String> = body.iter().map(|s| render_stmt(p, *s)).collect();
            format!("(block {})", parts.join(" "))
        }
        Stmt::Declaration { dst, expr, .. } => format!("(var {} {})", ident(dst), render_expr(p, *expr)),
        Stmt::If { condition, body, else_body, .. } => format!(
            "(if {} {} {})",
            render_expr(p, *condition),
            render_stmt(p, *body),
            match else_body {
                Some(e) => render_stmt(p, *e),
                None => "_".to_string(),
            }
        ),
        Stmt::Loop { condition, body, post, .. } => format!(
            "(loop {} {} {})",
            match condition {
                Some(c) => render_expr(p, *c),
                None => "_".to_string(),
            },
            render_stmt(p, *body),
            match post {
                Some(s) => render_stmt(p, *s),
                None => "_".to_string(),
            }
        ),
        Stmt::Return { expr, .. } => format!(
            "(return {})",
            match expr {
                Some(e) => render_expr(p, *e),
                None => "_".to_string(),
            }
        ),
    }
}

fn assert_parses_to(source: &str, expected: &str) {
    let program = parse(source).unwrap();
    assert_eq!(render_stmt(&program, program.get_root()), expected);
}

#[test]
fn test_parse_literal_expression() {
    assert_parses_to("1;", "(program (expr (num 1 1)))");
}

#[test]
fn test_parse_unary_expression() {
    assert_parses_to("-1;", "(program (expr (- (num 1 1))))");
}

#[test]
fn test_parse_binary_expression() {
    assert_parses_to("1 + 2;", "(program (expr (+ (num 1 1) (num 2 2))))");
}

#[test]
fn test_parse_grouping_expression() {
    assert_parses_to(
        "(1 + 2) * (3 / (4 - 7));",
        "(program (expr (* (group (+ (num 1 1) (num 2 2))) (group (/ (num 3 3) (group (- (num 4 4) (num 7 7))))))))",
    );
}

#[test]
fn test_parse_variable_expression() {
    assert_parses_to("$a;", "(program (expr (var $a)))");
}

#[test]
fn parse_empty_token_stream_has_no_program() {
    let tokens = Vec::new();
    assert!(matches!(Parser::parse(&tokens), Err(ParseError::NoTokens)));
    let only_eof = Scanner::scan("").unwrap();
    assert!(matches!(Parser::parse(&only_eof), Err(ParseError::NoTokens)));
    let only_comment = Scanner::scan("// nothing here").unwrap();
    assert!(matches!(Parser::parse(&only_comment), Err(ParseError::NoTokens)));
    let mut eof_then_more = Scanner::scan("").unwrap();
    let mut word = Scanner::scan("x").unwrap();
    word[0].lexeme = None;
    eof_then_more.push(word.remove(0));
    assert!(tokens_are_parseable(&eof_then_more));
    assert!(matches!(Parser::parse(&eof_then_more), Err(ParseError::NoTokens)));
}

#[test]
fn parse_precedence_and_logical() {
    assert_parses_to(
        "1 + 2 * 3 - 4 / 2;",
        "(program (expr (- (+ (num 1 1) (* (num 2 2) (num 3 3))) (/ (num 4 4) (num 2 2)))))",
    );
    assert_parses_to("!1 == 2;", "(program (expr (== (! (num 1 1)) (num 2 2))))");
    assert_parses_to("1 <= 2 != 3 > 4;", "(program (expr (!= (<= (num 1 1) (num 2 2)) (> (num 3 3) (num 4 4)))))");
}

#[test]
fn parse_assignment_and_property_set() {
    assert_parses_to("$a = 1;", "(program (expr (assign $a (num 1 1))))");
    assert_parses_to("$a.b = 2;", "(program (expr (set (var $a) b (num 2 2))))");
    assert_parses_to("$a = $b = 3;", "(program (expr (assign $a (assign $b (num 3 3)))))");
}

#[test]
fn parse_invalid_assignment_target() {
    match parse("1 = 2;") {
        Err(ParseError::InvalidAssignmentTarget { left }) => {
            assert_eq!(left.lexeme.as_deref(), Some("1"));
        }
        _ => panic!("expected an invalid assignment target"),
    }
}

#[test]
fn parse_missing_token() {
    match parse("(1 + 2;") {
        Err(ParseError::MissingToken { token, expected }) => {
            assert_eq!(token.lexeme.as_deref(), Some("2"));
            assert_eq!(expected, TokenType::Symbol(lykiadb::tokens::Symbol::RightParen));
        }
        _ => panic!("expected a missing parenthesis"),
    }
    match parse("1") {
        Err(ParseError::MissingToken { expected, .. }) => {
            assert_eq!(expected, TokenType::Symbol(lykiadb::tokens::Symbol::Semicolon));
        }
        _ => panic!("expected a missing semicolon"),
    }
}

#[test]
fn parse_unexpected_token() {
    match parse(";") {
        Err(ParseError::UnexpectedToken { token }) => {
            assert_eq!(token.lexeme.as_deref(), Some(";"));
        }
        _ => panic!("expected an unexpected token"),
    }
    match parse("1 +") {
        Err(ParseError::UnexpectedToken { token }) => assert_eq!(token.tok_type, TokenType::Eof),
        _ => panic!("expected the end of input to be unexpected"),
    }
}

#[test]
fn parse_calls_and_property_access() {
    assert_parses_to("f(1, 2);", "(program (expr (call (var f) [(num 1 1), (num 2 2)])))");
    assert_parses_to("f();", "(program (expr (call (var f) [])))");
    assert_parses_to("a.b.c(1).d;", "(program (expr (get (call (get (get (var a) b) c) [(num 1 1)]) d)))");
}

#[test]
fn parse_array_and_object_literals() {
    assert_parses_to("[1, 2, 3];", "(program (expr [(num 1 1), (num 2 2), (num 3 3)]))");
    assert_parses_to("[];", "(program (expr []))");
    assert_parses_to(
        "{a: 1, \"b\": 2, 3: 4};",
        "(program (expr {a: (num 1 1), b: (num 2 2), #3: (num 4 4)}))",
    );
    assert_parses_to("{};", "(program (expr {}))");
    // A repeated key keeps its first place and takes the last value.
    assert_parses_to("{a: 1, b: 2, a: 3};", "(program (expr {a: (num 3 3), b: (num 2 2)}))");
}

#[test]
fn parse_other_literals() {
    assert_parses_to(
        "true; false; null; undefined; \"text\";",
        "(program (expr (bool true)) (expr (bool false)) (expr null) (expr undefined) (expr (str text)))",
    );
}

#[test]
fn parse_statements() {
    assert_parses_to("var $a = 1;", "(program (var $a (num 1 1)))");
    assert_parses_to("var $a;", "(program (var $a undefined))");
    assert_parses_to(
        "if ($a) { 1; } else 2;",
        "(program (if (var $a) (block (expr (num 1 1))) (expr (num 2 2))))",
    );
    assert_parses_to("while ($a) { break; }", "(program (loop (var $a) (block break) _))");
    assert_parses_to("loop { continue; }", "(program (loop _ (block continue) _))");
    assert_parses_to(
        "for (var $i = 0; $i < 3; $i = $i + 1) { }",
        "(program (block (var $i (num 0 0)) (loop (< (var $i) (num 3 3)) (block ) (expr (assign $i (+ (var $i) (num 1 1)))))))",
    );
    assert_parses_to("for (;;) { }", "(program (loop _ (block ) _))");
    assert_parses_to("{ 1; 2; }", "(program (block (expr (num 1 1)) (expr (num 2 2))))");
}

#[test]
fn parse_functions_and_returns() {
    assert_parses_to(
        "fun add($a, $b) { return $a + $b; };",
        "(program (expr (fun add [$a, $b] [(return (+ (var $a) (var $b)))])))",
    );
    assert_parses_to("var $f = fun () { return; };", "(program (var $f (fun _ [] [(return _)])))");
}

#[test]
fn parse_select_where() {
    assert_parses_to(
        "SELECT * from users where id = 1;",
        "(program (expr (select (core ImplicitAll [_.*] from (group _.users as _) where (== (var id) (num 1 1)) group _ having _) order _ limit _)))",
    );
}

#[test]
fn parse_select_projection_and_alias() {
    assert_parses_to(
        "SELECT DISTINCT u.*, name as n, 5 FROM db.users AS u;",
        "(program (expr (select (core Distinct [u.*, (var name) as n, (num 5 5) as _] from (group db.users as u) where _ group _ having _) order _ limit _)))",
    );
}

#[test]
fn parse_select_join_group_order_limit() {
    assert_parses_to(
        "SELECT a FROM x INNER JOIN y ON x.id = y.id LEFT OUTER JOIN z GROUP BY a HAVING a > 1 ORDER BY a DESC, b LIMIT 10 OFFSET 5;",
        "(program (expr (select (core ImplicitAll [(var a) as _] from (group (join Left (join Inner _.x as _ _.y as _ on (== (get (var x) id) (get (var y) id))) _.z as _ on _)) where _ group [(var a)] having (> (var a) (num 1 1))) order [(var a) Desc, (var b) Asc] limit (num 10 10) offset (num 5 5))))",
    );
    assert_parses_to(
        "SELECT a FROM x LIMIT 5, 10;",
        "(program (expr (select (core ImplicitAll [(var a) as _] from (group _.x as _) where _ group _ having _) order _ limit (num 10 10) offset (num 5 5))))",
    );
}

#[test]
fn parse_select_compound_and_subquery() {
    assert_parses_to(
        "SELECT a FROM (SELECT b FROM y) AS s UNION ALL SELECT c FROM z;",
        "(program (expr (select (core ImplicitAll [(var a) as _] from (group (subquery (select (core ImplicitAll [(var b) as _] from (group _.y as _) where _ group _ having _) order _ limit _) as s)) where _ group _ having _ UnionAll (core ImplicitAll [(var c) as _] from (group _.z as _) where _ group _ having _)) order _ limit _)))",
    );
}

#[test]
fn parse_sql_predicates() {
    assert_parses_to(
        "SELECT * FROM t WHERE a IS NOT null;",
        "(program (expr (select (core ImplicitAll [_.*] from (group _.t as _) where (is-not (var a) null) group _ having _) order _ limit _)))",
    );
    assert_parses_to(
        "SELECT * FROM t WHERE a NOT BETWEEN 1 AND 5;",
        "(program (expr (select (core ImplicitAll [_.*] from (group _.t as _) where (not-between (var a) (num 1 1) (num 5 5)) group _ having _) order _ limit _)))",
    );
    assert_parses_to(
        "SELECT * FROM t WHERE a LIKE b AND c IN d;",
        "(program (expr (select (core ImplicitAll [_.*] from (group _.t as _) where (like (var a) (in (logical and (var b) (var c)) (var d))) group _ having _) order _ limit _)))",
    );
}

#[test]
fn parse_insert_update_delete() {
    assert_parses_to(
        "INSERT INTO db.users VALUES (1, 2);",
        "(program (expr (insert db.users as _ values [(num 1 1), (num 2 2)])))",
    );
    assert_parses_to(
        "UPDATE users SET name = 1, age = 2 WHERE id = 3;",
        "(program (expr (update _.users as _ [(num 1 1), (num 2 2)] where (assign id (num 3 3)))))",
    );
    assert_parses_to("DELETE FROM users;", "(program (expr (delete _.users as _ where _)))");
    assert!(matches!(parse("UPDATE SET a = 1;"), Err(ParseError::UnexpectedToken { .. })));
    assert!(matches!(parse("DELETE FROM ;"), Err(ParseError::UnexpectedToken { .. })));
}

#[test]
fn spans_of_a_binary_expression_statement() {
    let program = parse("1 + 2;").unwrap();
    let (body, program_span) = match program.get_statement(program.get_root()) {
        Stmt::Program { body, span } => (body.clone(), *span),
        _ => panic!("not a program"),
    };
    let (expr, stmt_span) = match program.get_statement(body[0]) {
        Stmt::Expression { expr, span } => (*expr, *span),
        _ => panic!("not an expression statement"),
    };
    match program.get_expression(expr) {
        Expr::Binary { span, .. } => {
            assert_eq!((span.start, span.end, span.line, span.line_end), (0, 5, 0, 0));
            assert_eq!(stmt_span, *span);
            assert_eq!(program_span, *span);
        },
        _ => panic!("not a binary expression"),
    }
}

#[test]
fn spans_of_a_block_run_from_brace_to_last_token() {
    let program = parse("{ var $a = 1; }").unwrap();
    let body = match program.get_statement(program.get_root()) {
        Stmt::Program { body, .. } => body.clone(),
        _ => panic!("not a program"),
    };
    match program.get_statement(body[0]) {
        Stmt::Block { span, .. } => {
            assert_eq!((span.start, span.end), (0, 13));
        },
        _ => panic!("not a block"),
    }
}
