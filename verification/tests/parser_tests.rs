use hail_front::ast::{BinOp, Expr, ExprKind, Item, ItemKind, Module, Stmt, StmtKind, UnOp};
use hail_front::error::{Error, Expected};
use hail_front::lexer::tokenize;
use hail_front::loc::Loc;
use hail_front::parser::parse_module;
use hail_front::source_map::SourceMap;
use hail_front::token::TokenKind;

fn parse(src: &str) -> Result<Module, Error> {
    let toks = tokenize(0, &src.as_bytes().to_vec()).unwrap();
    parse_module(toks, 0)
}

fn only_fn(m: &Module) -> (&Item, &Vec<Stmt>) {
    assert_eq!(m.items.len(), 1);
    let it = &m.items[0];
    let ItemKind::Fn { body, .. } = &it.kind;
    (it, &body.stmts)
}

fn stmt_expr(s: &Stmt) -> &Expr {
    match &s.kind {
        StmtKind::Expr(e) => e,
        other => panic!("expected an expression statement, got {:?}", other),
    }
}

#[test]
fn empty_input_is_an_empty_module() {
    let m = parse("").unwrap();
    assert_eq!(m.items.len(), 0);
    assert_eq!(m.loc.span.start, 0);
    assert_eq!(m.loc.span.end, 0);
    assert_eq!(m.file, 0);
}

#[test]
fn whitespace_only_input_is_an_empty_module() {
    let m = parse("  // nothing here\n").unwrap();
    assert_eq!(m.items.len(), 0);
}

#[test]
fn module_span_covers_the_whole_text() {
    let src = "fn a() { }\nfn b() { }\n";
    let m = parse(src).unwrap();
    assert_eq!(m.items.len(), 2);
    assert_eq!(m.loc.span.start, 0);
    assert_eq!(m.loc.span.end, src.len());
}

fn check_expr_spans(e: &Expr) {
    assert!(e.loc.span.start <= e.loc.span.end);
    match &e.kind {
        ExprKind::Unary(_, sub) => {
            assert!(e.loc.span.start <= sub.loc.span.start);
            assert!(sub.loc.span.end <= e.loc.span.end);
            check_expr_spans(sub);
        },
        ExprKind::Binary(_, l, r) => {
            assert!(e.loc.span.start <= l.loc.span.start);
            assert!(r.loc.span.end <= e.loc.span.end);
            // Sibling spans do not overlap.
            assert!(l.loc.span.end <= r.loc.span.start);
            check_expr_spans(l);
            check_expr_spans(r);
        },
        _ => {},
    }
}

#[test]
fn child_spans_nest_and_siblings_do_not_overlap() {
    let src = "fn f(a, b) { let x = (1 + a) * 2; return x - 3; \"s\"; }";
    let m = parse(src).unwrap();
    let (it, stmts) = only_fn(&m);
    assert!(m.loc.span.start <= it.loc.span.start && it.loc.span.end <= m.loc.span.end);
    let ItemKind::Fn { name, params, body } = &it.kind;
    assert!(it.loc.span.start <= name.loc.span.start);
    assert!(name.loc.span.end <= params[0].loc.span.start);
    assert!(params[0].loc.span.end <= params[1].loc.span.start);
    assert!(params[1].loc.span.end <= body.loc.span.start);
    assert!(body.loc.span.end <= it.loc.span.end);
    for w in stmts.windows(2) {
        assert!(w[0].loc.span.end <= w[1].loc.span.start);
    }
    for s in stmts.iter() {
        assert!(body.loc.span.start <= s.loc.span.start && s.loc.span.end <= body.loc.span.end);
        match &s.kind {
            StmtKind::Let { name, value } => {
                assert!(name.loc.span.end <= value.loc.span.start);
                check_expr_spans(value);
            },
            StmtKind::Return(value) => check_expr_spans(value),
            StmtKind::Expr(value) => check_expr_spans(value),
        }
    }
}

#[test]
fn multiplication_binds_tighter_than_addition() {
    let m = parse("fn f() { 1 + 2 * 3; }").unwrap();
    let (_, stmts) = only_fn(&m);
    let e = stmt_expr(&stmts[0]);
    match &e.kind {
        ExprKind::Binary(BinOp::Add, l, r) => {
            assert!(matches!(l.kind, ExprKind::Int(1)));
            match &r.kind {
                ExprKind::Binary(BinOp::Mul, rl, rr) => {
                    assert!(matches!(rl.kind, ExprKind::Int(2)));
                    assert!(matches!(rr.kind, ExprKind::Int(3)));
                },
                other => panic!("expected a product on the right, got {:?}", other),
            }
        },
        other => panic!("expected a sum at the top, got {:?}", other),
    }
}

#[test]
fn subtraction_is_left_associative() {
    let m = parse("fn f() { 1 - 2 - 3; }").unwrap();
    let (_, stmts) = only_fn(&m);
    let e = stmt_expr(&stmts[0]);
    match &e.kind {
        ExprKind::Binary(BinOp::Sub, l, r) => {
            assert!(matches!(r.kind, ExprKind::Int(3)));
            match &l.kind {
                ExprKind::Binary(BinOp::Sub, ll, lr) => {
                    assert!(matches!(ll.kind, ExprKind::Int(1)));
                    assert!(matches!(lr.kind, ExprKind::Int(2)));
                },
                other => panic!("expected the left difference first, got {:?}", other),
            }
        },
        other => panic!("expected a difference at the top, got {:?}", other),
    }
}

#[test]
fn parentheses_override_precedence_and_widen_spans() {
    let m = parse("fn f() { (1 + 2) * 3; }").unwrap();
    let (_, stmts) = only_fn(&m);
    let e = stmt_expr(&stmts[0]);
    match &e.kind {
        ExprKind::Binary(BinOp::Mul, l, r) => {
            assert!(matches!(l.kind, ExprKind::Binary(BinOp::Add, _, _)));
            assert!(matches!(r.kind, ExprKind::Int(3)));
            // The sum's location absorbs its parentheses.
            assert_eq!(l.loc.span.start, 9);
            assert_eq!(l.loc.span.end, 16);
        },
        other => panic!("expected a product at the top, got {:?}", other),
    }
}

#[test]
fn unary_minus_nests() {
    let m = parse("fn f() { --x + 1; }").unwrap();
    let (_, stmts) = only_fn(&m);
    let e = stmt_expr(&stmts[0]);
    match &e.kind {
        ExprKind::Binary(BinOp::Add, l, _) => match &l.kind {
            ExprKind::Unary(UnOp::Neg, inner) => {
                assert!(matches!(inner.kind, ExprKind::Unary(UnOp::Neg, _)));
            },
            other => panic!("expected a negation, got {:?}", other),
        },
        other => panic!("expected a sum at the top, got {:?}", other),
    }
}

#[test]
fn let_and_return_statements() {
    let src = "fn f(n) { let x = n / 2; return x; }";
    let m = parse(src).unwrap();
    let (_, stmts) = only_fn(&m);
    assert_eq!(stmts.len(), 2);
    match &stmts[0].kind {
        StmtKind::Let { name, value } => {
            assert_eq!(name.text, b"x".to_vec());
            assert!(matches!(value.kind, ExprKind::Binary(BinOp::Div, _, _)));
        },
        other => panic!("expected a binding, got {:?}", other),
    }
    match &stmts[1].kind {
        StmtKind::Return(value) => assert!(matches!(value.kind, ExprKind::Var(_))),
        other => panic!("expected a return, got {:?}", other),
    }
    // Statement spans include the terminating semicolon.
    assert_eq!(stmts[0].loc.span.start, 10);
    assert_eq!(stmts[0].loc.span.end, 24);
}

#[test]
fn malformed_parameter_list_names_expectation_and_found_token() {
    let e = parse("fn f( { }").unwrap_err();
    match e {
        Error::SyntaxError { expected, found, loc } => {
            assert_eq!(expected, Expected::ParamOrCloseParen);
            assert_eq!(found, TokenKind::LBrace);
            assert_eq!(loc.span.start, 6);
            assert_eq!(loc.span.end, 7);
        },
        other => panic!("expected a syntax error, got {:?}", other),
    }
}

#[test]
fn stray_token_at_top_level_is_a_syntax_error() {
    let e = parse("1 + 2").unwrap_err();
    match e {
        Error::SyntaxError { expected, found, .. } => {
            assert_eq!(expected, Expected::ItemStart);
            assert_eq!(found, TokenKind::Int);
        },
        other => panic!("expected a syntax error, got {:?}", other),
    }
}

#[test]
fn missing_comma_between_parameters() {
    let e = parse("fn f(a b) { }").unwrap_err();
    match e {
        Error::SyntaxError { expected, found, .. } => {
            assert_eq!(expected, Expected::Tok(TokenKind::RParen));
            assert_eq!(found, TokenKind::Ident);
        },
        other => panic!("expected a syntax error, got {:?}", other),
    }
}

#[test]
fn trailing_comma_in_parameter_list_is_accepted() {
    let m = parse("fn f(a, b,) { }").unwrap();
    let ItemKind::Fn { params, .. } = &m.items[0].kind;
    assert_eq!(params.len(), 2);
    assert_eq!(params[0].text, b"a".to_vec());
    assert_eq!(params[1].text, b"b".to_vec());
}

#[test]
fn input_exhausted_mid_construct() {
    let e = parse("fn f(").unwrap_err();
    match e {
        Error::UnexpectedEndOfInput { loc } => {
            assert_eq!(loc.span.start, 5);
            assert_eq!(loc.span.end, 5);
        },
        other => panic!("expected an end-of-input error, got {:?}", other),
    }
    assert!(matches!(
        parse("fn f() { let x = 1 + ").unwrap_err(),
        Error::UnexpectedEndOfInput { .. }
    ));
    assert!(matches!(
        parse("fn f() { ").unwrap_err(),
        Error::UnexpectedEndOfInput { .. }
    ));
}

#[test]
fn missing_semicolon_is_a_syntax_error() {
    let e = parse("fn f() { 1 }").unwrap_err();
    match e {
        Error::SyntaxError { expected, found, .. } => {
            assert_eq!(expected, Expected::Tok(TokenKind::Semi));
            assert_eq!(found, TokenKind::RBrace);
        },
        other => panic!("expected a syntax error, got {:?}", other),
    }
}

#[test]
fn token_that_starts_no_expression() {
    let e = parse("fn f() { let x = ); }").unwrap_err();
    match e {
        Error::SyntaxError { expected, found, .. } => {
            assert_eq!(expected, Expected::ExprStart);
            assert_eq!(found, TokenKind::RParen);
        },
        other => panic!("expected a syntax error, got {:?}", other),
    }
}

#[test]
fn diagnostics_resolve_through_the_source_map() {
    let mut sm = SourceMap::new();
    let src = "fn f() {\n  let x = ;\n}\n";
    let id = sm.register(String::from("m.hl"), src.as_bytes().to_vec());
    let toks = tokenize(id, sm.lookup(id).unwrap()).unwrap();
    let e = parse_module(toks, id).unwrap_err();
    match e {
        Error::SyntaxError { expected, found, loc } => {
            assert_eq!(expected, Expected::ExprStart);
            assert_eq!(found, TokenKind::Semi);
            assert_eq!(loc.file, id);
            assert_eq!(sm.resolve_position(loc.file, loc.span.start).unwrap(), (2, 11));
        },
        other => panic!("expected a syntax error, got {:?}", other),
    }
}

#[test]
fn item_locations_carry_the_file_identity() {
    let src = "fn a() { }";
    let toks = tokenize(3, &src.as_bytes().to_vec()).unwrap();
    let m = parse_module(toks, 3).unwrap();
    assert_eq!(m.file, 3);
    let locs: Vec<Loc> = m.items.iter().map(|it| it.loc).collect();
    assert!(locs.iter().all(|l| l.file == 3));
}
