use qk::ast::Ast;
use qk::lexer::{Span, TkTy, Token};
use qk::parser::Parser;
use qk::pool_lambda::{OutterIdx, Pool, Term, TermIdx};

fn tokens_of(src: &str) -> Vec<Token> {
    let items = TkTy::processed(src);
    let (toks, errs) = qk::lexer::partition_items(&items);
    assert!(errs.is_empty(), "unexpected lex errors");
    toks
}

fn pool_of(src: &str) -> Pool {
    let mut parser = Parser::new(tokens_of(src));
    let ast = match parser.parse_app() {
        Ok(n) => n,
        Err(e) => panic!("parse failed: {:?}", e),
    };
    match Pool::compile(ast, src) {
        Ok(p) => p,
        Err(e) => panic!("lowering failed: {:?}", e),
    }
}

#[test]
fn identity_pool() {
    let p = pool_of("\\ x . x");
    assert_eq!(
        p.pool,
        vec![Term::Var(OutterIdx(0)), Term::Abs { inner: TermIdx(0) }]
    );
    assert_eq!(p.render(), "[ \u{3bd}0, \u{3bb}0 ]");
}

#[test]
fn constant_pool() {
    let p = pool_of("\\ x . \\ y . x");
    assert_eq!(
        p.pool,
        vec![
            Term::Var(OutterIdx(1)),
            Term::Abs { inner: TermIdx(0) },
            Term::Abs { inner: TermIdx(1) },
        ]
    );
    assert_eq!(p.render(), "[ \u{3bd}1, \u{3bb}0, \u{3bb}1 ]");
}

#[test]
fn application_of_identities_pool() {
    let p = pool_of("(\\ x . x) (\\ x . x)");
    assert_eq!(p.render(), "[ \u{3bd}0, \u{3bb}0, \u{3bd}0, \u{3bb}2, 1\u{22c5}3 ]");
}

#[test]
fn two_binder_application_pool() {
    let p = pool_of("\\ x y . x y");
    assert_eq!(
        p.render(),
        "[ \u{3bd}1, \u{3bd}0, 0\u{22c5}1, \u{3bb}2, \u{3bb}3 ]"
    );
}

#[test]
fn three_binder_spine_pool() {
    let p = pool_of("\\ a b c . a b c");
    assert_eq!(
        p.render(),
        "[ \u{3bd}2, \u{3bd}1, 0\u{22c5}1, \u{3bd}0, 2\u{22c5}3, \u{3bb}4, \u{3bb}5, \u{3bb}6 ]"
    );
}

#[test]
fn shadowing_resolves_to_inner_binder() {
    let p = pool_of("\\ x . \\ x . x");
    assert_eq!(
        p.pool,
        vec![
            Term::Var(OutterIdx(0)),
            Term::Abs { inner: TermIdx(0) },
            Term::Abs { inner: TermIdx(1) },
        ]
    );
}

#[test]
fn missing_binder_is_unexpected_token() {
    let mut parser = Parser::new(tokens_of("\\ . x"));
    let err = parser.parse_app().unwrap_err();
    assert_eq!(
        err,
        qk::parser::Error::UnexpectedToken {
            exp: TkTy::Variable,
            tk: TkTy::Abstraction,
            at: Span { offset: 2, len: 1 },
        }
    );
}

#[test]
fn free_variable_is_undeclared() {
    let mut parser = Parser::new(tokens_of("x"));
    let ast = parser.parse_app().unwrap();
    let err = Pool::compile(ast, "x").unwrap_err();
    assert_eq!(
        err,
        qk::pool_lambda::Error::UndeclaredVariable { at: Span { offset: 0, len: 1 } }
    );
}

#[test]
fn unclosed_paren_is_unexpected_eof() {
    let mut parser = Parser::new(tokens_of("(\\ x . x"));
    let err = parser.parse_app().unwrap_err();
    assert_eq!(
        err,
        qk::parser::Error::UnexpectedEof { at: Span { offset: 7, len: 1 } }
    );
}

#[test]
fn empty_token_stream_is_eof_at_zero() {
    let mut parser = Parser::new(Vec::new());
    let err = parser.parse_app().unwrap_err();
    assert_eq!(
        err,
        qk::parser::Error::UnexpectedEof { at: Span { offset: 0, len: 0 } }
    );
}

#[test]
fn whitespace_between_tokens_leaves_pool_unchanged() {
    let dense = pool_of("\\x.x x");
    let sparse = pool_of("  \\   x  .\tx\n x ");
    assert_eq!(dense.pool, sparse.pool);
}

#[test]
fn desugared_binders_give_identical_pool() {
    let sugared = pool_of("\\ x y . x y");
    let unsugared = pool_of("\\ x . \\ y . x y");
    assert_eq!(sugared.pool, unsugared.pool);
}

#[test]
fn application_is_left_associative() {
    let mut parser = Parser::new(tokens_of("\\ a b c . a b c"));
    let ast = parser.parse_app().unwrap();
    // body of the three binders: App(App(a, b), c)
    let body = match ast.item {
        Ast::Abs(_, inner) => match inner.item {
            Ast::Abs(_, inner) => match inner.item {
                Ast::Abs(_, inner) => inner,
                other => panic!("expected third binder, got {:?}", other),
            },
            other => panic!("expected second binder, got {:?}", other),
        },
        other => panic!("expected binder, got {:?}", other),
    };
    match body.item {
        Ast::App(l, r) => {
            assert!(matches!(r.item, Ast::Var));
            match l.item {
                Ast::App(ll, lr) => {
                    assert!(matches!(ll.item, Ast::Var));
                    assert!(matches!(lr.item, Ast::Var));
                }
                other => panic!("expected left spine, got {:?}", other),
            }
        }
        other => panic!("expected application, got {:?}", other),
    }
}

#[test]
fn ast_spans_cover_children() {
    fn check(node: &qk::ast::Node, src_len: usize) {
        let end = node.at.offset + node.at.len;
        assert!(end <= src_len);
        match &node.item {
            Ast::Var => {}
            Ast::Abs(v, b) => {
                assert!(node.at.offset <= v.offset && v.offset + v.len <= end);
                assert!(node.at.offset <= b.at.offset && b.at.offset + b.at.len <= end);
                check(b, src_len);
            }
            Ast::App(l, r) => {
                assert!(node.at.offset <= l.at.offset && l.at.offset + l.at.len <= end);
                assert!(node.at.offset <= r.at.offset && r.at.offset + r.at.len <= end);
                check(l, src_len);
                check(r, src_len);
            }
        }
    }
    let src = "(\\ x y . x y) (\\ z . z)";
    let mut parser = Parser::new(tokens_of(src));
    let ast = parser.parse_app().unwrap();
    check(&ast, src.len());
}

#[test]
fn render_node_dumps_indented_tree() {
    let src = "\\ x . x y";
    let items = TkTy::processed(src);
    let (toks, _) = qk::lexer::partition_items(&items);
    let mut parser = Parser::new(toks);
    let ast = parser.parse_app().unwrap();
    assert_eq!(
        qk::ast::render_node(&ast),
        "\u{3bb} 2..3 @ 2..9 \u{2208}\n  \u{22c5} @ 6..9\n    \u{3bd} @ 6..7\n    \u{3bd} @ 8..9\n"
    );
}

#[test]
fn pool_is_topologically_ordered_and_closed() {
    let p = pool_of("(\\ x y . x y (\\ z . z x)) (\\ w . w)");
    for (i, t) in p.pool.iter().enumerate() {
        match t {
            Term::Var(_) => {}
            Term::Abs { inner } => assert!(inner.0 < i),
            Term::App(l, r) => assert!(l.0 < i && r.0 < i),
        }
    }
    fn closed(pool: &[Term], i: usize, d: usize) {
        match pool[i] {
            Term::Var(k) => assert!(k.0 < d),
            Term::Abs { inner } => closed(pool, inner.0, d + 1),
            Term::App(l, r) => {
                closed(pool, l.0, d);
                closed(pool, r.0, d);
            }
        }
    }
    closed(&p.pool, p.pool.len() - 1, 0);
}
