use qk::Body;
use qk::compiler::{Compiler, ScopeGuard, VarId};
use qk::lexer::{Span, TkTy};
use qk::parser::{Error, Parser};

fn parser_for(src: &str) -> Parser {
    let items = TkTy::processed(src);
    let (toks, errs) = qk::lexer::partition_items(&items);
    assert!(errs.is_empty());
    Parser::new(toks)
}

#[test]
fn cursor_primitives() {
    let mut p = parser_for("( x )");
    assert_eq!(p.current().unwrap().item, TkTy::LParen);
    assert_eq!(p.peek(1).unwrap().item, TkTy::Variable);
    assert_eq!(p.peek(2).unwrap().item, TkTy::RParen);
    assert_eq!(
        p.peek(3),
        Err(Error::UnexpectedEof { at: Span { offset: 4, len: 1 } })
    );
    let first = p.adv().unwrap();
    assert_eq!(first.item, TkTy::LParen);
    assert_eq!(p.idx, 1);
}

#[test]
fn check_consumes_only_on_match() {
    let mut p = parser_for("( x )");
    assert_eq!(p.check(TkTy::Variable), Ok(false));
    assert_eq!(p.idx, 0);
    assert_eq!(p.check(TkTy::LParen), Ok(true));
    assert_eq!(p.idx, 1);
}

#[test]
fn syntax_reports_the_required_kind() {
    let mut p = parser_for("x");
    assert_eq!(
        p.syntax(TkTy::RParen),
        Err(Error::UnexpectedToken {
            exp: TkTy::RParen,
            tk: TkTy::Variable,
            at: Span { offset: 0, len: 1 },
        })
    );
    assert_eq!(p.syntax(TkTy::Variable), Ok(()));
    assert_eq!(p.idx, 1);
}

#[test]
fn parse_is_parse_app() {
    let mut a = parser_for("x y");
    let mut b = parser_for("x y");
    assert_eq!(a.parse().unwrap(), b.parse_app().unwrap());
    assert_eq!(a.idx, b.idx);
}

#[test]
fn compiler_numbers_binders_in_walk_order() {
    let mut p = parser_for("\\ x . \\ y . x y");
    let ast = p.parse_app().unwrap();
    let mut c = Compiler::new();
    let body = c.compile(ast, "\\ x . \\ y . x y");
    assert_eq!(
        *body,
        Body::Abs(
            0,
            Box::new(Body::Abs(
                1,
                Box::new(Body::App(Box::new(Body::Var(0)), Box::new(Body::Var(1)))),
            )),
        )
    );
    assert_eq!(body.render(), "\u{3bb}0.\u{3bb}1.0 1");
}

#[test]
fn compiler_shadowing_gets_a_fresh_id() {
    let mut p = parser_for("\\ x . \\ x . x");
    let ast = p.parse_app().unwrap();
    let mut c = Compiler::new();
    let body = c.compile(ast, "\\ x . \\ x . x");
    assert_eq!(
        *body,
        Body::Abs(0, Box::new(Body::Abs(1, Box::new(Body::Var(1)))))
    );
}

#[test]
fn scope_guard_shadows_and_restores() {
    let mut c = Compiler::new();
    let outer = ScopeGuard::new(&mut c, b"x");
    assert_eq!(outer.var_id, VarId(0));
    assert_eq!(outer.shadowed, None);
    let inner = ScopeGuard::new(&mut c, b"x");
    assert_eq!(inner.var_id, VarId(1));
    assert_eq!(inner.shadowed, Some(VarId(0)));
    inner.close(&mut c);
    let probe = ScopeGuard::new(&mut c, b"x");
    assert_eq!(probe.shadowed, Some(VarId(0)), "outer binding restored");
    probe.close(&mut c);
    outer.close(&mut c);
    assert_eq!(c.definitions.len(), 0);
}

#[test]
fn get_new_var_counts_up() {
    let mut c = Compiler::new();
    assert_eq!(c.get_new_var(), VarId(0));
    assert_eq!(c.get_new_var(), VarId(1));
    assert_eq!(c.var_counter, 2);
}

#[test]
fn body_render_parenthesizes() {
    // (λ0.0) (1 2) — abstraction on the left, application on the right
    let b = Body::App(
        Box::new(Body::Abs(0, Box::new(Body::Var(0)))),
        Box::new(Body::App(Box::new(Body::Var(1)), Box::new(Body::Var(2)))),
    );
    assert_eq!(b.render(), "(\u{3bb}0.0) (1 2)");
    assert_eq!(Body::Var(42).render(), "42");
}

#[test]
fn pool_render_with_two_digit_handles() {
    let src = "\\ a . a a a a a a a a a a a a";
    let items = TkTy::processed(src);
    let (toks, _) = qk::lexer::partition_items(&items);
    let mut p = Parser::new(toks);
    let ast = p.parse_app().unwrap();
    let pool = qk::pool_lambda::Pool::compile(ast, src).unwrap();
    // 12 variable uses, 11 applications, 1 abstraction
    assert_eq!(pool.pool.len(), 24);
    let text = pool.render();
    assert!(text.starts_with("[ \u{3bd}0, \u{3bd}0, 0\u{22c5}1, "));
    assert!(text.ends_with("20\u{22c5}21, \u{3bb}22 ]"));
}

#[test]
fn parser_error_diagnostics_are_stable() {
    let eof = Error::UnexpectedEof { at: Span { offset: 3, len: 1 } };
    assert_eq!(eof.code(), "parser::unexpected_eof");
    assert_eq!(eof.message(), "unexpected end of file");
    assert_eq!(eof.help(), "maybe you've left some parenthesis opened");
    assert_eq!(eof.label(), Span { offset: 3, len: 1 });
    let tk = Error::UnexpectedToken {
        exp: TkTy::Variable,
        tk: TkTy::Abstraction,
        at: Span { offset: 0, len: 1 },
    };
    assert_eq!(tk.code(), "parser::unexpected_token");
    let undecl = qk::pool_lambda::Error::UndeclaredVariable { at: Span { offset: 0, len: 1 } };
    assert_eq!(undecl.code(), "compiler::pool::undeclared_variable");
    assert_eq!(undecl.message(), "undeclared variable");
    assert_eq!(undecl.help(), "perhaps was a mistyping?");
    assert_eq!(undecl.label(), Span { offset: 0, len: 1 });
}
