use qk::lexer::{Error, Meta, Span, TkTy, over};

fn tok(kind: TkTy, offset: usize, len: usize) -> Result<Meta<TkTy>, Error> {
    Ok(Meta { item: kind, at: Span { offset, len } })
}

#[test]
fn lexes_every_token_kind() {
    let items = TkTy::processed("\\ fn => . ( ) abc");
    assert_eq!(
        items,
        vec![
            tok(TkTy::Function, 0, 1),
            tok(TkTy::Function, 2, 2),
            tok(TkTy::Abstraction, 5, 2),
            tok(TkTy::Abstraction, 8, 1),
            tok(TkTy::LParen, 10, 1),
            tok(TkTy::RParen, 12, 1),
            tok(TkTy::Variable, 14, 3),
        ]
    );
}

#[test]
fn lambda_letter_is_a_function_head() {
    let items = TkTy::processed("\u{3bb} x . x");
    assert_eq!(items[0], tok(TkTy::Function, 0, 2));
    assert_eq!(items[1], tok(TkTy::Variable, 3, 1));
}

#[test]
fn letter_run_containing_fn_is_a_variable() {
    let items = TkTy::processed("fnx");
    assert_eq!(items, vec![tok(TkTy::Variable, 0, 3)]);
}

#[test]
fn arrow_lexes_as_one_token() {
    let items = TkTy::processed("x=>y");
    assert_eq!(
        items,
        vec![
            tok(TkTy::Variable, 0, 1),
            tok(TkTy::Abstraction, 1, 2),
            tok(TkTy::Variable, 3, 1),
        ]
    );
}

#[test]
fn invalid_run_is_one_error_and_lexing_goes_on() {
    let items = TkTy::processed("\\ x . $x");
    assert_eq!(
        items,
        vec![
            tok(TkTy::Function, 0, 1),
            tok(TkTy::Variable, 2, 1),
            tok(TkTy::Abstraction, 4, 1),
            Err(Error::InvalidCharSeq { at: Span { offset: 6, len: 1 } }),
            tok(TkTy::Variable, 7, 1),
        ]
    );
}

#[test]
fn adjacent_invalid_bytes_form_one_run() {
    let items = TkTy::processed("a #$% b");
    assert_eq!(
        items,
        vec![
            tok(TkTy::Variable, 0, 1),
            Err(Error::InvalidCharSeq { at: Span { offset: 2, len: 3 } }),
            tok(TkTy::Variable, 6, 1),
        ]
    );
}

#[test]
fn token_spans_give_back_the_source_bytes() {
    let src = "\\ xy . ($) zw";
    let items = TkTy::processed(src);
    let mut rebuilt = String::new();
    let mut last_end = 0usize;
    for item in items {
        let at = match &item {
            Ok(t) => t.at,
            Err(Error::InvalidCharSeq { at }) => *at,
            Err(Error::Other) => unreachable!(),
        };
        assert!(last_end <= at.offset, "items out of order");
        assert!(
            src[last_end..at.offset].chars().all(|c| c.is_whitespace()),
            "uncovered bytes must be whitespace"
        );
        if item.is_ok() {
            rebuilt.push_str(&src[at.offset..at.offset + at.len]);
        }
        last_end = at.offset + at.len;
    }
    assert_eq!(rebuilt, "\\xy.()zw");
}

#[test]
fn partition_splits_in_order() {
    let items = TkTy::processed("a $ b % c");
    let (toks, errs) = qk::lexer::partition_items(&items);
    assert_eq!(toks.len(), 3);
    assert_eq!(errs.len(), 2);
    assert_eq!(errs[0], Error::InvalidCharSeq { at: Span { offset: 2, len: 1 } });
    assert_eq!(errs[1], Error::InvalidCharSeq { at: Span { offset: 6, len: 1 } });
}

#[test]
fn over_joins_spans() {
    let s = over(Span { offset: 2, len: 3 }, Span { offset: 7, len: 4 });
    assert_eq!(s, Span { offset: 2, len: 9 });
}

#[test]
fn from_code_slices_the_source() {
    let src = "\\ abc . abc";
    let items = TkTy::processed(src);
    let (toks, _) = qk::lexer::partition_items(&items);
    assert_eq!(toks[1].from_code(src.as_bytes()), b"abc");
}

#[test]
fn empty_and_blank_sources_lex_to_nothing() {
    assert_eq!(TkTy::processed(""), vec![]);
    assert_eq!(TkTy::processed(" \t\n"), vec![]);
}

#[test]
fn keyword_spelling_reaches_the_same_pool() {
    fn pool_text(src: &str) -> String {
        let items = TkTy::processed(src);
        let (toks, _) = qk::lexer::partition_items(&items);
        let mut p = qk::parser::Parser::new(toks);
        let ast = p.parse_app().unwrap();
        qk::pool_lambda::Pool::compile(ast, src).unwrap().render()
    }
    assert_eq!(pool_text("fn x => x"), pool_text("\\ x . x"));
    assert_eq!(pool_text("\u{3bb} x . x"), pool_text("\\ x . x"));
}

#[test]
fn error_diagnostics_are_stable() {
    let e = Error::InvalidCharSeq { at: Span { offset: 1, len: 2 } };
    assert_eq!(e.code(), "lexer::invalid_char_seq");
    assert_eq!(e.message(), "invalid char sequence");
    assert_eq!(
        e.help(),
        "these chars doesn't belong to this code. Haven't you mistyped?"
    );
    assert_eq!(e.label(), Span { offset: 1, len: 2 });
    assert_eq!(Error::default(), Error::Other);
}
