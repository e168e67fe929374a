//! Parser: recursive descent over a token vector with an index cursor.
//!
//! Grammar:
//! ```text
//! expr  := app
//! app   := atom atom*            // left-associative, one or more
//! atom  := abs | '(' app ')' | VAR
//! abs   := FN VAR+ ABS app       // desugars to curried unary Abs
//! ```
//!
//! The whole behaviour of the parser — which tree comes out, which error,
//! and where the cursor stops — is given by the spec functions [`sp_app`],
//! [`sp_atom`], [`sp_abs`] and [`sp_params`]; every method is proved equal
//! to them. `app`'s "try another atom" loop swallows the failed attempt's
//! error (no atom available means the application ends), everywhere else
//! errors propagate.
use vstd::prelude::*;

use crate::ast::Ast;
use crate::ast::Node;
use crate::lexer::Meta;
use crate::lexer::over;
use crate::lexer::Span;
use crate::lexer::span_end;
use crate::lexer::spec_over;
use crate::lexer::text_at;
use crate::lexer::TkTy;
use crate::lexer::Token;

verus! {

/// A parsing error. Both kinds abort the parse.
#[derive(Debug, Clone, Copy, PartialEq, Eq, Structural)]
pub enum Error {
    /// The stream ended before a required token; `at` is the span of the
    /// last token of the stream, or `0..0` if there were none.
    UnexpectedEof { at: Span },
    /// The next token was not of the required kind.
    UnexpectedToken { exp: TkTy, tk: TkTy, at: Span },
}

impl Error {
    /// The stable machine-readable code of this error.
    pub fn code(&self) -> (r: &'static str)
        ensures
            match self {
                Error::UnexpectedEof { .. } => r@ == "parser::unexpected_eof"@,
                Error::UnexpectedToken { .. } => r@ == "parser::unexpected_token"@,
            },
    {
        match self {
            Error::UnexpectedEof { .. } => "parser::unexpected_eof",
            Error::UnexpectedToken { .. } => "parser::unexpected_token",
        }
    }

    /// The human-readable message; the offending token kind stands in
    /// the `tk` field.
    pub fn message(&self) -> (r: &'static str)
        ensures
            match self {
                Error::UnexpectedEof { .. } => r@ == "unexpected end of file"@,
                Error::UnexpectedToken { .. } => r@ == "unexpected token"@,
            },
    {
        match self {
            Error::UnexpectedEof { .. } => "unexpected end of file",
            Error::UnexpectedToken { .. } => "unexpected token",
        }
    }

    /// The help hint; the required kind stands in the `exp` field.
    pub fn help(&self) -> (r: &'static str)
        ensures
            match self {
                Error::UnexpectedEof { .. } => r@
                    == "maybe you've left some parenthesis opened"@,
                Error::UnexpectedToken { .. } => r@ == "so far, we were expecting another kind"@,
            },
    {
        match self {
            Error::UnexpectedEof { .. } => "maybe you've left some parenthesis opened",
            Error::UnexpectedToken { .. } => "so far, we were expecting another kind",
        }
    }

    /// The span the error's label points at.
    pub fn label(&self) -> (r: Span)
        ensures
            match self {
                Error::UnexpectedEof { at } => r == at,
                Error::UnexpectedToken { at, .. } => r == at,
            },
    {
        match self {
            Error::UnexpectedEof { at } => *at,
            Error::UnexpectedToken { at, .. } => *at,
        }
    }
}

/// The error reported when a token is required and the stream is over.
pub open spec fn eof_err(toks: Seq<Token>) -> Error {
    Error::UnexpectedEof {
        at: if toks.len() == 0 {
            Span { offset: 0, len: 0 }
        } else {
            toks[toks.len() - 1].at
        },
    }
}

/// The token under the cursor, or the end-of-stream error.
pub open spec fn sp_current(toks: Seq<Token>, i: int) -> Result<Token, Error> {
    if 0 <= i < toks.len() {
        Ok(toks[i])
    } else {
        Err(eof_err(toks))
    }
}

/// The run of `Variable` tokens under the cursor: their spans and the
/// cursor after them. Reaching the end of the stream while collecting is
/// an error, as the abstraction they belong to is unfinished.
pub open spec fn sp_params(toks: Seq<Token>, i: int) -> (Result<Seq<Span>, Error>, int)
    decreases toks.len() - i, 0int,
{
    match sp_current(toks, i) {
        Err(e) => (Err(e), i),
        Ok(t) => {
            if t.item == TkTy::Variable {
                let (r, j) = sp_params(toks, i + 1);
                match r {
                    Ok(ps) => (Ok(seq![t.at] + ps), j),
                    Err(e) => (Err(e), j),
                }
            } else {
                (Ok(Seq::empty()), i)
            }
        },
    }
}

/// Wrap `body` in one `Abs` per binder span, innermost last, each node
/// spanning from its binder to the end of the body.
pub open spec fn fold_abs(params: Seq<Span>, body: Node) -> Node
    decreases params.len(),
{
    if params.len() == 0 {
        body
    } else {
        let inner = fold_abs(params.drop_first(), body);
        Box::new(Meta { item: Ast::Abs(params[0], inner), at: spec_over(params[0], inner.at) })
    }
}

/// Parse of an abstraction at the cursor: `FN VAR+ ABS app`, desugared to
/// curried unary `Abs` nodes. An empty binder list is reported against the
/// token that stands where a binder was required.
pub open spec fn sp_abs(toks: Seq<Token>, i: int) -> (Result<Node, Error>, int)
    decreases toks.len() - i, 1int,
{
    match sp_current(toks, i) {
        Err(e) => (Err(e), i),
        Ok(t0) => {
            if t0.item != TkTy::Function {
                (Err(Error::UnexpectedToken { exp: TkTy::Function, tk: t0.item, at: t0.at }), i)
            } else {
                let (pr, i2) = sp_params(toks, i + 1);
                match pr {
                    Err(e) => (Err(e), i2),
                    Ok(params) => {
                        if params.len() == 0 {
                            match sp_current(toks, i2) {
                                Err(e) => (Err(e), i2),
                                Ok(t) => (
                                    Err(
                                        Error::UnexpectedToken {
                                            exp: TkTy::Variable,
                                            tk: t.item,
                                            at: t.at,
                                        },
                                    ),
                                    i2,
                                ),
                            }
                        } else {
                            match sp_current(toks, i2) {
                                Err(e) => (Err(e), i2),
                                Ok(t) => {
                                    if t.item != TkTy::Abstraction {
                                        (
                                            Err(
                                                Error::UnexpectedToken {
                                                    exp: TkTy::Abstraction,
                                                    tk: t.item,
                                                    at: t.at,
                                                },
                                            ),
                                            i2,
                                        )
                                    } else {
                                        if i < i2 + 1 && i2 + 1 <= toks.len() {
                                            let (br, i3) = sp_app(toks, i2 + 1);
                                            match br {
                                                Err(e) => (Err(e), i3),
                                                Ok(body) => (Ok(fold_abs(params, body)), i3),
                                            }
                                        } else {
                                            (Err(eof_err(toks)), i2 + 1)
                                        }
                                    }
                                },
                            }
                        }
                    },
                }
            }
        },
    }
}

/// Parse of one atom at the cursor: an abstraction, a parenthesized
/// application, or a variable.
pub open spec fn sp_atom(toks: Seq<Token>, i: int) -> (Result<Node, Error>, int)
    decreases toks.len() - i, 2int,
{
    match sp_current(toks, i) {
        Err(e) => (Err(e), i),
        Ok(t) => {
            if t.item == TkTy::Function {
                sp_abs(toks, i)
            } else if t.item == TkTy::LParen {
                let (ar, i2) = sp_app(toks, i + 1);
                match ar {
                    Err(e) => (Err(e), i2),
                    Ok(n) => match sp_current(toks, i2) {
                        Err(e) => (Err(e), i2),
                        Ok(t2) => {
                            if t2.item == TkTy::RParen {
                                (Ok(n), i2 + 1)
                            } else {
                                (
                                    Err(
                                        Error::UnexpectedToken {
                                            exp: TkTy::RParen,
                                            tk: t2.item,
                                            at: t2.at,
                                        },
                                    ),
                                    i2,
                                )
                            }
                        },
                    },
                }
            } else if t.item == TkTy::Variable {
                (Ok(Box::new(Meta { item: Ast::Var, at: t.at })), i + 1)
            } else {
                (Err(Error::UnexpectedToken { exp: TkTy::Variable, tk: t.item, at: t.at }), i)
            }
        },
    }
}

/// The "try another atom" loop of `app`, with `acc` the spine built so
/// far: on a failed attempt the application ends with `acc`, the cursor
/// standing where the attempt left it; on success the new atom is applied
/// on the left and the loop goes on.
pub open spec fn sp_app_loop(toks: Seq<Token>, acc: Node, i: int) -> (Result<Node, Error>, int)
    decreases toks.len() - i, 3int,
{
    let (r, i2) = sp_atom(toks, i);
    match r {
        Err(_) => (Ok(acc), i2),
        Ok(n) => {
            let app = Box::new(Meta { item: Ast::App(acc, n), at: spec_over(acc.at, n.at) });
            if i < i2 && i2 <= toks.len() {
                sp_app_loop(toks, app, i2)
            } else {
                (Ok(app), i2)
            }
        },
    }
}

/// Parse of an application at the cursor: one atom, then as many further
/// atoms as can be parsed, folded left-associatively.
pub open spec fn sp_app(toks: Seq<Token>, i: int) -> (Result<Node, Error>, int)
    decreases toks.len() - i, 4int,
{
    let (r, i1) = sp_atom(toks, i);
    match r {
        Err(e) => (Err(e), i1),
        Ok(n) => {
            if i <= i1 && i1 <= toks.len() {
                sp_app_loop(toks, n, i1)
            } else {
                (Ok(n), i1)
            }
        },
    }
}

/// Well-formed token stream: non-empty spans in source order without
/// overlap, each ending within the machine's address range. The lexer
/// produces such a stream; see [`crate::lexer::lemma_lex_faithful`].
pub open spec fn tokens_wf(toks: Seq<Token>) -> bool {
    &&& forall|k: int|
        0 <= k < toks.len() ==> #[trigger] toks[k].at.len >= 1 && span_end(toks[k].at)
            <= usize::MAX
    &&& forall|a: int, b: int|
        0 <= a < b < toks.len() ==> span_end(#[trigger] toks[a].at)
            <= #[trigger] toks[b].at.offset
}

/// Every token span ends at or before `hi`.
pub open spec fn spans_below(toks: Seq<Token>, hi: int) -> bool {
    forall|k: int| 0 <= k < toks.len() ==> span_end(#[trigger] toks[k].at) <= hi
}

/// What a successful parse step from cursor `i` to cursor `j` guarantees
/// of its tree: spans cover the children, the root span begins at or
/// after the first consumed token, ends by `hi`, and ends before the next
/// unconsumed token.
pub open spec fn node_props(toks: Seq<Token>, i: int, j: int, n: Node, hi: int) -> bool {
    &&& crate::ast::ast_covered(*n)
    &&& 0 <= i < toks.len() ==> toks[i].at.offset <= n.at.offset
    &&& span_end(n.at) <= usize::MAX
    &&& span_end(n.at) <= hi
    &&& n.at.offset <= span_end(n.at)
    &&& j < toks.len() ==> span_end(n.at) <= toks[j].at.offset
}

/// The spans of the tokens from cursor `i` (inclusive) to `j`
/// (exclusive), in order.
pub open spec fn span_run(toks: Seq<Token>, i: int, j: int) -> Seq<Span> {
    Seq::new((j - i) as nat, |m: int| toks[i + m].at)
}

proof fn lemma_params_props(toks: Seq<Token>, i: int)
    requires
        tokens_wf(toks),
        0 <= i <= toks.len(),
    ensures
        ({
            let (r, j) = sp_params(toks, i);
            &&& i <= j <= toks.len()
            &&& match r {
                Ok(ps) => {
                    &&& ps.len() == j - i
                    &&& j < toks.len()
                    &&& toks[j].item != TkTy::Variable
                    &&& ps == span_run(toks, i, j)
                    &&& forall|m: int| i <= m < j ==> #[trigger] toks[m].item == TkTy::Variable
                },
                Err(e) => j == toks.len() && e == eof_err(toks),
            }
        }),
    decreases toks.len() - i, 0int,
{
    let (r, j) = sp_params(toks, i);
    match sp_current(toks, i) {
        Err(_) => {},
        Ok(t) => {
            if t.item == TkTy::Variable {
                lemma_params_props(toks, i + 1);
                let (r2, _) = sp_params(toks, i + 1);
                if let Ok(ps2) = r2 {
                    assert(seq![t.at] + ps2 =~= span_run(toks, i, j));
                }
            }
        },
    }
}

proof fn lemma_fold_abs_props(params: Seq<Span>, body: Node, hi: int)
    requires
        params.len() > 0,
        crate::ast::ast_covered(*body),
        span_end(body.at) <= usize::MAX,
        span_end(body.at) <= hi,
        body.at.offset <= span_end(body.at),
        forall|m: int|
            0 <= m < params.len() ==> #[trigger] params[m].offset <= span_end(params[m])
                && span_end(params[m]) <= (if m + 1 < params.len() {
                params[m + 1].offset as int
            } else {
                body.at.offset as int
            }),
    ensures
        ({
            let n = fold_abs(params, body);
            &&& crate::ast::ast_covered(*n)
            &&& n.at.offset == params[0].offset
            &&& span_end(n.at) == span_end(body.at)
        }),
    decreases params.len(),
{
    let n = fold_abs(params, body);
    if params.len() == 1 {
        assert(params.drop_first() =~= Seq::<Span>::empty());
        assert(fold_abs(params.drop_first(), body) == body);
        assert(span_end(params[0]) <= body.at.offset as int);
        assert(n.at == spec_over(params[0], body.at));
        assert(span_end(n.at) == span_end(body.at));
        assert(crate::ast::covers(n.at, params[0]));
        assert(crate::ast::covers(n.at, body.at));
        assert(crate::ast::ast_covered(*n));
    } else {
        let ps2 = params.drop_first();
        assert forall|m: int|
            0 <= m < ps2.len() implies #[trigger] ps2[m].offset <= span_end(ps2[m]) && span_end(
            ps2[m],
        ) <= (if m + 1 < ps2.len() {
            ps2[m + 1].offset as int
        } else {
            body.at.offset as int
        }) by {
            assert(ps2[m] == params[m + 1]);
            if m + 1 < ps2.len() {
                assert(ps2[m + 1] == params[m + 2]);
            }
        }
        lemma_fold_abs_props(ps2, body, hi);
        let inner = fold_abs(ps2, body);
        assert(inner.at.offset == params[1].offset);
        assert(span_end(params[0]) <= params[1].offset as int);
        assert(n.at == spec_over(params[0], inner.at));
        assert(span_end(n.at) == span_end(body.at));
        assert(crate::ast::covers(n.at, params[0]));
        assert(crate::ast::covers(n.at, inner.at));
        assert(crate::ast::ast_covered(*n));
    }
}

proof fn lemma_abs_props(toks: Seq<Token>, i: int, hi: int)
    requires
        tokens_wf(toks),
        spans_below(toks, hi),
        0 <= i <= toks.len(),
    ensures
        ({
            let (r, j) = sp_abs(toks, i);
            &&& i <= j <= toks.len()
            &&& match r {
                Ok(n) => i < j && node_props(toks, i, j, n, hi),
                Err(_) => true,
            }
        }),
    decreases toks.len() - i, 1int,
{
    match sp_current(toks, i) {
        Err(_) => {},
        Ok(t0) => {
            if t0.item == TkTy::Function {
                lemma_params_props(toks, i + 1);
                let (pr, i2) = sp_params(toks, i + 1);
                if let Ok(params) = pr {
                    if params.len() > 0 && toks[i2].item == TkTy::Abstraction {
                        lemma_app_props(toks, i2 + 1, hi);
                        let (br, i3) = sp_app(toks, i2 + 1);
                        if let Ok(body) = br {
                            assert forall|m: int|
                                0 <= m < params.len() implies #[trigger] params[m].offset
                                <= span_end(params[m]) && span_end(params[m]) <= (if m + 1
                                < params.len() {
                                params[m + 1].offset as int
                            } else {
                                body.at.offset as int
                            }) by {
                                assert(params[m] == toks[i + 1 + m].at);
                                if m + 1 < params.len() {
                                    assert(params[m + 1] == toks[i + 2 + m].at);
                                } else {
                                    assert(span_end(toks[i + 1 + m].at) <= toks[i2 + 1].at.offset);
                                }
                            }
                            lemma_fold_abs_props(params, body, hi);
                            assert(params[0] == toks[i + 1].at);
                        }
                    }
                }
            }
        },
    }
}

proof fn lemma_atom_props(toks: Seq<Token>, i: int, hi: int)
    requires
        tokens_wf(toks),
        spans_below(toks, hi),
        0 <= i <= toks.len(),
    ensures
        ({
            let (r, j) = sp_atom(toks, i);
            &&& i <= j <= toks.len()
            &&& match r {
                Ok(n) => i < j && node_props(toks, i, j, n, hi),
                Err(_) => true,
            }
        }),
    decreases toks.len() - i, 2int,
{
    match sp_current(toks, i) {
        Err(_) => {},
        Ok(t) => {
            if t.item == TkTy::Function {
                lemma_abs_props(toks, i, hi);
            } else if t.item == TkTy::LParen {
                lemma_app_props(toks, i + 1, hi);
            }
        },
    }
}

proof fn lemma_app_loop_props(toks: Seq<Token>, acc: Node, i: int, hi: int)
    requires
        tokens_wf(toks),
        spans_below(toks, hi),
        0 <= i <= toks.len(),
        crate::ast::ast_covered(*acc),
        span_end(acc.at) <= usize::MAX,
        span_end(acc.at) <= hi,
        acc.at.offset <= span_end(acc.at),
        i < toks.len() ==> span_end(acc.at) <= toks[i].at.offset,
    ensures
        ({
            let (r, j) = sp_app_loop(toks, acc, i);
            &&& i <= j <= toks.len()
            &&& match r {
                Ok(n) => {
                    &&& crate::ast::ast_covered(*n)
                    &&& n.at.offset == acc.at.offset
                    &&& span_end(n.at) <= usize::MAX
                    &&& span_end(n.at) <= hi
                    &&& n.at.offset <= span_end(n.at)
                    &&& j < toks.len() ==> span_end(n.at) <= toks[j].at.offset
                },
                Err(_) => false,
            }
        }),
    decreases toks.len() - i, 3int,
{
    lemma_atom_props(toks, i, hi);
    let (r, i2) = sp_atom(toks, i);
    match r {
        Err(_) => {},
        Ok(n) => {
            let app = Box::new(Meta { item: Ast::App(acc, n), at: spec_over(acc.at, n.at) });
            assert(crate::ast::ast_covered(*app));
            lemma_app_loop_props(toks, app, i2, hi);
        },
    }
}

/// The bytes each span of a run names in its source.
pub open spec fn texts_of(src: Seq<u8>, ps: Seq<Span>) -> Seq<Seq<u8>> {
    Seq::new(ps.len(), |m: int| text_at(src, ps[m]))
}

/// What the parser and the lowering pass can observe of a token stream
/// from a cursor on: each token's kind, and under a `Variable` its
/// name. Spans themselves are forgotten.
pub open spec fn stream_view(t: Seq<Token>, s: Seq<u8>, i: int) -> Seq<(TkTy, Seq<u8>)> {
    Seq::new(
        (t.len() - i) as nat,
        |k: int|
            (
                t[i + k].item,
                if t[i + k].item == TkTy::Variable {
                    text_at(s, t[i + k].at)
                } else {
                    Seq::empty()
                },
            ),
    )
}

/// Two streams agree from the two cursors on: equally many tokens are
/// left, of the same kinds in step, with the same name under every
/// `Variable`. Two lexes of sources that differ only in whitespace are
/// so related.
pub open spec fn toks_equiv(
    t1: Seq<Token>,
    s1: Seq<u8>,
    i1: int,
    t2: Seq<Token>,
    s2: Seq<u8>,
    i2: int,
) -> bool {
    &&& 0 <= i1 <= t1.len()
    &&& 0 <= i2 <= t2.len()
    &&& stream_view(t1, s1, i1) == stream_view(t2, s2, i2)
}

proof fn lemma_view_skip(t: Seq<Token>, s: Seq<u8>, i: int, d: int)
    requires
        0 <= i,
        0 <= d,
        i + d <= t.len(),
    ensures
        stream_view(t, s, i + d) == stream_view(t, s, i).skip(d),
{
    assert(stream_view(t, s, i + d) =~= stream_view(t, s, i).skip(d));
}

proof fn lemma_equiv_advance(
    t1: Seq<Token>,
    s1: Seq<u8>,
    i1: int,
    t2: Seq<Token>,
    s2: Seq<u8>,
    i2: int,
    d: int,
)
    requires
        toks_equiv(t1, s1, i1, t2, s2, i2),
        0 <= d <= t1.len() - i1,
    ensures
        toks_equiv(t1, s1, i1 + d, t2, s2, i2 + d),
{
    assert(stream_view(t1, s1, i1).len() == stream_view(t2, s2, i2).len());
    lemma_view_skip(t1, s1, i1, d);
    lemma_view_skip(t2, s2, i2, d);
}

proof fn lemma_equiv_head(
    t1: Seq<Token>,
    s1: Seq<u8>,
    i1: int,
    t2: Seq<Token>,
    s2: Seq<u8>,
    i2: int,
    k: int,
)
    requires
        toks_equiv(t1, s1, i1, t2, s2, i2),
        0 <= k < t1.len() - i1,
    ensures
        t1[i1 + k].item == t2[i2 + k].item,
        t1[i1 + k].item == TkTy::Variable ==> text_at(s1, t1[i1 + k].at) == text_at(
            s2,
            t2[i2 + k].at,
        ),
{
    assert(stream_view(t1, s1, i1).len() == stream_view(t2, s2, i2).len());
    assert(stream_view(t1, s1, i1)[k] == stream_view(t2, s2, i2)[k]);
}

/// Erasing a folded abstraction nests one `Abs` per binder name.
pub proof fn lemma_fold_erase(ps: Seq<Span>, b: Node, s: Seq<u8>)
    ensures
        crate::ast::erase(*fold_abs(ps, b), s) == crate::ast::named_abs(
            texts_of(s, ps),
            crate::ast::erase(*b, s),
        ),
    decreases ps.len(),
{
    if ps.len() > 0 {
        lemma_fold_erase(ps.drop_first(), b, s);
        assert(texts_of(s, ps).drop_first() =~= texts_of(s, ps.drop_first()));
        assert(texts_of(s, ps)[0] == text_at(s, ps[0]));
    }
}

proof fn lemma_params_equiv(
    t1: Seq<Token>,
    s1: Seq<u8>,
    i1: int,
    t2: Seq<Token>,
    s2: Seq<u8>,
    i2: int,
)
    requires
        toks_equiv(t1, s1, i1, t2, s2, i2),
    ensures
        ({
            let (r1, j1) = sp_params(t1, i1);
            let (r2, j2) = sp_params(t2, i2);
            &&& j1 - i1 == j2 - i2
            &&& toks_equiv(t1, s1, j1, t2, s2, j2)
            &&& match (r1, r2) {
                (Ok(p1), Ok(p2)) => texts_of(s1, p1) == texts_of(s2, p2),
                (Err(_), Err(_)) => true,
                _ => false,
            }
        }),
    decreases t1.len() - i1, 0int,
{
    assert(stream_view(t1, s1, i1).len() == stream_view(t2, s2, i2).len());
    if i1 < t1.len() {
        lemma_equiv_head(t1, s1, i1, t2, s2, i2, 0);
        if t1[i1].item == TkTy::Variable {
            lemma_equiv_advance(t1, s1, i1, t2, s2, i2, 1);
            lemma_params_equiv(t1, s1, i1 + 1, t2, s2, i2 + 1);
            let (r1, j1) = sp_params(t1, i1 + 1);
            let (r2, j2) = sp_params(t2, i2 + 1);
            if let (Ok(p1), Ok(p2)) = (r1, r2) {
                assert(texts_of(s1, seq![t1[i1].at] + p1) =~= seq![text_at(s1, t1[i1].at)]
                    + texts_of(s1, p1));
                assert(texts_of(s2, seq![t2[i2].at] + p2) =~= seq![text_at(s2, t2[i2].at)]
                    + texts_of(s2, p2));
            }
        } else {
            assert(texts_of(s1, Seq::<Span>::empty()) =~= texts_of(s2, Seq::<Span>::empty()));
        }
    }
}

proof fn lemma_abs_equiv(t1: Seq<Token>, s1: Seq<u8>, i1: int, t2: Seq<Token>, s2: Seq<u8>, i2: int)
    requires
        toks_equiv(t1, s1, i1, t2, s2, i2),
    ensures
        ({
            let (r1, j1) = sp_abs(t1, i1);
            let (r2, j2) = sp_abs(t2, i2);
            &&& j1 - i1 == j2 - i2
            &&& toks_equiv(t1, s1, j1, t2, s2, j2)
            &&& match (r1, r2) {
                (Ok(n1), Ok(n2)) => crate::ast::erase(*n1, s1) == crate::ast::erase(*n2, s2),
                (Err(_), Err(_)) => true,
                _ => false,
            }
        }),
    decreases t1.len() - i1, 1int,
{
    assert(stream_view(t1, s1, i1).len() == stream_view(t2, s2, i2).len());
    if i1 < t1.len() {
        lemma_equiv_head(t1, s1, i1, t2, s2, i2, 0);
        if t1[i1].item == TkTy::Function {
            lemma_equiv_advance(t1, s1, i1, t2, s2, i2, 1);
            lemma_params_equiv(t1, s1, i1 + 1, t2, s2, i2 + 1);
            let (pr1, c1) = sp_params(t1, i1 + 1);
            let (pr2, c2) = sp_params(t2, i2 + 1);
            if let (Ok(ps1), Ok(ps2)) = (pr1, pr2) {
                assert(ps1.len() == ps2.len()) by {
                    assert(texts_of(s1, ps1).len() == texts_of(s2, ps2).len());
                }
                assert(stream_view(t1, s1, c1).len() == stream_view(t2, s2, c2).len());
                if ps1.len() == 0 {
                    if c1 < t1.len() {
                        lemma_equiv_head(t1, s1, c1, t2, s2, c2, 0);
                    }
                } else {
                    if c1 < t1.len() {
                        lemma_equiv_head(t1, s1, c1, t2, s2, c2, 0);
                        if t1[c1].item == TkTy::Abstraction {
                            lemma_equiv_advance(t1, s1, c1, t2, s2, c2, 1);
                            if i1 < c1 + 1 && c1 + 1 <= t1.len() {
                                lemma_app_equiv(t1, s1, c1 + 1, t2, s2, c2 + 1);
                                let (br1, e1) = sp_app(t1, c1 + 1);
                                let (br2, e2) = sp_app(t2, c2 + 1);
                                if let (Ok(b1), Ok(b2)) = (br1, br2) {
                                    lemma_fold_erase(ps1, b1, s1);
                                    lemma_fold_erase(ps2, b2, s2);
                                }
                            }
                        }
                    }
                }
            }
        }
    }
}

proof fn lemma_atom_equiv(
    t1: Seq<Token>,
    s1: Seq<u8>,
    i1: int,
    t2: Seq<Token>,
    s2: Seq<u8>,
    i2: int,
)
    requires
        toks_equiv(t1, s1, i1, t2, s2, i2),
    ensures
        ({
            let (r1, j1) = sp_atom(t1, i1);
            let (r2, j2) = sp_atom(t2, i2);
            &&& j1 - i1 == j2 - i2
            &&& toks_equiv(t1, s1, j1, t2, s2, j2)
            &&& match (r1, r2) {
                (Ok(n1), Ok(n2)) => crate::ast::erase(*n1, s1) == crate::ast::erase(*n2, s2),
                (Err(_), Err(_)) => true,
                _ => false,
            }
        }),
    decreases t1.len() - i1, 2int,
{
    assert(stream_view(t1, s1, i1).len() == stream_view(t2, s2, i2).len());
    if i1 < t1.len() {
        lemma_equiv_head(t1, s1, i1, t2, s2, i2, 0);
        if t1[i1].item == TkTy::Function {
            lemma_abs_equiv(t1, s1, i1, t2, s2, i2);
        } else if t1[i1].item == TkTy::LParen {
            lemma_equiv_advance(t1, s1, i1, t2, s2, i2, 1);
            lemma_app_equiv(t1, s1, i1 + 1, t2, s2, i2 + 1);
            let (ar1, c1) = sp_app(t1, i1 + 1);
            let (ar2, c2) = sp_app(t2, i2 + 1);
            if let (Ok(_), Ok(_)) = (ar1, ar2) {
                assert(stream_view(t1, s1, c1).len() == stream_view(t2, s2, c2).len());
                if c1 < t1.len() {
                    lemma_equiv_head(t1, s1, c1, t2, s2, c2, 0);
                    if t1[c1].item == TkTy::RParen {
                        lemma_equiv_advance(t1, s1, c1, t2, s2, c2, 1);
                    }
                }
            }
        } else if t1[i1].item == TkTy::Variable {
            lemma_equiv_advance(t1, s1, i1, t2, s2, i2, 1);
        }
    }
}

proof fn lemma_app_loop_equiv(
    t1: Seq<Token>,
    s1: Seq<u8>,
    acc1: Node,
    i1: int,
    t2: Seq<Token>,
    s2: Seq<u8>,
    acc2: Node,
    i2: int,
)
    requires
        toks_equiv(t1, s1, i1, t2, s2, i2),
        crate::ast::erase(*acc1, s1) == crate::ast::erase(*acc2, s2),
    ensures
        ({
            let (r1, j1) = sp_app_loop(t1, acc1, i1);
            let (r2, j2) = sp_app_loop(t2, acc2, i2);
            &&& j1 - i1 == j2 - i2
            &&& toks_equiv(t1, s1, j1, t2, s2, j2)
            &&& match (r1, r2) {
                (Ok(n1), Ok(n2)) => crate::ast::erase(*n1, s1) == crate::ast::erase(*n2, s2),
                (Err(_), Err(_)) => true,
                _ => false,
            }
        }),
    decreases t1.len() - i1, 3int,
{
    lemma_atom_equiv(t1, s1, i1, t2, s2, i2);
    let (r1, c1) = sp_atom(t1, i1);
    let (r2, c2) = sp_atom(t2, i2);
    if let (Ok(n1), Ok(n2)) = (r1, r2) {
        let app1 = Box::new(Meta { item: Ast::App(acc1, n1), at: spec_over(acc1.at, n1.at) });
        let app2 = Box::new(Meta { item: Ast::App(acc2, n2), at: spec_over(acc2.at, n2.at) });
        assert(crate::ast::erase(*app1, s1) == crate::ast::erase(*app2, s2));
        if i1 < c1 && c1 <= t1.len() {
            lemma_app_loop_equiv(t1, s1, app1, c1, t2, s2, app2, c2);
        }
    }
}

proof fn lemma_app_equiv(t1: Seq<Token>, s1: Seq<u8>, i1: int, t2: Seq<Token>, s2: Seq<u8>, i2: int)
    requires
        toks_equiv(t1, s1, i1, t2, s2, i2),
    ensures
        ({
            let (r1, j1) = sp_app(t1, i1);
            let (r2, j2) = sp_app(t2, i2);
            &&& j1 - i1 == j2 - i2
            &&& toks_equiv(t1, s1, j1, t2, s2, j2)
            &&& match (r1, r2) {
                (Ok(n1), Ok(n2)) => crate::ast::erase(*n1, s1) == crate::ast::erase(*n2, s2),
                (Err(_), Err(_)) => true,
                _ => false,
            }
        }),
    decreases t1.len() - i1, 4int,
{
    lemma_atom_equiv(t1, s1, i1, t2, s2, i2);
    let (r1, c1) = sp_atom(t1, i1);
    let (r2, c2) = sp_atom(t2, i2);
    if let (Ok(n1), Ok(n2)) = (r1, r2) {
        if i1 <= c1 && c1 <= t1.len() {
            lemma_app_loop_equiv(t1, s1, n1, c1, t2, s2, n2, c2);
        }
    }
}

/// Two streams that agree in kinds and variable names — as the lexes of
/// two sources differing only in whitespace do — parse alike: the same
/// success or failure, cursors in step, and trees that erase to the
/// same `Named` tree, so that lowering cannot tell them apart.
pub proof fn lemma_parse_equiv(
    t1: Seq<Token>,
    s1: Seq<u8>,
    t2: Seq<Token>,
    s2: Seq<u8>,
)
    requires
        toks_equiv(t1, s1, 0, t2, s2, 0),
    ensures
        ({
            let (r1, j1) = sp_app(t1, 0);
            let (r2, j2) = sp_app(t2, 0);
            &&& j1 == j2
            &&& match (r1, r2) {
                (Ok(n1), Ok(n2)) => crate::ast::erase(*n1, s1) == crate::ast::erase(*n2, s2),
                (Err(_), Err(_)) => true,
                _ => false,
            }
        }),
{
    lemma_app_equiv(t1, s1, 0, t2, s2, 0);
}

proof fn lemma_params_run(toks: Seq<Token>, i: int, j: int)
    requires
        0 <= i <= j < toks.len(),
        forall|m: int| i <= m < j ==> #[trigger] toks[m].item == TkTy::Variable,
        toks[j].item != TkTy::Variable,
    ensures
        sp_params(toks, i) == (Ok::<Seq<Span>, Error>(span_run(toks, i, j)), j),
    decreases j - i,
{
    if i == j {
        assert(span_run(toks, i, j) =~= Seq::<Span>::empty());
    } else {
        lemma_params_run(toks, i + 1, j);
        assert(seq![toks[i].at] + span_run(toks, i + 1, j) =~= span_run(toks, i, j));
    }
}

/// Abstraction desugaring: a multi-binder abstraction
/// `FN v1 … vk ABS body` and its one-step unsugared spelling
/// `FN v1 ABS FN v2 … vk ABS body` parse alike — the same success or
/// failure, and trees that erase to the same nest of unary `Abs` — as
/// long as the sugared parse that succeeds consumes its stream whole.
/// (Trailing tokens that no parse reaches can otherwise be swallowed at
/// different nesting depths by `app`'s atom attempts.)
pub proof fn lemma_abs_desugar(t1: Seq<Token>, s1: Seq<u8>, t2: Seq<Token>, s2: Seq<u8>, k: int)
    requires
        2 <= k,
        k + 2 <= t1.len(),
        t2.len() == t1.len() + 2,
        t1[0].item == TkTy::Function,
        forall|m: int| 1 <= m <= k ==> #[trigger] t1[m].item == TkTy::Variable,
        t1[k + 1].item == TkTy::Abstraction,
        t2[0].item == TkTy::Function,
        t2[1].item == TkTy::Variable,
        text_at(s2, t2[1].at) == text_at(s1, t1[1].at),
        t2[2].item == TkTy::Abstraction,
        t2[3].item == TkTy::Function,
        forall|m: int| 2 <= m <= k ==> #[trigger] t2[m + 2].item == TkTy::Variable,
        forall|m: int|
            2 <= m <= k ==> text_at(s2, #[trigger] t2[m + 2].at) == text_at(s1, t1[m].at),
        t2[k + 3].item == TkTy::Abstraction,
        toks_equiv(t1, s1, k + 2, t2, s2, k + 4),
        ({
            let (r1, j1) = sp_abs(t1, 0);
            r1 is Ok ==> j1 == t1.len()
        }),
    ensures
        ({
            let (r1, j1) = sp_abs(t1, 0);
            let (r2, j2) = sp_abs(t2, 0);
            match (r1, r2) {
                (Ok(n1), Ok(n2)) => crate::ast::erase(*n1, s1) == crate::ast::erase(*n2, s2) && j2
                    == t2.len(),
                (Err(_), Err(_)) => true,
                _ => false,
            }
        }),
{
    lemma_params_run(t1, 1, k + 1);
    let params1 = span_run(t1, 1, k + 1);
    lemma_params_run(t2, 1, 2);
    assert(span_run(t2, 1, 2) =~= seq![t2[1].at]);
    assert forall|m: int| 4 <= m < k + 3 implies #[trigger] t2[m].item == TkTy::Variable by {
        assert(t2[(m - 2) + 2].item == TkTy::Variable);
    }
    lemma_params_run(t2, 4, k + 3);
    let params2 = span_run(t2, 4, k + 3);
    lemma_app_equiv(t1, s1, k + 2, t2, s2, k + 4);
    let (br1, e1) = sp_app(t1, k + 2);
    let (br2, e2) = sp_app(t2, k + 4);
    assert(sp_abs(t2, 3).1 == e2);
    match (br1, br2) {
        (Ok(b1), Ok(b2)) => {
            assert(sp_abs(t1, 0) == (
                Ok::<Node, Error>(fold_abs(params1, b1)),
                e1,
            ));
            assert(e1 == t1.len());
            assert(e2 - (k + 4) == e1 - (k + 2));
            assert(e2 == t2.len());
            let inner = fold_abs(params2, b2);
            assert(sp_abs(t2, 3) == (Ok::<Node, Error>(inner), e2));
            assert(sp_atom(t2, 3) == (Ok::<Node, Error>(inner), e2));
            assert(sp_current(t2, e2) == Err::<Token, Error>(eof_err(t2)));
            assert(sp_atom(t2, e2) == (Err::<Node, Error>(eof_err(t2)), e2));
            assert(sp_app_loop(t2, inner, e2) == (Ok::<Node, Error>(inner), e2));
            assert(sp_app(t2, 3) == (Ok::<Node, Error>(inner), e2));
            let outer = fold_abs(seq![t2[1].at], inner);
            assert(sp_abs(t2, 0) == (Ok::<Node, Error>(outer), e2));
            lemma_fold_erase(params1, b1, s1);
            lemma_fold_erase(params2, b2, s2);
            lemma_fold_erase(seq![t2[1].at], inner, s2);
            let etx1 = texts_of(s1, params1);
            let etx2 = texts_of(s2, params2);
            assert(etx1.drop_first() =~= etx2) by {
                assert forall|m: int| 0 <= m < k - 1 implies etx1.drop_first()[m] == etx2[m] by {
                    assert(params1[m + 1] == t1[m + 2].at);
                    assert(params2[m] == t2[m + 4].at);
                    assert(text_at(s2, t2[(m + 2) + 2].at) == text_at(s1, t1[m + 2].at));
                }
            }
            assert(texts_of(s2, seq![t2[1].at]) =~= seq![text_at(s2, t2[1].at)]);
            assert(etx1[0] == text_at(s1, t1[1].at));
            assert(crate::ast::named_abs(etx1, crate::ast::erase(*b1, s1))
                == crate::ast::named_abs(
                seq![text_at(s2, t2[1].at)],
                crate::ast::named_abs(etx2, crate::ast::erase(*b2, s2)),
            )) by {
                let eb = crate::ast::erase(*b1, s1);
                assert(eb == crate::ast::erase(*b2, s2));
                assert(etx1.len() == k);
                assert(seq![text_at(s2, t2[1].at)].drop_first() =~= Seq::<Seq<u8>>::empty());
                assert(crate::ast::named_abs(Seq::<Seq<u8>>::empty(), crate::ast::named_abs(etx2, eb))
                    == crate::ast::named_abs(etx2, eb));
                assert(etx1.drop_first() == etx2);
                assert(crate::ast::named_abs(etx1.drop_first(), eb) == crate::ast::named_abs(
                    etx2,
                    eb,
                ));
                assert(crate::ast::named_abs(etx1, eb) == crate::ast::Named::Abs(
                    etx1[0],
                    Box::new(crate::ast::named_abs(etx1.drop_first(), eb)),
                ));
            }
        },
        (Err(_), Err(_)) => {
            assert(sp_abs(t1, 0).0 is Err);
            assert(sp_app(t2, 3).0 is Err);
            assert(sp_abs(t2, 0).0 is Err);
        },
        _ => {
            assert(false);
        },
    }
}

/// Inserting one whitespace byte between tokens — at a position that no
/// lexed item's span strictly contains — yields a token stream
/// equivalent to the old one: the same kinds in step, and the same
/// bytes under every `Variable`.
pub proof fn lemma_ws_insertion_equiv(src: Seq<u8>, p: int, w: u8)
    requires
        crate::lexer::is_ws(w),
        0 <= p <= src.len(),
        src.len() + 1 <= usize::MAX,
        crate::lexer::outside_items(crate::lexer::spec_lex(src, 0), p),
    ensures
        ({
            let s2 = crate::lexer::insert_at(src, p, w);
            toks_equiv(
                crate::lexer::ok_tokens(crate::lexer::spec_lex(src, 0)),
                src,
                0,
                crate::lexer::ok_tokens(crate::lexer::spec_lex(s2, 0)),
                s2,
                0,
            )
        }),
{
    let s2 = crate::lexer::insert_at(src, p, w);
    let items = crate::lexer::spec_lex(src, 0);
    let toks1 = crate::lexer::ok_tokens(items);
    crate::lexer::lemma_ws_insertion(src, p, w, 0);
    crate::lexer::lemma_ok_tokens_nudge(items, p);
    crate::lexer::lemma_lex_faithful(src, 0);
    crate::lexer::lemma_ok_tokens_props(items, 0, src.len() as int);
    let toks2 = crate::lexer::ok_tokens(crate::lexer::spec_lex(s2, 0));
    assert(toks2 == toks1.map_values(|t: Token| crate::lexer::nudge_token(t, p)));
    assert(toks2.len() == toks1.len());
    assert(forall|m: int| 0 <= m < p ==> #[trigger] s2[m] == src[m]);
    assert(forall|m: int| p <= m < src.len() ==> #[trigger] s2[m + 1] == src[m]);
    assert(stream_view(toks1, src, 0) =~= stream_view(toks2, s2, 0)) by {
        assert forall|k: int|
            0 <= k < toks1.len() implies stream_view(toks1, src, 0)[k] == stream_view(
            toks2,
            s2,
            0,
        )[k] by {
            let t = toks1[k];
            let t2 = toks2[k];
            assert(t2 == crate::lexer::nudge_token(t, p));
            assert(t2.item == t.item);
            assert(span_end(t.at) <= src.len() && t.at.len >= 1);
            if t.item == TkTy::Variable {
                if span_end(t.at) <= p {
                    assert(t2.at == t.at);
                    assert(text_at(s2, t2.at) =~= text_at(src, t.at)) by {
                        assert(forall|m: int|
                            0 <= m < t.at.len ==> #[trigger] s2[t.at.offset + m] == src[t.at.offset
                                + m]);
                    }
                } else {
                    assert(t.at.offset >= p);
                    assert(t2.at.offset == t.at.offset + 1 && t2.at.len == t.at.len);
                    assert(text_at(s2, t2.at) =~= text_at(src, t.at)) by {
                        assert(forall|m: int|
                            0 <= m < t.at.len ==> #[trigger] s2[t.at.offset + 1 + m] == src[t.at.offset
                                + m]);
                    }
                }
            }
        }
    }
}

/// The successful tokens of lexing any source form a well-formed
/// stream whose spans end within that source: what the parser requires
/// holds of what the lexer produces.
pub proof fn lemma_lexed_tokens_wf(src: Seq<u8>)
    requires
        src.len() <= usize::MAX,
    ensures
        tokens_wf(crate::lexer::ok_tokens(crate::lexer::spec_lex(src, 0))),
        spans_below(crate::lexer::ok_tokens(crate::lexer::spec_lex(src, 0)), src.len() as int),
{
    let toks = crate::lexer::ok_tokens(crate::lexer::spec_lex(src, 0));
    crate::lexer::lemma_lex_faithful(src, 0);
    crate::lexer::lemma_ok_tokens_props(crate::lexer::spec_lex(src, 0), 0, src.len() as int);
    assert forall|k: int|
        0 <= k < toks.len() implies #[trigger] toks[k].at.len >= 1 && span_end(toks[k].at)
        <= usize::MAX by {
        assert(0 <= toks[k].at.offset && span_end(toks[k].at) <= src.len());
    }
}

/// AST span coverage: parsing the tokens lexed from a source yields a
/// tree in which every node's span covers each child's span and lies
/// within the source.
pub proof fn lemma_ast_span_coverage(src: Seq<u8>)
    requires
        src.len() <= usize::MAX,
    ensures
        ({
            let toks = crate::lexer::ok_tokens(crate::lexer::spec_lex(src, 0));
            let (r, j) = sp_app(toks, 0);
            match r {
                Ok(n) => crate::ast::ast_covered(*n) && crate::ast::ast_within(
                    *n,
                    src.len() as int,
                ),
                Err(_) => true,
            }
        }),
{
    let toks = crate::lexer::ok_tokens(crate::lexer::spec_lex(src, 0));
    lemma_lexed_tokens_wf(src);
    lemma_app_props(toks, 0, src.len() as int);
    let (r, j) = sp_app(toks, 0);
    if let Ok(n) = r {
        crate::ast::lemma_covered_within(*n, src.len() as int);
    }
}

/// A left-leaning spine of `count` variable uses over the first `count`
/// tokens: `a b c` is `App(App(a, b), c)`.
pub open spec fn left_var_spine(n: Meta<Ast>, toks: Seq<Token>, count: int) -> bool
    decreases count,
{
    if count <= 0 {
        false
    } else if count == 1 {
        n.item == Ast::Var && n.at == toks[0].at
    } else {
        match n.item {
            Ast::App(l, r) => r.item == Ast::Var && r.at == toks[count - 1].at && left_var_spine(
                *l,
                toks,
                count - 1,
            ),
            _ => false,
        }
    }
}

proof fn lemma_loop_spine(toks: Seq<Token>, acc: Node, i: int)
    requires
        forall|k: int| 0 <= k < toks.len() ==> #[trigger] toks[k].item == TkTy::Variable,
        1 <= i <= toks.len(),
        left_var_spine(*acc, toks, i),
    ensures
        ({
            let (r, j) = sp_app_loop(toks, acc, i);
            &&& j == toks.len()
            &&& match r {
                Ok(n) => left_var_spine(*n, toks, toks.len() as int),
                Err(_) => false,
            }
        }),
    decreases toks.len() - i,
{
    let (r2, i2) = sp_atom(toks, i);
    if i < toks.len() {
        let vnode = Box::new(Meta { item: Ast::Var, at: toks[i].at });
        assert(r2 == Ok::<Node, Error>(vnode) && i2 == i + 1);
        let app = Box::new(
            Meta { item: Ast::App(acc, vnode), at: spec_over(acc.at, vnode.at) },
        );
        assert(left_var_spine(*app, toks, i + 1));
        lemma_loop_spine(toks, app, i + 1);
        assert(sp_app_loop(toks, acc, i) == sp_app_loop(toks, app, i + 1));
    } else {
        assert(r2 == Err::<Node, Error>(eof_err(toks)) && i2 == i);
        assert(sp_app_loop(toks, acc, i) == (Ok::<Node, Error>(acc), i));
    }
}

/// Application associativity: a stream of one or more `Variable`
/// tokens parses wholly, as a left-leaning spine of `App` nodes.
pub proof fn lemma_app_left_spine(toks: Seq<Token>)
    requires
        toks.len() >= 1,
        forall|k: int| 0 <= k < toks.len() ==> #[trigger] toks[k].item == TkTy::Variable,
    ensures
        ({
            let (r, j) = sp_app(toks, 0);
            &&& j == toks.len()
            &&& match r {
                Ok(n) => left_var_spine(*n, toks, toks.len() as int),
                Err(_) => false,
            }
        }),
{
    let (r1, i1) = sp_atom(toks, 0);
    let first = Box::new(Meta { item: Ast::Var, at: toks[0].at });
    assert(r1 == Ok::<Node, Error>(first) && i1 == 1);
    assert(left_var_spine(*first, toks, 1));
    lemma_loop_spine(toks, first, 1);
}

/// The recursive-descent parser: a random-access token vector and an
/// index cursor.
pub struct Parser {
    pub tokens: Vec<Token>,
    pub idx: usize,
}

fn eof_err_x(tokens: &Vec<Token>) -> (e: Error)
    ensures
        e == eof_err(tokens@),
{
    if tokens.len() == 0 {
        Error::UnexpectedEof { at: Span { offset: 0, len: 0 } }
    } else {
        Error::UnexpectedEof { at: tokens[tokens.len() - 1].at }
    }
}

impl Parser {
    /// A parser over `tokens` with the cursor at the front.
    pub fn new(tokens: Vec<Token>) -> (p: Parser)
        ensures
            p.tokens == tokens,
            p.idx == 0,
    {
        Parser { tokens, idx: 0 }
    }

    /// The token under the cursor, or `UnexpectedEof`.
    pub fn current(&self) -> (r: Result<Token, Error>)
        ensures
            r == sp_current(self.tokens@, self.idx as int),
    {
        self.peek(0)
    }

    /// The token `offset` places past the cursor, or `UnexpectedEof`.
    pub fn peek(&self, offset: usize) -> (r: Result<Token, Error>)
        ensures
            r == sp_current(self.tokens@, self.idx + offset),
    {
        let n = self.tokens.len();
        if offset < n && self.idx < n - offset {
            Ok(self.tokens[self.idx + offset])
        } else {
            Err(eof_err_x(&self.tokens))
        }
    }

    /// Step the cursor; the token it stood on, if any.
    pub fn adv(&mut self) -> (r: Option<Token>)
        requires
            old(self).idx < usize::MAX,
        ensures
            final(self).tokens == old(self).tokens,
            final(self).idx == old(self).idx + 1,
            r == (if old(self).idx < old(self).tokens@.len() {
                Some(old(self).tokens@[old(self).idx as int])
            } else {
                Option::<Token>::None
            }),
    {
        self.idx = self.idx + 1;
        if self.idx - 1 < self.tokens.len() {
            Some(self.tokens[self.idx - 1])
        } else {
            None
        }
    }

    /// If the token under the cursor is of kind `tk`, consume it; reports
    /// `UnexpectedEof` when the stream is over.
    pub fn check(&mut self, tk: TkTy) -> (r: Result<bool, Error>)
        ensures
            final(self).tokens == old(self).tokens,
            match sp_current(old(self).tokens@, old(self).idx as int) {
                Ok(t) => {
                    if t.item == tk {
                        r == Ok::<bool, Error>(true) && final(self).idx == old(self).idx + 1
                    } else {
                        r == Ok::<bool, Error>(false) && final(self).idx == old(self).idx
                    }
                },
                Err(e) => r == Err::<bool, Error>(e) && final(self).idx == old(self).idx,
            },
    {
        let _n: usize = self.tokens.len();
        match self.current() {
            Err(e) => Err(e),
            Ok(t) => {
                if t.item == tk {
                    self.idx = self.idx + 1;
                    Ok(true)
                } else {
                    Ok(false)
                }
            },
        }
    }

    /// Require the token under the cursor to be of kind `tk` and consume
    /// it; otherwise report which kind stood there instead.
    pub fn syntax(&mut self, tk: TkTy) -> (r: Result<(), Error>)
        ensures
            final(self).tokens == old(self).tokens,
            match sp_current(old(self).tokens@, old(self).idx as int) {
                Ok(t) => {
                    if t.item == tk {
                        r == Ok::<(), Error>(()) && final(self).idx == old(self).idx + 1
                    } else {
                        r == Err::<(), Error>(
                            Error::UnexpectedToken { exp: tk, tk: t.item, at: t.at },
                        ) && final(self).idx == old(self).idx
                    }
                },
                Err(e) => r == Err::<(), Error>(e) && final(self).idx == old(self).idx,
            },
    {
        let _n: usize = self.tokens.len();
        match self.current() {
            Err(e) => Err(e),
            Ok(t) => {
                if t.item == tk {
                    self.idx = self.idx + 1;
                    Ok(())
                } else {
                    Err(Error::UnexpectedToken { exp: tk, tk: t.item, at: t.at })
                }
            },
        }
    }

    /// Parse a whole expression: an application.
    pub fn parse(&mut self) -> (r: Result<Node, Error>)
        requires
            tokens_wf(old(self).tokens@),
            old(self).idx <= old(self).tokens@.len(),
        ensures
            final(self).tokens == old(self).tokens,
            final(self).idx <= final(self).tokens@.len(),
            ({
                let (sr, sj) = sp_app(old(self).tokens@, old(self).idx as int);
                final(self).idx == sj && r == sr
            }),
        decreases old(self).tokens@.len() - old(self).idx, 5int,
    {
        self.parse_app()
    }

    /// Parse an abstraction at the cursor; its whole behaviour is
    /// [`sp_abs`].
    pub fn parse_abs(&mut self) -> (r: Result<Node, Error>)
        requires
            tokens_wf(old(self).tokens@),
            old(self).idx <= old(self).tokens@.len(),
        ensures
            final(self).tokens == old(self).tokens,
            final(self).idx <= final(self).tokens@.len(),
            ({
                let (sr, sj) = sp_abs(old(self).tokens@, old(self).idx as int);
                final(self).idx == sj && r == sr
            }),
        decreases old(self).tokens@.len() - old(self).idx, 1int,
    {
        let ghost toks = self.tokens@;
        let ghost tv = self.tokens;
        let ghost i0 = self.idx as int;
        let _n: usize = self.tokens.len();
        proof {
            lemma_abs_props(toks, i0, usize::MAX as int);
        }
        match self.syntax(TkTy::Function) {
            Err(e) => {
                return Err(e);
            },
            Ok(_) => {},
        }
        let ghost i1 = self.idx as int;
        proof {
            lemma_params_props(toks, i1);
        }
        let mut params: Vec<Span> = Vec::new();
        loop
            invariant
                tv == old(self).tokens,
                toks == old(self).tokens@,
                i0 == old(self).idx as int,
                i1 == i0 + 1,
                0 <= i0 < toks.len(),
                toks[i0].item == TkTy::Function,
                self.tokens == tv,
                self.tokens@ == toks,
                toks.len() <= usize::MAX,
                tokens_wf(toks),
                i1 <= self.idx as int <= toks.len(),
                params@.len() == self.idx as int - i1,
                ({
                    let (fr, fj) = sp_params(toks, self.idx as int);
                    let (tr, tj) = sp_params(toks, i1);
                    tj == fj && tr == (match fr {
                        Ok(ps) => Ok::<Seq<Span>, Error>(params@ + ps),
                        Err(e) => Err::<Seq<Span>, Error>(e),
                    })
                }),
            ensures
                self.tokens == tv,
                self.tokens@ == toks,
                i1 <= self.idx as int <= toks.len(),
                sp_params(toks, i1) == (Ok::<Seq<Span>, Error>(params@), self.idx as int),
            decreases toks.len() - self.idx,
        {
            let c = self.current();
            match c {
                Err(e) => {
                    proof {
                        assert(sp_params(toks, self.idx as int) == (
                            Err::<Seq<Span>, Error>(eof_err(toks)),
                            self.idx as int,
                        ));
                    }
                    return Err(e);
                },
                Ok(t) => {
                    if t.item == TkTy::Variable {
                        let ghost pv = params@;
                        params.push(t.at);
                        self.idx = self.idx + 1;
                        proof {
                            let (fr2, fj2) = sp_params(toks, self.idx as int);
                            if let Ok(ps) = fr2 {
                                assert(params@ + ps =~= pv + (seq![t.at] + ps));
                            }
                        }
                    } else {
                        proof {
                            assert(sp_params(toks, self.idx as int) == (
                                Ok::<Seq<Span>, Error>(Seq::<Span>::empty()),
                                self.idx as int,
                            ));
                            assert(params@ + Seq::<Span>::empty() =~= params@);
                        }
                        break;
                    }
                },
            }
        }
        let ghost i2 = self.idx as int;
        if params.len() == 0 {
            match self.current() {
                Err(e) => {
                    return Err(e);
                },
                Ok(t) => {
                    return Err(Error::UnexpectedToken { exp: TkTy::Variable, tk: t.item, at: t.at });
                },
            }
        }
        match self.syntax(TkTy::Abstraction) {
            Err(e) => {
                return Err(e);
            },
            Ok(_) => {},
        }
        proof {
            lemma_app_props(toks, i2 + 1, usize::MAX as int);
        }
        let body = match self.parse_app() {
            Err(e) => {
                return Err(e);
            },
            Ok(b) => b,
        };
        let ghost b0 = body;
        let ghost sbj = self.idx as int;
        proof {
            lemma_params_props(toks, i1);
            assert(params@ == span_run(toks, i1, i2));
            assert(params@.skip(params@.len() as int) =~= Seq::<Span>::empty());
        }
        let mut result = body;
        let mut m: usize = params.len();
        while m > 0
            invariant
                1 <= params@.len(),
                m <= params@.len(),
                params@ == span_run(toks, i1, i2),
                tokens_wf(toks),
                0 <= i1,
                i1 + params@.len() == i2,
                i2 + 1 < toks.len(),
                forall|q: int| i1 <= q < i2 ==> #[trigger] toks[q].item == TkTy::Variable,
                node_props(toks, i2 + 1, sbj, b0, usize::MAX as int),
                result == fold_abs(params@.skip(m as int), b0),
                span_end(result.at) <= usize::MAX,
                result.at.offset <= span_end(result.at),
                result.at.offset == (if m < params@.len() {
                    params@[m as int].offset as int
                } else {
                    b0.at.offset as int
                }),
            decreases m,
        {
            m = m - 1;
            proof {
                assert(params@[m as int] == toks[i1 + m].at);
                if m + 1 < params@.len() {
                    assert(params@[m + 1] == toks[i1 + m + 1].at);
                    assert(span_end(toks[i1 + m].at) <= toks[i1 + m + 1].at.offset);
                } else {
                    assert(span_end(toks[i1 + m].at) <= toks[i2 + 1].at.offset);
                    assert(toks[i2 + 1].at.offset <= b0.at.offset);
                }
            }
            let at = over(params[m], result.at);
            result = Ast::Abs(params[m], result).at(at);
            proof {
                assert(params@.skip(m as int).drop_first() =~= params@.skip(m + 1));
                assert(params@.skip(m as int)[0] == params@[m as int]);
            }
        }
        proof {
            assert(params@.skip(0) =~= params@);
        }
        Ok(result)
    }

    /// Parse an application at the cursor; its whole behaviour is
    /// [`sp_app`].
    pub fn parse_app(&mut self) -> (r: Result<Node, Error>)
        requires
            tokens_wf(old(self).tokens@),
            old(self).idx <= old(self).tokens@.len(),
        ensures
            final(self).tokens == old(self).tokens,
            final(self).idx <= final(self).tokens@.len(),
            ({
                let (sr, sj) = sp_app(old(self).tokens@, old(self).idx as int);
                final(self).idx == sj && r == sr
            }),
        decreases old(self).tokens@.len() - old(self).idx, 4int,
    {
        let ghost toks = self.tokens@;
        let ghost tv = self.tokens;
        let ghost i0 = self.idx as int;
        proof {
            lemma_atom_props(toks, i0, usize::MAX as int);
        }
        let mut l = match self.parse_atom() {
            Err(e) => {
                return Err(e);
            },
            Ok(n) => n,
        };
        loop
            invariant_except_break
                sp_app(toks, i0) == sp_app_loop(toks, l, self.idx as int),
                (self.idx as int) < toks.len() ==> span_end(l.at) <= toks[self.idx as int].at.offset,
            invariant
                tv == old(self).tokens,
                toks == old(self).tokens@,
                i0 == old(self).idx as int,
                self.tokens == tv,
                self.tokens@ == toks,
                tokens_wf(toks),
                i0 <= self.idx as int <= toks.len(),
                span_end(l.at) <= usize::MAX,
                l.at.offset <= span_end(l.at),
            ensures
                self.tokens == tv,
                self.tokens@ == toks,
                self.idx as int <= toks.len(),
                sp_app(toks, i0) == (Ok::<Node, Error>(l), self.idx as int),
            decreases toks.len() - self.idx,
        {
            let ghost ib = self.idx as int;
            proof {
                lemma_atom_props(toks, ib, usize::MAX as int);
            }
            let rn = match self.parse_atom() {
                Err(_) => {
                    break;
                },
                Ok(n) => n,
            };
            let at = over(l.at, rn.at);
            l = Ast::App(l, rn).at(at);
        }
        Ok(l)
    }

    /// Parse one atom at the cursor; its whole behaviour is [`sp_atom`].
    pub fn parse_atom(&mut self) -> (r: Result<Node, Error>)
        requires
            tokens_wf(old(self).tokens@),
            old(self).idx <= old(self).tokens@.len(),
        ensures
            final(self).tokens == old(self).tokens,
            final(self).idx <= final(self).tokens@.len(),
            ({
                let (sr, sj) = sp_atom(old(self).tokens@, old(self).idx as int);
                final(self).idx == sj && r == sr
            }),
        decreases old(self).tokens@.len() - old(self).idx, 2int,
    {
        let ghost toks = self.tokens@;
        let ghost i0 = self.idx as int;
        let cur = match self.current() {
            Err(e) => {
                return Err(e);
            },
            Ok(t) => t,
        };
        if cur.item == TkTy::Function {
            return self.parse_abs();
        }
        let lp = match self.check(TkTy::LParen) {
            Err(e) => {
                return Err(e);
            },
            Ok(b) => b,
        };
        if lp {
            proof {
                lemma_app_props(toks, i0 + 1, usize::MAX as int);
            }
            let inner = match self.parse_app() {
                Err(e) => {
                    return Err(e);
                },
                Ok(n) => n,
            };
            match self.syntax(TkTy::RParen) {
                Err(e) => Err(e),
                Ok(_) => Ok(inner),
            }
        } else {
            let next_span = cur.at;
            match self.syntax(TkTy::Variable) {
                Err(e) => Err(e),
                Ok(_) => Ok(Ast::Var.at(next_span)),
            }
        }
    }
}

/// What every successful parse of an application guarantees: the cursor
/// advances, and the tree satisfies [`node_props`] — each node's span
/// covers its children's spans and stays within the consumed tokens.
pub proof fn lemma_app_props(toks: Seq<Token>, i: int, hi: int)
    requires
        tokens_wf(toks),
        spans_below(toks, hi),
        0 <= i <= toks.len(),
    ensures
        ({
            let (r, j) = sp_app(toks, i);
            &&& i <= j <= toks.len()
            &&& match r {
                Ok(n) => i < j && node_props(toks, i, j, n, hi),
                Err(_) => true,
            }
        }),
    decreases toks.len() - i, 4int,
{
    lemma_atom_props(toks, i, hi);
    let (r, i1) = sp_atom(toks, i);
    match r {
        Err(_) => {},
        Ok(n) => {
            lemma_app_loop_props(toks, n, i1, hi);
        },
    }
}

} // verus!
