//! Front end for the untyped lambda calculus: a lexer that turns a source
//! string into spanned tokens, a recursive-descent parser that builds a
//! spanned syntax tree, and a lowering pass that resolves names into
//! de Bruijn indices and flattens the tree into a contiguous pool of terms.
use vstd::prelude::*;

pub mod ast;
pub mod compiler;
pub mod lexer;
pub mod parser;
pub mod pool_lambda;

use crate::lexer::Token;
use crate::parser::sp_app;
use crate::parser::sp_abs;
use crate::parser::toks_equiv;
use crate::pool_lambda::sp_lower;

verus! {

/// A lambda term over numbered binders, the output of [`compiler::Compiler`].
/// `Var` holds the number of the binder it refers to, `Abs` the number it
/// introduces.
#[derive(Debug, PartialEq, Eq)]
pub enum Body {
    Var(usize),
    App(Box<Body>, Box<Body>),
    Abs(usize, Box<Body>),
}

pub type Term = Box<Body>;

/// The character of one decimal digit.
pub open spec fn digit_char(d: int) -> char {
    if d == 0 {
        '0'
    } else if d == 1 {
        '1'
    } else if d == 2 {
        '2'
    } else if d == 3 {
        '3'
    } else if d == 4 {
        '4'
    } else if d == 5 {
        '5'
    } else if d == 6 {
        '6'
    } else if d == 7 {
        '7'
    } else if d == 8 {
        '8'
    } else {
        '9'
    }
}

/// The decimal digits of `n`, most significant first.
pub open spec fn dec_of(n: int) -> Seq<char>
    decreases n,
{
    if n < 10 {
        seq![digit_char(n)]
    } else {
        dec_of(n / 10) + seq![digit_char(n % 10)]
    }
}

fn digit_str(d: usize) -> (r: &'static str)
    requires
        d < 10,
    ensures
        r@ == seq![digit_char(d as int)],
{
    let r: &'static str = if d == 0 {
        "0"
    } else if d == 1 {
        "1"
    } else if d == 2 {
        "2"
    } else if d == 3 {
        "3"
    } else if d == 4 {
        "4"
    } else if d == 5 {
        "5"
    } else if d == 6 {
        "6"
    } else if d == 7 {
        "7"
    } else if d == 8 {
        "8"
    } else {
        "9"
    };
    proof {
        reveal_strlit("0");
        reveal_strlit("1");
        reveal_strlit("2");
        reveal_strlit("3");
        reveal_strlit("4");
        reveal_strlit("5");
        reveal_strlit("6");
        reveal_strlit("7");
        reveal_strlit("8");
        reveal_strlit("9");
        assert(r@ =~= seq![digit_char(d as int)]);
    }
    r
}

/// `n` written in decimal.
pub fn dec_str(n: usize) -> (r: String)
    ensures
        r@ == dec_of(n as int),
    decreases n,
{
    if n < 10 {
        String::from_str(digit_str(n))
    } else {
        let mut s = dec_str(n / 10);
        s.append(digit_str(n % 10));
        s
    }
}

/// The textual form of a term over numbered binders: an abstraction as
/// the lambda letter, its binder number, a dot and its body; an
/// application as its sides separated by a space, the left
/// parenthesized when it is an abstraction, the right when it is an
/// application; a variable as its binder's number.
pub open spec fn body_text(b: Body) -> Seq<char>
    decreases b,
{
    match b {
        Body::Var(v) => dec_of(v as int),
        Body::App(l, r) => (match *l {
            Body::Abs(_, _) => seq!['('] + body_text(*l) + seq![')', ' '],
            _ => body_text(*l) + seq![' '],
        }) + (match *r {
            Body::App(_, _) => seq!['('] + body_text(*r) + seq![')'],
            _ => body_text(*r),
        }),
        Body::Abs(v, inner) => seq!['\u{3bb}'] + dec_of(v as int) + seq!['.'] + body_text(*inner),
    }
}

impl Body {
    /// The textual form [`body_text`] of this term.
    pub fn render(&self) -> (r: String)
        ensures
            r@ == body_text(*self),
        decreases *self,
    {
        proof {
            reveal_strlit("(");
            reveal_strlit(") ");
            reveal_strlit(")");
            reveal_strlit(" ");
            reveal_strlit("\u{3bb}");
            reveal_strlit(".");
        }
        match self {
            Body::Var(v) => dec_str(*v),
            Body::App(l, r) => {
                let mut s = String::new();
                match &**l {
                    Body::Abs(_, _) => {
                        s.append("(");
                        s.append(l.render().as_str());
                        s.append(") ");
                    },
                    _ => {
                        s.append(l.render().as_str());
                        s.append(" ");
                    },
                }
                match &**r {
                    Body::App(_, _) => {
                        s.append("(");
                        s.append(r.render().as_str());
                        s.append(")");
                    },
                    _ => {
                        s.append(r.render().as_str());
                    },
                }
                s
            },
            Body::Abs(v, inner) => {
                let mut s = String::from_str("\u{3bb}");
                s.append(dec_str(*v).as_str());
                s.append(".");
                s.append(inner.render().as_str());
                s
            },
        }
    }
}

/// Whitespace idempotence of the pipeline: two token streams that agree
/// in kinds and variable names — as the lexes of two sources differing
/// only in the whitespace between tokens do, whitespace moving only
/// spans — parse alike and lower to the very same pool.
pub proof fn lemma_whitespace_idempotent(t1: Seq<Token>, s1: Seq<u8>, t2: Seq<Token>, s2: Seq<u8>)
    requires
        toks_equiv(t1, s1, 0, t2, s2, 0),
    ensures
        ({
            let (r1, j1) = sp_app(t1, 0);
            let (r2, j2) = sp_app(t2, 0);
            &&& j1 == j2
            &&& match (r1, r2) {
                (Ok(n1), Ok(n2)) => match (
                    sp_lower(*n1, s1, Seq::<Seq<u8>>::empty(), Seq::<crate::pool_lambda::Term>::empty()),
                    sp_lower(*n2, s2, Seq::<Seq<u8>>::empty(), Seq::<crate::pool_lambda::Term>::empty()),
                ) {
                    (Ok(p1), Ok(p2)) => p1 == p2,
                    (Err(_), Err(_)) => true,
                    _ => false,
                },
                (Err(_), Err(_)) => true,
                _ => false,
            }
        }),
{
    crate::parser::lemma_parse_equiv(t1, s1, t2, s2);
    let (r1, j1) = sp_app(t1, 0);
    let (r2, j2) = sp_app(t2, 0);
    if let (Ok(n1), Ok(n2)) = (r1, r2) {
        crate::pool_lambda::lemma_lower_erase(
            *n1,
            s1,
            *n2,
            s2,
            Seq::<Seq<u8>>::empty(),
            Seq::<crate::pool_lambda::Term>::empty(),
        );
    }
}

/// Whitespace idempotence, end to end: inserting one whitespace byte
/// between the tokens of a source — at any position that no lexed
/// item's span strictly contains — leaves the pipeline's outcome
/// unchanged: parsing succeeds or fails alike, and a successful parse
/// lowers to the very same pool. Removing such a byte is the same fact
/// read backwards.
pub proof fn lemma_ws_insertion_same_pool(src: Seq<u8>, p: int, w: u8)
    requires
        crate::lexer::is_ws(w),
        0 <= p <= src.len(),
        src.len() + 1 <= usize::MAX,
        crate::lexer::outside_items(crate::lexer::spec_lex(src, 0), p),
    ensures
        ({
            let t1 = crate::lexer::ok_tokens(crate::lexer::spec_lex(src, 0));
            let s2 = crate::lexer::insert_at(src, p, w);
            let t2 = crate::lexer::ok_tokens(crate::lexer::spec_lex(s2, 0));
            let (r1, j1) = sp_app(t1, 0);
            let (r2, j2) = sp_app(t2, 0);
            &&& j1 == j2
            &&& match (r1, r2) {
                (Ok(n1), Ok(n2)) => match (
                    sp_lower(*n1, src, Seq::<Seq<u8>>::empty(), Seq::<
                        crate::pool_lambda::Term,
                    >::empty()),
                    sp_lower(*n2, s2, Seq::<Seq<u8>>::empty(), Seq::<
                        crate::pool_lambda::Term,
                    >::empty()),
                ) {
                    (Ok(p1), Ok(p2)) => p1 == p2,
                    (Err(_), Err(_)) => true,
                    _ => false,
                },
                (Err(_), Err(_)) => true,
                _ => false,
            }
        }),
{
    let t1 = crate::lexer::ok_tokens(crate::lexer::spec_lex(src, 0));
    let s2 = crate::lexer::insert_at(src, p, w);
    let t2 = crate::lexer::ok_tokens(crate::lexer::spec_lex(s2, 0));
    crate::parser::lemma_ws_insertion_equiv(src, p, w);
    lemma_whitespace_idempotent(t1, src, t2, s2);
}

/// Abstraction desugaring down to the pool: under the stream shapes of
/// [`crate::parser::lemma_abs_desugar`], the sugared and the unsugared
/// spelling of a multi-binder abstraction lower to the very same pool.
pub proof fn lemma_desugar_same_pool(t1: Seq<Token>, s1: Seq<u8>, t2: Seq<Token>, s2: Seq<u8>, k: int)
    requires
        2 <= k,
        k + 2 <= t1.len(),
        t2.len() == t1.len() + 2,
        t1[0].item == crate::lexer::TkTy::Function,
        forall|m: int| 1 <= m <= k ==> #[trigger] t1[m].item == crate::lexer::TkTy::Variable,
        t1[k + 1].item == crate::lexer::TkTy::Abstraction,
        t2[0].item == crate::lexer::TkTy::Function,
        t2[1].item == crate::lexer::TkTy::Variable,
        crate::lexer::text_at(s2, t2[1].at) == crate::lexer::text_at(s1, t1[1].at),
        t2[2].item == crate::lexer::TkTy::Abstraction,
        t2[3].item == crate::lexer::TkTy::Function,
        forall|m: int|
            2 <= m <= k ==> #[trigger] t2[m + 2].item == crate::lexer::TkTy::Variable,
        forall|m: int|
            2 <= m <= k ==> crate::lexer::text_at(s2, #[trigger] t2[m + 2].at)
                == crate::lexer::text_at(s1, t1[m].at),
        t2[k + 3].item == crate::lexer::TkTy::Abstraction,
        toks_equiv(t1, s1, k + 2, t2, s2, k + 4),
        ({
            let (r1, j1) = sp_abs(t1, 0);
            r1 is Ok ==> j1 == t1.len()
        }),
    ensures
        ({
            let (r1, j1) = sp_abs(t1, 0);
            let (r2, j2) = sp_abs(t2, 0);
            match (r1, r2) {
                (Ok(n1), Ok(n2)) => match (
                    sp_lower(*n1, s1, Seq::<Seq<u8>>::empty(), Seq::<crate::pool_lambda::Term>::empty()),
                    sp_lower(*n2, s2, Seq::<Seq<u8>>::empty(), Seq::<crate::pool_lambda::Term>::empty()),
                ) {
                    (Ok(p1), Ok(p2)) => p1 == p2,
                    (Err(_), Err(_)) => true,
                    _ => false,
                },
                (Err(_), Err(_)) => true,
                _ => false,
            }
        }),
{
    crate::parser::lemma_abs_desugar(t1, s1, t2, s2, k);
    let (r1, j1) = sp_abs(t1, 0);
    let (r2, j2) = sp_abs(t2, 0);
    if let (Ok(n1), Ok(n2)) = (r1, r2) {
        crate::pool_lambda::lemma_lower_erase(
            *n1,
            s1,
            *n2,
            s2,
            Seq::<Seq<u8>>::empty(),
            Seq::<crate::pool_lambda::Term>::empty(),
        );
    }
}

} // verus!
