//! Lowering: resolves names into de Bruijn indices and flattens the
//! syntax tree into a contiguous pool of terms referenced by integer
//! handles.
//!
//! The tree is walked in post-order with a stack of binder spans. A
//! variable use is looked up from the innermost binder outwards,
//! comparing the bytes under the spans; the first match gives the de
//! Bruijn index. Each node appends one term after its children, so every
//! reference points strictly backwards and the root is the last term.
use vstd::prelude::*;
use vstd::slice::slice_index_get;
use vstd::string::StringSliceAdditionalSpecFns;

use crate::ast::Ast;
use crate::ast::ast_within;
use crate::ast::Node;
use crate::lexer::Meta;
use crate::lexer::Span;
use crate::lexer::span_end;
use crate::lexer::text_at;

verus! {

/// Handle of a term: its position in the pool.
#[derive(Debug, Clone, Copy, PartialEq, Eq, PartialOrd, Ord, Structural)]
pub struct TermIdx(pub usize);

/// A de Bruijn index: the number of binders between a use and its
/// binder, counted from the innermost (0 = innermost).
#[derive(Debug, Clone, Copy, PartialEq, Eq, PartialOrd, Ord, Structural)]
pub struct OutterIdx(pub usize);

/// One record of the pool.
#[derive(Debug, Clone, Copy, PartialEq, Eq, PartialOrd, Ord, Structural)]
pub enum Term {
    /// A variable use, by de Bruijn index.
    Var(OutterIdx),
    /// An abstraction whose body is the term at `inner`.
    Abs { inner: TermIdx },
    /// An application of the term at the left handle to the right one.
    App(TermIdx, TermIdx),
}

/// A lowering error: the tree and source are otherwise trusted to match.
#[derive(Debug, Clone, Copy, PartialEq, Eq, Structural)]
pub enum Error {
    /// A variable use whose name no enclosing binder introduces.
    UndeclaredVariable { at: Span },
}

impl Error {
    /// The stable machine-readable code of this error.
    pub fn code(&self) -> (r: &'static str)
        ensures
            r@ == "compiler::pool::undeclared_variable"@,
    {
        "compiler::pool::undeclared_variable"
    }

    /// The human-readable message.
    pub fn message(&self) -> (r: &'static str)
        ensures
            r@ == "undeclared variable"@,
    {
        "undeclared variable"
    }

    /// The help hint.
    pub fn help(&self) -> (r: &'static str)
        ensures
            r@ == "perhaps was a mistyping?"@,
    {
        "perhaps was a mistyping?"
    }

    /// The span the error's label points at.
    pub fn label(&self) -> (r: Span)
        ensures
            match self {
                Error::UndeclaredVariable { at } => r == at,
            },
    {
        match self {
            Error::UndeclaredVariable { at } => *at,
        }
    }
}

/// The flat pool of terms; the last one is the root.
#[derive(Debug)]
pub struct Pool {
    pub pool: Vec<Term>,
}

impl Default for Pool {
    fn default() -> (s: Self)
        ensures
            s.pool@ == Seq::<Term>::empty(),
    {
        Pool { pool: Vec::new() }
    }
}

/// First match from the innermost binder: `Some(0)` if the last name is
/// `name`, counting outwards.
pub open spec fn resolve(env: Seq<Seq<u8>>, name: Seq<u8>) -> Option<int>
    decreases env.len(),
{
    if env.len() == 0 {
        None
    } else if env.last() == name {
        Some(0int)
    } else {
        match resolve(env.drop_last(), name) {
            Some(k) => Some(k + 1),
            None => None,
        }
    }
}

/// The names a stack of binder spans stands for: the bytes under each.
pub open spec fn env_names(src: Seq<u8>, scopes: Seq<Span>) -> Seq<Seq<u8>> {
    Seq::new(scopes.len(), |q: int| text_at(src, scopes[q]))
}

/// The whole behaviour of lowering: walk the node in post-order under
/// the binder stack `env`, appending to `pool`; a use site whose name
/// resolves nowhere stops everything with its span.
pub open spec fn sp_lower(n: Meta<Ast>, src: Seq<u8>, env: Seq<Seq<u8>>, pool: Seq<Term>) -> Result<
    Seq<Term>,
    Error,
>
    decreases n,
{
    match n.item {
        Ast::Var => match resolve(env, text_at(src, n.at)) {
            Some(k) => Ok(pool.push(Term::Var(OutterIdx(k as usize)))),
            None => Err(Error::UndeclaredVariable { at: n.at }),
        },
        Ast::Abs(v, b) => match sp_lower(*b, src, env.push(text_at(src, v)), pool) {
            Ok(p2) => Ok(p2.push(Term::Abs { inner: TermIdx((p2.len() - 1) as usize) })),
            Err(e) => Err(e),
        },
        Ast::App(l, r) => match sp_lower(*l, src, env, pool) {
            Err(e) => Err(e),
            Ok(p1) => match sp_lower(*r, src, env, p1) {
                Err(e) => Err(e),
                Ok(p2) => Ok(
                    p2.push(
                        Term::App(
                            TermIdx((p1.len() - 1) as usize),
                            TermIdx((p2.len() - 1) as usize),
                        ),
                    ),
                ),
            },
        },
    }
}

/// The references a term may make, given its position.
pub open spec fn term_refs_lt(t: Term, i: int) -> bool {
    match t {
        Term::Var(_) => true,
        Term::Abs { inner } => inner.0 < i,
        Term::App(l, r) => l.0 < i && r.0 < i,
    }
}

/// Topological order: every referenced handle is strictly less than the
/// position of the referring term.
pub open spec fn pool_wf(p: Seq<Term>) -> bool {
    forall|i: int| 0 <= i < p.len() ==> term_refs_lt(#[trigger] p[i], i)
}

/// Closedness of the term at `i` under `d` enclosing binders: every
/// `Var(k)` reached from it satisfies `k < d`, with `d` counting the
/// `Abs` terms on the path.
pub open spec fn term_closed(p: Seq<Term>, i: int, d: int) -> bool
    decreases i,
{
    if i < 0 || i >= p.len() {
        false
    } else {
        match p[i] {
            Term::Var(k) => k.0 < d,
            Term::Abs { inner } => inner.0 < i && term_closed(p, inner.0 as int, d + 1),
            Term::App(l, r) => l.0 < i && r.0 < i && term_closed(p, l.0 as int, d)
                && term_closed(p, r.0 as int, d),
        }
    }
}

/// Closedness only reads positions up to `i`, so it survives appending.
pub proof fn lemma_closed_extend(p1: Seq<Term>, p2: Seq<Term>, i: int, d: int)
    requires
        p1.len() <= p2.len(),
        forall|q: int| 0 <= q < p1.len() ==> p1[q] == p2[q],
        term_closed(p1, i, d),
    ensures
        term_closed(p2, i, d),
    decreases i,
{
    match p1[i] {
        Term::Var(_) => {},
        Term::Abs { inner } => {
            lemma_closed_extend(p1, p2, inner.0 as int, d + 1);
        },
        Term::App(l, r) => {
            lemma_closed_extend(p1, p2, l.0 as int, d);
            lemma_closed_extend(p1, p2, r.0 as int, d);
        },
    }
}

proof fn lemma_resolve_lt(env: Seq<Seq<u8>>, name: Seq<u8>)
    ensures
        match resolve(env, name) {
            Some(k) => 0 <= k < env.len(),
            None => true,
        },
    decreases env.len(),
{
    if env.len() > 0 && env.last() != name {
        lemma_resolve_lt(env.drop_last(), name);
    }
}

/// Lowering only appends; on success the pool stays topologically
/// ordered and its last term — the lowered node — is closed under
/// `env.len()` binders. With the empty environment and pool this is the
/// topological-order and closedness invariant of the whole pool.
pub proof fn lemma_lower_wf(n: Meta<Ast>, src: Seq<u8>, env: Seq<Seq<u8>>, pool: Seq<Term>)
    requires
        pool_wf(pool),
        pool.len() + crate::ast::ast_size(n) <= usize::MAX,
    ensures
        match sp_lower(n, src, env, pool) {
            Ok(p) => {
                &&& p.len() == pool.len() + crate::ast::ast_size(n)
                &&& forall|q: int| 0 <= q < pool.len() ==> p[q] == pool[q]
                &&& pool_wf(p)
                &&& term_closed(p, p.len() - 1, env.len() as int)
            },
            Err(_) => true,
        },
    decreases n,
{
    match n.item {
        Ast::Var => {
            let name = text_at(src, n.at);
            lemma_resolve_lt(env, name);
            if let Some(k) = resolve(env, name) {
                let p = pool.push(Term::Var(OutterIdx(k as usize)));
                assert(((k as usize) as int) < env.len()) by {
                    if k <= usize::MAX {
                        assert(k as usize == k);
                    }
                }
                assert forall|q: int| 0 <= q < p.len() implies term_refs_lt(
                    #[trigger] p[q],
                    q,
                ) by {
                    if q < pool.len() {
                        assert(p[q] == pool[q]);
                    }
                }
            }
        },
        Ast::Abs(v, b) => {
            lemma_lower_wf(*b, src, env.push(text_at(src, v)), pool);
            if let Ok(p2) = sp_lower(*b, src, env.push(text_at(src, v)), pool) {
                let p = p2.push(Term::Abs { inner: TermIdx((p2.len() - 1) as usize) });
                assert((((p2.len() - 1) as usize) as int) == p2.len() - 1) by {
                    assert(p2.len() <= usize::MAX);
                }
                lemma_closed_extend(p2, p, p2.len() - 1, env.len() as int + 1);
                assert forall|q: int| 0 <= q < p.len() implies term_refs_lt(
                    #[trigger] p[q],
                    q,
                ) by {
                    if q < p2.len() {
                        assert(p[q] == p2[q]);
                    }
                }
            }
        },
        Ast::App(l, r) => {
            lemma_lower_wf(*l, src, env, pool);
            if let Ok(p1) = sp_lower(*l, src, env, pool) {
                lemma_lower_wf(*r, src, env, p1);
                if let Ok(p2) = sp_lower(*r, src, env, p1) {
                    let p = p2.push(
                        Term::App(
                            TermIdx((p1.len() - 1) as usize),
                            TermIdx((p2.len() - 1) as usize),
                        ),
                    );
                    assert((((p1.len() - 1) as usize) as int) == p1.len() - 1 && (((p2.len()
                        - 1) as usize) as int) == p2.len() - 1) by {
                        assert(p1.len() <= usize::MAX && p2.len() <= usize::MAX);
                    }
                    lemma_closed_extend(p1, p2, p1.len() - 1, env.len() as int);
                    lemma_closed_extend(p2, p, p2.len() - 1, env.len() as int);
                    lemma_closed_extend(p2, p, p1.len() - 1, env.len() as int);
                    assert forall|q: int| 0 <= q < p.len() implies term_refs_lt(
                        #[trigger] p[q],
                        q,
                    ) by {
                        if q < p2.len() {
                            assert(p[q] == p2[q]);
                        }
                    }
                }
            }
        },
    }
}

/// The canonical text of one term: a variable as the Greek nu letter
/// and its de Bruijn index, an abstraction as the lambda letter and its
/// body's handle, an application as its two handles around a dot
/// operator.
pub open spec fn term_text(t: Term) -> Seq<char> {
    match t {
        Term::Var(k) => seq!['\u{3bd}'] + crate::dec_of(k.0 as int),
        Term::Abs { inner } => seq!['\u{3bb}'] + crate::dec_of(inner.0 as int),
        Term::App(l, r) => crate::dec_of(l.0 as int) + seq!['\u{22c5}'] + crate::dec_of(
            r.0 as int,
        ),
    }
}

/// The terms' texts joined with `, `.
pub open spec fn pool_items_text(p: Seq<Term>) -> Seq<char>
    decreases p.len(),
{
    if p.len() == 0 {
        Seq::empty()
    } else if p.len() == 1 {
        term_text(p[0])
    } else {
        pool_items_text(p.drop_last()) + seq![',', ' '] + term_text(p.last())
    }
}

/// The canonical textual form of a pool: the terms' texts in pool
/// order, joined with `, `, between bracket-and-space delimiters.
pub open spec fn pool_text(p: Seq<Term>) -> Seq<char> {
    seq!['[', ' '] + pool_items_text(p) + seq![' ', ']']
}

fn term_str(t: &Term) -> (r: String)
    ensures
        r@ == term_text(*t),
{
    proof {
        reveal_strlit("\u{3bd}");
        reveal_strlit("\u{3bb}");
        reveal_strlit("\u{22c5}");
    }
    match t {
        Term::Var(k) => {
            let mut s = String::from_str("\u{3bd}");
            s.append(crate::dec_str(k.0).as_str());
            s
        },
        Term::Abs { inner } => {
            let mut s = String::from_str("\u{3bb}");
            s.append(crate::dec_str(inner.0).as_str());
            s
        },
        Term::App(l, r) => {
            let mut s = crate::dec_str(l.0);
            s.append("\u{22c5}");
            s.append(crate::dec_str(r.0).as_str());
            s
        },
    }
}

impl Pool {
    /// The canonical textual form [`pool_text`] of this pool.
    pub fn render(&self) -> (r: String)
        ensures
            r@ == pool_text(self.pool@),
    {
        proof {
            reveal_strlit("[ ");
            reveal_strlit(", ");
            reveal_strlit(" ]");
        }
        let mut s = String::from_str("[ ");
        let n = self.pool.len();
        let mut k: usize = 0;
        while k < n
            invariant
                k <= n,
                n == self.pool@.len(),
                s@ == seq!['[', ' '] + pool_items_text(self.pool@.take(k as int)),
            decreases n - k,
        {
            proof {
                reveal_strlit(", ");
                assert(self.pool@.take(k + 1).drop_last() =~= self.pool@.take(k as int));
                assert(self.pool@.take(k + 1).last() == self.pool@[k as int]);
            }
            if k > 0 {
                s.append(", ");
            }
            s.append(term_str(&self.pool[k]).as_str());
            proof {
                if k == 0 {
                    assert(self.pool@.take(1) =~= seq![self.pool@[0]]);
                    assert(pool_items_text(self.pool@.take(1)) == term_text(self.pool@[0]));
                }
                assert(s@ =~= seq!['[', ' '] + pool_items_text(self.pool@.take(k + 1)));
            }
            k = k + 1;
        }
        proof {
            assert(self.pool@.take(n as int) =~= self.pool@);
        }
        s.append(" ]");
        proof {
            assert(s@ =~= pool_text(self.pool@));
        }
        s
    }
}

/// Lowering depends only on the erased tree: two trees over their
/// sources that erase alike lower alike — the same success or failure,
/// and on success the very same pool.
pub proof fn lemma_lower_erase(
    n1: Meta<Ast>,
    s1: Seq<u8>,
    n2: Meta<Ast>,
    s2: Seq<u8>,
    env: Seq<Seq<u8>>,
    pool: Seq<Term>,
)
    requires
        crate::ast::erase(n1, s1) == crate::ast::erase(n2, s2),
    ensures
        match (sp_lower(n1, s1, env, pool), sp_lower(n2, s2, env, pool)) {
            (Ok(p1), Ok(p2)) => p1 == p2,
            (Err(_), Err(_)) => true,
            _ => false,
        },
    decreases n1,
{
    match n1.item {
        Ast::Var => {
            match n2.item {
                Ast::Var => {
                    assert(text_at(s1, n1.at) == text_at(s2, n2.at));
                },
                Ast::Abs(_, _) => {
                    assert(false);
                },
                Ast::App(_, _) => {
                    assert(false);
                },
            }
        },
        Ast::Abs(v1, b1) => {
            match n2.item {
                Ast::Var => {
                    assert(false);
                },
                Ast::Abs(v2, b2) => {
                    assert(text_at(s1, v1) == text_at(s2, v2) && crate::ast::erase(*b1, s1)
                        == crate::ast::erase(*b2, s2));
                    lemma_lower_erase(*b1, s1, *b2, s2, env.push(text_at(s1, v1)), pool);
                },
                Ast::App(_, _) => {
                    assert(false);
                },
            }
        },
        Ast::App(l1, r1) => {
            match n2.item {
                Ast::Var => {
                    assert(false);
                },
                Ast::Abs(_, _) => {
                    assert(false);
                },
                Ast::App(l2, r2) => {
                    assert(crate::ast::erase(*l1, s1) == crate::ast::erase(*l2, s2)
                        && crate::ast::erase(*r1, s1) == crate::ast::erase(*r2, s2));
                    lemma_lower_erase(*l1, s1, *l2, s2, env, pool);
                    if let (Ok(p1), Ok(p2)) = (sp_lower(*l1, s1, env, pool), sp_lower(
                        *l2,
                        s2,
                        env,
                        pool,
                    )) {
                        lemma_lower_erase(*r1, s1, *r2, s2, env, p1);
                    }
                },
            }
        },
    }
}

/// Every span of the stack ends within `[0, hi)`.
pub open spec fn spans_in(scopes: Seq<Span>, hi: int) -> bool {
    forall|q: int| 0 <= q < scopes.len() ==> span_end(#[trigger] scopes[q]) <= hi
}

/// Byte-wise equality of the source under two spans: the name scheme of
/// the whole pass. No case folding, no normalization.
fn span_text_eq(src: &[u8], a: Span, b: Span) -> (r: bool)
    requires
        span_end(a) <= src@.len(),
        span_end(b) <= src@.len(),
    ensures
        r == (text_at(src@, a) == text_at(src@, b)),
{
    let n = src.len();
    if a.len != b.len {
        proof {
            assert(text_at(src@, a).len() == a.len && text_at(src@, b).len() == b.len);
        }
        return false;
    }
    let mut q: usize = 0;
    while q < a.len
        invariant
            q <= a.len,
            a.len == b.len,
            span_end(a) <= src@.len(),
            span_end(b) <= src@.len(),
            src@.len() <= usize::MAX,
            forall|m: int|
                0 <= m < q ==> #[trigger] src@[a.offset + m] == src@[b.offset + m],
        decreases a.len - q,
    {
        if *slice_index_get(src, a.offset + q) != *slice_index_get(src, b.offset + q) {
            proof {
                assert(text_at(src@, a)[q as int] != text_at(src@, b)[q as int]);
            }
            return false;
        }
        q = q + 1;
    }
    proof {
        assert forall|m: int| 0 <= m < a.len implies text_at(src@, a)[m] == text_at(src@, b)[m] by {
            assert(src@[a.offset + m] == src@[b.offset + m]);
        }
        assert(text_at(src@, a) =~= text_at(src@, b));
    }
    true
}

/// Search the stack from the top for a binder whose name is the bytes
/// under `at`: the first match's distance from the top is the de Bruijn
/// index.
fn resolve_name(src: &[u8], scopes: &Vec<Span>, at: Span) -> (r: Option<usize>)
    requires
        spans_in(scopes@, src@.len() as int),
        span_end(at) <= src@.len(),
    ensures
        r == (match resolve(env_names(src@, scopes@), text_at(src@, at)) {
            Some(k) => Some(k as usize),
            None => Option::<usize>::None,
        }),
{
    let ghost env = env_names(src@, scopes@);
    let ghost name = text_at(src@, at);
    let n = scopes.len();
    let mut q: usize = 0;
    proof {
        assert(env.take(n as int) =~= env);
        lemma_resolve_lt(env, name);
    }
    while q < n
        invariant
            q <= n,
            n == scopes@.len(),
            env == env_names(src@, scopes@),
            name == text_at(src@, at),
            spans_in(scopes@, src@.len() as int),
            span_end(at) <= src@.len(),
            resolve(env, name) == (match resolve(env.take(n - q), name) {
                Some(k) => Some(k + q),
                None => Option::<int>::None,
            }),
            match resolve(env, name) {
                Some(k) => 0 <= k < env.len(),
                None => true,
            },
        decreases n - q,
    {
        let sp = scopes[n - 1 - q];
        if span_text_eq(src, sp, at) {
            proof {
                assert(env.take(n - q).last() == env[n - 1 - q]);
                assert(env[n - 1 - q] == text_at(src@, scopes@[n - 1 - q]));
                assert(resolve(env.take(n - q), name) == Some(0int));
            }
            return Some(q);
        }
        proof {
            assert(env.take(n - q).last() == env[n - 1 - q]);
            assert(env.take(n - q).drop_last() =~= env.take(n - q - 1));
        }
        q = q + 1;
    }
    proof {
        assert(env.take(0) =~= Seq::<Seq<u8>>::empty());
    }
    None
}

impl Pool {
    /// Lower one node: append its children's terms, then its own, and
    /// hand back the handle of the latter. The whole behaviour is
    /// [`sp_lower`] over the names the binder stack stands for; the
    /// stack is restored on success.
    fn compile_node(&mut self, scopes: &mut Vec<Span>, ast: &Node, src: &[u8]) -> (r: Result<
        TermIdx,
        Error,
    >)
        requires
            ast_within(**ast, src@.len() as int),
            spans_in(old(scopes)@, src@.len() as int),
        ensures
            ({
                let s = sp_lower(**ast, src@, env_names(src@, old(scopes)@), old(self).pool@);
                match s {
                    Ok(p) => r == Ok::<TermIdx, Error>(TermIdx((p.len() - 1) as usize))
                        && final(self).pool@ == p && final(scopes)@ == old(scopes)@,
                    Err(e) => r == Err::<TermIdx, Error>(e),
                }
            }),
        decreases **ast,
    {
        match &ast.item {
            Ast::Var => {
                match resolve_name(src, scopes, ast.at) {
                    Some(k) => {
                        self.pool.push(Term::Var(OutterIdx(k)));
                        Ok(TermIdx(self.pool.len() - 1))
                    },
                    None => Err(Error::UndeclaredVariable { at: ast.at }),
                }
            },
            Ast::Abs(v, b) => {
                let ghost env = env_names(src@, scopes@);
                scopes.push(*v);
                proof {
                    assert(env_names(src@, scopes@) =~= env.push(text_at(src@, *v)));
                }
                let body = match self.compile_node(scopes, b, src) {
                    Err(e) => {
                        return Err(e);
                    },
                    Ok(ti) => ti,
                };
                scopes.pop();
                proof {
                    assert(scopes@ =~= old(scopes)@);
                }
                self.pool.push(Term::Abs { inner: body });
                Ok(TermIdx(self.pool.len() - 1))
            },
            Ast::App(l, r) => {
                let li = match self.compile_node(scopes, l, src) {
                    Err(e) => {
                        return Err(e);
                    },
                    Ok(ti) => ti,
                };
                let ri = match self.compile_node(scopes, r, src) {
                    Err(e) => {
                        return Err(e);
                    },
                    Ok(ti) => ti,
                };
                self.pool.push(Term::App(li, ri));
                Ok(TermIdx(self.pool.len() - 1))
            },
        }
    }

    /// Lower a whole tree against its source. On success the pool holds
    /// one term per node in post-order, is topologically ordered, and
    /// its last term — the root — is closed: no de Bruijn index escapes
    /// its binding depth. The tree must not have more nodes than a
    /// vector can hold.
    pub fn compile(ast: Node, src: &str) -> (r: Result<Pool, Error>)
        requires
            ast_within(*ast, src.spec_bytes().len() as int),
            crate::ast::ast_size(*ast) <= usize::MAX,
        ensures
            ({
                let s = sp_lower(*ast, src.spec_bytes(), Seq::<Seq<u8>>::empty(), Seq::<
                    Term,
                >::empty());
                match (s, r) {
                    (Ok(p), Ok(pool)) => {
                        &&& pool.pool@ == p
                        &&& p.len() == crate::ast::ast_size(*ast)
                        &&& pool_wf(p)
                        &&& term_closed(p, p.len() - 1, 0)
                    },
                    (Err(e), Err(e2)) => e == e2,
                    _ => false,
                }
            }),
    {
        let bytes = src.as_bytes();
        let mut s = Pool { pool: Vec::new() };
        let mut scopes: Vec<Span> = Vec::new();
        proof {
            assert(env_names(src.spec_bytes(), scopes@) =~= Seq::<Seq<u8>>::empty());
            lemma_lower_wf(*ast, src.spec_bytes(), Seq::<Seq<u8>>::empty(), Seq::<Term>::empty());
        }
        match s.compile_node(&mut scopes, &ast, bytes) {
            Ok(_) => Ok(s),
            Err(e) => Err(e),
        }
    }
}

} // verus!
