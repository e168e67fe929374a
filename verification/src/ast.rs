//! Abstract syntax: a spanned recursive tree built by the parser.
use vstd::prelude::*;

use crate::lexer::Meta;
use crate::lexer::Span;
use crate::lexer::span_end;

verus! {

/// A syntax tree node annotated with its covering span.
pub type Node = Box<Meta<Ast>>;

/// A lambda expression. The identifier text of a `Var` use site, and of the
/// binder located by an `Abs` node's first field, is recovered by slicing
/// the source with the span.
#[derive(Debug, PartialEq, Eq)]
pub enum Ast {
    /// Abstraction over one binder, located by the span; the body follows.
    Abs(Span, Node),
    /// Application of the left tree to the right one.
    App(Node, Node),
    /// A use site of a variable.
    Var,
}

impl Ast {
    /// Wrap the node with its covering span.
    pub fn at(self, at: Span) -> (n: Node)
        ensures
            n.item == self,
            n.at == at,
    {
        Box::new(Meta { item: self, at })
    }
}

/// A tree with its names spelled out and its spans forgotten: all that
/// the lowering pass depends on. Two parses that differ only in
/// whitespace placement erase to the same `Named` tree.
pub enum Named {
    Var(Seq<u8>),
    Abs(Seq<u8>, Box<Named>),
    App(Box<Named>, Box<Named>),
}

/// Erase a tree against its source: replace every span that names a
/// variable or a binder with the bytes under it.
pub open spec fn erase(n: Meta<Ast>, src: Seq<u8>) -> Named
    decreases n,
{
    match n.item {
        Ast::Var => Named::Var(crate::lexer::text_at(src, n.at)),
        Ast::Abs(v, b) => Named::Abs(crate::lexer::text_at(src, v), Box::new(erase(*b, src))),
        Ast::App(l, r) => Named::App(Box::new(erase(*l, src)), Box::new(erase(*r, src))),
    }
}

/// Wrap an erased tree in one `Abs` per name, innermost last.
pub open spec fn named_abs(names: Seq<Seq<u8>>, t: Named) -> Named
    decreases names.len(),
{
    if names.len() == 0 {
        t
    } else {
        Named::Abs(names[0], Box::new(named_abs(names.drop_first(), t)))
    }
}

/// The number of nodes of the tree.
pub open spec fn ast_size(n: Meta<Ast>) -> nat
    decreases n,
{
    match n.item {
        Ast::Var => 1,
        Ast::Abs(_, b) => 1 + ast_size(*b),
        Ast::App(l, r) => 1 + ast_size(*l) + ast_size(*r),
    }
}

/// `outer` contains `inner`.
pub open spec fn covers(outer: Span, inner: Span) -> bool {
    outer.offset <= inner.offset && crate::lexer::span_end(inner) <= crate::lexer::span_end(outer)
}

/// Every node's span covers the spans of its children, the binder span of
/// an `Abs` node included.
pub open spec fn ast_covered(n: Meta<Ast>) -> bool
    decreases n,
{
    match n.item {
        Ast::Var => true,
        Ast::Abs(v, b) => covers(n.at, v) && covers(n.at, b.at) && ast_covered(*b),
        Ast::App(l, r) => covers(n.at, l.at) && covers(n.at, r.at) && ast_covered(*l)
            && ast_covered(*r),
    }
}

/// Every span in the tree ends at or before `hi`.
pub open spec fn ast_within(n: Meta<Ast>, hi: int) -> bool
    decreases n,
{
    crate::lexer::span_end(n.at) <= hi && match n.item {
        Ast::Var => true,
        Ast::Abs(v, b) => crate::lexer::span_end(v) <= hi && ast_within(*b, hi),
        Ast::App(l, r) => ast_within(*l, hi) && ast_within(*r, hi),
    }
}

/// A span written as `{offset}..{end}`.
pub open spec fn span_text(sp: Span) -> Seq<char> {
    crate::dec_of(sp.offset as int) + seq!['.', '.'] + crate::dec_of(span_end(sp))
}

/// The debug dump of a tree: one line per node, indented two spaces per
/// level, each node as its symbol — nu for a use site, lambda with its
/// binder's span for an abstraction, the dot operator for an
/// application — followed by `@` and the node's span.
pub open spec fn dump_text(n: Meta<Ast>, depth: int) -> Seq<char>
    decreases n,
{
    let indent = Seq::new((2 * depth) as nat, |q: int| ' ');
    match n.item {
        Ast::Var => indent + seq!['\u{3bd}', ' ', '@', ' '] + span_text(n.at) + seq!['\n'],
        Ast::Abs(v, b) => indent + seq!['\u{3bb}', ' '] + span_text(v) + seq![' ', '@', ' ']
            + span_text(n.at) + seq![' ', '\u{2208}', '\n'] + dump_text(*b, depth + 1),
        Ast::App(l, r) => indent + seq!['\u{22c5}', ' ', '@', ' '] + span_text(n.at) + seq!['\n']
            + dump_text(*l, depth + 1) + dump_text(*r, depth + 1),
    }
}

fn spaces(n: usize) -> (r: String)
    ensures
        r@ == Seq::new(n as nat, |q: int| ' '),
{
    proof {
        reveal_strlit(" ");
    }
    let mut s = String::new();
    let mut k: usize = 0;
    while k < n
        invariant
            k <= n,
            s@ == Seq::new(k as nat, |q: int| ' '),
        decreases n - k,
    {
        s.append(" ");
        proof {
            reveal_strlit(" ");
            assert(s@ =~= Seq::new((k + 1) as nat, |q: int| ' '));
        }
        k = k + 1;
    }
    s
}

fn span_str(sp: Span) -> (r: String)
    requires
        span_end(sp) <= usize::MAX,
    ensures
        r@ == span_text(sp),
{
    proof {
        reveal_strlit("..");
    }
    let mut s = crate::dec_str(sp.offset);
    s.append("..");
    s.append(crate::dec_str(sp.offset + sp.len).as_str());
    proof {
        assert(s@ =~= span_text(sp));
    }
    s
}

fn render_at(n: &Node, depth: usize) -> (r: String)
    requires
        ast_within(**n, usize::MAX as int),
        2 * (depth + ast_size(**n)) <= usize::MAX,
    ensures
        r@ == dump_text(**n, depth as int),
    decreases **n,
{
    proof {
        reveal_strlit("\u{3bd} @ ");
        reveal_strlit("\u{3bb} ");
        reveal_strlit(" @ ");
        reveal_strlit(" \u{2208}\n");
        reveal_strlit("\u{22c5} @ ");
        reveal_strlit("\n");
    }
    let mut s = spaces(2 * depth);
    match &n.item {
        Ast::Var => {
            s.append("\u{3bd} @ ");
            s.append(span_str(n.at).as_str());
            s.append("\n");
        },
        Ast::Abs(v, b) => {
            s.append("\u{3bb} ");
            s.append(span_str(*v).as_str());
            s.append(" @ ");
            s.append(span_str(n.at).as_str());
            s.append(" \u{2208}\n");
            s.append(render_at(b, depth + 1).as_str());
        },
        Ast::App(l, r) => {
            s.append("\u{22c5} @ ");
            s.append(span_str(n.at).as_str());
            s.append("\n");
            s.append(render_at(l, depth + 1).as_str());
            s.append(render_at(r, depth + 1).as_str());
        },
    }
    proof {
        assert(s@ =~= dump_text(**n, depth as int));
    }
    s
}

/// The debug dump [`dump_text`] of a tree, ready to print: what a
/// `--show parser` toggle displays.
pub fn render_node(n: &Node) -> (r: String)
    requires
        ast_within(**n, usize::MAX as int),
        2 * ast_size(**n) <= usize::MAX,
    ensures
        r@ == dump_text(**n, 0),
{
    render_at(n, 0)
}

/// A covered tree lies wholly under its root's span: if that span ends by
/// `hi`, so does every span in the tree.
pub proof fn lemma_covered_within(n: Meta<Ast>, hi: int)
    requires
        ast_covered(n),
        crate::lexer::span_end(n.at) <= hi,
    ensures
        ast_within(n, hi),
    decreases n,
{
    match n.item {
        Ast::Var => {},
        Ast::Abs(v, b) => {
            lemma_covered_within(*b, hi);
        },
        Ast::App(l, r) => {
            lemma_covered_within(*l, hi);
            lemma_covered_within(*r, hi);
        },
    }
}

} // verus!
