//! An alternative lowering that numbers every binder with a fresh id
//! instead of a de Bruijn index, producing a [`crate::Body`] tree.
//!
//! The scope book-keeping is a list of `(name, id)` entries with unique
//! names: entering a binder hands out a fresh id and either shadows the
//! entry of the same name, remembering the id it covered, or adds a new
//! one; leaving restores what was shadowed or removes what was added.
use vstd::prelude::*;
use vstd::string::StringSliceAdditionalSpecFns;

use crate::ast::Ast;
use crate::ast::ast_size;
use crate::ast::ast_within;
use crate::ast::Node;
use crate::Body;
use crate::lexer::text_at;

verus! {

/// The unique number of one binder.
#[derive(Debug, Clone, Copy, PartialEq, Eq, Structural)]
pub struct VarId(pub usize);

/// Scope book-keeping and the fresh-id counter.
pub struct Compiler {
    pub definitions: Vec<(Vec<u8>, VarId)>,
    pub var_counter: usize,
}

/// What the book-keeping means: each name in scope with the id of its
/// innermost binder.
pub open spec fn defs_view(c: Compiler) -> Seq<(Seq<u8>, int)> {
    Seq::new(c.definitions@.len(), |q: int| (c.definitions@[q].0@, c.definitions@[q].1.0 as int))
}

/// Names are unique: the list is a map.
pub open spec fn defs_wf(c: Compiler) -> bool {
    forall|a: int, b: int|
        0 <= a < b < defs_view(c).len() ==> (#[trigger] defs_view(c)[a]).0 != (
        #[trigger] defs_view(c)[b]).0
}

/// The position of `name` in the list, scanning from the front.
pub open spec fn find_name(defs: Seq<(Seq<u8>, int)>, name: Seq<u8>) -> Option<int>
    decreases defs.len(),
{
    if defs.len() == 0 {
        None
    } else if defs[0].0 == name {
        Some(0int)
    } else {
        match find_name(defs.drop_first(), name) {
            Some(q) => Some(q + 1),
            None => None,
        }
    }
}

proof fn lemma_find_char(defs: Seq<(Seq<u8>, int)>, name: Seq<u8>)
    ensures
        match find_name(defs, name) {
            Some(q) => 0 <= q < defs.len() && defs[q].0 == name && (forall|m: int|
                0 <= m < q ==> (#[trigger] defs[m]).0 != name),
            None => forall|m: int| 0 <= m < defs.len() ==> (#[trigger] defs[m]).0 != name,
        },
    decreases defs.len(),
{
    if defs.len() > 0 && defs[0].0 != name {
        lemma_find_char(defs.drop_first(), name);
        assert(forall|m: int| 1 <= m < defs.len() ==> defs[m] == defs.drop_first()[m - 1]);
    }
}

impl Default for Compiler {
    fn default() -> (c: Self)
        ensures
            defs_view(c) == Seq::<(Seq<u8>, int)>::empty(),
            c.var_counter == 0,
            defs_wf(c),
    {
        Compiler::new()
    }
}

impl Compiler {
    /// A fresh compiler: nothing in scope, ids from zero.
    pub fn new() -> (c: Compiler)
        ensures
            defs_view(c) == Seq::<(Seq<u8>, int)>::empty(),
            c.var_counter == 0,
            defs_wf(c),
    {
        let c = Compiler { definitions: Vec::new(), var_counter: 0 };
        proof {
            assert(defs_view(c) =~= Seq::<(Seq<u8>, int)>::empty());
        }
        c
    }

    /// Hand out the next id.
    pub fn get_new_var(&mut self) -> (v: VarId)
        requires
            old(self).var_counter < usize::MAX,
        ensures
            v.0 == old(self).var_counter,
            final(self).var_counter == old(self).var_counter + 1,
            final(self).definitions == old(self).definitions,
    {
        self.var_counter = self.var_counter + 1;
        VarId(self.var_counter - 1)
    }
}

/// The whole behaviour of [`Compiler::compile`]: number the binders in
/// walk order with the counter, resolve a use to the id its name
/// currently carries; `None` when a name is not in scope.
pub open spec fn sp_compile(
    n: crate::lexer::Meta<Ast>,
    src: Seq<u8>,
    defs: Seq<(Seq<u8>, int)>,
    counter: int,
) -> Option<(Body, int)>
    decreases n,
{
    match n.item {
        Ast::Var => match find_name(defs, text_at(src, n.at)) {
            Some(q) => Some((Body::Var(defs[q].1 as usize), counter)),
            None => None,
        },
        Ast::Abs(v, b) => {
            let name = text_at(src, v);
            let defs2 = match find_name(defs, name) {
                Some(q) => defs.update(q, (name, counter)),
                None => defs.push((name, counter)),
            };
            match sp_compile(*b, src, defs2, counter + 1) {
                Some((body, c2)) => Some((Body::Abs(counter as usize, Box::new(body)), c2)),
                None => None,
            }
        },
        Ast::App(l, r) => match sp_compile(*l, src, defs, counter) {
            Some((bl, c1)) => match sp_compile(*r, src, defs, c1) {
                Some((br, c2)) => Some((Body::App(Box::new(bl), Box::new(br)), c2)),
                None => None,
            },
            None => None,
        },
    }
}

proof fn lemma_compile_counter(
    n: crate::lexer::Meta<Ast>,
    src: Seq<u8>,
    defs: Seq<(Seq<u8>, int)>,
    counter: int,
)
    ensures
        match sp_compile(n, src, defs, counter) {
            Some((body, c2)) => counter <= c2 <= counter + ast_size(n),
            None => true,
        },
    decreases n,
{
    match n.item {
        Ast::Var => {},
        Ast::Abs(v, b) => {
            let name = text_at(src, v);
            let defs2 = match find_name(defs, name) {
                Some(q) => defs.update(q, (name, counter)),
                None => defs.push((name, counter)),
            };
            lemma_compile_counter(*b, src, defs2, counter + 1);
        },
        Ast::App(l, r) => {
            lemma_compile_counter(*l, src, defs, counter);
            if let Some((bl, c1)) = sp_compile(*l, src, defs, counter) {
                lemma_compile_counter(*r, src, defs, c1);
            }
        },
    }
}

fn bytes_eq(a: &[u8], b: &[u8]) -> (r: bool)
    ensures
        r == (a@ == b@),
{
    let n = a.len();
    if n != b.len() {
        return false;
    }
    let mut q: usize = 0;
    while q < n
        invariant
            q <= n,
            n == a@.len() == b@.len(),
            forall|m: int| 0 <= m < q ==> #[trigger] a@[m] == b@[m],
        decreases n - q,
    {
        if *vstd::slice::slice_index_get(a, q) != *vstd::slice::slice_index_get(b, q) {
            return false;
        }
        q = q + 1;
    }
    proof {
        assert(a@ =~= b@);
    }
    true
}

/// Opens one binder's scope and remembers how to close it again.
pub struct ScopeGuard {
    pub shadowed: Option<VarId>,
    pub var_name: Vec<u8>,
    pub var_id: VarId,
}

impl ScopeGuard {
    /// Enter a binder: give it a fresh id and make its name resolve to
    /// that id, covering — and remembering — any entry it shadows.
    pub fn new(compiler: &mut Compiler, var_name: &[u8]) -> (g: ScopeGuard)
        requires
            defs_wf(*old(compiler)),
            old(compiler).var_counter < usize::MAX,
        ensures
            defs_wf(*final(compiler)),
            g.var_name@ == var_name@,
            g.var_id.0 == old(compiler).var_counter,
            final(compiler).var_counter == old(compiler).var_counter + 1,
            match find_name(defs_view(*old(compiler)), var_name@) {
                Some(q) => g.shadowed == Some(VarId(defs_view(*old(compiler))[q].1 as usize))
                    && defs_view(*final(compiler)) == defs_view(*old(compiler)).update(
                    q,
                    (var_name@, g.var_id.0 as int),
                ),
                None => g.shadowed == Option::<VarId>::None && defs_view(*final(compiler))
                    == defs_view(*old(compiler)).push((var_name@, g.var_id.0 as int)),
            },
    {
        let ghost defs0 = defs_view(*compiler);
        let var_id = compiler.get_new_var();
        proof {
            lemma_find_char(defs0, var_name@);
        }
        let n = compiler.definitions.len();
        let mut q: usize = 0;
        while q < n
            invariant
                q <= n,
                n == compiler.definitions@.len(),
                defs_view(*compiler) == defs0,
                defs0 == defs_view(*old(compiler)),
                compiler.var_counter == old(compiler).var_counter + 1,
                var_id.0 == old(compiler).var_counter,
                forall|a: int, b: int|
                    0 <= a < b < defs0.len() ==> (#[trigger] defs0[a]).0 != (
                    #[trigger] defs0[b]).0,
                forall|m: int| 0 <= m < q ==> (#[trigger] defs0[m]).0 != var_name@,
            decreases n - q,
        {
            if bytes_eq(compiler.definitions[q].0.as_slice(), var_name) {
                let shadowed = compiler.definitions[q].1;
                proof {
                    lemma_find_char(defs0, var_name@);
                    assert(defs_view(*compiler)[q as int].0 == compiler.definitions@[q as int].0@);
                    assert(defs0[q as int].0 == var_name@);
                    assert(find_name(defs0, var_name@) == Some(q as int));
                }
                let name_copy: Vec<u8> = vstd::slice::slice_to_vec(var_name);
                compiler.definitions[q] = (name_copy, var_id);
                proof {
                    assert(defs_view(*compiler) =~= defs0.update(
                        q as int,
                        (var_name@, var_id.0 as int),
                    ));
                    assert forall|a: int, b: int|
                        0 <= a < b < defs_view(*compiler).len() implies (#[trigger] defs_view(
                        *compiler,
                    )[a]).0 != (#[trigger] defs_view(*compiler)[b]).0 by {
                        assert(defs_view(*compiler)[a].0 == defs0[a].0);
                        assert(defs_view(*compiler)[b].0 == defs0[b].0);
                    }
                }
                let guard_name: Vec<u8> = vstd::slice::slice_to_vec(var_name);
                return ScopeGuard { shadowed: Some(shadowed), var_name: guard_name, var_id };
            }
            q = q + 1;
        }
        proof {
            lemma_find_char(defs0, var_name@);
            assert(find_name(defs0, var_name@) is None);
        }
        let name_copy: Vec<u8> = vstd::slice::slice_to_vec(var_name);
        compiler.definitions.push((name_copy, var_id));
        proof {
            assert(defs_view(*compiler) =~= defs0.push((var_name@, var_id.0 as int)));
            assert forall|a: int, b: int|
                0 <= a < b < defs_view(*compiler).len() implies (#[trigger] defs_view(
                *compiler,
            )[a]).0 != (#[trigger] defs_view(*compiler)[b]).0 by {
                if b < defs0.len() {
                    assert(defs_view(*compiler)[a].0 == defs0[a].0);
                    assert(defs_view(*compiler)[b].0 == defs0[b].0);
                } else {
                    assert(defs_view(*compiler)[a].0 == defs0[a].0);
                    assert(defs_view(*compiler)[b].0 == var_name@);
                }
            }
        }
        let guard_name: Vec<u8> = vstd::slice::slice_to_vec(var_name);
        ScopeGuard { shadowed: None, var_name: guard_name, var_id }
    }

    /// Leave the binder's scope: restore the shadowed entry, or remove
    /// the one that was added.
    pub fn close(self, compiler: &mut Compiler)
        requires
            defs_wf(*old(compiler)),
            match find_name(defs_view(*old(compiler)), self.var_name@) {
                Some(q) => true,
                None => false,
            },
        ensures
            defs_wf(*final(compiler)),
            final(compiler).var_counter == old(compiler).var_counter,
            ({
                let q = find_name(defs_view(*old(compiler)), self.var_name@).unwrap();
                match self.shadowed {
                    Some(old_id) => defs_view(*final(compiler)) == defs_view(
                        *old(compiler),
                    ).update(q, (self.var_name@, old_id.0 as int)),
                    None => defs_view(*final(compiler)) == defs_view(*old(compiler)).remove(q),
                }
            }),
    {
        let ghost defs0 = defs_view(*compiler);
        proof {
            lemma_find_char(defs0, self.var_name@);
        }
        let n = compiler.definitions.len();
        let mut q: usize = 0;
        while q < n
            invariant
                q <= n,
                n == compiler.definitions@.len(),
                defs_view(*compiler) == defs0,
                defs0 == defs_view(*old(compiler)),
                compiler.var_counter == old(compiler).var_counter,
                forall|a: int, b: int|
                    0 <= a < b < defs0.len() ==> (#[trigger] defs0[a]).0 != (
                    #[trigger] defs0[b]).0,
                forall|m: int| 0 <= m < q ==> (#[trigger] defs0[m]).0 != self.var_name@,
            decreases n - q,
        {
            if bytes_eq(compiler.definitions[q].0.as_slice(), self.var_name.as_slice()) {
                proof {
                    lemma_find_char(defs0, self.var_name@);
                    assert(defs_view(*compiler)[q as int].0 == compiler.definitions@[q as int].0@);
                    assert(defs0[q as int].0 == self.var_name@);
                    assert(find_name(defs0, self.var_name@) == Some(q as int));
                }
                match self.shadowed {
                    Some(old_id) => {
                        let name_copy: Vec<u8> = vstd::slice::slice_to_vec(self.var_name.as_slice());
                        compiler.definitions[q] = (name_copy, old_id);
                        proof {
                            assert(defs_view(*compiler) =~= defs0.update(
                                q as int,
                                (self.var_name@, old_id.0 as int),
                            ));
                            assert forall|a: int, b: int|
                                0 <= a < b < defs_view(*compiler).len() implies (
                            #[trigger] defs_view(*compiler)[a]).0 != (#[trigger] defs_view(
                                *compiler,
                            )[b]).0 by {
                                assert(defs_view(*compiler)[a].0 == defs0[a].0);
                                assert(defs_view(*compiler)[b].0 == defs0[b].0);
                            }
                        }
                    },
                    None => {
                        compiler.definitions.remove(q);
                        proof {
                            assert(defs_view(*compiler) =~= defs0.remove(q as int));
                            assert forall|a: int, b: int|
                                0 <= a < b < defs_view(*compiler).len() implies (
                            #[trigger] defs_view(*compiler)[a]).0 != (#[trigger] defs_view(
                                *compiler,
                            )[b]).0 by {
                                let a0 = if a < q { a } else { a + 1 };
                                let b0 = if b < q { b } else { b + 1 };
                                assert(defs_view(*compiler)[a].0 == defs0[a0].0);
                                assert(defs_view(*compiler)[b].0 == defs0[b0].0);
                            }
                        }
                    },
                }
                return ;
            }
            q = q + 1;
        }
        proof {
            lemma_find_char(defs0, self.var_name@);
            assert(false);
        }
    }
}


impl Compiler {
    /// The id the name currently carries, if it is in scope.
    fn find(&self, name: &[u8]) -> (r: Option<VarId>)
        ensures
            r == (match find_name(defs_view(*self), name@) {
                Some(q) => Some(VarId(defs_view(*self)[q].1 as usize)),
                None => Option::<VarId>::None,
            }),
    {
        let ghost defs0 = defs_view(*self);
        proof {
            lemma_find_char(defs0, name@);
        }
        let n = self.definitions.len();
        let mut q: usize = 0;
        while q < n
            invariant
                q <= n,
                n == self.definitions@.len(),
                defs0 == defs_view(*self),
                forall|m: int| 0 <= m < q ==> (#[trigger] defs0[m]).0 != name@,
            decreases n - q,
        {
            if bytes_eq(self.definitions[q].0.as_slice(), name) {
                proof {
                    lemma_find_char(defs0, name@);
                    assert(defs_view(*self)[q as int].0 == self.definitions@[q as int].0@);
                    assert(find_name(defs0, name@) == Some(q as int));
                    assert(defs0[q as int].1 == self.definitions@[q as int].1.0 as int);
                }
                return Some(self.definitions[q].1);
            }
            q = q + 1;
        }
        proof {
            lemma_find_char(defs0, name@);
        }
        None
    }

    /// Lower a tree to a [`Body`] with numbered binders; the whole
    /// behaviour is [`sp_compile`]. A use whose name is not in scope
    /// would panic, so such trees are required away; the ids handed out
    /// must also fit the counter.
    pub fn compile(&mut self, ast: Node, src: &str) -> (r: crate::Term)
        requires
            defs_wf(*old(self)),
            ast_within(*ast, src.spec_bytes().len() as int),
            old(self).var_counter + ast_size(*ast) <= usize::MAX,
            sp_compile(
                *ast,
                src.spec_bytes(),
                defs_view(*old(self)),
                old(self).var_counter as int,
            ) is Some,
        ensures
            defs_wf(*final(self)),
            defs_view(*final(self)) == defs_view(*old(self)),
            ({
                let (body, c2) = sp_compile(
                    *ast,
                    src.spec_bytes(),
                    defs_view(*old(self)),
                    old(self).var_counter as int,
                ).unwrap();
                *r == body && final(self).var_counter == c2
            }),
        decreases *ast,
    {
        let ghost defs0 = defs_view(*old(self));
        let bytes = src.as_bytes();
        let _n: usize = bytes.len();
        let node = *ast;
        let at = node.at;
        match node.item {
            Ast::Var => {
                let name = vstd::slice::slice_subrange(bytes, at.offset, at.offset + at.len);
                match self.find(name) {
                    Some(v) => Box::new(Body::Var(v.0)),
                    None => {
                        proof {
                            assert(false);
                        }
                        Box::new(Body::Var(0))
                    },
                }
            },
            Ast::Abs(v, t) => {
                let name = vstd::slice::slice_subrange(bytes, v.offset, v.offset + v.len);
                let guard = ScopeGuard::new(self, name);
                let vid = guard.var_id;
                let ghost defs2 = defs_view(*self);
                let body = self.compile(t, src);
                proof {
                    lemma_find_char(defs0, name@);
                    lemma_find_char(defs2, name@);
                    match find_name(defs0, name@) {
                        Some(q) => {
                            assert(find_name(defs2, name@) == Some(q)) by {
                                assert(defs2[q].0 == name@);
                                assert(forall|m: int|
                                    0 <= m < q ==> (#[trigger] defs2[m]).0 == defs0[m].0);
                            }
                        },
                        None => {
                            assert(find_name(defs2, name@) == Some(defs0.len() as int)) by {
                                assert(defs2[defs0.len() as int].0 == name@);
                                assert(forall|m: int|
                                    0 <= m < defs0.len() ==> (#[trigger] defs2[m]).0 == defs0[m].0);
                            }
                        },
                    }
                }
                guard.close(self);
                proof {
                    match find_name(defs0, name@) {
                        Some(q) => {
                            assert(defs_view(*self) =~= defs0);
                        },
                        None => {
                            assert(defs_view(*self) =~= defs0);
                        },
                    }
                }
                Box::new(Body::Abs(vid.0, body))
            },
            Ast::App(l, r) => {
                proof {
                    lemma_compile_counter(
                        *l,
                        src.spec_bytes(),
                        defs0,
                        old(self).var_counter as int,
                    );
                }
                let bl = self.compile(l, src);
                proof {
                    if let Some((sbl, c1)) = sp_compile(
                        *l,
                        src.spec_bytes(),
                        defs0,
                        old(self).var_counter as int,
                    ) {
                        lemma_compile_counter(*r, src.spec_bytes(), defs0, c1);
                    }
                }
                let br = self.compile(r, src);
                Box::new(Body::App(bl, br))
            },
        }
    }
}
} // verus!
