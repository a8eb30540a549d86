//! The chain of lexical scopes that maps variable names to values.
use vstd::prelude::*;

use crate::ir::Value;

verus! {

/// A binding of a name to a value.
pub type Binding = (Seq<char>, Value);

/// The bindings in scope, oldest first, and where each open scope begins.
pub ghost struct EnvView {
    pub bindings: Seq<Binding>,
    pub marks: Seq<int>,
}

/// The value that `name` denotes in `bindings`: the latest binding wins.
pub open spec fn lookup(bindings: Seq<Binding>, name: Seq<char>) -> Option<Value>
    decreases bindings.len(),
{
    if bindings.len() == 0 {
        None
    } else if bindings.last().0 == name {
        Some(bindings.last().1)
    } else {
        lookup(bindings.drop_last(), name)
    }
}

/// Scope starts are in order and lie within the bindings.
pub open spec fn env_wf(e: EnvView) -> bool {
    &&& forall|i: int| 0 <= i < e.marks.len() ==> 0 <= #[trigger] e.marks[i] <= e.bindings.len()
    &&& forall|i: int, j: int| 0 <= i < j < e.marks.len() ==> e.marks[i] <= e.marks[j]
}

/// The environment after opening a scope.
pub open spec fn push_spec(e: EnvView) -> EnvView {
    EnvView { bindings: e.bindings, marks: e.marks.push(e.bindings.len() as int) }
}

/// The environment after binding `name` in the innermost scope.
pub open spec fn insert_spec(e: EnvView, name: Seq<char>, value: Value) -> EnvView {
    EnvView { bindings: e.bindings.push((name, value)), marks: e.marks }
}

/// The environment after closing the innermost scope.
pub open spec fn pop_spec(e: EnvView) -> EnvView {
    EnvView { bindings: e.bindings.subrange(0, e.marks.last()), marks: e.marks.drop_last() }
}

/// The environment with each binding of `inner`, in order, added to the
/// innermost scope.
pub open spec fn insert_all(e: EnvView, inner: Seq<Binding>) -> EnvView
    decreases inner.len(),
{
    if inner.len() == 0 {
        e
    } else {
        let l = inner.last();
        insert_spec(insert_all(e, inner.drop_last()), l.0, l.1)
    }
}

/// A scope's own bindings are looked up first, then the enclosing ones.
pub proof fn lemma_lookup_append(outer: Seq<Binding>, inner: Seq<Binding>, name: Seq<char>)
    ensures
        lookup(outer + inner, name) == (if lookup(inner, name) is Some {
            lookup(inner, name)
        } else {
            lookup(outer, name)
        }),
    decreases inner.len(),
{
    if inner.len() == 0 {
        assert(outer + inner =~= outer);
    } else {
        assert((outer + inner).drop_last() =~= outer + inner.drop_last());
        lemma_lookup_append(outer, inner.drop_last(), name);
    }
}

proof fn lemma_insert_all(e: EnvView, inner: Seq<Binding>)
    ensures
        insert_all(e, inner) == (EnvView { bindings: e.bindings + inner, marks: e.marks }),
    decreases inner.len(),
{
    if inner.len() == 0 {
        assert(e.bindings + inner =~= e.bindings);
    } else {
        lemma_insert_all(e, inner.drop_last());
        assert((e.bindings + inner.drop_last()).push(inner.last()) =~= e.bindings + inner);
    }
}

/// Bindings made in a scope are visible inside it, before any outer binding
/// of the same name, and are gone once the scope closes: the environment is
/// then exactly what it was before the scope opened.
pub proof fn lemma_block_scope(e: EnvView, inner: Seq<Binding>, name: Seq<char>)
    requires
        env_wf(e),
    ensures
        lookup(insert_all(push_spec(e), inner).bindings, name) == (if lookup(inner, name) is Some {
            lookup(inner, name)
        } else {
            lookup(e.bindings, name)
        }),
        pop_spec(insert_all(push_spec(e), inner)) == e,
{
    lemma_insert_all(push_spec(e), inner);
    lemma_lookup_append(e.bindings, inner, name);
    let after = insert_all(push_spec(e), inner);
    assert(after.bindings.subrange(0, e.bindings.len() as int) =~= e.bindings);
    assert(after.marks.drop_last() =~= e.marks);
}

/// A chain of lexical scopes, innermost last.
pub struct Env {
    bindings: Vec<(String, Value)>,
    marks: Vec<usize>,
}

impl View for Env {
    type V = EnvView;

    closed spec fn view(&self) -> EnvView {
        EnvView {
            bindings: self.bindings@.map_values(|b: (String, Value)| (b.0@, b.1)),
            marks: self.marks@.map_values(|m: usize| m as int),
        }
    }
}

impl Env {
    /// An environment with one empty scope.
    pub fn new() -> (r: Env)
        ensures
            r@.bindings == Seq::<Binding>::empty(),
            r@.marks == Seq::<int>::empty(),
    {
        let r = Env { bindings: Vec::new(), marks: Vec::new() };
        assert(r@.bindings =~= Seq::<Binding>::empty());
        assert(r@.marks =~= Seq::<int>::empty());
        r
    }

    /// Binds `name` to `value` in the innermost scope, shadowing any earlier
    /// binding of it.
    pub fn insert(&mut self, name: &String, value: Value)
        ensures
            final(self)@ == insert_spec(old(self)@, name@, value),
            env_wf(old(self)@) ==> env_wf(final(self)@),
    {
        self.bindings.push((name.clone(), value));
        assert(self@.bindings =~= old(self)@.bindings.push((name@, value)));
        assert(self@.marks =~= old(self)@.marks);
    }

    /// The value that `name` denotes: the innermost binding of it.
    pub fn get(&self, name: &String) -> (r: Option<Value>)
        ensures
            r == lookup(self@.bindings, name@),
    {
        let ghost bs = self@.bindings;
        let mut i: usize = self.bindings.len();
        assert(bs.subrange(0, i as int) =~= bs);
        while i > 0
            invariant
                bs == self@.bindings,
                i <= bs.len(),
                lookup(bs, name@) == lookup(bs.subrange(0, i as int), name@),
            decreases i,
        {
            let b = &self.bindings[i - 1];
            let ghost sub = bs.subrange(0, i as int);
            assert(sub.last() == bs[i - 1]);
            if b.0 == *name {
                return Some(b.1);
            }
            assert(sub.drop_last() =~= bs.subrange(0, i - 1));
            i = i - 1;
        }
        assert(bs.subrange(0, 0) =~= Seq::<Binding>::empty());
        None
    }

    /// Opens a scope nested in the current one.
    pub fn push(&mut self)
        requires
            env_wf(old(self)@),
        ensures
            final(self)@ == push_spec(old(self)@),
            env_wf(final(self)@),
    {
        let n = self.bindings.len();
        self.marks.push(n);
        assert(self@.marks =~= old(self)@.marks.push(n as int));
        assert(self@.bindings =~= old(self)@.bindings);
    }

    /// Closes the innermost scope and drops the bindings made in it.
    pub fn pop(&mut self)
        requires
            env_wf(old(self)@),
            old(self)@.marks.len() > 0,
        ensures
            final(self)@ == pop_spec(old(self)@),
            env_wf(final(self)@),
    {
        let ghost e = self@;
        let m = self.marks.pop().unwrap();
        assert(e.marks.last() == m);
        self.bindings.truncate(m);
        assert(self@.bindings =~= e.bindings.subrange(0, m as int));
        assert(self@.marks =~= e.marks.drop_last());
    }
}

} // verus!
