//! The variables a running program can see: a chain of nested scopes over a store of
//! variable slots.
use vstd::prelude::*;
use vstd::hash_map::StringHashMap;
use crate::types::{Instance, SpecInstance, SpecValue, Value};

verus! {

/// The variables of a running program.
///
/// Each scope maps names to slots of the store; the innermost scope is the last. A name is
/// resolved in the innermost scope that binds it. A slot, once given out, stays valid, so that
/// a reference to a variable can outlive the scope that declared it.
pub struct Context {
    scopes: Vec<StringHashMap<usize>>,
    slots: Vec<Instance>,
}

/// The mathematical value of a context: its scopes, innermost last, and its store.
pub struct ContextView {
    pub scopes: Seq<Map<Seq<char>, usize>>,
    pub slots: Seq<SpecInstance>,
}

/// The slot that `name` resolves to in the first `n` scopes, searching from the innermost.
pub open spec fn lookup_in(scopes: Seq<Map<Seq<char>, usize>>, n: int, name: Seq<char>) -> Option<usize>
    decreases n,
{
    if n <= 0 {
        None
    } else if scopes[n - 1].contains_key(name) {
        Some(scopes[n - 1][name])
    } else {
        lookup_in(scopes, n - 1, name)
    }
}

/// The slot that `name` resolves to, searching from the innermost scope.
pub open spec fn lookup(c: ContextView, name: Seq<char>) -> Option<usize> {
    lookup_in(c.scopes, c.scopes.len() as int, name)
}

/// Whether every scope exists, there is at least one, and every bound slot is in the store.
pub open spec fn context_wf(c: ContextView) -> bool {
    &&& c.scopes.len() >= 1
    &&& forall|i: int, k: Seq<char>|
        0 <= i < c.scopes.len() && #[trigger] c.scopes[i].contains_key(k) ==> (c.scopes[i][k] as int) < c.slots.len()
}

/// The context after declaring `name` as a new variable `inst` in the innermost scope.
pub open spec fn declared(c: ContextView, name: Seq<char>, inst: SpecInstance) -> ContextView {
    let last = c.scopes.len() - 1;
    ContextView {
        scopes: c.scopes.update(last, c.scopes[last].insert(name, c.slots.len() as usize)),
        slots: c.slots.push(inst),
    }
}

/// The context after giving the variable in slot `s` the value `v`.
pub open spec fn overwritten(c: ContextView, s: int, v: SpecValue) -> ContextView {
    ContextView { scopes: c.scopes, slots: c.slots.update(s, SpecInstance { value: v, ..c.slots[s] }) }
}

/// The context after opening a new, empty innermost scope.
pub open spec fn pushed(c: ContextView) -> ContextView {
    ContextView { scopes: c.scopes.push(Map::empty()), slots: c.slots }
}

/// The context after closing the innermost scope.
pub open spec fn popped(c: ContextView) -> ContextView {
    ContextView { scopes: c.scopes.drop_last(), slots: c.slots }
}

/// Resolving in scopes that agree with the old ones on every name but `name`.
proof fn lemma_lookup_in_frame(a: Seq<Map<Seq<char>, usize>>, b: Seq<Map<Seq<char>, usize>>, n: int, name: Seq<char>)
    requires
        0 <= n <= a.len(),
        n <= b.len(),
        forall|i: int| 0 <= i < n ==> (#[trigger] a[i]).contains_key(name) == b[i].contains_key(name),
        forall|i: int| 0 <= i < n && (#[trigger] a[i]).contains_key(name) ==> a[i][name] == b[i][name],
    ensures
        lookup_in(a, n, name) == lookup_in(b, n, name),
    decreases n,
{
    if n > 0 {
        lemma_lookup_in_frame(a, b, n - 1, name);
    }
}

/// A variable just declared is what its name resolves to, and it holds what was declared;
/// every other name resolves as before, and every old slot keeps its variable.
pub proof fn lemma_find_after_declare(c: ContextView, name: Seq<char>, inst: SpecInstance)
    requires
        context_wf(c),
    ensures
        lookup(declared(c, name, inst), name) == Some(c.slots.len() as usize),
        declared(c, name, inst).slots[c.slots.len() as int] == inst,
        forall|other: Seq<char>| other != name ==> lookup(declared(c, name, inst), other) == lookup(c, other),
        forall|s: int| 0 <= s < c.slots.len() ==> declared(c, name, inst).slots[s] == c.slots[s],
        context_wf(declared(c, name, inst)),
{
    let d = declared(c, name, inst);
    let last = c.scopes.len() - 1;
    assert forall|other: Seq<char>| other != name implies lookup(d, other) == lookup(c, other) by {
        assert(d.scopes[last].contains_key(other) == c.scopes[last].contains_key(other));
        lemma_lookup_in_frame(d.scopes, c.scopes, d.scopes.len() as int, other);
    }
    assert forall|i: int, k: Seq<char>|
        0 <= i < d.scopes.len() && #[trigger] d.scopes[i].contains_key(k) implies (d.scopes[i][k] as int)
        < d.slots.len() by {
        if i != last {
            assert(d.scopes[i] == c.scopes[i]);
        }
    }
}

/// After a variable is overwritten, every name resolves as before, the variable holds the new
/// value with its mutability and type unchanged, and every other variable is unchanged.
pub proof fn lemma_find_after_overwrite(c: ContextView, s: int, v: SpecValue)
    requires
        0 <= s < c.slots.len(),
    ensures
        forall|name: Seq<char>| lookup(overwritten(c, s, v), name) == lookup(c, name),
        overwritten(c, s, v).slots[s].value == v,
        overwritten(c, s, v).slots[s].mutable == c.slots[s].mutable,
        overwritten(c, s, v).slots[s].m_type == c.slots[s].m_type,
        forall|t: int| 0 <= t < c.slots.len() && t != s ==> overwritten(c, s, v).slots[t] == c.slots[t],
{
}

/// Opening a scope changes what no name resolves to.
pub proof fn lemma_find_after_push(c: ContextView, name: Seq<char>)
    ensures
        lookup(pushed(c), name) == lookup(c, name),
{
    let p = pushed(c);
    assert(!p.scopes[p.scopes.len() - 1].contains_key(name));
    lemma_lookup_in_frame(p.scopes, c.scopes, c.scopes.len() as int, name);
}

/// Closing a scope just opened gives back the context as it was.
pub proof fn lemma_pop_after_push(c: ContextView)
    ensures
        popped(pushed(c)) == c,
{
    assert(popped(pushed(c)).scopes =~= c.scopes);
}

/// A variable declared in a scope is forgotten when the scope closes: every name then
/// resolves as it did before the scope opened.
pub proof fn lemma_scope_forgets(c: ContextView, name: Seq<char>, inst: SpecInstance, other: Seq<char>)
    requires
        context_wf(c),
    ensures
        lookup(popped(declared(pushed(c), name, inst)), other) == lookup(c, other),
{
    let q = popped(declared(pushed(c), name, inst));
    assert(q.scopes =~= c.scopes);
}

impl View for Context {
    type V = ContextView;

    closed spec fn view(&self) -> ContextView {
        ContextView {
            scopes: self.scopes@.map_values(|m: StringHashMap<usize>| m@),
            slots: self.slots@.map_values(|i: Instance| i@),
        }
    }
}

impl Context {
    #[verifier::type_invariant]
    closed spec fn inv(self) -> bool {
        context_wf(self@)
    }

    /// A context with one empty scope and an empty store.
    pub fn new() -> (r: Self)
        ensures
            r@.scopes == seq![Map::<Seq<char>, usize>::empty()],
            r@.slots == Seq::<SpecInstance>::empty(),
    {
        let mut scopes: Vec<StringHashMap<usize>> = Vec::new();
        scopes.push(StringHashMap::new());
        let r = Context { scopes, slots: Vec::new() };
        assert(r@.scopes =~= seq![Map::<Seq<char>, usize>::empty()]);
        assert(r@.slots =~= Seq::<SpecInstance>::empty());
        r
    }

    /// How many scopes are open.
    pub fn depth(&self) -> (r: usize)
        ensures
            r == self@.scopes.len(),
            r >= 1,
    {
        proof {
            use_type_invariant(self);
        }
        self.scopes.len()
    }

    /// How many slots the store holds.
    pub fn slot_count(&self) -> (r: usize)
        ensures
            r == self@.slots.len(),
    {
        self.slots.len()
    }

    /// The slot that `name` resolves to, searching from the innermost scope outwards.
    pub fn find_variable(&self, name: &str) -> (r: Option<usize>)
        ensures
            r == lookup(self@, name@),
            r matches Some(s) ==> (s as int) < self@.slots.len(),
    {
        proof {
            use_type_invariant(self);
        }
        let mut n = self.scopes.len();
        while n > 0
            invariant
                n <= self.scopes@.len(),
                context_wf(self@),
                lookup(self@, name@) == lookup_in(self@.scopes, n as int, name@),
            decreases n,
        {
            assert(self@.scopes[n - 1] == self.scopes@[n - 1]@);
            match self.scopes[n - 1].get(name) {
                Some(s) => {
                    return Some(*s);
                },
                None => {},
            }
            n = n - 1;
        }
        None
    }

    /// The variable in slot `s`.
    pub fn instance(&self, s: usize) -> (r: &Instance)
        requires
            (s as int) < self@.slots.len(),
        ensures
            r@ == self@.slots[s as int],
    {
        &self.slots[s]
    }

    /// Declares `name` in the innermost scope as a new variable `value`, in a fresh slot.
    /// A variable of that name in the innermost scope is shadowed for good.
    pub fn insert_variable(&mut self, name: &str, value: Instance)
        requires
            old(self)@.slots.len() < usize::MAX,
        ensures
            final(self)@ == declared(old(self)@, name@, value@),
    {
        proof {
            use_type_invariant(&*self);
        }
        let ghost old_view = self@;
        let mut taken = Context::new();
        std::mem::swap(&mut taken, self);
        let Context { mut scopes, mut slots } = taken;
        let s = slots.len();
        let last = scopes.len() - 1;
        let mut scope = scopes.remove(last);
        scope.insert(name.to_owned(), s);
        scopes.push(scope);
        slots.push(value);
        proof {
            let c = ContextView {
                scopes: scopes@.map_values(|m: StringHashMap<usize>| m@),
                slots: slots@.map_values(|i: Instance| i@),
            };
            let want = declared(old_view, name@, value@);
            assert(c.scopes =~= want.scopes);
            assert(c.slots =~= want.slots);
            assert forall|i: int, k: Seq<char>|
                0 <= i < c.scopes.len() && #[trigger] c.scopes[i].contains_key(k) implies (c.scopes[i][k] as int)
                < c.slots.len() by {
                if i != last {
                    assert(old_view.scopes[i] == c.scopes[i]);
                }
            }
        }
        *self = Context { scopes, slots };
    }

    /// Gives the variable in slot `s` the value `value`.
    pub fn set_slot_value(&mut self, s: usize, value: &Value)
        requires
            (s as int) < old(self)@.slots.len(),
        ensures
            final(self)@ == overwritten(old(self)@, s as int, value@),
    {
        proof {
            use_type_invariant(&*self);
        }
        let ghost old_view = self@;
        let mut taken = Context::new();
        std::mem::swap(&mut taken, self);
        let Context { scopes, mut slots } = taken;
        let mut inst = slots.remove(s);
        inst.set_value(value);
        slots.insert(s, inst);
        let r = Context { scopes, slots };
        proof {
            assert(r@.slots =~= overwritten(old_view, s as int, value@).slots);
            assert(r@.scopes =~= old_view.scopes);
        }
        *self = r;
    }

    /// Gives the variable that `name` resolves to the value `value`; `Err(())` when `name`
    /// resolves to no variable.
    pub fn seek_overwrite_in_parents(&mut self, name: &str, value: &Value) -> (r: Result<(), ()>)
        ensures
            match lookup(old(self)@, name@) {
                Some(s) => r is Ok && final(self)@ == overwritten(old(self)@, s as int, value@),
                None => r is Err && final(self)@ == old(self)@,
            },
    {
        match self.find_variable(name) {
            Some(s) => {
                self.set_slot_value(s, value);
                Ok(())
            },
            None => Err(()),
        }
    }

    /// Opens a new, empty innermost scope.
    pub fn push_scope(&mut self)
        ensures
            final(self)@ == pushed(old(self)@),
    {
        proof {
            use_type_invariant(&*self);
        }
        let ghost old_view = self@;
        let mut taken = Context::new();
        std::mem::swap(&mut taken, self);
        let Context { mut scopes, slots } = taken;
        scopes.push(StringHashMap::new());
        proof {
            let c = ContextView {
                scopes: scopes@.map_values(|m: StringHashMap<usize>| m@),
                slots: slots@.map_values(|i: Instance| i@),
            };
            assert(c.scopes =~= pushed(old_view).scopes);
            assert forall|i: int, k: Seq<char>|
                0 <= i < c.scopes.len() && #[trigger] c.scopes[i].contains_key(k) implies (c.scopes[i][k] as int)
                < c.slots.len() by {
                if i < old_view.scopes.len() {
                    assert(old_view.scopes[i] == c.scopes[i]);
                }
            }
        }
        *self = Context { scopes, slots };
    }

    /// Closes the innermost scope; the outermost scope cannot be closed.
    pub fn pop_scope(&mut self)
        requires
            old(self)@.scopes.len() > 1,
        ensures
            final(self)@ == popped(old(self)@),
    {
        proof {
            use_type_invariant(&*self);
        }
        let ghost old_view = self@;
        let mut taken = Context::new();
        std::mem::swap(&mut taken, self);
        let Context { mut scopes, slots } = taken;
        let _ = scopes.pop();
        proof {
            let c = ContextView {
                scopes: scopes@.map_values(|m: StringHashMap<usize>| m@),
                slots: slots@.map_values(|i: Instance| i@),
            };
            assert(c.scopes =~= popped(old_view).scopes);
            assert forall|i: int, k: Seq<char>|
                0 <= i < c.scopes.len() && #[trigger] c.scopes[i].contains_key(k) implies (c.scopes[i][k] as int)
                < c.slots.len() by {
                assert(old_view.scopes[i] == c.scopes[i]);
            }
        }
        *self = Context { scopes, slots };
    }
}

} // verus!
