use vstd::prelude::*;
use vstd::string::*;

use crate::object::{Object, Value};

verus! {

/// The model of one scope: the value bound to each name it defines.
pub type Scope = Map<Seq<char>, Value>;

/// The model of an environment: its chain of scopes, the global one first and
/// the innermost one last.
pub type Bindings = Seq<Scope>;

/// The value bound to `name`: the innermost scope that defines it wins.
pub open spec fn lookup(bs: Bindings, name: Seq<char>) -> Option<Value>
    decreases bs.len(),
{
    if bs.len() == 0 {
        None
    } else if bs.last().contains_key(name) {
        Some(bs.last()[name])
    } else {
        lookup(bs.drop_last(), name)
    }
}

/// The chain after binding `name` to `v` in its innermost scope.
pub open spec fn set_local(bs: Bindings, name: Seq<char>, v: Value) -> Bindings {
    if bs.len() == 0 {
        seq![Map::empty().insert(name, v)]
    } else {
        bs.update(bs.len() - 1, bs.last().insert(name, v))
    }
}

/// A child scope reads every name as its parent does. A binding made in the
/// child is what the child then reads for that name, every other name still
/// reads as in the parent, and the parent's scopes are left as they were.
pub proof fn lemma_child_scope(parent: Bindings, name: Seq<char>, v: Value, other: Seq<char>)
    ensures
        lookup(parent.push(Map::empty()), other) == lookup(parent, other),
        lookup(set_local(parent.push(Map::empty()), name, v), name) == Some(v),
        other != name ==> lookup(set_local(parent.push(Map::empty()), name, v), other) == lookup(
            parent,
            other,
        ),
        set_local(parent.push(Map::empty()), name, v).drop_last() == parent,
{
    let child = parent.push(Map::<Seq<char>, Value>::empty());
    assert(child.drop_last() =~= parent);
    let after = set_local(child, name, v);
    assert(after.drop_last() =~= parent);
}

/// The scope that a sequence of bindings makes: a later binding of a name
/// replaces an earlier one.
pub open spec fn scope_map(s: Seq<Binding>) -> Scope
    decreases s.len(),
{
    if s.len() == 0 {
        Map::empty()
    } else {
        scope_map(s.drop_last()).insert(s.last().name@, s.last().value@)
    }
}

proof fn lemma_scope_map_absent(s: Seq<Binding>, name: Seq<char>)
    requires
        forall|j: int| 0 <= j < s.len() ==> (#[trigger] s[j]).name@ != name,
    ensures
        !scope_map(s).contains_key(name),
    decreases s.len(),
{
    if s.len() > 0 {
        assert forall|j: int| 0 <= j < s.len() - 1 implies (#[trigger] s.drop_last()[j]).name@ != name by {
            assert(s.drop_last()[j] == s[j]);
        }
        lemma_scope_map_absent(s.drop_last(), name);
    }
}

proof fn lemma_scope_map_found(s: Seq<Binding>, k: int)
    requires
        0 <= k < s.len(),
        forall|j: int| k < j < s.len() ==> (#[trigger] s[j]).name@ != s[k].name@,
    ensures
        scope_map(s).contains_key(s[k].name@),
        scope_map(s)[s[k].name@] == s[k].value@,
    decreases s.len(),
{
    if k < s.len() - 1 {
        assert forall|j: int| k < j < s.len() - 1 implies (#[trigger] s.drop_last()[j]).name@
            != s.drop_last()[k].name@ by {
            assert(s.drop_last()[j] == s[j]);
        }
        lemma_scope_map_found(s.drop_last(), k);
    }
}

proof fn lemma_scope_map_replace(s: Seq<Binding>, k: int, b: Binding)
    requires
        0 <= k < s.len(),
        b.name@ == s[k].name@,
        forall|j: int| k < j < s.len() ==> (#[trigger] s[j]).name@ != s[k].name@,
    ensures
        scope_map(s.update(k, b)) == scope_map(s).insert(b.name@, b.value@),
    decreases s.len(),
{
    let t = s.update(k, b);
    if k == s.len() - 1 {
        assert(t.drop_last() =~= s.drop_last());
        assert(scope_map(t) =~= scope_map(s).insert(b.name@, b.value@));
    } else {
        assert forall|j: int| k < j < s.len() - 1 implies (#[trigger] s.drop_last()[j]).name@
            != s.drop_last()[k].name@ by {
            assert(s.drop_last()[j] == s[j]);
        }
        lemma_scope_map_replace(s.drop_last(), k, b);
        assert(t.drop_last() =~= s.drop_last().update(k, b));
        assert(s.last().name@ != b.name@);
        assert(scope_map(t) =~= scope_map(s).insert(b.name@, b.value@));
    }
}

/// The model of an optional object.
pub open spec fn opt_view(o: Option<Object>) -> Option<Value> {
    match o {
        Some(x) => Some(x@),
        None => None,
    }
}

/// One name bound to one value.
pub struct Binding {
    pub name: String,
    pub value: Object,
}

/// A scope of bindings, linked to the scope that encloses it. A child borrows
/// its parent, which therefore stays as it is while the child lives.
pub struct Environment<'a> {
    vars: Vec<Binding>,
    parent: Option<&'a Environment<'a>>,
}

impl<'a> View for Environment<'a> {
    type V = Bindings;

    closed spec fn view(&self) -> Bindings
        decreases self,
    {
        match self.parent {
            Some(p) => p.view().push(scope_map(self.vars@)),
            None => seq![scope_map(self.vars@)],
        }
    }
}

/// Whether two texts hold the same characters.
pub fn same_text(a: &str, b: &str) -> (r: bool)
    ensures
        r == (a@ == b@),
{
    let n = a.unicode_len();
    if n != b.unicode_len() {
        return false;
    }
    let mut i: usize = 0;
    while i < n
        invariant
            n == a@.len() == b@.len(),
            i <= n,
            a@.subrange(0, i as int) == b@.subrange(0, i as int),
        decreases n - i,
    {
        if a.get_char(i) != b.get_char(i) {
            return false;
        }
        assert(a@.subrange(0, i + 1) =~= a@.subrange(0, i as int).push(a@[i as int]));
        assert(b@.subrange(0, i + 1) =~= b@.subrange(0, i as int).push(b@[i as int]));
        i = i + 1;
    }
    assert(a@ =~= a@.subrange(0, n as int));
    assert(b@ =~= b@.subrange(0, n as int));
    true
}

impl<'a> Environment<'a> {
    proof fn lemma_view_shape(&self)
        ensures
            self@.len() > 0,
            self@.last() == scope_map(self.vars@),
            self.parent is Some ==> self@.drop_last() == self.parent->Some_0@,
            self.parent is None ==> self@.drop_last() == Seq::<Scope>::empty(),
    {
        match self.parent {
            Some(p) => {
                assert(self@ == p@.push(scope_map(self.vars@)));
                assert(self@.drop_last() =~= p@);
            },
            None => {
                assert(self@ == seq![scope_map(self.vars@)]);
                assert(self@.drop_last() =~= Seq::<Scope>::empty());
            },
        }
    }

    /// An empty global environment.
    pub fn new() -> (r: Self)
        ensures
            r@ == seq![Map::<Seq<char>, Value>::empty()],
    {
        let r = Environment { vars: Vec::new(), parent: None };
        assert(scope_map(r.vars@) =~= Map::<Seq<char>, Value>::empty());
        r
    }

    /// A new, empty scope whose parent is `parent`: it reads through to every
    /// binding of the parent, and what is later defined in it stays in it.
    pub fn extend(parent: &'a Environment<'a>) -> (r: Self)
        ensures
            r@ == parent@.push(Map::empty()),
    {
        let r = Environment { vars: Vec::new(), parent: Some(parent) };
        assert(scope_map(r.vars@) =~= Map::<Seq<char>, Value>::empty());
        r
    }

    /// The value bound to `name` in the innermost scope of the chain that defines it.
    pub fn get(&self, name: &str) -> (r: Option<Object>)
        ensures
            opt_view(r) == lookup(self@, name@),
        decreases self,
    {
        let mut i: usize = self.vars.len();
        while i > 0
            invariant
                i <= self.vars@.len(),
                forall|j: int| i <= j < self.vars@.len() ==> (#[trigger] self.vars@[j]).name@ != name@,
            decreases i,
        {
            let b = &self.vars[i - 1];
            if same_text(b.name.as_str(), name) {
                proof {
                    lemma_scope_map_found(self.vars@, i - 1);
                    self.lemma_view_shape();
                }
                return Some(b.value.copy());
            }
            i = i - 1;
        }
        proof {
            lemma_scope_map_absent(self.vars@, name@);
            self.lemma_view_shape();
        }
        match self.parent {
            Some(p) => {
                assert(!self@.last().contains_key(name@));
                assert(self@.drop_last() == p@);
                assert(lookup(self@, name@) == lookup(p@, name@));
                p.get(name)
            },
            None => {
                assert(lookup(self@.drop_last(), name@) == None::<Value>);
                None
            },
        }
    }

    /// Binds `name` to `val` in this scope, over any binding of it that this
    /// scope already holds. The scopes around it are not touched.
    pub fn set(&mut self, name: &str, val: Object)
        ensures
            final(self)@ == set_local(old(self)@, name@, val@),
    {
        proof {
            old(self).lemma_view_shape();
        }
        let mut i: usize = self.vars.len();
        while i > 0
            invariant
                i <= self.vars@.len(),
                self.vars@ == old(self).vars@,
                self.parent == old(self).parent,
                forall|j: int| i <= j < self.vars@.len() ==> (#[trigger] self.vars@[j]).name@ != name@,
            decreases i,
        {
            if same_text(self.vars[i - 1].name.as_str(), name) {
                let b = Binding { name: name.to_owned(), value: val };
                proof {
                    lemma_scope_map_replace(self.vars@, i - 1, b);
                }
                self.vars.set(i - 1, b);
                proof {
                    self.lemma_view_shape();
                }
                assert(self@ =~= set_local(old(self)@, name@, val@));
                return;
            }
            i = i - 1;
        }
        self.vars.push(Binding { name: name.to_owned(), value: val });
        assert(self.vars@.drop_last() =~= old(self).vars@);
        proof {
            self.lemma_view_shape();
        }
        assert(self@ =~= set_local(old(self)@, name@, val@));
    }
}

} // verus!
