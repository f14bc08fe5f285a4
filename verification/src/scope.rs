//! The binding environment: a mapping from names to values, seeded with the
//! built-ins, mutated by `define`, and cloned for every user-function call.

use vstd::prelude::*;
use crate::types::{Type, TypeV, type_view};

verus! {

/// The mapping a list of bindings denotes: the front-most entry for a name
/// wins.
pub open spec fn scope_map(s: Seq<(String, Type)>) -> Map<Seq<char>, TypeV>
    decreases s,
{
    if s.len() == 0 {
        Map::empty()
    } else {
        scope_map(s.skip(1)).insert(s[0].0@, type_view(s[0].1))
    }
}

/// A mutable mapping from names to values.
pub struct Scope {
    entries: Vec<(String, Type)>,
}

impl View for Scope {
    type V = Map<Seq<char>, TypeV>;

    closed spec fn view(&self) -> Map<Seq<char>, TypeV> {
        scope_map(self.entries@)
    }
}

impl Scope {
    /// An empty scope.
    pub fn new() -> (r: Scope)
        ensures
            r@ == Map::<Seq<char>, TypeV>::empty(),
    {
        let entries: Vec<(String, Type)> = Vec::new();
        proof {
            assert(scope_map(entries@) == Map::<Seq<char>, TypeV>::empty());
        }
        Scope { entries }
    }

    /// Looks a name up; the most recent binding wins.
    pub fn get(&self, name: &String) -> (r: Option<&Type>)
        ensures
            match r {
                Some(v) => self@.contains_key(name@) && v@ == self@[name@],
                None => !self@.contains_key(name@),
            },
    {
        let n = self.entries.len();
        let mut i: usize = 0;
        proof {
            assert(self.entries@.skip(0) =~= self.entries@);
        }
        while i < n
            invariant
                i <= n,
                n == self.entries@.len(),
                scope_map(self.entries@.skip(i as int)).contains_key(name@) == scope_map(
                    self.entries@,
                ).contains_key(name@),
                scope_map(self.entries@.skip(i as int)).contains_key(name@) ==> scope_map(
                    self.entries@.skip(i as int),
                )[name@] == scope_map(self.entries@)[name@],
            decreases n - i,
        {
            proof {
                assert(self.entries@.skip(i as int)[0] == self.entries@[i as int]);
                assert(self.entries@.skip(i as int).skip(1) =~= self.entries@.skip(i as int + 1));
            }
            let e = &self.entries[i];
            if e.0 == *name {
                return Some(&e.1);
            }
            i = i + 1;
        }
        proof {
            assert(self.entries@.skip(n as int).len() == 0);
        }
        None
    }

    /// Whether a name is bound.
    pub fn contains(&self, name: &String) -> (r: bool)
        ensures
            r == self@.contains_key(name@),
    {
        match self.get(name) {
            Some(_) => true,
            None => false,
        }
    }

    /// Binds a name to a value, shadowing any earlier binding.
    pub fn insert(&mut self, name: String, value: Type)
        ensures
            final(self)@ == old(self)@.insert(name@, value@),
    {
        let ghost old_entries = self.entries@;
        let ghost namev = name@;
        let ghost valuev = value@;
        self.entries.insert(0, (name, value));
        proof {
            assert(self.entries@[0].0@ == namev);
            assert(type_view(self.entries@[0].1) == valuev);
            assert(self.entries@.skip(1) =~= old_entries);
        }
    }
}

/// Binding lists with pointwise equal views denote the same mapping.
proof fn lemma_scope_map_congruence(a: Seq<(String, Type)>, b: Seq<(String, Type)>)
    requires
        a.len() == b.len(),
        forall|i: int|
            0 <= i < a.len() ==> (#[trigger] a[i]).0@ == b[i].0@ && type_view(a[i].1) == type_view(
                b[i].1,
            ),
    ensures
        scope_map(a) == scope_map(b),
    decreases a,
{
    if a.len() > 0 {
        assert forall|i: int|
            0 <= i < a.skip(1).len() implies (#[trigger] a.skip(1)[i]).0@ == b.skip(1)[i].0@
            && type_view(a.skip(1)[i].1) == type_view(b.skip(1)[i].1) by {
            assert(a.skip(1)[i] == a[i + 1]);
            assert(b.skip(1)[i] == b[i + 1]);
        }
        lemma_scope_map_congruence(a.skip(1), b.skip(1));
        assert(a[0].0@ == b[0].0@ && type_view(a[0].1) == type_view(b[0].1));
    }
}

impl Clone for Scope {
    /// Deep copy; the mapping is unchanged.
    fn clone(&self) -> (r: Self)
        ensures
            r@ == self@,
    {
        let mut out: Vec<(String, Type)> = Vec::new();
        let n = self.entries.len();
        let mut i: usize = 0;
        while i < n
            invariant
                i <= n,
                n == self.entries@.len(),
                out@.len() == i,
                forall|j: int|
                    0 <= j < i ==> (#[trigger] out@[j]).0@ == self.entries@[j].0@ && type_view(
                        out@[j].1,
                    ) == type_view(self.entries@[j].1),
            decreases n - i,
        {
            let e = &self.entries[i];
            let k = e.0.clone();
            let v = e.1.clone();
            out.push((k, v));
            i = i + 1;
        }
        proof {
            lemma_scope_map_congruence(out@, self.entries@);
        }
        Scope { entries: out }
    }
}

} // verus!
