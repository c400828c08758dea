//! Nested scopes, each binding names to definitions and to types.
use crate::strings::StrId;
use crate::tir::def::DefId;
use crate::tir::typ::TypId;
use std::collections::HashMap;
use vstd::prelude::*;

verus! {

broadcast use vstd::std_specs::hash::group_hash_axioms;

/// The definition bound to `k` in the innermost scope of `scopes` that binds it.
pub open spec fn lookup<V>(scopes: Seq<Map<u32, V>>, k: u32) -> Option<V>
    decreases scopes.len(),
{
    if scopes.len() == 0 {
        None
    } else if scopes.last().contains_key(k) {
        Some(scopes.last()[k])
    } else {
        lookup(scopes.drop_last(), k)
    }
}

/// One scope: the names it binds to definitions and to types, by the number of the
/// interned string.
struct Scope {
    defs: HashMap<u32, DefId>,
    typs: HashMap<u32, TypId>,
}

impl Scope {
    fn new() -> (r: Self)
        ensures
            r.defs@ == Map::<u32, DefId>::empty(),
            r.typs@ == Map::<u32, TypId>::empty(),
    {
        Scope { defs: HashMap::new(), typs: HashMap::new() }
    }

    fn insert_def(&mut self, string: StrId, def: DefId) -> (r: Result<(), DefId>)
        ensures
            final(self).defs@ == old(self).defs@.insert(string.value(), def),
            final(self).typs@ == old(self).typs@,
            match r {
                Ok(()) => !old(self).defs@.contains_key(string.value()),
                Err(prev) => old(self).defs@.contains_key(string.value()) && prev == old(
                    self,
                ).defs@[string.value()],
            },
    {
        let prev = self.defs.insert(string.get(), def);
        if let Some(prev) = prev {
            Err(prev)
        } else {
            Ok(())
        }
    }

    fn insert_typ(&mut self, string: StrId, typ: TypId) -> (r: Result<(), TypId>)
        ensures
            final(self).typs@ == old(self).typs@.insert(string.value(), typ),
            final(self).defs@ == old(self).defs@,
            match r {
                Ok(()) => !old(self).typs@.contains_key(string.value()),
                Err(prev) => old(self).typs@.contains_key(string.value()) && prev == old(
                    self,
                ).typs@[string.value()],
            },
    {
        let prev = self.typs.insert(string.get(), typ);
        if let Some(prev) = prev {
            Err(prev)
        } else {
            Ok(())
        }
    }
}

/// A stack of scopes: a name means what the innermost scope that binds it says.
pub struct ScopeStack {
    stack: Vec<Scope>,
}

impl ScopeStack {
    /// The definitions that each scope binds, outermost first.
    pub closed spec fn defs(&self) -> Seq<Map<u32, DefId>> {
        self.stack@.map_values(|s: Scope| s.defs@)
    }

    /// The types that each scope binds, outermost first.
    pub closed spec fn typs(&self) -> Seq<Map<u32, TypId>> {
        self.stack@.map_values(|s: Scope| s.typs@)
    }

    /// No scopes.
    pub fn new() -> (r: Self)
        ensures
            r.defs() == Seq::<Map<u32, DefId>>::empty(),
            r.typs() == Seq::<Map<u32, TypId>>::empty(),
    {
        let r = ScopeStack { stack: Vec::new() };
        proof {
            assert(r.defs() =~= Seq::<Map<u32, DefId>>::empty());
            assert(r.typs() =~= Seq::<Map<u32, TypId>>::empty());
        }
        r
    }

    /// Opens an empty innermost scope.
    pub fn push_scope(&mut self)
        ensures
            final(self).defs() == old(self).defs().push(Map::empty()),
            final(self).typs() == old(self).typs().push(Map::empty()),
    {
        self.stack.push(Scope::new());
        proof {
            assert(self.defs() =~= old(self).defs().push(Map::empty()));
            assert(self.typs() =~= old(self).typs().push(Map::empty()));
        }
    }

    /// Closes the innermost scope, if there is one.
    pub fn pop_scope(&mut self)
        ensures
            final(self).defs() == (if old(self).defs().len() == 0 {
                old(self).defs()
            } else {
                old(self).defs().drop_last()
            }),
            final(self).typs() == (if old(self).typs().len() == 0 {
                old(self).typs()
            } else {
                old(self).typs().drop_last()
            }),
    {
        let _ = self.stack.pop();
        proof {
            if old(self).stack@.len() > 0 {
                assert(self.defs() =~= old(self).defs().drop_last());
                assert(self.typs() =~= old(self).typs().drop_last());
            } else {
                assert(self.defs() =~= old(self).defs());
                assert(self.typs() =~= old(self).typs());
            }
        }
    }

    /// Whether no scope is open.
    pub fn is_empty(&self) -> (r: bool)
        ensures
            r == (self.defs().len() == 0),
            self.defs().len() == self.typs().len(),
    {
        self.stack.len() == 0
    }

    /// The number of open scopes.
    pub closed spec fn depth(&self) -> nat {
        self.stack@.len()
    }

    pub proof fn lemma_depth(&self)
        ensures
            self.defs().len() == self.depth(),
            self.typs().len() == self.depth(),
    {
    }

    /// Binds `string` to definition `def_id` in the innermost scope, which must exist;
    /// gives the definition it was bound to there before, if any, as the error.
    pub fn insert_def(&mut self, string: StrId, def_id: DefId) -> (r: Result<(), DefId>)
        requires
            old(self).defs().len() > 0,
        ensures
            final(self).defs() == old(self).defs().update(
                old(self).defs().len() - 1,
                old(self).defs().last().insert(string.value(), def_id),
            ),
            final(self).typs() == old(self).typs(),
            match r {
                Ok(()) => !old(self).defs().last().contains_key(string.value()),
                Err(prev) => old(self).defs().last().contains_key(string.value()) && prev == old(
                    self,
                ).defs().last()[string.value()],
            },
    {
        let mut top = self.stack.pop().unwrap();
        let r = top.insert_def(string, def_id);
        self.stack.push(top);
        proof {
            assert(self.defs() =~= old(self).defs().update(
                old(self).defs().len() - 1,
                old(self).defs().last().insert(string.value(), def_id),
            ));
            assert(self.typs() =~= old(self).typs());
        }
        r
    }

    /// Binds `string` to type `typ_id` in the innermost scope, which must exist; gives
    /// the type it was bound to there before, if any, as the error.
    pub fn insert_typ(&mut self, string: StrId, typ_id: TypId) -> (r: Result<(), TypId>)
        requires
            old(self).typs().len() > 0,
        ensures
            final(self).typs() == old(self).typs().update(
                old(self).typs().len() - 1,
                old(self).typs().last().insert(string.value(), typ_id),
            ),
            final(self).defs() == old(self).defs(),
            match r {
                Ok(()) => !old(self).typs().last().contains_key(string.value()),
                Err(prev) => old(self).typs().last().contains_key(string.value()) && prev == old(
                    self,
                ).typs().last()[string.value()],
            },
    {
        let mut top = self.stack.pop().unwrap();
        let r = top.insert_typ(string, typ_id);
        self.stack.push(top);
        proof {
            assert(self.typs() =~= old(self).typs().update(
                old(self).typs().len() - 1,
                old(self).typs().last().insert(string.value(), typ_id),
            ));
            assert(self.defs() =~= old(self).defs());
        }
        r
    }

    /// The definition that `string` is bound to in the innermost scope that binds it.
    pub fn get_def(&self, string: StrId) -> (r: Option<DefId>)
        ensures
            r == lookup(self.defs(), string.value()),
    {
        let k = string.get();
        let mut i = self.stack.len();
        proof {
            assert(self.defs().take(i as int) =~= self.defs());
        }
        while i > 0
            invariant
                i <= self.stack@.len(),
                k == string.value(),
                lookup(self.defs(), k) == lookup(self.defs().take(i as int), k),
            decreases i,
        {
            let ghost t = self.defs().take(i as int);
            proof {
                assert(t.last() == self.stack@[i - 1].defs@);
                assert(t.drop_last() =~= self.defs().take(i - 1));
            }
            if let Some(d) = self.stack[i - 1].defs.get(&k) {
                return Some(*d);
            }
            i = i - 1;
        }
        proof {
            assert(self.defs().take(0) =~= Seq::<Map<u32, DefId>>::empty());
        }
        None
    }

    /// The type that `string` is bound to in the innermost scope that binds it.
    pub fn get_typ(&self, string: StrId) -> (r: Option<TypId>)
        ensures
            r == lookup(self.typs(), string.value()),
    {
        let k = string.get();
        let mut i = self.stack.len();
        proof {
            assert(self.typs().take(i as int) =~= self.typs());
        }
        while i > 0
            invariant
                i <= self.stack@.len(),
                k == string.value(),
                lookup(self.typs(), k) == lookup(self.typs().take(i as int), k),
            decreases i,
        {
            let ghost t = self.typs().take(i as int);
            proof {
                assert(t.last() == self.stack@[i - 1].typs@);
                assert(t.drop_last() =~= self.typs().take(i - 1));
            }
            if let Some(d) = self.stack[i - 1].typs.get(&k) {
                return Some(*d);
            }
            i = i - 1;
        }
        proof {
            assert(self.typs().take(0) =~= Seq::<Map<u32, TypId>>::empty());
        }
        None
    }
}

/// A name bound in the innermost scope is found there: what is bound is what is found.
pub proof fn law_lookup_after_insert<V>(scopes: Seq<Map<u32, V>>, k: u32, v: V)
    requires
        scopes.len() > 0,
    ensures
        lookup(scopes.update(scopes.len() - 1, scopes.last().insert(k, v)), k) == Some(v),
{
}

/// Binding a name leaves what every other name means unchanged.
pub proof fn law_lookup_other_name<V>(scopes: Seq<Map<u32, V>>, k: u32, v: V, other: u32)
    requires
        scopes.len() > 0,
        other != k,
    ensures
        lookup(scopes.update(scopes.len() - 1, scopes.last().insert(k, v)), other) == lookup(
            scopes,
            other,
        ),
{
    let s2 = scopes.update(scopes.len() - 1, scopes.last().insert(k, v));
    assert(s2.drop_last() =~= scopes.drop_last());
}

/// Opening a scope changes what no name means, and closing it again gives back the
/// scopes there were.
pub proof fn law_push_then_pop<V>(scopes: Seq<Map<u32, V>>, k: u32)
    ensures
        lookup(scopes.push(Map::empty()), k) == lookup(scopes, k),
        scopes.push(Map::empty()).drop_last() == scopes,
{
    assert(scopes.push(Map::empty()).drop_last() =~= scopes);
}

} // verus!
