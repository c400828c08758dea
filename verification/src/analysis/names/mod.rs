//! Name resolution: which definition or type each identifier stands for.
pub mod resolutions;
pub mod scopes;

use crate::arena::ArenaId;
use crate::ast::expr::{ExprId, ExprKind, ExprKindView, ExprView, ExprViewList};
use crate::ast::idents::{IdentId, IdentView};
use crate::ast::typ::{TypeId, TypeKind, TypeKindView, TypeView};
use crate::ast::stmt::{
    CondBlockId, CondBlockListView, CondBlockView, StmtId, StmtKind, StmtKindView, StmtListView,
    StmtView,
};
use crate::ast::printer::{listed_cond_blocks, listed_stmts};
use crate::ast::item::{Fun, FunView, Item, ItemKindView, ParamType, ParamTypeView};
use crate::tir::def::{Def, Defs};
use crate::ast::AstView;
use crate::errors::{add_report, Errors};
use crate::lexer::Span;
use crate::strings::{position_of, Interner, StrId};
use crate::tir::def::DefId;
use crate::tir::typ::{AtomType, TypId, Typs};
use resolutions::{Kind, NameResolutions};
use scopes::{lookup, ScopeStack};
use vstd::prelude::*;
use vstd::string::StringExecFns;

verus! {

broadcast use crate::arena::group_arena_id;

/// What each identifier resolves to, and the scopes that names are looked up in.
pub struct ScopeResolver {
    resolutions: NameResolutions,
    scopes: ScopeStack,
}

impl ScopeResolver {
    /// What each identifier was resolved to, by its id.
    pub closed spec fn kinds(&self) -> Seq<Kind> {
        self.resolutions.kinds()
    }

    /// The definitions that each open scope binds, outermost first.
    pub closed spec fn def_scopes(&self) -> Seq<Map<u32, DefId>> {
        self.scopes.defs()
    }

    /// The types that each open scope binds, outermost first.
    pub closed spec fn typ_scopes(&self) -> Seq<Map<u32, TypId>> {
        self.scopes.typs()
    }

    pub proof fn lemma_depths(&self)
        ensures
            self.def_scopes().len() == self.typ_scopes().len(),
    {
        self.scopes.lemma_depth();
    }

    /// Nothing resolved yet, for `num_idents` identifiers, and no scope open.
    pub fn new(num_idents: usize) -> (r: Self)
        ensures
            r.kinds() == Seq::new(num_idents as nat, |i: int| Kind::Unresolved),
            r.def_scopes() == Seq::<Map<u32, DefId>>::empty(),
            r.typ_scopes() == Seq::<Map<u32, TypId>>::empty(),
    {
        ScopeResolver { resolutions: NameResolutions::new(num_idents), scopes: ScopeStack::new() }
    }

    /// Opens an empty innermost scope.
    pub fn push_scope(&mut self)
        ensures
            final(self).kinds() == old(self).kinds(),
            final(self).def_scopes() == old(self).def_scopes().push(Map::empty()),
            final(self).typ_scopes() == old(self).typ_scopes().push(Map::empty()),
    {
        self.scopes.push_scope();
    }

    /// Closes the innermost scope, which must exist.
    pub fn pop_scope(&mut self)
        requires
            old(self).def_scopes().len() > 0,
        ensures
            final(self).kinds() == old(self).kinds(),
            final(self).def_scopes() == old(self).def_scopes().drop_last(),
            final(self).typ_scopes() == old(self).typ_scopes().drop_last(),
    {
        proof {
            self.scopes.lemma_depth();
        }
        self.scopes.pop_scope();
    }

    /// Declares identifier `ident` as definition `def_id`: records it, and binds its
    /// name in the innermost scope, which must exist; gives the definition the name was
    /// bound to there before, if any, as the error.
    pub fn new_def(&mut self, ident: IdentView, def_id: DefId) -> (r: Result<(), DefId>)
        requires
            ident.wf(),
            ident.id.value() < old(self).kinds().len(),
            old(self).def_scopes().len() > 0,
        ensures
            final(self).kinds() == old(self).kinds().update(ident.id.value() as int, Kind::Def(def_id)),
            final(self).def_scopes() == old(self).def_scopes().update(
                old(self).def_scopes().len() - 1,
                old(self).def_scopes().last().insert(ident.spec_node().str.value(), def_id),
            ),
            final(self).typ_scopes() == old(self).typ_scopes(),
            match r {
                Ok(()) => !old(self).def_scopes().last().contains_key(ident.spec_node().str.value()),
                Err(prev) => old(self).def_scopes().last().contains_key(ident.spec_node().str.value())
                    && prev == old(self).def_scopes().last()[ident.spec_node().str.value()],
            },
    {
        self.resolutions.set_def(ident.id(), def_id);
        self.scopes.insert_def(ident.str_id(), def_id)
    }

    /// Declares identifier `ident` as type `typ_id`: records it, and binds its name in
    /// the innermost scope, which must exist; gives the type the name was bound to
    /// there before, if any, as the error.
    pub fn new_typ(&mut self, ident: IdentView, typ_id: TypId) -> (r: Result<(), TypId>)
        requires
            ident.wf(),
            ident.id.value() < old(self).kinds().len(),
            old(self).typ_scopes().len() > 0,
        ensures
            final(self).kinds() == old(self).kinds().update(ident.id.value() as int, Kind::Typ(typ_id)),
            final(self).typ_scopes() == old(self).typ_scopes().update(
                old(self).typ_scopes().len() - 1,
                old(self).typ_scopes().last().insert(ident.spec_node().str.value(), typ_id),
            ),
            final(self).def_scopes() == old(self).def_scopes(),
            match r {
                Ok(()) => !old(self).typ_scopes().last().contains_key(ident.spec_node().str.value()),
                Err(prev) => old(self).typ_scopes().last().contains_key(ident.spec_node().str.value())
                    && prev == old(self).typ_scopes().last()[ident.spec_node().str.value()],
            },
    {
        self.resolutions.set_typ(ident.id(), typ_id);
        self.scopes.insert_typ(ident.str_id(), typ_id)
    }

    /// Looks the name of `ident` up as a definition; if it is bound, records that
    /// `ident` names that definition. Gives what was found.
    pub fn lookup_def(&mut self, ident: IdentView) -> (r: Option<DefId>)
        requires
            ident.wf(),
            ident.id.value() < old(self).kinds().len(),
        ensures
            r == lookup(old(self).def_scopes(), ident.spec_node().str.value()),
            final(self).kinds() == match r {
                Some(d) => old(self).kinds().update(ident.id.value() as int, Kind::Def(d)),
                None => old(self).kinds(),
            },
            final(self).def_scopes() == old(self).def_scopes(),
            final(self).typ_scopes() == old(self).typ_scopes(),
    {
        let found = self.scopes.get_def(ident.str_id());
        if let Some(d) = found {
            self.resolutions.set_def(ident.id(), d);
        }
        found
    }

    /// Looks the name of `ident` up as a type; if it is bound, records that `ident`
    /// names that type. Gives what was found.
    pub fn lookup_typ(&mut self, ident: IdentView) -> (r: Option<TypId>)
        requires
            ident.wf(),
            ident.id.value() < old(self).kinds().len(),
        ensures
            r == lookup(old(self).typ_scopes(), ident.spec_node().str.value()),
            final(self).kinds() == match r {
                Some(t) => old(self).kinds().update(ident.id.value() as int, Kind::Typ(t)),
                None => old(self).kinds(),
            },
            final(self).def_scopes() == old(self).def_scopes(),
            final(self).typ_scopes() == old(self).typ_scopes(),
    {
        let found = self.scopes.get_typ(ident.str_id());
        if let Some(t) = found {
            self.resolutions.set_typ(ident.id(), t);
        }
        found
    }

    /// Resolves `ident` as a definition: the one its name is bound to, or else what
    /// `err` gives, which is called once, only where the name is unbound. Records
    /// that `ident` names the definition given.
    pub fn resolve_def<F: FnOnce() -> DefId>(&mut self, ident: IdentView, err: F) -> (r: DefId)
        requires
            ident.wf(),
            ident.id.value() < old(self).kinds().len(),
            call_requires(err, ()),
        ensures
            match lookup(old(self).def_scopes(), ident.spec_node().str.value()) {
                Some(d) => r == d,
                None => call_ensures(err, (), r),
            },
            final(self).kinds() == old(self).kinds().update(ident.id.value() as int, Kind::Def(r)),
            final(self).def_scopes() == old(self).def_scopes(),
            final(self).typ_scopes() == old(self).typ_scopes(),
    {
        let def = match self.scopes.get_def(ident.str_id()) {
            Some(d) => d,
            None => err(),
        };
        self.resolutions.set_def(ident.id(), def);
        def
    }

    /// Resolves `ident` as a type: the one its name is bound to, or else what `err`
    /// gives, which is called once, only where the name is unbound. Records that
    /// `ident` names the type given.
    pub fn resolve_typ<F: FnOnce() -> TypId>(&mut self, ident: IdentView, err: F) -> (r: TypId)
        requires
            ident.wf(),
            ident.id.value() < old(self).kinds().len(),
            call_requires(err, ()),
        ensures
            match lookup(old(self).typ_scopes(), ident.spec_node().str.value()) {
                Some(t) => r == t,
                None => call_ensures(err, (), r),
            },
            final(self).kinds() == old(self).kinds().update(ident.id.value() as int, Kind::Typ(r)),
            final(self).def_scopes() == old(self).def_scopes(),
            final(self).typ_scopes() == old(self).typ_scopes(),
    {
        let typ = match self.scopes.get_typ(ident.str_id()) {
            Some(t) => t,
            None => err(),
        };
        self.resolutions.set_typ(ident.id(), typ);
        typ
    }

    /// Records that `ident` names definition `def_id`, without binding its name.
    pub fn record_def(&mut self, ident: IdentView, def_id: DefId)
        requires
            ident.id.value() < old(self).kinds().len(),
        ensures
            final(self).kinds() == old(self).kinds().update(ident.id.value() as int, Kind::Def(def_id)),
            final(self).def_scopes() == old(self).def_scopes(),
            final(self).typ_scopes() == old(self).typ_scopes(),
    {
        self.resolutions.set_def(ident.id(), def_id);
    }

    /// Records that `ident` names type `typ_id`, without binding its name.
    pub fn record_typ(&mut self, ident: IdentView, typ_id: TypId)
        requires
            ident.id.value() < old(self).kinds().len(),
        ensures
            final(self).kinds() == old(self).kinds().update(ident.id.value() as int, Kind::Typ(typ_id)),
            final(self).def_scopes() == old(self).def_scopes(),
            final(self).typ_scopes() == old(self).typ_scopes(),
    {
        self.resolutions.set_typ(ident.id(), typ_id);
    }

    /// What each identifier was resolved to.
    pub fn into_resolutions(self) -> (r: NameResolutions)
        ensures
            r.kinds() == self.kinds(),
    {
        self.resolutions
    }
}

/// The names of the built-in types, each with its atom type, in the order in which they
/// are declared.
pub open spec fn builtin_atom(i: int) -> (Seq<char>, AtomType) {
    if i == 0 {
        (seq!['u', '8'], AtomType::U8)
    } else if i == 1 {
        (seq!['u', '1', '6'], AtomType::U16)
    } else if i == 2 {
        (seq!['u', '3', '2'], AtomType::U32)
    } else if i == 3 {
        (seq!['u', '6', '4'], AtomType::U64)
    } else if i == 4 {
        (seq!['u', 'p', 't', 'r'], AtomType::UPtr)
    } else if i == 5 {
        (seq!['i', '8'], AtomType::I8)
    } else if i == 6 {
        (seq!['i', '1', '6'], AtomType::I16)
    } else if i == 7 {
        (seq!['i', '3', '2'], AtomType::I32)
    } else if i == 8 {
        (seq!['i', '6', '4'], AtomType::I64)
    } else if i == 9 {
        (seq!['i', 'p', 't', 'r'], AtomType::IPtr)
    } else if i == 10 {
        (seq!['b', 'o', 'o', 'l'], AtomType::Bool)
    } else {
        (seq!['v', 'o', 'i', 'd'], AtomType::Void)
    }
}

/// The number of built-in type names.
pub const BUILTIN_COUNT: usize = 12;

/// The built-in type names with their atom types, in the order of [`builtin_atom`].
pub fn builtin_atoms() -> (r: Vec<(&'static str, AtomType)>)
    ensures
        r@.len() == BUILTIN_COUNT,
        forall|i: int| 0 <= i < BUILTIN_COUNT ==> (#[trigger] r@[i]).0@ == builtin_atom(i).0 && r@[i].1
            == builtin_atom(i).1,
{
    proof {
        reveal_strlit("u8");
        reveal_strlit("u16");
        reveal_strlit("u32");
        reveal_strlit("u64");
        reveal_strlit("uptr");
        reveal_strlit("i8");
        reveal_strlit("i16");
        reveal_strlit("i32");
        reveal_strlit("i64");
        reveal_strlit("iptr");
        reveal_strlit("bool");
        reveal_strlit("void");
    }
    let r = vec![
        ("u8", AtomType::U8),
        ("u16", AtomType::U16),
        ("u32", AtomType::U32),
        ("u64", AtomType::U64),
        ("uptr", AtomType::UPtr),
        ("i8", AtomType::I8),
        ("i16", AtomType::I16),
        ("i32", AtomType::I32),
        ("i64", AtomType::I64),
        ("iptr", AtomType::IPtr),
        ("bool", AtomType::Bool),
        ("void", AtomType::Void),
    ];
    proof {
        assert forall|i: int| 0 <= i < BUILTIN_COUNT implies (#[trigger] r@[i]).0@ == builtin_atom(i).0
            && r@[i].1 == builtin_atom(i).1 by {
            if i == 0 { assert(r@[i].0@ =~= builtin_atom(i).0); }
            else if i == 1 { assert(r@[i].0@ =~= builtin_atom(i).0); }
            else if i == 2 { assert(r@[i].0@ =~= builtin_atom(i).0); }
            else if i == 3 { assert(r@[i].0@ =~= builtin_atom(i).0); }
            else if i == 4 { assert(r@[i].0@ =~= builtin_atom(i).0); }
            else if i == 5 { assert(r@[i].0@ =~= builtin_atom(i).0); }
            else if i == 6 { assert(r@[i].0@ =~= builtin_atom(i).0); }
            else if i == 7 { assert(r@[i].0@ =~= builtin_atom(i).0); }
            else if i == 8 { assert(r@[i].0@ =~= builtin_atom(i).0); }
            else if i == 9 { assert(r@[i].0@ =~= builtin_atom(i).0); }
            else if i == 10 { assert(r@[i].0@ =~= builtin_atom(i).0); }
            else { assert(r@[i].0@ =~= builtin_atom(i).0); }
        }
    }
    r
}

/// Each built-in type name is bound to the atom type that has that name: `u32` to
/// `U32`, `u64` to `U64`, and so on.
pub proof fn law_builtin_names_match_atoms(i: int)
    requires
        0 <= i < BUILTIN_COUNT,
    ensures
        builtin_atom(i).1 == AtomType::Void <==> builtin_atom(i).0 == seq!['v', 'o', 'i', 'd'],
        builtin_atom(i).1 == AtomType::Bool <==> builtin_atom(i).0 == seq!['b', 'o', 'o', 'l'],
        builtin_atom(i).1 == AtomType::U8 <==> builtin_atom(i).0 == seq!['u', '8'],
        builtin_atom(i).1 == AtomType::U16 <==> builtin_atom(i).0 == seq!['u', '1', '6'],
        builtin_atom(i).1 == AtomType::U32 <==> builtin_atom(i).0 == seq!['u', '3', '2'],
        builtin_atom(i).1 == AtomType::U64 <==> builtin_atom(i).0 == seq!['u', '6', '4'],
        builtin_atom(i).1 == AtomType::UPtr <==> builtin_atom(i).0 == seq!['u', 'p', 't', 'r'],
        builtin_atom(i).1 == AtomType::I8 <==> builtin_atom(i).0 == seq!['i', '8'],
        builtin_atom(i).1 == AtomType::I16 <==> builtin_atom(i).0 == seq!['i', '1', '6'],
        builtin_atom(i).1 == AtomType::I32 <==> builtin_atom(i).0 == seq!['i', '3', '2'],
        builtin_atom(i).1 == AtomType::I64 <==> builtin_atom(i).0 == seq!['i', '6', '4'],
        builtin_atom(i).1 == AtomType::IPtr <==> builtin_atom(i).0 == seq!['i', 'p', 't', 'r'],
{
}

/// Every atom type has its name among the built-in type names.
pub proof fn law_every_atom_is_builtin(a: AtomType)
    ensures
        exists|i: int| 0 <= i < BUILTIN_COUNT && (#[trigger] builtin_atom(i)).1 == a,
{
    match a {
        AtomType::Void => {
            assert(builtin_atom(11).1 == a);
        },
        AtomType::Bool => {
            assert(builtin_atom(10).1 == a);
        },
        AtomType::U8 => {
            assert(builtin_atom(0).1 == a);
        },
        AtomType::U16 => {
            assert(builtin_atom(1).1 == a);
        },
        AtomType::U32 => {
            assert(builtin_atom(2).1 == a);
        },
        AtomType::U64 => {
            assert(builtin_atom(3).1 == a);
        },
        AtomType::UPtr => {
            assert(builtin_atom(4).1 == a);
        },
        AtomType::I8 => {
            assert(builtin_atom(5).1 == a);
        },
        AtomType::I16 => {
            assert(builtin_atom(6).1 == a);
        },
        AtomType::I32 => {
            assert(builtin_atom(7).1 == a);
        },
        AtomType::I64 => {
            assert(builtin_atom(8).1 == a);
        },
        AtomType::IPtr => {
            assert(builtin_atom(9).1 == a);
        },
    }
}

/// Scope `m` after the first `k` built-in type names that `strs` holds were bound in
/// it to their atom types.
pub open spec fn with_builtins(m: Map<u32, TypId>, strs: Seq<Seq<char>>, k: int) -> Map<u32, TypId>
    decreases k,
{
    if k <= 0 {
        m
    } else {
        let prev = with_builtins(m, strs, k - 1);
        let (name, atom) = builtin_atom(k - 1);
        match position_of(strs, name) {
            Some(id) => prev.insert(id, TypId::from_value((atom.spec_index() + 1) as u32)),
            None => prev,
        }
    }
}

proof fn lemma_builtin_names_distinct(a: int, b: int)
    requires
        0 <= a < BUILTIN_COUNT,
        0 <= b < BUILTIN_COUNT,
        a != b,
    ensures
        builtin_atom(a).0 != builtin_atom(b).0,
{
    let x = builtin_atom(a).0;
    let y = builtin_atom(b).0;
    if x.len() == y.len() {
        if x[0] == y[0] {
            if x.len() > 1 && x[1] != y[1] {
                assert(x[1] != y[1]);
            } else if x.len() > 2 {
                assert(x[2] != y[2]);
            }
        }
    }
}

proof fn lemma_builtins_keep(m: Map<u32, TypId>, strs: Seq<Seq<char>>, i: int, k: int)
    requires
        0 <= i < k <= BUILTIN_COUNT,
        strs.no_duplicates(),
        strs.len() < u32::MAX,
        strs.contains(builtin_atom(i).0),
    ensures
        with_builtins(m, strs, k).contains_key(position_of(strs, builtin_atom(i).0)->0),
        with_builtins(m, strs, k)[position_of(strs, builtin_atom(i).0)->0] == TypId::from_value(
            (builtin_atom(i).1.spec_index() + 1) as u32,
        ),
    decreases k,
{
    let n = builtin_atom(i).0;
    let id = position_of(strs, n)->0;
    if k > i + 1 {
        lemma_builtins_keep(m, strs, i, k - 1);
        let n2 = builtin_atom(k - 1).0;
        lemma_builtin_names_distinct(i, k - 1);
        if strs.contains(n2) {
            let j1 = strs.index_of(n);
            let j2 = strs.index_of(n2);
            assert(strs[j1] == n);
            assert(strs[j2] == n2);
            assert(j1 != j2);
        }
    }
}

/// Once the built-in type names are bound, each one that the interner holds
/// resolves to the atom type of its entry: `u32` to `U32`, `u64` to `U64`, and so on.
pub proof fn law_builtin_name_resolves_to_its_atom(m: Map<u32, TypId>, strs: Seq<Seq<char>>, i: int)
    requires
        0 <= i < BUILTIN_COUNT,
        strs.no_duplicates(),
        strs.len() < u32::MAX,
        strs.contains(builtin_atom(i).0),
    ensures
        with_builtins(m, strs, BUILTIN_COUNT as int).contains_key(
            position_of(strs, builtin_atom(i).0)->0,
        ),
        with_builtins(m, strs, BUILTIN_COUNT as int)[position_of(strs, builtin_atom(i).0)->0]
            == TypId::from_value((builtin_atom(i).1.spec_index() + 1) as u32),
{
    lemma_builtins_keep(m, strs, i, BUILTIN_COUNT as int);
}

/// Binds, in the innermost scope, each built-in type name that `interner` holds to its
/// atom type.
pub fn declare_builtin_types(sr: &mut ScopeResolver, typs: &Typs, interner: &Interner)
    requires
        old(sr).typ_scopes().len() > 0,
        typs.wf(),
        interner.wf(),
    ensures
        final(sr).kinds() == old(sr).kinds(),
        final(sr).def_scopes() == old(sr).def_scopes(),
        final(sr).typ_scopes() == old(sr).typ_scopes().update(
            old(sr).typ_scopes().len() - 1,
            with_builtins(old(sr).typ_scopes().last(), interner@, BUILTIN_COUNT as int),
        ),
{
    let ghost s0 = sr.typ_scopes();
    let ghost n = s0.len() - 1;
    let atoms = builtin_atoms();
    let mut i: usize = 0;
    while i < atoms.len()
        invariant
            typs.wf(),
            interner.wf(),
            atoms@.len() == BUILTIN_COUNT,
            forall|k: int| 0 <= k < BUILTIN_COUNT ==> (#[trigger] atoms@[k]).0@ == builtin_atom(k).0 && atoms@[k].1
                == builtin_atom(k).1,
            i <= atoms@.len(),
            s0.len() > 0,
            n == s0.len() - 1,
            sr.kinds() == old(sr).kinds(),
            sr.def_scopes() == old(sr).def_scopes(),
            s0 == old(sr).typ_scopes(),
            sr.typ_scopes() == s0.update(n, with_builtins(s0.last(), interner@, i as int)),
        decreases atoms.len() - i,
    {
        let (name, atom) = atoms[i];
        match interner.contains(name) {
            Some(str_id) => {
                let typ_id = typs.atom(atom);
                proof {
                    TypId::lemma_from_value((atom.spec_index() + 1) as u32, typ_id);
                    assert(position_of(interner@, name@) == Some(str_id.value()));
                }
                let _ = sr.scopes.insert_typ(str_id, typ_id);
                proof {
                    assert(sr.typ_scopes() =~= s0.update(n, with_builtins(s0.last(), interner@, i + 1)));
                }
            },
            None => {
                proof {
                    assert(position_of(interner@, name@) is None);
                    assert(sr.typ_scopes() =~= s0.update(n, with_builtins(s0.last(), interner@, i + 1)));
                }
            },
        }
        i = i + 1;
    }
}

/// The identifier that type `id` is built on: its name, or the name its pointers
/// point to in the end.
pub open spec fn type_ident(v: AstView, id: TypeId) -> IdentId
    decreases id.value(),
{
    match v.ast.types@[id.value() as int].kind {
        TypeKind::Identifier(x) => x,
        TypeKind::Ptr(inner) => if inner.value() < id.value() {
            type_ident(v, inner)
        } else {
            ArenaId::from_value(0)
        },
    }
}

/// The number of the interned string of identifier `x`.
pub open spec fn ident_key(v: AstView, x: IdentId) -> u32 {
    v.ast.idents@[x.value() as int].str.value()
}

/// The text of identifier `x`.
pub open spec fn ident_name(v: AstView, x: IdentId) -> Seq<char> {
    v.interner@[ident_key(v, x) as int]
}

/// Resolves type `typ`: the identifier it is built on is recorded as the type its name
/// is bound to, or, where no scope binds it, as the error type, with an error.
pub fn resolve_type(sr: &mut ScopeResolver, typs: &Typs, errors: &mut Errors, typ: &TypeView)
    requires
        typ.wf(),
        typs.wf(),
        old(sr).kinds().len() == typ.view.ast.idents@.len(),
    ensures
        final(sr).def_scopes() == old(sr).def_scopes(),
        final(sr).typ_scopes() == old(sr).typ_scopes(),
        final(sr).kinds().len() == old(sr).kinds().len(),
        ({
            let v = typ.view;
            let x = type_ident(v, typ.id);
            match lookup(old(sr).typ_scopes(), ident_key(v, x)) {
                Some(t) => final(sr).kinds() == old(sr).kinds().update(x.value() as int, Kind::Typ(t))
                    && final(errors).reports() == old(errors).reports(),
                None => final(sr).kinds() == old(sr).kinds().update(
                    x.value() as int,
                    Kind::Typ(TypId::from_value(0)),
                ) && final(errors).reports() == add_report(
                    old(errors).reports(),
                    ("unknown type `"@ + ident_name(v, x) + "`"@, v.ast.idents@[x.value() as int].span),
                ),
            }
        }),
    decreases typ.id.value(),
{
    match typ.kind() {
        TypeKindView::Identifier(ident) => {
            match sr.lookup_typ(ident) {
                Some(_) => {},
                None => {
                    let mut msg = String::from_str("unknown type `");
                    msg.append(ident.str());
                    msg.append("`");
                    errors.add(msg, ident.span());
                    let e = typs.error();
                    proof {
                        TypId::lemma_from_value(0, e);
                    }
                    sr.record_typ(ident, e);
                },
            }
        },
        TypeKindView::Ptr(inner) => {
            resolve_type(sr, typs, errors, &inner);
        },
    }
}

/// What resolution has produced so far: what each identifier names, the definitions
/// made, and the errors reported.
pub struct Resolved {
    pub kinds: Seq<Kind>,
    pub defs: Seq<Def>,
    pub reports: Seq<(Seq<char>, Span)>,
}

/// `st` after identifier `x`, used as a value, was resolved in the scopes `ds`: to the
/// definition its name is bound to, or, where none is, to a new definition, with an
/// error.
pub open spec fn resolve_use(v: AstView, ds: Seq<Map<u32, DefId>>, st: Resolved, x: IdentId) -> Resolved {
    match lookup(ds, ident_key(v, x)) {
        Some(d) => Resolved {
            kinds: st.kinds.update(x.value() as int, Kind::Def(d)),
            defs: st.defs,
            reports: st.reports,
        },
        None => Resolved {
            kinds: st.kinds.update(x.value() as int, Kind::Def(ArenaId::from_value(st.defs.len() as u32))),
            defs: st.defs.push(Def { ident: x }),
            reports: add_report(
                st.reports,
                ("unknown identifier `"@ + ident_name(v, x) + "`"@, v.ast.idents@[x.value() as int].span),
            ),
        },
    }
}

/// `st` after every identifier of expression `id` was resolved in the scopes `ds`,
/// from left to right.
#[verifier::opaque]
pub open spec fn resolve_expr_spec(v: AstView, ds: Seq<Map<u32, DefId>>, st: Resolved, id: ExprId) -> Resolved
    decreases id.value() + 1, 0int,
{
    let n = id.value();
    match v.ast.exprs@[n as int].kind {
        ExprKind::Identifier(x) => resolve_use(v, ds, st, x),
        ExprKind::Number(_) => st,
        ExprKind::String(_) => st,
        ExprKind::Group(e) => if e.value() < n {
            resolve_expr_spec(v, ds, st, e)
        } else {
            st
        },
        ExprKind::BinOp { lhs, rhs, .. } => if lhs.value() < n && rhs.value() < n {
            resolve_expr_spec(v, ds, resolve_expr_spec(v, ds, st, lhs), rhs)
        } else {
            st
        },
        ExprKind::UniOp { expr, .. } => if expr.value() < n {
            resolve_expr_spec(v, ds, st, expr)
        } else {
            st
        },
        ExprKind::Index { base, index } => if base.value() < n && index.value() < n {
            resolve_expr_spec(v, ds, resolve_expr_spec(v, ds, st, base), index)
        } else {
            st
        },
        ExprKind::Call { callee, args } => if callee.value() < n {
            resolve_args_spec(
                v,
                ds,
                resolve_expr_spec(v, ds, st, callee),
                v.ast.exprs_lists@.subrange(args.start() as int, args.end() as int),
                n as int,
            )
        } else {
            st
        },
    }
}

/// `st` after the expressions `ids`, each before `bound`, were resolved in order.
#[verifier::opaque]
pub open spec fn resolve_args_spec(
    v: AstView,
    ds: Seq<Map<u32, DefId>>,
    st: Resolved,
    ids: Seq<ExprId>,
    bound: int,
) -> Resolved
    decreases bound, ids.len(),
{
    if ids.len() == 0 {
        st
    } else {
        let before = resolve_args_spec(v, ds, st, ids.drop_last(), bound);
        if ids.last().value() < bound {
            resolve_expr_spec(v, ds, before, ids.last())
        } else {
            before
        }
    }
}

/// The number of identifiers used in expression `id`, counted as often as they are
/// reached.
#[verifier::opaque]
pub open spec fn expr_uses(v: AstView, id: ExprId) -> nat
    decreases id.value() + 1, 0int,
{
    let n = id.value();
    match v.ast.exprs@[n as int].kind {
        ExprKind::Identifier(_) => 1,
        ExprKind::Number(_) => 0,
        ExprKind::String(_) => 0,
        ExprKind::Group(e) => if e.value() < n {
            expr_uses(v, e)
        } else {
            0
        },
        ExprKind::BinOp { lhs, rhs, .. } => if lhs.value() < n && rhs.value() < n {
            expr_uses(v, lhs) + expr_uses(v, rhs)
        } else {
            0
        },
        ExprKind::UniOp { expr, .. } => if expr.value() < n {
            expr_uses(v, expr)
        } else {
            0
        },
        ExprKind::Index { base, index } => if base.value() < n && index.value() < n {
            expr_uses(v, base) + expr_uses(v, index)
        } else {
            0
        },
        ExprKind::Call { callee, args } => if callee.value() < n {
            expr_uses(v, callee) + args_uses(
                v,
                v.ast.exprs_lists@.subrange(args.start() as int, args.end() as int),
                n as int,
            )
        } else {
            0
        },
    }
}

/// The number of identifiers used in the expressions `ids`, each before `bound`.
#[verifier::opaque]
pub open spec fn args_uses(v: AstView, ids: Seq<ExprId>, bound: int) -> nat
    decreases bound, ids.len(),
{
    if ids.len() == 0 {
        0
    } else {
        args_uses(v, ids.drop_last(), bound) + if ids.last().value() < bound {
            expr_uses(v, ids.last())
        } else {
            0
        }
    }
}

/// Resolves each identifier used in expression `expr`, from left to right: it names the
/// definition its name is bound to in the scopes, or, where none is, a new definition,
/// with an error.
pub fn resolve_expr(sr: &mut ScopeResolver, defs: &mut Defs, errors: &mut Errors, expr: &ExprView)
    requires
        expr.wf(),
        old(sr).kinds().len() == expr.view.ast.idents@.len(),
        old(defs)@.len() + expr_uses(expr.view, expr.id) < u32::MAX,
    ensures
        final(sr).def_scopes() == old(sr).def_scopes(),
        final(sr).typ_scopes() == old(sr).typ_scopes(),
        (Resolved { kinds: final(sr).kinds(), defs: final(defs)@, reports: final(errors).reports() })
            == resolve_expr_spec(
            expr.view,
            old(sr).def_scopes(),
            Resolved { kinds: old(sr).kinds(), defs: old(defs)@, reports: old(errors).reports() },
            expr.id,
        ),
        final(defs)@.len() <= old(defs)@.len() + expr_uses(expr.view, expr.id),
        final(sr).kinds().len() == old(sr).kinds().len(),
    decreases expr.id.value(), 1int,
{
    let ghost v = expr.view;
    let ghost ds = sr.def_scopes();
    let ghost st0 = Resolved { kinds: sr.kinds(), defs: defs@, reports: errors.reports() };
    match expr.kind() {
        ExprKindView::Identifier(ident) => {
            match sr.lookup_def(ident) {
                Some(_) => {},
                None => {
                    let mut msg = String::from_str("unknown identifier `");
                    msg.append(ident.str());
                    msg.append("`");
                    errors.add(msg, ident.span());
                    proof {
                        assert(expr_uses(v, expr.id) == 1) by {
                            reveal(expr_uses);
                            reveal(args_uses);
                        }
                    }
                    let d = defs.add(Def { ident: ident.id() });
                    proof {
                        ArenaId::<Def>::lemma_from_value(st0.defs.len() as u32);
                        assert(d == ArenaId::<Def>::from_value(st0.defs.len() as u32));
                    }
                    sr.record_def(ident, d);
                },
            }
            proof {
                reveal(expr_uses);
                reveal(args_uses);
                assert(resolve_expr_spec(v, ds, st0, expr.id) == resolve_use(v, ds, st0, ident.id)) by {
                    reveal(resolve_expr_spec);
                    reveal(resolve_args_spec);
                }
            }
        },
        ExprKindView::Number(_) => {
            proof {
                reveal(expr_uses);
                reveal(args_uses);
                reveal(resolve_expr_spec);
                reveal(resolve_args_spec);
            }
        },
        ExprKindView::String(_) => {
            proof {
                reveal(expr_uses);
                reveal(args_uses);
                reveal(resolve_expr_spec);
                reveal(resolve_args_spec);
            }
        },
        ExprKindView::Group(inner) => {
            proof {
                assert(expr_uses(v, expr.id) == expr_uses(v, inner.id)) by {
                    reveal(expr_uses);
                    reveal(args_uses);
                }
            }
            resolve_expr(sr, defs, errors, &inner);
            proof {
                assert(resolve_expr_spec(v, ds, st0, expr.id) == resolve_expr_spec(v, ds, st0, inner.id)) by {
                    reveal(resolve_expr_spec);
                    reveal(resolve_args_spec);
                }
            }
        },
        ExprKindView::UniOp { expr: inner, .. } => {
            proof {
                assert(expr_uses(v, expr.id) == expr_uses(v, inner.id)) by {
                    reveal(expr_uses);
                    reveal(args_uses);
                }
            }
            resolve_expr(sr, defs, errors, &inner);
            proof {
                assert(resolve_expr_spec(v, ds, st0, expr.id) == resolve_expr_spec(v, ds, st0, inner.id)) by {
                    reveal(resolve_expr_spec);
                    reveal(resolve_args_spec);
                }
            }
        },
        ExprKindView::BinOp { lhs, rhs, .. } => {
            proof {
                assert(expr_uses(v, expr.id) == expr_uses(v, lhs.id) + expr_uses(v, rhs.id)) by {
                    reveal(expr_uses);
                    reveal(args_uses);
                }
            }
            resolve_expr(sr, defs, errors, &lhs);
            let ghost st1 = Resolved { kinds: sr.kinds(), defs: defs@, reports: errors.reports() };
            resolve_expr(sr, defs, errors, &rhs);
            proof {
                assert(resolve_expr_spec(v, ds, st0, expr.id) == resolve_expr_spec(
                    v,
                    ds,
                    resolve_expr_spec(v, ds, st0, lhs.id),
                    rhs.id,
                )) by {
                    reveal(resolve_expr_spec);
                    reveal(resolve_args_spec);
                }
            }
        },
        ExprKindView::Index { base, index } => {
            proof {
                assert(expr_uses(v, expr.id) == expr_uses(v, base.id) + expr_uses(v, index.id)) by {
                    reveal(expr_uses);
                    reveal(args_uses);
                }
            }
            resolve_expr(sr, defs, errors, &base);
            resolve_expr(sr, defs, errors, &index);
            proof {
                assert(resolve_expr_spec(v, ds, st0, expr.id) == resolve_expr_spec(
                    v,
                    ds,
                    resolve_expr_spec(v, ds, st0, base.id),
                    index.id,
                )) by {
                    reveal(resolve_expr_spec);
                    reveal(resolve_args_spec);
                }
            }
        },
        ExprKindView::Call { callee, args } => {
            let ghost n = expr.id.value() as int;
            proof {
                assert(expr_uses(v, expr.id) == expr_uses(v, callee.id) + args_uses(
                    v,
                    args.spec_ids(),
                    n,
                )) by {
                    reveal(expr_uses);
                    reveal(args_uses);
                }
            }
            resolve_expr(sr, defs, errors, &callee);
            let ghost st1 = Resolved { kinds: sr.kinds(), defs: defs@, reports: errors.reports() };
            resolve_args(sr, defs, errors, &args, Ghost(n));
            proof {
                assert(resolve_expr_spec(v, ds, st0, expr.id) == resolve_args_spec(
                    v,
                    ds,
                    resolve_expr_spec(v, ds, st0, callee.id),
                    args.spec_ids(),
                    n,
                )) by {
                    reveal(resolve_expr_spec);
                    reveal(resolve_args_spec);
                }
            }
        },
    }
}

/// Resolves the expressions of `args`, in order.
fn resolve_args(
    sr: &mut ScopeResolver,
    defs: &mut Defs,
    errors: &mut Errors,
    args: &ExprViewList,
    Ghost(n): Ghost<int>,
)
    requires
        args.wf(),
        forall|k: int| 0 <= k < args.spec_ids().len() ==> (#[trigger] args.spec_ids()[k]).value() < n,
        old(sr).kinds().len() == args.view.ast.idents@.len(),
        old(defs)@.len() + args_uses(args.view, args.spec_ids(), n) < u32::MAX,
    ensures
        final(sr).def_scopes() == old(sr).def_scopes(),
        final(sr).typ_scopes() == old(sr).typ_scopes(),
        (Resolved { kinds: final(sr).kinds(), defs: final(defs)@, reports: final(errors).reports() })
            == resolve_args_spec(
            args.view,
            old(sr).def_scopes(),
            Resolved { kinds: old(sr).kinds(), defs: old(defs)@, reports: old(errors).reports() },
            args.spec_ids(),
            n,
        ),
        final(defs)@.len() <= old(defs)@.len() + args_uses(args.view, args.spec_ids(), n),
        final(sr).kinds().len() == old(sr).kinds().len(),
    decreases n, 0int,
{
    let ghost v = args.view;
    let ghost ds = sr.def_scopes();
    let ghost ids = args.spec_ids();
    let ghost st0 = Resolved { kinds: sr.kinds(), defs: defs@, reports: errors.reports() };
    let ghost d0 = defs@.len();
    let items = args.iter();
    proof {
        assert(resolve_args_spec(v, ds, st0, ids.take(0), n) == st0) by {
            reveal(resolve_args_spec);
            reveal(resolve_expr_spec);
        }
        assert(args_uses(v, ids.take(0), n) == 0) by {
            reveal(args_uses);
            reveal(expr_uses);
        }
    }
    let mut i: usize = 0;
    while i < items.len()
        invariant
            i <= items@.len(),
            items@.len() == ids.len(),
            forall|k: int|
                0 <= k < items@.len() ==> (#[trigger] items@[k]).view == v && items@[k].id == ids[k]
                    && items@[k].wf(),
            forall|k: int| 0 <= k < ids.len() ==> (#[trigger] ids[k]).value() < n,
            sr.kinds().len() == v.ast.idents@.len(),
            sr.def_scopes() == ds,
            sr.typ_scopes() == old(sr).typ_scopes(),
            d0 + args_uses(v, ids, n) < u32::MAX,
            defs@.len() <= d0 + args_uses(v, ids.take(i as int), n),
            args_uses(v, ids.take(i as int), n) <= args_uses(v, ids, n),
            (Resolved { kinds: sr.kinds(), defs: defs@, reports: errors.reports() }) == resolve_args_spec(
                v,
                ds,
                st0,
                ids.take(i as int),
                n,
            ),
        decreases items.len() - i,
    {
        let ghost t = ids.take(i + 1);
        proof {
            assert(t.drop_last() =~= ids.take(i as int));
            assert(t.last() == ids[i as int]);
            assert(args_uses(v, t, n) == args_uses(v, ids.take(i as int), n) + expr_uses(v, ids[i as int])) by {
                reveal(args_uses);
                reveal(expr_uses);
            }
            lemma_args_uses_prefix(v, ids, n, i + 1);
        }
        let ghost sti = Resolved { kinds: sr.kinds(), defs: defs@, reports: errors.reports() };
        resolve_expr(sr, defs, errors, &items[i]);
        proof {
            assert(resolve_args_spec(v, ds, st0, t, n) == resolve_expr_spec(
                v,
                ds,
                resolve_args_spec(v, ds, st0, ids.take(i as int), n),
                ids[i as int],
            )) by {
                reveal(resolve_args_spec);
                reveal(resolve_expr_spec);
            }
        }
        i = i + 1;
    }
    proof {
        assert(ids.take(ids.len() as int) =~= ids);
    }
}

/// The identifiers used in a prefix of a list are no more than in the whole list.
proof fn lemma_args_uses_prefix(v: AstView, ids: Seq<ExprId>, n: int, k: int)
    requires
        0 <= k <= ids.len(),
    ensures
        args_uses(v, ids.take(k), n) <= args_uses(v, ids, n),
    decreases ids.len() - k,
{
    if k < ids.len() {
        lemma_args_uses_prefix(v, ids, n, k + 1);
        let t = ids.take(k + 1);
        assert(t.drop_last() =~= ids.take(k));
        assert(args_uses(v, t, n) >= args_uses(v, ids.take(k), n)) by {
            reveal(args_uses);
            reveal(expr_uses);
        }
    } else {
        assert(ids.take(k) =~= ids);
    }
}

/// `st` after type `t` was resolved in the type scopes `ts`, as [`resolve_type`] does.
pub open spec fn resolve_type_spec(v: AstView, ts: Seq<Map<u32, TypId>>, st: Resolved, t: TypeId) -> Resolved {
    let x = type_ident(v, t);
    match lookup(ts, ident_key(v, x)) {
        Some(found) => Resolved {
            kinds: st.kinds.update(x.value() as int, Kind::Typ(found)),
            defs: st.defs,
            reports: st.reports,
        },
        None => Resolved {
            kinds: st.kinds.update(x.value() as int, Kind::Typ(TypId::from_value(0))),
            defs: st.defs,
            reports: add_report(
                st.reports,
                ("unknown type `"@ + ident_name(v, x) + "`"@, v.ast.idents@[x.value() as int].span),
            ),
        },
    }
}

/// Where a walk over statements stands: what was resolved, and the definition scopes.
pub struct Walk {
    pub res: Resolved,
    pub ds: Seq<Map<u32, DefId>>,
}

/// `w` after identifier `x` was declared as a new definition in the innermost scope.
pub open spec fn declare(v: AstView, w: Walk, x: IdentId) -> Walk {
    let d = ArenaId::from_value(w.res.defs.len() as u32);
    Walk {
        res: Resolved {
            kinds: w.res.kinds.update(x.value() as int, Kind::Def(d)),
            defs: w.res.defs.push(Def { ident: x }),
            reports: w.res.reports,
        },
        ds: w.ds.update(w.ds.len() - 1, w.ds.last().insert(ident_key(v, x), d)),
    }
}

/// `w` after the expression `e` was resolved.
pub open spec fn walk_expr(v: AstView, w: Walk, e: ExprId) -> Walk {
    Walk { res: resolve_expr_spec(v, w.ds, w.res, e), ds: w.ds }
}

/// `w` after statement `id` was resolved, the type scopes being `ts`.
#[verifier::opaque]
pub open spec fn walk_stmt(v: AstView, ts: Seq<Map<u32, TypId>>, w: Walk, id: StmtId) -> Walk
    decreases id.value() + 1, 0int, 0int,
{
    let n = id.value() as int;
    match v.ast.stmts@[n].kind {
        StmtKind::Expr(e) => walk_expr(v, w, e),
        StmtKind::VarDecl { ident, expr, typ } => {
            let w1 = walk_expr(v, w, expr);
            let w2 = match typ {
                Some(t) => Walk { res: resolve_type_spec(v, ts, w1.res, t), ds: w1.ds },
                None => w1,
            };
            declare(v, w2, ident)
        },
        StmtKind::Assign { lhs, rhs } => walk_expr(v, walk_expr(v, w, lhs), rhs),
        StmtKind::Return(e) => match e {
            Some(e) => walk_expr(v, w, e),
            None => w,
        },
        StmtKind::If { elifs, els } => {
            let w1 = walk_elifs(v, ts, w, listed_cond_blocks(v.ast, elifs), n);
            match els {
                Some(b) => walk_block(v, ts, w1, listed_stmts(v.ast, b), n),
                None => w1,
            }
        },
        StmtKind::While(b) => walk_cond_block(v, ts, w, b, n),
        StmtKind::Break => w,
        StmtKind::Continue => w,
    }
}

/// `w` after the statements `ids`, each before `bound`, were resolved in order.
#[verifier::opaque]
pub open spec fn walk_stmts(v: AstView, ts: Seq<Map<u32, TypId>>, w: Walk, ids: Seq<StmtId>, bound: int) -> Walk
    decreases bound, 0int, ids.len(),
{
    if ids.len() == 0 {
        w
    } else {
        let before = walk_stmts(v, ts, w, ids.drop_last(), bound);
        if ids.last().value() < bound {
            walk_stmt(v, ts, before, ids.last())
        } else {
            before
        }
    }
}

/// `w` after a block of the statements `ids` was resolved in a scope of its own, for
/// definitions and for types.
#[verifier::opaque]
pub open spec fn walk_block(v: AstView, ts: Seq<Map<u32, TypId>>, w: Walk, ids: Seq<StmtId>, bound: int) -> Walk
    decreases bound, 1int, 0int,
{
    let inner = walk_stmts(
        v,
        ts.push(Map::empty()),
        Walk { res: w.res, ds: w.ds.push(Map::empty()) },
        ids,
        bound,
    );
    Walk { res: inner.res, ds: inner.ds.drop_last() }
}

/// `w` after the condition of `cb` and then its block were resolved.
#[verifier::opaque]
pub open spec fn walk_cond_block(v: AstView, ts: Seq<Map<u32, TypId>>, w: Walk, cb: CondBlockId, bound: int) -> Walk
    decreases bound, 2int, 0int,
{
    let c = v.ast.cond_blocks@[cb.value() as int];
    walk_block(v, ts, walk_expr(v, w, c.cond), listed_stmts(v.ast, c.block), bound)
}

/// `w` after the conditional blocks `cbs` were resolved in order.
#[verifier::opaque]
pub open spec fn walk_elifs(v: AstView, ts: Seq<Map<u32, TypId>>, w: Walk, cbs: Seq<CondBlockId>, bound: int) -> Walk
    decreases bound, 3int, cbs.len(),
{
    if cbs.len() == 0 {
        w
    } else {
        walk_cond_block(v, ts, walk_elifs(v, ts, w, cbs.drop_last(), bound), cbs.last(), bound)
    }
}

/// The number of definitions that resolving statement `id` may make at most.
#[verifier::opaque]
pub open spec fn stmt_uses(v: AstView, id: StmtId) -> nat
    decreases id.value() + 1, 0int, 0int,
{
    let n = id.value() as int;
    match v.ast.stmts@[n].kind {
        StmtKind::Expr(e) => expr_uses(v, e),
        StmtKind::VarDecl { expr, .. } => expr_uses(v, expr) + 1,
        StmtKind::Assign { lhs, rhs } => expr_uses(v, lhs) + expr_uses(v, rhs),
        StmtKind::Return(e) => match e {
            Some(e) => expr_uses(v, e),
            None => 0,
        },
        StmtKind::If { elifs, els } => elifs_uses(v, listed_cond_blocks(v.ast, elifs), n) + match els {
            Some(b) => stmts_uses(v, listed_stmts(v.ast, b), n),
            None => 0,
        },
        StmtKind::While(b) => cond_block_uses(v, b, n),
        StmtKind::Break => 0,
        StmtKind::Continue => 0,
    }
}

/// The number of definitions that resolving the statements `ids` may make at most.
#[verifier::opaque]
pub open spec fn stmts_uses(v: AstView, ids: Seq<StmtId>, bound: int) -> nat
    decreases bound, 0int, ids.len(),
{
    if ids.len() == 0 {
        0
    } else {
        stmts_uses(v, ids.drop_last(), bound) + if ids.last().value() < bound {
            stmt_uses(v, ids.last())
        } else {
            0
        }
    }
}

/// The number of definitions that resolving conditional block `cb` may make at most.
#[verifier::opaque]
pub open spec fn cond_block_uses(v: AstView, cb: CondBlockId, bound: int) -> nat
    decreases bound, 2int, 0int,
{
    let c = v.ast.cond_blocks@[cb.value() as int];
    expr_uses(v, c.cond) + stmts_uses(v, listed_stmts(v.ast, c.block), bound)
}

/// The number of definitions that resolving the conditional blocks `cbs` may make at
/// most.
#[verifier::opaque]
pub open spec fn elifs_uses(v: AstView, cbs: Seq<CondBlockId>, bound: int) -> nat
    decreases bound, 3int, cbs.len(),
{
    if cbs.len() == 0 {
        0
    } else {
        elifs_uses(v, cbs.drop_last(), bound) + cond_block_uses(v, cbs.last(), bound)
    }
}

/// The state of resolution, as a [`Walk`].
pub open spec fn walk_of(sr: ScopeResolver, defs: Seq<Def>, errors: Errors) -> Walk {
    Walk {
        res: Resolved { kinds: sr.kinds(), defs: defs, reports: errors.reports() },
        ds: sr.def_scopes(),
    }
}

/// Resolves statement `stmt`: its expressions and types; a variable declaration makes a
/// new definition and binds its name in the innermost scope, which must exist, shadowing
/// what it meant there; each block is resolved in a scope of its own.
pub fn resolve_stmt(
    sr: &mut ScopeResolver,
    defs: &mut Defs,
    typs: &Typs,
    errors: &mut Errors,
    stmt: &StmtView,
)
    requires
        stmt.wf(),
        typs.wf(),
        old(sr).kinds().len() == stmt.view.ast.idents@.len(),
        old(sr).def_scopes().len() > 0,
        old(defs)@.len() + stmt_uses(stmt.view, stmt.id) < u32::MAX,
    ensures
        final(sr).typ_scopes() == old(sr).typ_scopes(),
        walk_of(*final(sr), final(defs)@, *final(errors)) == walk_stmt(
            stmt.view,
            old(sr).typ_scopes(),
            walk_of(*old(sr), old(defs)@, *old(errors)),
            stmt.id,
        ),
        final(sr).def_scopes().len() == old(sr).def_scopes().len(),
        final(sr).kinds().len() == old(sr).kinds().len(),
        final(defs)@.len() <= old(defs)@.len() + stmt_uses(stmt.view, stmt.id),
    decreases stmt.id.value() + 1, 0int,
{
    let ghost v = stmt.view;
    let ghost ts = sr.typ_scopes();
    let ghost w0 = walk_of(*sr, defs@, *errors);
    let ghost n = stmt.id.value() as int;
    let ghost node = stmt.spec_node();
    proof {
        v.ast.lemma_stmt(stmt.id);
        sr.lemma_depths();
    }
    match stmt.kind() {
        StmtKindView::Expr(e) => {
            proof {
                assert(stmt_uses(v, stmt.id) == expr_uses(v, e.id)) by {
                    reveal(stmt_uses);
                reveal(stmts_uses);
                reveal(cond_block_uses);
                reveal(elifs_uses);
                }
            }
            resolve_expr(sr, defs, errors, &e);
            proof {
                assert(walk_stmt(v, ts, w0, stmt.id) == walk_expr(v, w0, e.id)) by {
                    reveal(walk_stmt);
                reveal(walk_stmts);
                reveal(walk_block);
                reveal(walk_cond_block);
                reveal(walk_elifs);
                }
            }
        },
        StmtKindView::VarDecl { ident, expr, typ } => {
            proof {
                assert(stmt_uses(v, stmt.id) == expr_uses(v, expr.id) + 1) by {
                    reveal(stmt_uses);
                reveal(stmts_uses);
                reveal(cond_block_uses);
                reveal(elifs_uses);
                }
            }
            resolve_expr(sr, defs, errors, &expr);
            let ghost w1 = walk_of(*sr, defs@, *errors);
            match typ {
                Some(t) => {
                    resolve_type(sr, typs, errors, &t);
                },
                None => {},
            }
            let ghost w2 = walk_of(*sr, defs@, *errors);
            let d = defs.add(Def { ident: ident.id() });
            proof {
                ArenaId::<Def>::lemma_from_value(w2.res.defs.len() as u32);
                assert(d == ArenaId::<Def>::from_value(w2.res.defs.len() as u32));
                sr.lemma_depths();
            }
            let _ = sr.new_def(ident, d);
            proof {
                assert(walk_stmt(v, ts, w0, stmt.id) == declare(v, w2, ident.id)) by {
                    reveal(walk_stmt);
                reveal(walk_stmts);
                reveal(walk_block);
                reveal(walk_cond_block);
                reveal(walk_elifs);
                }
            }
        },
        StmtKindView::Assign { lhs, rhs } => {
            proof {
                assert(stmt_uses(v, stmt.id) == expr_uses(v, lhs.id) + expr_uses(v, rhs.id)) by {
                    reveal(stmt_uses);
                reveal(stmts_uses);
                reveal(cond_block_uses);
                reveal(elifs_uses);
                }
            }
            resolve_expr(sr, defs, errors, &lhs);
            resolve_expr(sr, defs, errors, &rhs);
            proof {
                assert(walk_stmt(v, ts, w0, stmt.id) == walk_expr(v, walk_expr(v, w0, lhs.id), rhs.id)) by {
                    reveal(walk_stmt);
                reveal(walk_stmts);
                reveal(walk_block);
                reveal(walk_cond_block);
                reveal(walk_elifs);
                }
            }
        },
        StmtKindView::Return(e) => {
            match e {
                Some(e) => {
                    proof {
                        assert(stmt_uses(v, stmt.id) == expr_uses(v, e.id)) by {
                            reveal(stmt_uses);
                reveal(stmts_uses);
                reveal(cond_block_uses);
                reveal(elifs_uses);
                        }
                    }
                    resolve_expr(sr, defs, errors, &e);
                    proof {
                        assert(walk_stmt(v, ts, w0, stmt.id) == walk_expr(v, w0, e.id)) by {
                            reveal(walk_stmt);
                reveal(walk_stmts);
                reveal(walk_block);
                reveal(walk_cond_block);
                reveal(walk_elifs);
                        }
                    }
                },
                None => {
                    proof {
                        assert(walk_stmt(v, ts, w0, stmt.id) == w0) by {
                            reveal(walk_stmt);
                reveal(walk_stmts);
                reveal(walk_block);
                reveal(walk_cond_block);
                reveal(walk_elifs);
                        }
                    }
                },
            }
        },
        StmtKindView::If { elifs, els } => {
            proof {
                assert(node.kind matches StmtKind::If { elifs: r, .. } && r == elifs.ids);
                let eu = match els {
                    Some(b) => stmts_uses(v, b.spec_ids(), n),
                    None => 0,
                };
                assert(stmt_uses(v, stmt.id) == elifs_uses(v, elifs.spec_ids(), n) + eu) by {
                    reveal(stmt_uses);
                reveal(stmts_uses);
                reveal(cond_block_uses);
                reveal(elifs_uses);
                }
            }
            resolve_if(sr, defs, typs, errors, &elifs, els, Ghost(n));
            proof {
                let w1 = walk_elifs(v, ts, w0, elifs.spec_ids(), n);
                let x = match els {
                    Some(b) => walk_block(v, ts, w1, b.spec_ids(), n),
                    None => w1,
                };
                assert(walk_stmt(v, ts, w0, stmt.id) == x) by {
                    reveal(walk_stmt);
                reveal(walk_stmts);
                reveal(walk_block);
                reveal(walk_cond_block);
                reveal(walk_elifs);
                }
            }
        },
        StmtKindView::While(b) => {
            proof {
                assert(stmt_uses(v, stmt.id) == cond_block_uses(v, b.block, n)) by {
                    reveal(stmt_uses);
                reveal(stmts_uses);
                reveal(cond_block_uses);
                reveal(elifs_uses);
                }
            }
            resolve_cond_block(sr, defs, typs, errors, &b, Ghost(n));
            proof {
                assert(walk_stmt(v, ts, w0, stmt.id) == walk_cond_block(v, ts, w0, b.block, n)) by {
                    reveal(walk_stmt);
                reveal(walk_stmts);
                reveal(walk_block);
                reveal(walk_cond_block);
                reveal(walk_elifs);
                }
            }
        },
        StmtKindView::Break => {
            proof {
                assert(walk_stmt(v, ts, w0, stmt.id) == w0) by {
                    reveal(walk_stmt);
                reveal(walk_stmts);
                reveal(walk_block);
                reveal(walk_cond_block);
                reveal(walk_elifs);
                }
            }
        },
        StmtKindView::Continue => {
            proof {
                assert(walk_stmt(v, ts, w0, stmt.id) == w0) by {
                    reveal(walk_stmt);
                reveal(walk_stmts);
                reveal(walk_block);
                reveal(walk_cond_block);
                reveal(walk_elifs);
                }
            }
        },
    }
}

/// Resolves the conditional blocks of an `if`, in order, then its `else` block if it
/// has one.
fn resolve_if(
    sr: &mut ScopeResolver,
    defs: &mut Defs,
    typs: &Typs,
    errors: &mut Errors,
    elifs: &CondBlockListView,
    els: Option<StmtListView>,
    Ghost(n): Ghost<int>,
)
    requires
        elifs.wf(),
        typs.wf(),
        elifs.view.ast.cond_blocks_below(elifs.ids, n),
        els matches Some(b) ==> b.wf() && b.view == elifs.view && elifs.view.ast.stmts_below(b.ids, n),
        0 <= n,
        old(sr).kinds().len() == elifs.view.ast.idents@.len(),
        old(sr).def_scopes().len() > 0,
        old(defs)@.len() + elifs_uses(elifs.view, elifs.spec_ids(), n) + match els {
            Some(b) => stmts_uses(elifs.view, b.spec_ids(), n),
            None => 0,
        } < u32::MAX,
    ensures
        final(sr).typ_scopes() == old(sr).typ_scopes(),
        walk_of(*final(sr), final(defs)@, *final(errors)) == ({
            let w1 = walk_elifs(
                elifs.view,
                old(sr).typ_scopes(),
                walk_of(*old(sr), old(defs)@, *old(errors)),
                elifs.spec_ids(),
                n,
            );
            match els {
                Some(b) => walk_block(elifs.view, old(sr).typ_scopes(), w1, b.spec_ids(), n),
                None => w1,
            }
        }),
        final(sr).def_scopes().len() == old(sr).def_scopes().len(),
        final(sr).kinds().len() == old(sr).kinds().len(),
        final(defs)@.len() <= old(defs)@.len() + elifs_uses(elifs.view, elifs.spec_ids(), n) + match els {
            Some(b) => stmts_uses(elifs.view, b.spec_ids(), n),
            None => 0,
        },
    decreases n, 4int,
{
    let ghost v = elifs.view;
    let ghost ts = sr.typ_scopes();
    let ghost w0 = walk_of(*sr, defs@, *errors);
    let ghost d0 = defs@.len();
    let ghost cbs = elifs.spec_ids();
    let blocks = elifs.iter();
    proof {
        assert(walk_elifs(v, ts, w0, cbs.take(0), n) == w0) by {
            reveal(walk_stmt);
                reveal(walk_stmts);
                reveal(walk_block);
                reveal(walk_cond_block);
                reveal(walk_elifs);
        }
        assert(elifs_uses(v, cbs.take(0), n) == 0) by {
            reveal(stmt_uses);
                reveal(stmts_uses);
                reveal(cond_block_uses);
                reveal(elifs_uses);
        }
        lemma_elifs_uses_prefix(v, cbs, n, 0);
    }
    let mut i: usize = 0;
    while i < blocks.len()
        invariant
            typs.wf(),
            0 <= n,
            i <= blocks@.len(),
            blocks@.len() == cbs.len(),
            forall|k: int|
                0 <= k < blocks@.len() ==> (#[trigger] blocks@[k]).view == v && blocks@[k].block
                    == cbs[k] && blocks@[k].wf(),
            forall|k: int|
                0 <= k < cbs.len() ==> v.ast.stmts_below(
                    v.ast.cond_blocks@[(#[trigger] cbs[k]).value() as int].block,
                    n,
                ),
            sr.kinds().len() == v.ast.idents@.len(),
            sr.typ_scopes() == ts,
            sr.def_scopes().len() == w0.ds.len(),
            w0.ds.len() > 0,
            d0 + elifs_uses(v, cbs, n) < u32::MAX,
            defs@.len() <= d0 + elifs_uses(v, cbs.take(i as int), n),
            elifs_uses(v, cbs.take(i as int), n) <= elifs_uses(v, cbs, n),
            walk_of(*sr, defs@, *errors) == walk_elifs(v, ts, w0, cbs.take(i as int), n),
        decreases blocks.len() - i,
    {
        let ghost t = cbs.take(i + 1);
        proof {
            assert(t.drop_last() =~= cbs.take(i as int));
            assert(t.last() == cbs[i as int]);
            assert(elifs_uses(v, t, n) == elifs_uses(v, cbs.take(i as int), n) + cond_block_uses(v, cbs[i as int], n)) by {
                reveal(stmt_uses);
                reveal(stmts_uses);
                reveal(cond_block_uses);
                reveal(elifs_uses);
            }
            lemma_elifs_uses_prefix(v, cbs, n, i + 1);
        }
        resolve_cond_block(sr, defs, typs, errors, &blocks[i], Ghost(n));
        proof {
            assert(walk_elifs(v, ts, w0, t, n) == walk_cond_block(
                v,
                ts,
                walk_elifs(v, ts, w0, cbs.take(i as int), n),
                cbs[i as int],
                n,
            )) by {
                reveal(walk_stmt);
                reveal(walk_stmts);
                reveal(walk_block);
                reveal(walk_cond_block);
                reveal(walk_elifs);
            }
        }
        i = i + 1;
    }
    proof {
        assert(cbs.take(cbs.len() as int) =~= cbs);
    }
    match els {
        Some(b) => {
            resolve_block(sr, defs, typs, errors, &b, Ghost(n));
        },
        None => {},
    }
}

/// The definitions that a prefix of a list of conditional blocks may make are no more
/// than those of the whole list.
proof fn lemma_elifs_uses_prefix(v: AstView, cbs: Seq<CondBlockId>, n: int, k: int)
    requires
        0 <= k <= cbs.len(),
    ensures
        elifs_uses(v, cbs.take(k), n) <= elifs_uses(v, cbs, n),
    decreases cbs.len() - k,
{
    if k < cbs.len() {
        lemma_elifs_uses_prefix(v, cbs, n, k + 1);
        let t = cbs.take(k + 1);
        assert(t.drop_last() =~= cbs.take(k));
        assert(elifs_uses(v, t, n) >= elifs_uses(v, cbs.take(k), n)) by {
            reveal(stmt_uses);
                reveal(stmts_uses);
                reveal(cond_block_uses);
                reveal(elifs_uses);
        }
    } else {
        assert(cbs.take(k) =~= cbs);
    }
}

/// The definitions that a prefix of a list of statements may make are no more than
/// those of the whole list.
proof fn lemma_stmts_uses_prefix(v: AstView, ids: Seq<StmtId>, n: int, k: int)
    requires
        0 <= k <= ids.len(),
    ensures
        stmts_uses(v, ids.take(k), n) <= stmts_uses(v, ids, n),
    decreases ids.len() - k,
{
    if k < ids.len() {
        lemma_stmts_uses_prefix(v, ids, n, k + 1);
        let t = ids.take(k + 1);
        assert(t.drop_last() =~= ids.take(k));
        assert(stmts_uses(v, t, n) >= stmts_uses(v, ids.take(k), n)) by {
            reveal(stmt_uses);
                reveal(stmts_uses);
                reveal(cond_block_uses);
                reveal(elifs_uses);
        }
    } else {
        assert(ids.take(k) =~= ids);
    }
}

/// Resolves the condition of `cond_block`, then its block in a scope of its own.
fn resolve_cond_block(
    sr: &mut ScopeResolver,
    defs: &mut Defs,
    typs: &Typs,
    errors: &mut Errors,
    cond_block: &CondBlockView,
    Ghost(n): Ghost<int>,
)
    requires
        cond_block.wf(),
        typs.wf(),
        cond_block.view.ast.stmts_below(cond_block.spec_node().block, n),
        0 <= n,
        old(sr).kinds().len() == cond_block.view.ast.idents@.len(),
        old(sr).def_scopes().len() > 0,
        old(defs)@.len() + cond_block_uses(cond_block.view, cond_block.block, n) < u32::MAX,
    ensures
        final(sr).typ_scopes() == old(sr).typ_scopes(),
        walk_of(*final(sr), final(defs)@, *final(errors)) == walk_cond_block(
            cond_block.view,
            old(sr).typ_scopes(),
            walk_of(*old(sr), old(defs)@, *old(errors)),
            cond_block.block,
            n,
        ),
        final(sr).def_scopes().len() == old(sr).def_scopes().len(),
        final(sr).kinds().len() == old(sr).kinds().len(),
        final(defs)@.len() <= old(defs)@.len() + cond_block_uses(cond_block.view, cond_block.block, n),
    decreases n, 2int,
{
    let ghost v = cond_block.view;
    let ghost ts = sr.typ_scopes();
    let ghost w0 = walk_of(*sr, defs@, *errors);
    let cond = cond_block.cond();
    let block = cond_block.block();
    proof {
        assert(cond_block_uses(v, cond_block.block, n) == expr_uses(v, cond.id) + stmts_uses(
            v,
            block.spec_ids(),
            n,
        )) by {
            reveal(stmt_uses);
                reveal(stmts_uses);
                reveal(cond_block_uses);
                reveal(elifs_uses);
        }
    }
    resolve_expr(sr, defs, errors, &cond);
    resolve_block(sr, defs, typs, errors, &block, Ghost(n));
    proof {
        assert(walk_cond_block(v, ts, w0, cond_block.block, n) == walk_block(
            v,
            ts,
            walk_expr(v, w0, cond.id),
            block.spec_ids(),
            n,
        )) by {
            reveal(walk_stmt);
                reveal(walk_stmts);
                reveal(walk_block);
                reveal(walk_cond_block);
                reveal(walk_elifs);
        }
    }
}

/// Resolves the statements of `block`, in order, in a scope of its own.
fn resolve_block(
    sr: &mut ScopeResolver,
    defs: &mut Defs,
    typs: &Typs,
    errors: &mut Errors,
    block: &StmtListView,
    Ghost(n): Ghost<int>,
)
    requires
        block.wf(),
        typs.wf(),
        forall|k: int| 0 <= k < block.spec_ids().len() ==> (#[trigger] block.spec_ids()[k]).value() < n,
        0 <= n,
        old(sr).kinds().len() == block.view.ast.idents@.len(),
        old(defs)@.len() + stmts_uses(block.view, block.spec_ids(), n) < u32::MAX,
    ensures
        final(sr).typ_scopes() == old(sr).typ_scopes(),
        walk_of(*final(sr), final(defs)@, *final(errors)) == walk_block(
            block.view,
            old(sr).typ_scopes(),
            walk_of(*old(sr), old(defs)@, *old(errors)),
            block.spec_ids(),
            n,
        ),
        final(sr).def_scopes().len() == old(sr).def_scopes().len(),
        final(sr).kinds().len() == old(sr).kinds().len(),
        final(defs)@.len() <= old(defs)@.len() + stmts_uses(block.view, block.spec_ids(), n),
    decreases n, 1int,
{
    let ghost v = block.view;
    let ghost ts = sr.typ_scopes();
    let ghost w0 = walk_of(*sr, defs@, *errors);
    let ghost d0 = defs@.len();
    let ghost ids = block.spec_ids();
    sr.push_scope();
    let ghost w1 = walk_of(*sr, defs@, *errors);
    let stmts = block.iter();
    proof {
        assert(w1 == Walk { res: w0.res, ds: w0.ds.push(Map::empty()) });
        assert(walk_stmts(v, ts.push(Map::empty()), w1, ids.take(0), n) == w1) by {
            reveal(walk_stmt);
                reveal(walk_stmts);
                reveal(walk_block);
                reveal(walk_cond_block);
                reveal(walk_elifs);
        }
        assert(stmts_uses(v, ids.take(0), n) == 0) by {
            reveal(stmt_uses);
                reveal(stmts_uses);
                reveal(cond_block_uses);
                reveal(elifs_uses);
        }
        lemma_stmts_uses_prefix(v, ids, n, 0);
    }
    let mut i: usize = 0;
    while i < stmts.len()
        invariant
            typs.wf(),
            0 <= n,
            i <= stmts@.len(),
            stmts@.len() == ids.len(),
            forall|k: int|
                0 <= k < stmts@.len() ==> (#[trigger] stmts@[k]).view == v && stmts@[k].id == ids[k]
                    && stmts@[k].wf(),
            forall|k: int| 0 <= k < ids.len() ==> (#[trigger] ids[k]).value() < n,
            sr.kinds().len() == v.ast.idents@.len(),
            sr.typ_scopes() == ts.push(Map::empty()),
            sr.def_scopes().len() == w1.ds.len(),
            w1.ds.len() > 0,
            d0 + stmts_uses(v, ids, n) < u32::MAX,
            defs@.len() <= d0 + stmts_uses(v, ids.take(i as int), n),
            stmts_uses(v, ids.take(i as int), n) <= stmts_uses(v, ids, n),
            walk_of(*sr, defs@, *errors) == walk_stmts(v, ts.push(Map::empty()), w1, ids.take(i as int), n),
        decreases stmts.len() - i,
    {
        let ghost t = ids.take(i + 1);
        proof {
            assert(t.drop_last() =~= ids.take(i as int));
            assert(t.last() == ids[i as int]);
            assert(stmts_uses(v, t, n) == stmts_uses(v, ids.take(i as int), n) + stmt_uses(v, ids[i as int])) by {
                reveal(stmt_uses);
                reveal(stmts_uses);
                reveal(cond_block_uses);
                reveal(elifs_uses);
            }
            lemma_stmts_uses_prefix(v, ids, n, i + 1);
        }
        resolve_stmt(sr, defs, typs, errors, &stmts[i]);
        proof {
            assert(walk_stmts(v, ts.push(Map::empty()), w1, t, n) == walk_stmt(
                v,
                ts.push(Map::empty()),
                walk_stmts(v, ts.push(Map::empty()), w1, ids.take(i as int), n),
                ids[i as int],
            )) by {
                reveal(walk_stmt);
                reveal(walk_stmts);
                reveal(walk_block);
                reveal(walk_cond_block);
                reveal(walk_elifs);
            }
        }
        i = i + 1;
    }
    proof {
        assert(ids.take(ids.len() as int) =~= ids);
        assert(ts.push(Map::empty()).drop_last() =~= ts);
        sr.lemma_depths();
    }
    sr.pop_scope();
    proof {
        assert(walk_block(v, ts, w0, ids, n) == Walk {
            res: walk_stmts(v, ts.push(Map::empty()), w1, ids, n).res,
            ds: walk_stmts(v, ts.push(Map::empty()), w1, ids, n).ds.drop_last(),
        }) by {
            reveal(walk_stmt);
                reveal(walk_stmts);
                reveal(walk_block);
                reveal(walk_cond_block);
                reveal(walk_elifs);
        }
    }
}

/// `st` after the types of the first `k` parameters of `f` were resolved.
pub open spec fn param_types_spec(v: AstView, ts: Seq<Map<u32, TypId>>, st: Resolved, f: Fun, k: int) -> Resolved
    decreases k,
{
    if k <= 0 {
        st
    } else {
        let before = param_types_spec(v, ts, st, f, k - 1);
        match v.ast.params@[f.params.start() + k - 1].typ {
            ParamType::Type(t) => resolve_type_spec(v, ts, before, t),
            ParamType::Variadic(_) => before,
        }
    }
}

/// `w` after function `f` was declared in the innermost scope, and the definition that
/// its name stands for: where the scope binds the name already, a duplicate is
/// reported and the earlier definition stands; otherwise the types of its parameters
/// and its return type are resolved.
pub open spec fn declare_fun_spec(v: AstView, ts: Seq<Map<u32, TypId>>, w: Walk, f: Fun) -> (Walk, DefId) {
    let x = f.ident;
    let w1 = declare(v, w, x);
    if w.ds.last().contains_key(ident_key(v, x)) {
        (
            Walk {
                res: Resolved {
                    kinds: w1.res.kinds,
                    defs: w1.res.defs,
                    reports: add_report(
                        w1.res.reports,
                        (
                            "duplicate function definition of `"@ + ident_name(v, x) + "`"@,
                            v.ast.idents@[x.value() as int].span,
                        ),
                    ),
                },
                ds: w1.ds,
            },
            w.ds.last()[ident_key(v, x)],
        )
    } else {
        let r1 = param_types_spec(v, ts, w1.res, f, f.params.end() - f.params.start());
        let r2 = match f.ret_type {
            Some(t) => resolve_type_spec(v, ts, r1, t),
            None => r1,
        };
        (Walk { res: r2, ds: w1.ds }, ArenaId::from_value(w.res.defs.len() as u32))
    }
}

/// `w` after the first `k` parameters of `f` were declared in the innermost scope, a
/// duplicate name being reported.
pub open spec fn declare_params_spec(v: AstView, w: Walk, f: Fun, k: int) -> Walk
    decreases k,
{
    if k <= 0 {
        w
    } else {
        let before = declare_params_spec(v, w, f, k - 1);
        let x = v.ast.params@[f.params.start() + k - 1].ident;
        let after = declare(v, before, x);
        if before.ds.last().contains_key(ident_key(v, x)) {
            Walk {
                res: Resolved {
                    kinds: after.res.kinds,
                    defs: after.res.defs,
                    reports: add_report(
                        after.res.reports,
                        (
                            "duplicate parameter name of `"@ + ident_name(v, x) + "`"@,
                            v.ast.idents@[x.value() as int].span,
                        ),
                    ),
                },
                ds: after.ds,
            }
        } else {
            after
        }
    }
}

/// `w` after function `f` was resolved in a scope of its own: its parameters declared,
/// then the statements of its body resolved.
pub open spec fn resolve_fun_spec(v: AstView, ts: Seq<Map<u32, TypId>>, w: Walk, f: Fun) -> Walk {
    let w1 = declare_params_spec(
        v,
        Walk { res: w.res, ds: w.ds.push(Map::empty()) },
        f,
        f.params.end() - f.params.start(),
    );
    let w2 = match f.body {
        Some(b) => walk_stmts(v, ts.push(Map::empty()), w1, listed_stmts(v.ast, b), v.ast.stmts@.len() as int),
        None => w1,
    };
    Walk { res: w2.res, ds: w2.ds.drop_last() }
}

/// The number of definitions that resolving function `f` may make at most.
pub open spec fn fun_uses(v: AstView, f: Fun) -> nat {
    (1 + (f.params.end() - f.params.start()) + match f.body {
        Some(b) => stmts_uses(v, listed_stmts(v.ast, b), v.ast.stmts@.len() as int),
        None => 0,
    }) as nat
}

/// Declares function `fun` in the innermost scope, which must exist: makes a definition
/// for it and binds its name; where the scope binds the name already, reports a
/// duplicate and gives the earlier definition. Otherwise resolves the types of its
/// parameters and its return type, and gives the new definition.
pub fn declare_fun(
    sr: &mut ScopeResolver,
    defs: &mut Defs,
    typs: &Typs,
    errors: &mut Errors,
    fun: &FunView,
) -> (r: DefId)
    requires
        fun.wf(),
        typs.wf(),
        old(sr).kinds().len() == fun.view.ast.idents@.len(),
        old(sr).def_scopes().len() > 0,
        old(defs)@.len() + 1 < u32::MAX,
    ensures
        final(sr).typ_scopes() == old(sr).typ_scopes(),
        (walk_of(*final(sr), final(defs)@, *final(errors)), r) == declare_fun_spec(
            fun.view,
            old(sr).typ_scopes(),
            walk_of(*old(sr), old(defs)@, *old(errors)),
            *fun.fun,
        ),
        final(sr).def_scopes().len() == old(sr).def_scopes().len(),
        final(sr).kinds().len() == old(sr).kinds().len(),
        final(defs)@.len() == old(defs)@.len() + 1,
{
    let ghost v = fun.view;
    let ghost f = *fun.fun;
    let ghost ts = sr.typ_scopes();
    let ghost w0 = walk_of(*sr, defs@, *errors);
    let ident = fun.ident();
    let def = defs.add(Def { ident: ident.id() });
    proof {
        ArenaId::<Def>::lemma_from_value(w0.res.defs.len() as u32);
        assert(def == ArenaId::<Def>::from_value(w0.res.defs.len() as u32));
        sr.lemma_depths();
    }
    let ghost w1 = declare(v, w0, f.ident);
    match sr.new_def(ident, def) {
        Err(prev) => {
            let mut msg = String::from_str("duplicate function definition of `");
            msg.append(ident.str());
            msg.append("`");
            errors.add(msg, ident.span());
            return prev;
        },
        Ok(()) => {},
    }
    proof {
        assert(walk_of(*sr, defs@, *errors) == w1);
    }
    let params = fun.params();
    let ghost n = f.params.end() - f.params.start();
    let mut i: usize = 0;
    while i < params.len()
        invariant
            typs.wf(),
            fun.wf(),
            v == fun.view,
            f == *fun.fun,
            params@.len() == n,
            i <= n,
            forall|k: int|
                0 <= k < params@.len() ==> (#[trigger] params@[k]).view == v && params@[k].id.value()
                    == f.params.start() + k && params@[k].wf(),
            sr.kinds().len() == v.ast.idents@.len(),
            sr.typ_scopes() == ts,
            sr.def_scopes() == w1.ds,
            defs@ == w1.res.defs,
            walk_of(*sr, defs@, *errors) == (Walk { res: param_types_spec(v, ts, w1.res, f, i as int), ds: w1.ds }),
        decreases params.len() - i,
    {
        let param = &params[i];
        match param.typ() {
            ParamTypeView::Type(typ) => {
                resolve_type(sr, typs, errors, &typ);
            },
            ParamTypeView::Variadic(_) => {},
        }
        i = i + 1;
    }
    match fun.ret_type() {
        Some(t) => {
            resolve_type(sr, typs, errors, &t);
        },
        None => {},
    }
    def
}

/// Resolves function `fun` in a scope of its own: declares each parameter there,
/// reporting a duplicate name, then resolves the statements of its body.
pub fn resolve_fun(
    sr: &mut ScopeResolver,
    defs: &mut Defs,
    typs: &Typs,
    errors: &mut Errors,
    fun: &FunView,
)
    requires
        fun.wf(),
        typs.wf(),
        old(sr).kinds().len() == fun.view.ast.idents@.len(),
        old(defs)@.len() + fun_uses(fun.view, *fun.fun) < u32::MAX,
    ensures
        final(sr).typ_scopes() == old(sr).typ_scopes(),
        walk_of(*final(sr), final(defs)@, *final(errors)) == resolve_fun_spec(
            fun.view,
            old(sr).typ_scopes(),
            walk_of(*old(sr), old(defs)@, *old(errors)),
            *fun.fun,
        ),
        final(sr).def_scopes().len() == old(sr).def_scopes().len(),
        final(sr).kinds().len() == old(sr).kinds().len(),
        final(defs)@.len() <= old(defs)@.len() + fun_uses(fun.view, *fun.fun),
{
    let ghost v = fun.view;
    let ghost f = *fun.fun;
    let ghost ts = sr.typ_scopes();
    let ghost w0 = walk_of(*sr, defs@, *errors);
    let ghost d0 = defs@.len();
    sr.push_scope();
    let ghost w1 = walk_of(*sr, defs@, *errors);
    proof {
        assert(w1 == Walk { res: w0.res, ds: w0.ds.push(Map::empty()) });
    }
    let params = fun.params();
    let ghost n = f.params.end() - f.params.start();
    proof {
        assert(d0 + n < u32::MAX);
    }
    let mut i: usize = 0;
    while i < params.len()
        invariant
            fun.wf(),
            v == fun.view,
            f == *fun.fun,
            params@.len() == n,
            i <= n,
            forall|k: int|
                0 <= k < params@.len() ==> (#[trigger] params@[k]).view == v && params@[k].id.value()
                    == f.params.start() + k && params@[k].wf(),
            sr.kinds().len() == v.ast.idents@.len(),
            sr.typ_scopes() == ts.push(Map::empty()),
            sr.def_scopes().len() == w1.ds.len(),
            w1.ds.len() > 0,
            d0 + fun_uses(v, f) < u32::MAX,
            d0 + n < u32::MAX,
            defs@.len() == d0 + i,
            walk_of(*sr, defs@, *errors) == declare_params_spec(v, w1, f, i as int),
        decreases params.len() - i,
    {
        let param = &params[i];
        let ident = param.ident();
        let ghost before = walk_of(*sr, defs@, *errors);
        let def = defs.add(Def { ident: ident.id() });
        proof {
            ArenaId::<Def>::lemma_from_value(before.res.defs.len() as u32);
            assert(def == ArenaId::<Def>::from_value(before.res.defs.len() as u32));
            sr.lemma_depths();
            v.ast.lemma_param(param.id);
        }
        match sr.new_def(ident, def) {
            Err(_) => {
                let mut msg = String::from_str("duplicate parameter name of `");
                msg.append(ident.str());
                msg.append("`");
                errors.add(msg, ident.span());
            },
            Ok(()) => {},
        }
        i = i + 1;
    }
    let ghost w2 = walk_of(*sr, defs@, *errors);
    match fun.body() {
        Some(body) => {
            let ghost ids = body.spec_ids();
            let ghost bound = v.ast.stmts@.len() as int;
            proof {
                assert forall|k: int| 0 <= k < ids.len() implies (#[trigger] ids[k]).value() < bound by {
                    v.ast.lemma_stmts_list(body.ids.start() + k);
                }
            }
            let stmts = body.iter();
            let mut j: usize = 0;
            proof {
                assert(walk_stmts(v, ts.push(Map::empty()), w2, ids.take(0), bound) == w2) by {
                    reveal(walk_stmt);
                reveal(walk_stmts);
                reveal(walk_block);
                reveal(walk_cond_block);
                reveal(walk_elifs);
                }
                assert(stmts_uses(v, ids.take(0), bound) == 0) by {
                    reveal(stmt_uses);
                    reveal(stmts_uses);
                    reveal(cond_block_uses);
                    reveal(elifs_uses);
                }
                lemma_stmts_uses_prefix(v, ids, bound, 0);
            }
            while j < stmts.len()
                invariant
                    typs.wf(),
                    0 <= bound,
                    j <= stmts@.len(),
                    stmts@.len() == ids.len(),
                    forall|k: int|
                        0 <= k < stmts@.len() ==> (#[trigger] stmts@[k]).view == v && stmts@[k].id
                            == ids[k] && stmts@[k].wf(),
                    forall|k: int| 0 <= k < ids.len() ==> (#[trigger] ids[k]).value() < bound,
                    sr.kinds().len() == v.ast.idents@.len(),
                    sr.typ_scopes() == ts.push(Map::empty()),
                    sr.def_scopes().len() == w1.ds.len(),
                    w1.ds.len() > 0,
                    w2.res.defs.len() + stmts_uses(v, ids, bound) < u32::MAX,
                    defs@.len() <= w2.res.defs.len() + stmts_uses(v, ids.take(j as int), bound),
                    stmts_uses(v, ids.take(j as int), bound) <= stmts_uses(v, ids, bound),
                    walk_of(*sr, defs@, *errors) == walk_stmts(
                        v,
                        ts.push(Map::empty()),
                        w2,
                        ids.take(j as int),
                        bound,
                    ),
                decreases stmts.len() - j,
            {
                let ghost t = ids.take(j + 1);
                proof {
                    assert(t.drop_last() =~= ids.take(j as int));
                    assert(t.last() == ids[j as int]);
                    assert(stmts_uses(v, t, bound) == stmts_uses(v, ids.take(j as int), bound)
                        + stmt_uses(v, ids[j as int])) by {
                        reveal(stmt_uses);
                        reveal(stmts_uses);
                        reveal(cond_block_uses);
                        reveal(elifs_uses);
                    }
                    lemma_stmts_uses_prefix(v, ids, bound, j + 1);
                }
                resolve_stmt(sr, defs, typs, errors, &stmts[j]);
                proof {
                    assert(walk_stmts(v, ts.push(Map::empty()), w2, t, bound) == walk_stmt(
                        v,
                        ts.push(Map::empty()),
                        walk_stmts(v, ts.push(Map::empty()), w2, ids.take(j as int), bound),
                        ids[j as int],
                    )) by {
                        reveal(walk_stmt);
                reveal(walk_stmts);
                reveal(walk_block);
                reveal(walk_cond_block);
                reveal(walk_elifs);
                    }
                }
                j = j + 1;
            }
            proof {
                assert(ids.take(ids.len() as int) =~= ids);
            }
        },
        None => {},
    }
    proof {
        assert(ts.push(Map::empty()).drop_last() =~= ts);
        sr.lemma_depths();
    }
    sr.pop_scope();
}

/// `w` after the functions of the first `k` items were declared.
pub open spec fn declare_items_spec(v: AstView, ts: Seq<Map<u32, TypId>>, w: Walk, k: int) -> Walk
    decreases k,
{
    if k <= 0 {
        w
    } else {
        match v.ast.items@[k - 1] {
            Item::Fun(f) => declare_fun_spec(v, ts, declare_items_spec(v, ts, w, k - 1), f).0,
        }
    }
}

/// `w` after the functions of the first `k` items were resolved.
pub open spec fn resolve_items_spec(v: AstView, ts: Seq<Map<u32, TypId>>, w: Walk, k: int) -> Walk
    decreases k,
{
    if k <= 0 {
        w
    } else {
        match v.ast.items@[k - 1] {
            Item::Fun(f) => resolve_fun_spec(v, ts, resolve_items_spec(v, ts, w, k - 1), f),
        }
    }
}

/// The definitions that resolving the functions of the first `k` items may make.
pub open spec fn items_uses(v: AstView, k: int) -> nat
    decreases k,
{
    if k <= 0 {
        0
    } else {
        items_uses(v, k - 1) + match v.ast.items@[k - 1] {
            Item::Fun(f) => fun_uses(v, f),
        }
    }
}

proof fn lemma_items_uses_prefix(v: AstView, j: int, k: int)
    requires
        0 <= j <= k,
    ensures
        items_uses(v, j) <= items_uses(v, k),
    decreases k - j,
{
    if j < k {
        lemma_items_uses_prefix(v, j, k - 1);
    }
}

/// The type scopes in which the functions of a program are resolved: the built-in
/// types that `strs` names, and the global scope.
pub open spec fn program_typ_scopes(strs: Seq<Seq<char>>) -> Seq<Map<u32, TypId>> {
    seq![with_builtins(Map::empty(), strs, BUILTIN_COUNT as int), Map::empty()]
}

/// What resolving every name of the program of `v` produces, starting from the
/// definitions `defs` and the reports `reports`: first each function is declared in the
/// global scope, then each is resolved.
pub open spec fn resolve_names_spec(v: AstView, defs: Seq<Def>, reports: Seq<(Seq<char>, Span)>) -> Resolved {
    let ts = program_typ_scopes(v.interner@);
    let n = v.ast.items@.len() as int;
    let w0 = Walk {
        res: Resolved {
            kinds: Seq::new(v.ast.idents@.len(), |i: int| Kind::Unresolved),
            defs: defs,
            reports: reports,
        },
        ds: seq![Map::empty(), Map::empty()],
    };
    resolve_items_spec(v, ts, declare_items_spec(v, ts, w0, n), n).res
}

/// Resolves every name of the program of `view`: declares each function in the global
/// scope, inside the scope of the built-in types, then resolves each function. New
/// definitions go to `defs`, errors to `errors`.
pub fn resolve_names(view: AstView, defs: &mut Defs, typs: &mut Typs, errors: &mut Errors) -> (r: NameResolutions)
    requires
        view.wf(),
        old(typs).wf(),
        old(defs)@.len() + view.ast.items@.len() + items_uses(view, view.ast.items@.len() as int) < u32::MAX,
    ensures
        *final(typs) == *old(typs),
        ({
            let res = resolve_names_spec(view, old(defs)@, old(errors).reports());
            &&& r.kinds() == res.kinds
            &&& final(defs)@ == res.defs
            &&& final(errors).reports() == res.reports
        }),
{
    let ghost v = view;
    let ghost d0 = defs@.len();
    let ghost n = view.ast.items@.len() as int;
    let ghost ts = program_typ_scopes(view.interner@);
    let mut sr = ScopeResolver::new(view.ast.idents.len());
    sr.push_scope();
    declare_builtin_types(&mut sr, typs, view.interner);
    sr.push_scope();
    let ghost w0 = walk_of(sr, defs@, *errors);
    proof {
        assert(sr.typ_scopes() =~= ts);
        assert(sr.def_scopes() =~= seq![Map::<u32, DefId>::empty(), Map::<u32, DefId>::empty()]);
    }
    let items = view.items();
    let mut i: usize = 0;
    while i < items.len()
        invariant
            view.wf(),
            typs.wf(),
            v == view,
            items@.len() == n,
            i <= n,
            forall|k: int|
                0 <= k < items@.len() ==> (#[trigger] items@[k]).view == v && items@[k].id.value() == k
                    && items@[k].wf(),
            sr.kinds().len() == v.ast.idents@.len(),
            sr.typ_scopes() == ts,
            sr.def_scopes().len() == 2,
            d0 + n + items_uses(v, n) < u32::MAX,
            defs@.len() == d0 + i,
            walk_of(sr, defs@, *errors) == declare_items_spec(v, ts, w0, i as int),
        decreases items.len() - i,
    {
        match items[i].kind() {
            ItemKindView::Fun(fun) => {
                declare_fun(&mut sr, defs, typs, errors, &fun);
            },
        }
        i = i + 1;
    }
    let ghost w1 = walk_of(sr, defs@, *errors);
    let mut j: usize = 0;
    proof {
        lemma_items_uses_prefix(v, 0, n);
    }
    while j < items.len()
        invariant
            view.wf(),
            typs.wf(),
            v == view,
            items@.len() == n,
            j <= n,
            forall|k: int|
                0 <= k < items@.len() ==> (#[trigger] items@[k]).view == v && items@[k].id.value() == k
                    && items@[k].wf(),
            sr.kinds().len() == v.ast.idents@.len(),
            sr.typ_scopes() == ts,
            sr.def_scopes().len() == 2,
            d0 + n + items_uses(v, n) < u32::MAX,
            defs@.len() <= d0 + n + items_uses(v, j as int),
            items_uses(v, j as int) <= items_uses(v, n),
            walk_of(sr, defs@, *errors) == resolve_items_spec(v, ts, w1, j as int),
        decreases items.len() - j,
    {
        proof {
            lemma_items_uses_prefix(v, j + 1, n);
        }
        match items[j].kind() {
            ItemKindView::Fun(fun) => {
                resolve_fun(&mut sr, defs, typs, errors, &fun);
            },
        }
        j = j + 1;
    }
    proof {
        sr.lemma_depths();
    }
    sr.pop_scope();
    sr.pop_scope();
    sr.into_resolutions()
}

/// Resolving a statement changes only the innermost definition scope.
proof fn lemma_stmt_outer(v: AstView, ts: Seq<Map<u32, TypId>>, w: Walk, id: StmtId)
    requires
        w.ds.len() > 0,
    ensures
        walk_stmt(v, ts, w, id).ds.len() == w.ds.len(),
        walk_stmt(v, ts, w, id).ds.drop_last() == w.ds.drop_last(),
    decreases id.value() + 1, 0int, 0int,
{
    reveal(walk_stmt);
    reveal(walk_stmts);
    reveal(walk_block);
    reveal(walk_cond_block);
    reveal(walk_elifs);
    let n = id.value() as int;
    match v.ast.stmts@[n].kind {
        StmtKind::VarDecl { ident, expr, typ } => {
            let w1 = walk_expr(v, w, expr);
            let w2 = match typ {
                Some(t) => Walk { res: resolve_type_spec(v, ts, w1.res, t), ds: w1.ds },
                None => w1,
            };
            let d = declare(v, w2, ident);
            assert(d.ds.drop_last() =~= w.ds.drop_last());
        },
        StmtKind::If { elifs, els } => {
            let cbs = listed_cond_blocks(v.ast, elifs);
            lemma_elifs_outer(v, ts, w, cbs, n);
            let w1 = walk_elifs(v, ts, w, cbs, n);
            match els {
                Some(b) => {
                    lemma_block_outer(v, ts, w1, listed_stmts(v.ast, b), n);
                },
                None => {},
            }
        },
        StmtKind::While(b) => {
            lemma_cond_block_outer(v, ts, w, b, n);
        },
        _ => {},
    }
}

/// Resolving statements in order changes only the innermost definition scope.
proof fn lemma_stmts_outer(v: AstView, ts: Seq<Map<u32, TypId>>, w: Walk, ids: Seq<StmtId>, bound: int)
    requires
        w.ds.len() > 0,
    ensures
        walk_stmts(v, ts, w, ids, bound).ds.len() == w.ds.len(),
        walk_stmts(v, ts, w, ids, bound).ds.drop_last() == w.ds.drop_last(),
    decreases bound, 0int, ids.len(),
{
    reveal(walk_stmt);
    reveal(walk_stmts);
    reveal(walk_block);
    reveal(walk_cond_block);
    reveal(walk_elifs);
    if ids.len() > 0 {
        lemma_stmts_outer(v, ts, w, ids.drop_last(), bound);
        if ids.last().value() < bound {
            lemma_stmt_outer(v, ts, walk_stmts(v, ts, w, ids.drop_last(), bound), ids.last());
        }
    }
}

/// The declarations made inside a block are not seen after it: resolving a block leaves
/// the definition scopes as they were.
pub proof fn law_block_scope_is_closed(v: AstView, ts: Seq<Map<u32, TypId>>, w: Walk, ids: Seq<StmtId>, bound: int)
    ensures
        walk_block(v, ts, w, ids, bound).ds == w.ds,
{
    lemma_block_outer(v, ts, w, ids, bound);
}

proof fn lemma_block_outer(v: AstView, ts: Seq<Map<u32, TypId>>, w: Walk, ids: Seq<StmtId>, bound: int)
    ensures
        walk_block(v, ts, w, ids, bound).ds == w.ds,
    decreases bound, 1int, 0int,
{
    reveal(walk_stmt);
    reveal(walk_stmts);
    reveal(walk_block);
    reveal(walk_cond_block);
    reveal(walk_elifs);
    let w1 = Walk { res: w.res, ds: w.ds.push(Map::empty()) };
    lemma_stmts_outer(v, ts.push(Map::empty()), w1, ids, bound);
    assert(w1.ds.drop_last() =~= w.ds);
    let inner = walk_stmts(v, ts.push(Map::empty()), w1, ids, bound);
    assert(inner.ds.drop_last() =~= w.ds);
}

proof fn lemma_cond_block_outer(v: AstView, ts: Seq<Map<u32, TypId>>, w: Walk, cb: CondBlockId, bound: int)
    ensures
        walk_cond_block(v, ts, w, cb, bound).ds == w.ds,
    decreases bound, 2int, 0int,
{
    reveal(walk_stmt);
    reveal(walk_stmts);
    reveal(walk_block);
    reveal(walk_cond_block);
    reveal(walk_elifs);
    let c = v.ast.cond_blocks@[cb.value() as int];
    lemma_block_outer(v, ts, walk_expr(v, w, c.cond), listed_stmts(v.ast, c.block), bound);
}

proof fn lemma_elifs_outer(v: AstView, ts: Seq<Map<u32, TypId>>, w: Walk, cbs: Seq<CondBlockId>, bound: int)
    ensures
        walk_elifs(v, ts, w, cbs, bound).ds == w.ds,
    decreases bound, 3int, cbs.len(),
{
    reveal(walk_stmt);
    reveal(walk_stmts);
    reveal(walk_block);
    reveal(walk_cond_block);
    reveal(walk_elifs);
    if cbs.len() > 0 {
        lemma_elifs_outer(v, ts, w, cbs.drop_last(), bound);
        lemma_cond_block_outer(v, ts, walk_elifs(v, ts, w, cbs.drop_last(), bound), cbs.last(), bound);
    }
}

/// Identifier `x` is used in expression `id`.
#[verifier::opaque]
pub open spec fn expr_has_ident(v: AstView, id: ExprId, x: IdentId) -> bool
    decreases id.value() + 1, 0int,
{
    let n = id.value();
    match v.ast.exprs@[n as int].kind {
        ExprKind::Identifier(y) => y == x,
        ExprKind::Number(_) => false,
        ExprKind::String(_) => false,
        ExprKind::Group(e) => e.value() < n && expr_has_ident(v, e, x),
        ExprKind::BinOp { lhs, rhs, .. } => lhs.value() < n && rhs.value() < n && (expr_has_ident(
            v,
            lhs,
            x,
        ) || expr_has_ident(v, rhs, x)),
        ExprKind::UniOp { expr, .. } => expr.value() < n && expr_has_ident(v, expr, x),
        ExprKind::Index { base, index } => base.value() < n && index.value() < n && (
        expr_has_ident(v, base, x) || expr_has_ident(v, index, x)),
        ExprKind::Call { callee, args } => callee.value() < n && (expr_has_ident(v, callee, x)
            || args_have_ident(
            v,
            v.ast.exprs_lists@.subrange(args.start() as int, args.end() as int),
            n as int,
            x,
        )),
    }
}

/// Identifier `x` is used in one of the expressions `ids` that come before `bound`.
#[verifier::opaque]
pub open spec fn args_have_ident(v: AstView, ids: Seq<ExprId>, bound: int, x: IdentId) -> bool
    decreases bound, ids.len(),
{
    if ids.len() == 0 {
        false
    } else {
        args_have_ident(v, ids.drop_last(), bound, x) || (ids.last().value() < bound
            && expr_has_ident(v, ids.last(), x))
    }
}

/// Every definition bound in the scopes `ds` is among the first `n` made.
pub open spec fn defs_below(ds: Seq<Map<u32, DefId>>, n: int) -> bool {
    forall|i: int, k: u32|
        0 <= i < ds.len() && #[trigger] ds[i].contains_key(k) ==> ds[i][k].value() < n
}

/// `k` names one of the first `n` definitions.
pub open spec fn def_below(k: Kind, n: int) -> bool {
    match k {
        Kind::Def(d) => d.value() < n,
        _ => false,
    }
}

/// Each entry of `b` is that of `a`, or names one of the first `n` definitions.
pub open spec fn kept_or_below(a: Seq<Kind>, b: Seq<Kind>, n: int) -> bool {
    &&& a.len() == b.len()
    &&& forall|y: int| 0 <= y < a.len() ==> #[trigger] b[y] == a[y] || def_below(b[y], n)
}

/// What resolving from `st` to `r` leaves: `r` has as many entries and at least as
/// many definitions; where the scopes held only definitions already made and `r` made
/// fewer than `u32::MAX`, every entry is kept or names a definition of `r`.
pub open spec fn resolved_base(ds: Seq<Map<u32, DefId>>, st: Resolved, r: Resolved) -> bool {
    &&& st.defs.len() <= r.defs.len()
    &&& r.kinds.len() == st.kinds.len()
    &&& defs_below(ds, st.defs.len() as int) && r.defs.len() < u32::MAX ==> kept_or_below(
        st.kinds,
        r.kinds,
        r.defs.len() as int,
    )
}

/// The scopes held only definitions already made, and fewer than `u32::MAX` were made.
pub open spec fn bounded(ds: Seq<Map<u32, DefId>>, st: Resolved, r: Resolved) -> bool {
    defs_below(ds, st.defs.len() as int) && r.defs.len() < u32::MAX
}

proof fn lemma_lookup_below(ds: Seq<Map<u32, DefId>>, k: u32, n: int)
    requires
        defs_below(ds, n),
    ensures
        lookup(ds, k) matches Some(d) ==> d.value() < n,
    decreases ds.len(),
{
    if ds.len() > 0 {
        if ds.last().contains_key(k) {
            assert(ds[ds.len() - 1].contains_key(k));
        } else {
            let d = ds.drop_last();
            assert forall|i: int, k2: u32| 0 <= i < d.len() && #[trigger] d[i].contains_key(k2)
                implies d[i][k2].value() < n by {
                assert(ds[i] == d[i]);
            }
            lemma_lookup_below(d, k, n);
        }
    }
}

proof fn lemma_chain_base(ds: Seq<Map<u32, DefId>>, st: Resolved, s1: Resolved, r: Resolved)
    requires
        resolved_base(ds, st, s1),
        resolved_base(ds, s1, r),
    ensures
        resolved_base(ds, st, r),
        bounded(ds, st, r) ==> bounded(ds, st, s1) && bounded(ds, s1, r),
        bounded(ds, st, r) ==> forall|y: int|
            0 <= y < st.kinds.len() && def_below(s1.kinds[y], s1.defs.len() as int) ==> def_below(
                #[trigger] r.kinds[y],
                r.defs.len() as int,
            ),
{
    if bounded(ds, st, r) {
        assert(defs_below(ds, s1.defs.len() as int));
        assert forall|y: int| 0 <= y < st.kinds.len() implies #[trigger] r.kinds[y] == st.kinds[y]
            || def_below(r.kinds[y], r.defs.len() as int) by {
            assert(r.kinds[y] == s1.kinds[y] || def_below(r.kinds[y], r.defs.len() as int));
            assert(s1.kinds[y] == st.kinds[y] || def_below(s1.kinds[y], s1.defs.len() as int));
        }
        assert forall|y: int|
            0 <= y < st.kinds.len() && def_below(s1.kinds[y], s1.defs.len() as int) implies def_below(
            #[trigger] r.kinds[y],
            r.defs.len() as int,
        ) by {
            assert(r.kinds[y] == s1.kinds[y] || def_below(r.kinds[y], r.defs.len() as int));
        }
    }
}

proof fn lemma_resolve_expr_below(v: AstView, ds: Seq<Map<u32, DefId>>, st: Resolved, e: ExprId)
    requires
        forall|x: IdentId| #[trigger] expr_has_ident(v, e, x) ==> 0 <= x.value() < st.kinds.len(),
    ensures
        resolved_base(ds, st, resolve_expr_spec(v, ds, st, e)),
        bounded(ds, st, resolve_expr_spec(v, ds, st, e)) ==> forall|x: IdentId|
            #[trigger] expr_has_ident(v, e, x) ==> def_below(
                resolve_expr_spec(v, ds, st, e).kinds[x.value() as int],
                resolve_expr_spec(v, ds, st, e).defs.len() as int,
            ),
    decreases e.value() + 1, 0int,
{
    reveal(resolve_expr_spec);
    reveal(resolve_args_spec);
    reveal(expr_has_ident);
    reveal(args_have_ident);
    let n = e.value();
    let r = resolve_expr_spec(v, ds, st, e);
    match v.ast.exprs@[n as int].kind {
        ExprKind::Identifier(y) => {
            assert(expr_has_ident(v, e, y));
            if defs_below(ds, st.defs.len() as int) {
                lemma_lookup_below(ds, ident_key(v, y), st.defs.len() as int);
            }
            if bounded(ds, st, r) {
                assert forall|x: IdentId| #[trigger] expr_has_ident(v, e, x) implies def_below(
                    r.kinds[x.value() as int],
                    r.defs.len() as int,
                ) by {
                    assert(x == y);
                }
            }
        },
        ExprKind::Number(_) => {},
        ExprKind::String(_) => {},
        ExprKind::Group(a) => {
            if a.value() < n {
                assert forall|x: IdentId| #[trigger] expr_has_ident(v, a, x) implies expr_has_ident(v, e, x) by {}
                lemma_resolve_expr_below(v, ds, st, a);
                if bounded(ds, st, r) {
                    assert forall|x: IdentId| #[trigger] expr_has_ident(v, e, x) implies def_below(
                        r.kinds[x.value() as int],
                        r.defs.len() as int,
                    ) by {
                        assert(expr_has_ident(v, a, x));
                    }
                }
            }
        },
        ExprKind::BinOp { lhs, rhs, .. } => {
            if lhs.value() < n && rhs.value() < n {
                assert forall|x: IdentId| #[trigger] expr_has_ident(v, lhs, x) implies expr_has_ident(v, e, x) by {}
                assert forall|x: IdentId| #[trigger] expr_has_ident(v, rhs, x) implies expr_has_ident(v, e, x) by {}
                lemma_resolve_expr_below(v, ds, st, lhs);
                let s1 = resolve_expr_spec(v, ds, st, lhs);
                lemma_resolve_expr_below(v, ds, s1, rhs);
                lemma_chain_base(ds, st, s1, r);
                if bounded(ds, st, r) {
                    assert forall|x: IdentId| #[trigger] expr_has_ident(v, e, x) implies def_below(
                        r.kinds[x.value() as int],
                        r.defs.len() as int,
                    ) by {
                        if expr_has_ident(v, lhs, x) {
                            assert(def_below(s1.kinds[x.value() as int], s1.defs.len() as int));
                        } else {
                            assert(expr_has_ident(v, rhs, x));
                        }
                    }
                }
            }
        },
        ExprKind::UniOp { expr, .. } => {
            if expr.value() < n {
                assert forall|x: IdentId| #[trigger] expr_has_ident(v, expr, x) implies expr_has_ident(v, e, x) by {}
                lemma_resolve_expr_below(v, ds, st, expr);
                if bounded(ds, st, r) {
                    assert forall|x: IdentId| #[trigger] expr_has_ident(v, e, x) implies def_below(
                        r.kinds[x.value() as int],
                        r.defs.len() as int,
                    ) by {
                        assert(expr_has_ident(v, expr, x));
                    }
                }
            }
        },
        ExprKind::Index { base, index } => {
            if base.value() < n && index.value() < n {
                assert forall|x: IdentId| #[trigger] expr_has_ident(v, base, x) implies expr_has_ident(v, e, x) by {}
                assert forall|x: IdentId| #[trigger] expr_has_ident(v, index, x) implies expr_has_ident(v, e, x) by {}
                lemma_resolve_expr_below(v, ds, st, base);
                let s1 = resolve_expr_spec(v, ds, st, base);
                lemma_resolve_expr_below(v, ds, s1, index);
                lemma_chain_base(ds, st, s1, r);
                if bounded(ds, st, r) {
                    assert forall|x: IdentId| #[trigger] expr_has_ident(v, e, x) implies def_below(
                        r.kinds[x.value() as int],
                        r.defs.len() as int,
                    ) by {
                        if expr_has_ident(v, base, x) {
                            assert(def_below(s1.kinds[x.value() as int], s1.defs.len() as int));
                        } else {
                            assert(expr_has_ident(v, index, x));
                        }
                    }
                }
            }
        },
        ExprKind::Call { callee, args } => {
            if callee.value() < n {
                let ids = v.ast.exprs_lists@.subrange(args.start() as int, args.end() as int);
                assert forall|x: IdentId| #[trigger] expr_has_ident(v, callee, x) implies expr_has_ident(v, e, x) by {}
                assert forall|x: IdentId| #[trigger] args_have_ident(v, ids, n as int, x) implies expr_has_ident(v, e, x) by {}
                lemma_resolve_expr_below(v, ds, st, callee);
                let s1 = resolve_expr_spec(v, ds, st, callee);
                lemma_resolve_args_below(v, ds, s1, ids, n as int);
                lemma_chain_base(ds, st, s1, r);
                if bounded(ds, st, r) {
                    assert forall|x: IdentId| #[trigger] expr_has_ident(v, e, x) implies def_below(
                        r.kinds[x.value() as int],
                        r.defs.len() as int,
                    ) by {
                        if expr_has_ident(v, callee, x) {
                            assert(def_below(s1.kinds[x.value() as int], s1.defs.len() as int));
                        } else {
                            assert(args_have_ident(v, ids, n as int, x));
                        }
                    }
                }
            }
        },
    }
}

proof fn lemma_resolve_args_below(
    v: AstView,
    ds: Seq<Map<u32, DefId>>,
    st: Resolved,
    ids: Seq<ExprId>,
    bound: int,
)
    requires
        forall|x: IdentId| #[trigger] args_have_ident(v, ids, bound, x) ==> 0 <= x.value()
            < st.kinds.len(),
    ensures
        resolved_base(ds, st, resolve_args_spec(v, ds, st, ids, bound)),
        bounded(ds, st, resolve_args_spec(v, ds, st, ids, bound)) ==> forall|x: IdentId|
            #[trigger] args_have_ident(v, ids, bound, x) ==> def_below(
                resolve_args_spec(v, ds, st, ids, bound).kinds[x.value() as int],
                resolve_args_spec(v, ds, st, ids, bound).defs.len() as int,
            ),
    decreases bound, ids.len(),
{
    reveal(resolve_expr_spec);
    reveal(resolve_args_spec);
    reveal(expr_has_ident);
    reveal(args_have_ident);
    if ids.len() > 0 {
        let d = ids.drop_last();
        assert forall|x: IdentId| #[trigger] args_have_ident(v, d, bound, x) implies args_have_ident(v, ids, bound, x) by {}
        lemma_resolve_args_below(v, ds, st, d, bound);
        let s1 = resolve_args_spec(v, ds, st, d, bound);
        let r = resolve_args_spec(v, ds, st, ids, bound);
        if ids.last().value() < bound {
            assert forall|x: IdentId| #[trigger] expr_has_ident(v, ids.last(), x) implies args_have_ident(v, ids, bound, x) by {}
            lemma_resolve_expr_below(v, ds, s1, ids.last());
            lemma_chain_base(ds, st, s1, r);
            if bounded(ds, st, r) {
                assert forall|x: IdentId| #[trigger] args_have_ident(v, ids, bound, x) implies def_below(
                    r.kinds[x.value() as int],
                    r.defs.len() as int,
                ) by {
                    if args_have_ident(v, d, bound, x) {
                        assert(def_below(s1.kinds[x.value() as int], s1.defs.len() as int));
                    } else {
                        assert(expr_has_ident(v, ids.last(), x));
                    }
                }
            }
        } else if bounded(ds, st, r) {
            assert forall|x: IdentId| #[trigger] args_have_ident(v, ids, bound, x) implies def_below(
                r.kinds[x.value() as int],
                r.defs.len() as int,
            ) by {
                assert(args_have_ident(v, d, bound, x));
            }
        }
    }
}

/// A variable's initializer is resolved before the variable is declared: no
/// identifier of the initializer names the definition that the declaration makes,
/// so in `var n = n + 1;` the `n` of `n + 1` names the `n` declared before; and
/// after the declaration its name, looked up in the scopes, names the definition it
/// made, so a later `return n;` names the new variable. The scopes must hold only
/// definitions already made, and the identifiers of the statement must have entries.
pub proof fn law_initializer_does_not_see_its_variable(
    v: AstView,
    ts: Seq<Map<u32, TypId>>,
    w: Walk,
    id: StmtId,
    x: IdentId,
)
    requires
        0 <= id.value() < v.ast.stmts@.len(),
        v.ast.stmts@[id.value() as int].kind matches StmtKind::VarDecl { ident, expr, typ } && x
            != ident && expr_has_ident(v, expr, x) && ident.value() < w.res.kinds.len() && (forall|
            y: IdentId,
        | #[trigger] expr_has_ident(v, expr, y) ==> y.value() < w.res.kinds.len()) && (typ matches Some(
            t,
        ) ==> type_ident(v, t).value() < w.res.kinds.len()),
        defs_below(w.ds, w.res.defs.len() as int),
        walk_stmt(v, ts, w, id).res.defs.len() < u32::MAX,
        w.ds.len() > 0,
    ensures
        v.ast.stmts@[id.value() as int].kind matches StmtKind::VarDecl { ident, .. } && walk_stmt(
            v,
            ts,
            w,
            id,
        ).res.kinds[x.value() as int] != walk_stmt(v, ts, w, id).res.kinds[ident.value() as int],
        v.ast.stmts@[id.value() as int].kind matches StmtKind::VarDecl { ident, .. } && ({
            let fin = walk_stmt(v, ts, w, id);
            let d = ArenaId::<Def>::from_value((fin.res.defs.len() - 1) as u32);
            &&& fin.res.kinds[ident.value() as int] == Kind::Def(d)
            &&& lookup(fin.ds, ident_key(v, ident)) == Some(d)
        }),
{
    reveal(walk_stmt);
    match v.ast.stmts@[id.value() as int].kind {
        StmtKind::VarDecl { ident, expr, typ } => {
            let w1 = walk_expr(v, w, expr);
            lemma_resolve_expr_below(v, w.ds, w.res, expr);
            let w2 = match typ {
                Some(t) => Walk { res: resolve_type_spec(v, ts, w1.res, t), ds: w1.ds },
                None => w1,
            };
            let fin = declare(v, w2, ident);
            assert(walk_stmt(v, ts, w, id) == fin);
            let l = w1.res.defs.len() as int;
            assert(w2.res.defs.len() == l);
            assert(w2.res.kinds.len() == w.res.kinds.len());
            let xi = x.value() as int;
            assert(def_below(w1.res.kinds[xi], l));
            assert(xi != ident.value() as int);
            assert(fin.res.kinds[ident.value() as int] == Kind::Def(ArenaId::from_value(l as u32)));
            assert(fin.ds.last().contains_key(ident_key(v, ident)));
            assert(lookup(fin.ds, ident_key(v, ident)) == Some(ArenaId::<Def>::from_value(l as u32)));
            match typ {
                Some(t) => {
                    let ty = type_ident(v, t);
                    if ty.value() as int == xi {
                        assert(fin.res.kinds[xi] is Typ);
                    } else {
                        assert(fin.res.kinds[xi] == w1.res.kinds[xi]);
                    }
                },
                None => {
                    assert(fin.res.kinds[xi] == w1.res.kinds[xi]);
                },
            }
        },
        _ => {},
    }
}

} // verus!
