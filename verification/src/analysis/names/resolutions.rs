//! What each identifier of an AST was resolved to.
use crate::ast::idents::IdentId;
use crate::tir::def::DefId;
use crate::tir::typ::TypId;
use vstd::prelude::*;

verus! {

broadcast use crate::arena::group_arena_id;

/// What an identifier was resolved to.
#[derive(Debug, Clone, Copy)]
pub enum Kind {
    Def(DefId),
    Typ(TypId),
    Unresolved,
}

/// For each identifier of an AST, by its id, what it was resolved to.
pub struct NameResolutions {
    ident_map: Vec<Kind>,
}

impl NameResolutions {
    /// What each identifier was resolved to, by its id.
    pub closed spec fn kinds(&self) -> Seq<Kind> {
        self.ident_map@
    }

    /// Nothing resolved yet, for `num_idents` identifiers.
    pub fn new(num_idents: usize) -> (r: Self)
        ensures
            r.kinds() == Seq::new(num_idents as nat, |i: int| Kind::Unresolved),
    {
        let mut ident_map: Vec<Kind> = Vec::new();
        let mut i: usize = 0;
        while i < num_idents
            invariant
                i <= num_idents,
                ident_map@ == Seq::new(i as nat, |k: int| Kind::Unresolved),
            decreases num_idents - i,
        {
            ident_map.push(Kind::Unresolved);
            i = i + 1;
            proof {
                assert(ident_map@ =~= Seq::new(i as nat, |k: int| Kind::Unresolved));
            }
        }
        NameResolutions { ident_map }
    }

    /// Records that identifier `id`, which must be one of them, names definition `def_id`.
    pub fn set_def(&mut self, id: IdentId, def_id: DefId)
        requires
            id.value() < old(self).kinds().len(),
        ensures
            final(self).kinds() == old(self).kinds().update(id.value() as int, Kind::Def(def_id)),
    {
        self.ident_map.set(id.idx(), Kind::Def(def_id));
    }

    /// Records that identifier `id`, which must be one of them, names type `typ_id`.
    pub fn set_typ(&mut self, id: IdentId, typ_id: TypId)
        requires
            id.value() < old(self).kinds().len(),
        ensures
            final(self).kinds() == old(self).kinds().update(id.value() as int, Kind::Typ(typ_id)),
    {
        self.ident_map.set(id.idx(), Kind::Typ(typ_id));
    }

    /// The definition that identifier `id`, which must be one of them, names, if it
    /// names one.
    pub fn get_def(&self, id: IdentId) -> (r: Option<DefId>)
        requires
            id.value() < self.kinds().len(),
        ensures
            r == (match self.kinds()[id.value() as int] {
                Kind::Def(d) => Some(d),
                _ => None,
            }),
    {
        match self.ident_map[id.idx()] {
            Kind::Def(def_id) => Some(def_id),
            _ => None,
        }
    }

    /// The type that identifier `id`, which must be one of them, names, if it names one.
    pub fn get_typ(&self, id: IdentId) -> (r: Option<TypId>)
        requires
            id.value() < self.kinds().len(),
        ensures
            r == (match self.kinds()[id.value() as int] {
                Kind::Typ(t) => Some(t),
                _ => None,
            }),
    {
        match self.ident_map[id.idx()] {
            Kind::Typ(typ_id) => Some(typ_id),
            _ => None,
        }
    }
}

/// What was recorded last for an identifier is what is read back: a definition
/// recorded is read as that definition and as no type, and the other way round.
pub proof fn law_read_what_was_recorded(kinds: Seq<Kind>, i: int, d: DefId, t: TypId)
    requires
        0 <= i < kinds.len(),
    ensures
        kinds.update(i, Kind::Def(d))[i] == Kind::Def(d),
        kinds.update(i, Kind::Typ(t))[i] == Kind::Typ(t),
        forall|j: int| 0 <= j < kinds.len() && j != i ==> #[trigger] kinds.update(i, Kind::Def(d))[j] == kinds[j],
{
}

} // verus!
