//! The types of the typed IR, each stored once: equal types get equal ids.
use vstd::prelude::*;

verus! {

/// A type that is not built from others.
#[derive(Debug, Clone, Copy, PartialEq, Eq, Hash, Structural)]
pub enum AtomType {
    Void,
    Bool,
    U8,
    U16,
    U32,
    U64,
    UPtr,
    I8,
    I16,
    I32,
    I64,
    IPtr,
}

/// The number of atom types.
pub const ATOM_COUNT: u32 = 12;

impl AtomType {
    /// The position of the atom in the order of its declaration.
    pub open spec fn spec_index(self) -> u32 {
        match self {
            AtomType::Void => 0,
            AtomType::Bool => 1,
            AtomType::U8 => 2,
            AtomType::U16 => 3,
            AtomType::U32 => 4,
            AtomType::U64 => 5,
            AtomType::UPtr => 6,
            AtomType::I8 => 7,
            AtomType::I16 => 8,
            AtomType::I32 => 9,
            AtomType::I64 => 10,
            AtomType::IPtr => 11,
        }
    }

    /// The atom at position `i` of the order of declaration.
    pub open spec fn spec_nth(i: int) -> AtomType {
        if i == 0 {
            AtomType::Void
        } else if i == 1 {
            AtomType::Bool
        } else if i == 2 {
            AtomType::U8
        } else if i == 3 {
            AtomType::U16
        } else if i == 4 {
            AtomType::U32
        } else if i == 5 {
            AtomType::U64
        } else if i == 6 {
            AtomType::UPtr
        } else if i == 7 {
            AtomType::I8
        } else if i == 8 {
            AtomType::I16
        } else if i == 9 {
            AtomType::I32
        } else if i == 10 {
            AtomType::I64
        } else {
            AtomType::IPtr
        }
    }

    /// The position of the atom in the order of its declaration.
    pub fn index(self) -> (r: u32)
        ensures
            r == self.spec_index(),
            r < ATOM_COUNT,
    {
        match self {
            AtomType::Void => 0,
            AtomType::Bool => 1,
            AtomType::U8 => 2,
            AtomType::U16 => 3,
            AtomType::U32 => 4,
            AtomType::U64 => 5,
            AtomType::UPtr => 6,
            AtomType::I8 => 7,
            AtomType::I16 => 8,
            AtomType::I32 => 9,
            AtomType::I64 => 10,
            AtomType::IPtr => 11,
        }
    }

    /// Every atom type, in the order of declaration.
    pub fn all() -> (r: Vec<AtomType>)
        ensures
            r@.len() == ATOM_COUNT,
            forall|i: int| 0 <= i < ATOM_COUNT ==> (#[trigger] r@[i]).spec_index() == i,
            forall|i: int| 0 <= i < ATOM_COUNT ==> r@[i] == AtomType::spec_nth(i),
    {
        vec![
            AtomType::Void,
            AtomType::Bool,
            AtomType::U8,
            AtomType::U16,
            AtomType::U32,
            AtomType::U64,
            AtomType::UPtr,
            AtomType::I8,
            AtomType::I16,
            AtomType::I32,
            AtomType::I64,
            AtomType::IPtr,
        ]
    }
}

/// The index of the atom at position `i` is `i`, and an atom is the one at its index.
pub proof fn lemma_atom_index(a: AtomType, i: int)
    requires
        0 <= i < ATOM_COUNT,
    ensures
        AtomType::spec_nth(i).spec_index() == i,
        AtomType::spec_nth(a.spec_index() as int) == a,
{
}

/// The id of a type in a [`Typs`].
#[derive(Debug, Clone, Copy, PartialEq, Eq, Hash, Structural)]
pub struct TypId {
    id: u32,
}

impl TypId {
    /// The position that the id names.
    pub closed spec fn value(self) -> u32 {
        self.id
    }

    /// The id of position `id`.
    pub closed spec fn from_value(id: u32) -> Self {
        TypId { id }
    }

    /// Ids are determined by their positions.
    pub proof fn lemma_from_value(id: u32, t: TypId)
        ensures
            TypId::from_value(id).value() == id,
            t.value() == id ==> t == TypId::from_value(id),
    {
    }

    fn new(id: u32) -> (r: Self)
        ensures
            r.value() == id,
    {
        TypId { id }
    }

    /// The position that the id names.
    pub fn get(self) -> (r: u32)
        ensures
            r == self.value(),
    {
        self.id
    }
}

/// The id of a function type in a [`Typs`].
#[derive(Debug, Clone, Copy, PartialEq, Eq, Hash, Structural)]
pub struct FunTypeId {
    id: u32,
}

impl FunTypeId {
    /// The position that the id names.
    pub closed spec fn value(self) -> u32 {
        self.id
    }

    fn new(id: u32) -> (r: Self)
        ensures
            r.value() == id,
    {
        FunTypeId { id }
    }

    /// The position that the id names.
    pub fn get(self) -> (r: u32)
        ensures
            r == self.value(),
    {
        self.id
    }
}

/// A function type: parameter types, return type, and whether further arguments
/// may follow.
#[derive(Debug, Clone, PartialEq, Eq, Hash)]
pub struct FunType {
    pub params: Vec<TypId>,
    pub ret_type: TypId,
    pub varargs: bool,
}

/// A function type as a plain value.
pub struct FunTypeView {
    pub params: Seq<TypId>,
    pub ret_type: TypId,
    pub varargs: bool,
}

impl View for FunType {
    type V = FunTypeView;

    open spec fn view(&self) -> FunTypeView {
        FunTypeView { params: self.params@, ret_type: self.ret_type, varargs: self.varargs }
    }
}

/// A type.
#[derive(Debug, Clone, Copy, PartialEq, Eq, Hash, Structural)]
pub enum Type {
    Atom(AtomType),
    Ptr(TypId),
    Fun(FunTypeId),
    Error,
}

impl Type {
    /// Whether this is the type of an erroneous expression.
    pub fn is_error(&self) -> (r: bool)
        ensures
            r == (*self is Error),
    {
        match self {
            Type::Error => true,
            _ => false,
        }
    }
}

/// The types met so far, each stored once, and the function types they name.
#[derive(Debug)]
pub struct Typs {
    types: Vec<Type>,
    funs: Vec<FunType>,
}

/// The position of the first occurrence of `x` in `s`, if it occurs.
pub open spec fn position<T>(s: Seq<T>, x: T) -> Option<int> {
    if exists|i: int| 0 <= i < s.len() && s[i] == x {
        Some(choose|i: int| 0 <= i < s.len() && s[i] == x)
    } else {
        None
    }
}

/// No value occurs twice in `s`.
pub open spec fn distinct<T>(s: Seq<T>) -> bool {
    forall|i: int, j: int| 0 <= i < j < s.len() ==> s[i] != s[j]
}

/// The first positions hold the error type and then each atom type in order.
pub open spec fn starts_with_atoms(s: Seq<Type>) -> bool {
    &&& s.len() > ATOM_COUNT
    &&& s[0] == Type::Error
    &&& forall|i: int| 0 <= i < ATOM_COUNT ==> s[i + 1] == Type::Atom(AtomType::spec_nth(i))
}

impl Typs {
    /// The types, in the order they were met.
    pub closed spec fn types(&self) -> Seq<Type> {
        self.types@
    }

    /// The function types, in the order they were met.
    pub closed spec fn funs(&self) -> Seq<FunTypeView> {
        self.funs@.map_values(|f: FunType| f@)
    }

    /// No type or function type is stored twice, the atoms come first, and the ids fit
    /// their positions.
    pub closed spec fn wf(&self) -> bool {
        &&& distinct(self.types())
        &&& distinct(self.funs())
        &&& starts_with_atoms(self.types())
        &&& self.types@.len() <= u32::MAX
        &&& self.funs@.len() <= u32::MAX
    }

    /// The id that `typ` has, or would get if it were added now.
    pub open spec fn id_for(&self, typ: Type) -> u32 {
        match position(self.types(), typ) {
            Some(i) => i as u32,
            None => self.types().len() as u32,
        }
    }

    /// The types after `typ` was added, if it was not there.
    pub open spec fn with(&self, typ: Type) -> Seq<Type> {
        if self.types().contains(typ) {
            self.types()
        } else {
            self.types().push(typ)
        }
    }

    /// The id that function type `f` has, or would get if it were added now.
    pub open spec fn fun_id_for(&self, f: FunTypeView) -> u32 {
        match position(self.funs(), f) {
            Some(i) => i as u32,
            None => self.funs().len() as u32,
        }
    }

    /// The function types after `f` was added, if it was not there.
    pub open spec fn with_fun(&self, f: FunTypeView) -> Seq<FunTypeView> {
        if self.funs().contains(f) {
            self.funs()
        } else {
            self.funs().push(f)
        }
    }

    /// There is room to add a type and a function type: each new id stays below
    /// `u32::MAX`.
    pub open spec fn has_room(&self) -> bool {
        self.types().len() < u32::MAX && self.funs().len() < u32::MAX
    }

    pub proof fn lemma_wf(&self)
        requires
            self.wf(),
        ensures
            distinct(self.types()),
            distinct(self.funs()),
            starts_with_atoms(self.types()),
    {
    }

    /// Types holding the error type and the atom types only.
    pub fn new() -> (r: Self)
        ensures
            r.wf(),
            r.types().len() == ATOM_COUNT + 1,
            r.funs().len() == 0,
    {
        let mut types: Vec<Type> = Vec::new();
        types.push(Type::Error);
        let all = AtomType::all();
        let mut i: usize = 0;
        while i < all.len()
            invariant
                all@.len() == ATOM_COUNT,
                forall|k: int| 0 <= k < ATOM_COUNT ==> all@[k] == AtomType::spec_nth(k),
                i <= all@.len(),
                types@.len() == i + 1,
                types@[0] == Type::Error,
                forall|k: int| 0 <= k < i ==> types@[k + 1] == Type::Atom(AtomType::spec_nth(k)),
            decreases all.len() - i,
        {
            types.push(Type::Atom(all[i]));
            i = i + 1;
        }
        let r = Typs { types, funs: Vec::new() };
        proof {
            assert(r.funs() =~= Seq::<FunTypeView>::empty());
            assert forall|a: int, b: int| 0 <= a < b < r.types().len() implies r.types()[a]
                != r.types()[b] by {
                if a > 0 {
                    lemma_atom_index(AtomType::spec_nth(a - 1), a - 1);
                    lemma_atom_index(AtomType::spec_nth(b - 1), b - 1);
                }
            }
        }
        r
    }

    /// The id of atom type `atom`.
    pub fn atom(&self, atom: AtomType) -> (r: TypId)
        requires
            self.wf(),
        ensures
            r.value() == atom.spec_index() + 1,
            self.types()[r.value() as int] == Type::Atom(atom),
            r.value() == self.id_for(Type::Atom(atom)),
    {
        proof {
            self.lemma_id_of_atom(atom);
        }
        TypId::new(atom.index() + 1)
    }

    /// The id of the error type.
    pub fn error(&self) -> (r: TypId)
        requires
            self.wf(),
        ensures
            r.value() == 0,
            self.types()[0] == Type::Error,
            r.value() == self.id_for(Type::Error),
    {
        proof {
            self.lemma_id_of_error();
        }
        TypId::new(0)
    }

    /// The id of a pointer to `inner`, added if it is new.
    pub fn ptr(&mut self, inner: TypId) -> (r: TypId)
        requires
            old(self).wf(),
            old(self).has_room(),
        ensures
            final(self).wf(),
            final(self).types() == old(self).with(Type::Ptr(inner)),
            final(self).funs() == old(self).funs(),
            r.value() == old(self).id_for(Type::Ptr(inner)),
            final(self).types()[r.value() as int] == Type::Ptr(inner),
    {
        self.insert(Type::Ptr(inner))
    }

    /// The ids of function type `fun` and of the type that names it, each added if
    /// it is new.
    pub fn fun(&mut self, fun: FunType) -> (r: (TypId, FunTypeId))
        requires
            old(self).wf(),
            old(self).has_room(),
        ensures
            final(self).wf(),
            final(self).funs() == old(self).with_fun(fun@),
            r.1.value() == old(self).fun_id_for(fun@),
            final(self).funs()[r.1.value() as int] == fun@,
            final(self).types() == old(self).with(Type::Fun(r.1)),
            r.0.value() == old(self).id_for(Type::Fun(r.1)),
            final(self).types()[r.0.value() as int] == Type::Fun(r.1),
    {
        let ghost f = fun@;
        let fid = self.insert_fun(fun);
        let ghost mid = *self;
        let typ = self.insert(Type::Fun(fid));
        proof {
            assert(mid.types() == old(self).types());
        }
        (typ, fid)
    }

    /// The function type that the type `id` stands for, if it is a function type.
    pub open spec fn fun_named(&self, id: TypId) -> Option<FunTypeView> {
        if id.value() < self.types().len() {
            match self.types()[id.value() as int] {
                Type::Fun(fid) => if fid.value() < self.funs().len() {
                    Some(self.funs()[fid.value() as int])
                } else {
                    None
                },
                _ => None,
            }
        } else {
            None
        }
    }

    /// The function type that `id` names, if it names one.
    pub fn try_get_fun(&self, id: TypId) -> (r: Option<&FunType>)
        requires
            self.wf(),
        ensures
            match r {
                Some(f) => self.fun_named(id) == Some(f@),
                None => self.fun_named(id) is None,
            },
    {
        let i = id.get() as usize;
        if i < self.types.len() {
            match self.types[i] {
                Type::Fun(fid) => {
                    let k = fid.get() as usize;
                    if k < self.funs.len() {
                        return Some(&self.funs[k]);
                    }
                },
                _ => {},
            }
        }
        None
    }

    /// The id of `typ`, added if it is new.
    pub fn insert(&mut self, typ: Type) -> (r: TypId)
        requires
            old(self).wf(),
            old(self).types().len() < u32::MAX,
        ensures
            final(self).wf(),
            final(self).types() == old(self).with(typ),
            final(self).funs() == old(self).funs(),
            r.value() == old(self).id_for(typ),
            final(self).types()[r.value() as int] == typ,
            final(self).id_for(typ) == r.value(),
    {
        let n = self.types.len();
        let mut i: usize = 0;
        while i < n
            invariant
                self.wf(),
                n == self.types@.len(),
                i <= n,
                forall|k: int| 0 <= k < i ==> self.types@[k] != typ,
            decreases n - i,
        {
            if self.types[i] == typ {
                proof {
                    self.lemma_position(typ, i as int);
                }
                return TypId::new(i as u32);
            }
            i = i + 1;
        }
        proof {
            assert(!self.types().contains(typ));
        }
        let ghost old_types = self.types();
        self.types.push(typ);
        proof {
            assert(self.types() =~= old_types.push(typ));
            assert forall|a: int, b: int| 0 <= a < b < self.types().len() implies self.types()[a]
                != self.types()[b] by {
                if b == self.types().len() - 1 {
                    assert(old_types[a] != typ);
                } else {
                    assert(old_types[a] != old_types[b]);
                }
            }
            self.lemma_position(typ, n as int);
        }
        TypId::new(n as u32)
    }

    fn insert_fun(&mut self, fun: FunType) -> (r: FunTypeId)
        requires
            old(self).wf(),
            old(self).funs().len() < u32::MAX,
        ensures
            final(self).wf(),
            final(self).funs() == old(self).with_fun(fun@),
            final(self).types() == old(self).types(),
            r.value() == old(self).fun_id_for(fun@),
            final(self).funs()[r.value() as int] == fun@,
            final(self).types().len() < u32::MAX <==> old(self).types().len() < u32::MAX,
    {
        let n = self.funs.len();
        let mut i: usize = 0;
        while i < n
            invariant
                self.wf(),
                n == self.funs@.len(),
                i <= n,
                forall|k: int| 0 <= k < i ==> self.funs()[k] != fun@,
            decreases n - i,
        {
            if same_fun_type(&self.funs[i], &fun) {
                proof {
                    self.lemma_fun_position(fun@, i as int);
                }
                return FunTypeId::new(i as u32);
            }
            i = i + 1;
        }
        proof {
            assert(!self.funs().contains(fun@));
        }
        let ghost old_funs = self.funs();
        let ghost f = fun@;
        self.funs.push(fun);
        proof {
            assert(self.funs() =~= old_funs.push(f));
            assert forall|a: int, b: int| 0 <= a < b < self.funs().len() implies self.funs()[a]
                != self.funs()[b] by {
                if b == self.funs().len() - 1 {
                    assert(old_funs[a] != f);
                } else {
                    assert(old_funs[a] != old_funs[b]);
                }
            }
            self.lemma_fun_position(f, n as int);
        }
        FunTypeId::new(n as u32)
    }

    /// In a sequence without repeats, a value at position `i` is first found there.
    proof fn lemma_position(&self, typ: Type, i: int)
        requires
            distinct(self.types()),
            0 <= i < self.types().len(),
            self.types()[i] == typ,
        ensures
            position(self.types(), typ) == Some(i),
    {
        let j = choose|j: int| 0 <= j < self.types().len() && self.types()[j] == typ;
        assert(j == i);
    }

    proof fn lemma_fun_position(&self, f: FunTypeView, i: int)
        requires
            distinct(self.funs()),
            0 <= i < self.funs().len(),
            self.funs()[i] == f,
        ensures
            position(self.funs(), f) == Some(i),
    {
        let j = choose|j: int| 0 <= j < self.funs().len() && self.funs()[j] == f;
        assert(j == i);
    }

    /// The error type is stored first.
    pub proof fn lemma_id_of_error(&self)
        requires
            self.wf(),
        ensures
            self.id_for(Type::Error) == 0,
            self.types()[0] == Type::Error,
    {
        self.lemma_position(Type::Error, 0);
    }

    /// Atom type `a` is stored right after the ones declared before it.
    pub proof fn lemma_id_of_atom(&self, a: AtomType)
        requires
            self.wf(),
        ensures
            self.id_for(Type::Atom(a)) == a.spec_index() + 1,
            self.types()[a.spec_index() + 1] == Type::Atom(a),
    {
        let i = a.spec_index() as int;
        lemma_atom_index(a, i);
        assert(self.types()[i + 1] == Type::Atom(AtomType::spec_nth(i)));
        self.lemma_position(Type::Atom(a), i + 1);
    }
}

/// Whether two function types are equal.
fn same_fun_type(a: &FunType, b: &FunType) -> (r: bool)
    ensures
        r == (a@ == b@),
{
    if a.ret_type != b.ret_type || a.varargs != b.varargs || a.params.len() != b.params.len() {
        return false;
    }
    let mut i: usize = 0;
    while i < a.params.len()
        invariant
            i <= a.params@.len(),
            a.params@.len() == b.params@.len(),
            forall|k: int| 0 <= k < i ==> a.params@[k] == b.params@[k],
        decreases a.params.len() - i,
    {
        if a.params[i] != b.params[i] {
            return false;
        }
        i = i + 1;
    }
    proof {
        assert(a.params@ =~= b.params@);
    }
    true
}

/// What `error` gives is what `insert` gives for the error type, and what `atom` gives
/// for an atom type is what `insert` gives for it; neither adds a type.
pub proof fn law_atoms_are_interned(t: &Typs, a: AtomType)
    requires
        t.wf(),
    ensures
        t.id_for(Type::Error) == 0,
        t.with(Type::Error) == t.types(),
        t.id_for(Type::Atom(a)) == a.spec_index() + 1,
        t.with(Type::Atom(a)) == t.types(),
{
    t.lemma_id_of_error();
    t.lemma_id_of_atom(a);
}

/// Adding a type keeps its id: once `typ` has been added to `before`, giving `after`,
/// adding it again gives the same id and adds nothing; a type of `after` has that id
/// only if it is `typ`; and a pointer type's id is neither the error type's nor an
/// atom type's.
pub proof fn law_insert_again(before: &Typs, after: &Typs, typ: Type, other: Type)
    requires
        before.wf(),
        after.wf(),
        after.types() == before.with(typ),
        after.types().contains(other),
    ensures
        after.id_for(typ) == before.id_for(typ),
        after.with(typ) == after.types(),
        after.types()[after.id_for(typ) as int] == typ,
        after.id_for(other) == after.id_for(typ) <==> other == typ,
        typ is Ptr ==> after.id_for(typ) != 0,
        typ is Ptr ==> forall|a: AtomType| after.id_for(typ) != a.spec_index() + 1,
{
    let n = before.types().len() as int;
    let i = if before.types().contains(typ) {
        let i = choose|i: int| 0 <= i < n && before.types()[i] == typ;
        before.lemma_position(typ, i);
        i
    } else {
        assert(after.types()[n] == typ);
        n
    };
    after.lemma_position(typ, i);
    let k = choose|k: int| 0 <= k < after.types().len() && after.types()[k] == other;
    after.lemma_position(other, k);
    assert(after.types()[0] == Type::Error);
    assert forall|a: AtomType| typ is Ptr implies after.id_for(typ) != a.spec_index() + 1 by {
        after.lemma_id_of_atom(a);
    }
}

} // verus!
