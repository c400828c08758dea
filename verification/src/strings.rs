//! String interning: each distinct string gets one small id.
use vstd::prelude::*;

verus! {

/// The id of a string in an [`Interner`].
#[derive(Debug, Clone, Copy, PartialEq, Eq, Hash, Structural)]
pub struct StrId {
    id: u32,
}

impl StrId {
    /// The position of the string that this id names.
    pub closed spec fn value(self) -> u32 {
        self.id
    }

    /// Two ids are equal exactly when they name the same position.
    pub broadcast proof fn lemma_value_injective(a: Self, b: Self)
        ensures
            #[trigger] a.value() == #[trigger] b.value() ==> a == b,
    {
    }

    /// The id of position `id`; the largest `u32` is not a position.
    pub fn new(id: u32) -> (r: Self)
        requires
            id < u32::MAX,
        ensures
            r.value() == id,
    {
        StrId { id }
    }

    /// The position of the string that this id names.
    #[inline]
    pub fn get(self) -> (r: u32)
        ensures
            r == self.value(),
    {
        self.id
    }
}

/// Maps strings to ids and back; every string occurs at most once.
#[derive(Debug)]
pub struct Interner {
    strings: Vec<String>,
}

impl View for Interner {
    /// The interned strings, the string of id `i` at position `i`.
    type V = Seq<Seq<char>>;

    closed spec fn view(&self) -> Seq<Seq<char>> {
        Seq::new(self.strings@.len(), |i: int| self.strings@[i]@)
    }
}

/// The position of `s` in `strings`, if it occurs there.
pub open spec fn position_of(strings: Seq<Seq<char>>, s: Seq<char>) -> Option<u32> {
    if strings.contains(s) {
        Some(strings.index_of(s) as u32)
    } else {
        None
    }
}

impl Interner {
    /// No string occurs twice, and every id fits a `u32` below `u32::MAX`.
    pub open spec fn wf(&self) -> bool {
        &&& self@.no_duplicates()
        &&& self@.len() <= u32::MAX
    }

    /// `id` names a string of this interner.
    pub open spec fn contains_id(&self, id: StrId) -> bool {
        id.value() < self@.len()
    }

    /// The id that interning `s` gives: its present id, or the next one.
    pub open spec fn spec_intern(&self, s: Seq<char>) -> u32 {
        match position_of(self@, s) {
            Some(i) => i,
            None => self@.len() as u32,
        }
    }

    /// An interner without strings.
    pub fn new() -> (r: Self)
        ensures
            r@ == Seq::<Seq<char>>::empty(),
            r.wf(),
    {
        Interner { strings: Vec::new() }
    }

    fn find(&self, string: &str) -> (r: Option<u32>)
        requires
            self.wf(),
        ensures
            r == position_of(self@, string@),
    {
        let owned = string.to_owned();
        let mut i: usize = 0;
        while i < self.strings.len()
            invariant
                self.wf(),
                owned@ == string@,
                i <= self@.len(),
                forall|k: int| 0 <= k < i ==> self@[k] != string@,
            decreases self.strings.len() - i,
        {
            if self.strings[i] == owned {
                proof {
                    assert(self@[i as int] == string@);
                    assert(self@.contains(string@));
                    let j = self@.index_of(string@);
                    assert(self@[j] == string@);
                    assert(j == i);
                }
                return Some(i as u32);
            }
            i = i + 1;
        }
        proof {
            if self@.contains(string@) {
                let j = self@.index_of(string@);
                assert(self@[j] == string@);
            }
        }
        None
    }

    /// The id of `string`: the id it already has, or a new one, the next in line.
    pub fn intern(&mut self, string: &str) -> (r: StrId)
        requires
            old(self).wf(),
            old(self)@.len() < u32::MAX,
        ensures
            final(self).wf(),
            r.value() == old(self).spec_intern(string@),
            final(self)@[r.value() as int] == string@,
            old(self)@.contains(string@) ==> final(self)@ == old(self)@,
            !old(self)@.contains(string@) ==> final(self)@ == old(self)@.push(string@),
    {
        match self.find(string) {
            Some(i) => {
                proof {
                    assert(self@.contains(string@));
                    assert(self@[self@.index_of(string@)] == string@);
                }
                StrId::new(i)
            },
            None => {
                let id = self.strings.len() as u32;
                let ghost old_view = self@;
                self.strings.push(string.to_owned());
                proof {
                    assert(self@ =~= old_view.push(string@));
                    assert forall|a: int, b: int|
                        0 <= a < b < self@.len() implies self@[a] != self@[b] by {
                        if b == old_view.len() {
                            assert(!old_view.contains(string@));
                            assert(old_view[a] == self@[a]);
                        }
                    }
                }
                StrId::new(id)
            },
        }
    }

    /// The id of `string`, if it has been interned.
    pub fn contains(&self, string: &str) -> (r: Option<StrId>)
        requires
            self.wf(),
        ensures
            r is Some <==> self@.contains(string@),
            r matches Some(id) ==> id.value() == self@.index_of(string@) && self@[id.value() as int] == string@,
    {
        match self.find(string) {
            Some(i) => {
                proof {
                    assert(self@[self@.index_of(string@)] == string@);
                }
                Some(StrId::new(i))
            },
            None => None,
        }
    }

    /// The string that `string` names; the id must come from this interner.
    pub fn resolve(&self, string: StrId) -> (r: &str)
        requires
            self.contains_id(string),
        ensures
            r@ == self@[string.value() as int],
    {
        self.strings[string.get() as usize].as_str()
    }

    /// A string that was interned keeps its id: interning it again gives the id it
    /// has, and adds nothing.
    pub proof fn law_intern_again(&self, s: Seq<char>, id: StrId)
        requires
            self.wf(),
            self.contains_id(id),
            self@[id.value() as int] == s,
        ensures
            self.spec_intern(s) == id.value(),
            self@.contains(s),
    {
        assert(self@.contains(s));
        let j = self@.index_of(s);
        assert(self@[j] == s);
        assert(j == id.value());
    }

    /// Interning a string and then resolving the id it gave returns that string, and
    /// interning it once more gives that id again and adds nothing; `after` holds the
    /// strings that [`Self::intern`] leaves in `before`.
    pub proof fn law_resolve_undoes_intern(before: &Interner, after: &Interner, s: Seq<char>)
        requires
            before.wf(),
            after.wf(),
            after@ == (if before@.contains(s) { before@ } else { before@.push(s) }),
        ensures
            before.spec_intern(s) < after@.len(),
            after@[before.spec_intern(s) as int] == s,
            after@.contains(s),
            after.spec_intern(s) == before.spec_intern(s),
    {
        if before@.contains(s) {
            let j = before@.index_of(s);
            assert(before@[j] == s);
        } else {
            let n = before@.len() as int;
            assert(after@[n] == s);
            assert(after@.contains(s));
            let j = after@.index_of(s);
            assert(after@[j] == s);
            if j != n {
                assert(before@[j] == s);
            }
        }
    }

    /// Interning never gives two different strings one id: ids of this interner name
    /// strings one to one.
    pub proof fn lemma_ids_distinct(&self, a: StrId, b: StrId)
        requires
            self.wf(),
            self.contains_id(a),
            self.contains_id(b),
            a != b,
        ensures
            self@[a.value() as int] != self@[b.value() as int],
    {
        if a.value() == b.value() {
            StrId::lemma_value_injective(a, b);
        }
    }
}

impl Default for Interner {
    fn default() -> (r: Self)
        ensures
            r@ == Seq::<Seq<char>>::empty(),
            r.wf(),
    {
        Interner::new()
    }
}

} // verus!
