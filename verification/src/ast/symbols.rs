//! A table of symbols: interned names, each with the span it was written at.
use crate::lexer::Span;
use crate::strings::{Interner, StrId};
use vstd::prelude::*;

verus! {

/// A symbol with the span it was written at.
#[derive(Debug, Clone, Copy, PartialEq, Eq)]
pub struct Symbol<S> {
    pub sym: S,
    pub span: Span,
}

impl<S> Symbol<S> {
    pub fn new(sym: S, span: Span) -> (r: Self)
        ensures
            r.sym == sym,
            r.span == span,
    {
        Symbol { sym, span }
    }

    /// The symbol with `map` applied to its value; the span stays.
    pub fn map<T, F: FnOnce(S) -> T>(self, map: F) -> (r: Symbol<T>)
        requires
            map.requires((self.sym,)),
        ensures
            map.ensures((self.sym,), r.sym),
            r.span == self.span,
    {
        Symbol { sym: map(self.sym), span: self.span }
    }
}

/// The id of a symbol of a [`Symbols`] table.
#[derive(Debug, Clone, Copy, PartialEq, Eq, Hash, Structural)]
pub struct SymbolId(u32);

impl SymbolId {
    /// The position that the id names.
    pub closed spec fn value(self) -> u32 {
        self.0
    }

    /// The position that the id names.
    pub fn get(self) -> (r: u32)
        ensures
            r == self.value(),
    {
        self.0
    }
}

/// A table of symbols: each added name is interned and kept with its span.
#[derive(Debug)]
pub struct Symbols {
    symbols: Vec<Symbol<StrId>>,
    interner: Interner,
}

impl Symbols {
    /// The name and span of each symbol, in the order they were added.
    pub closed spec fn entries(&self) -> Seq<(Seq<char>, Span)> {
        self.symbols@.map_values(|s: Symbol<StrId>| (self.interner@[s.sym.value() as int], s.span))
    }

    /// The interned names stay one to one, and every symbol names one of them.
    pub closed spec fn wf(&self) -> bool {
        &&& self.interner.wf()
        &&& forall|i: int| 0 <= i < self.symbols@.len() ==> self.interner.contains_id(#[trigger] self.symbols@[i].sym)
    }

    /// There is room for one more symbol and one more name.
    pub closed spec fn has_room(&self) -> bool {
        self.symbols@.len() < u32::MAX && self.interner@.len() + 1 < u32::MAX
    }

    /// An empty table.
    pub fn new() -> (r: Self)
        ensures
            r.wf(),
            r.has_room(),
            r.entries() == Seq::<(Seq<char>, Span)>::empty(),
    {
        let r = Symbols { symbols: Vec::new(), interner: Interner::new() };
        proof {
            assert(r.entries() =~= Seq::<(Seq<char>, Span)>::empty());
        }
        r
    }

    /// Adds the symbol `s`, written at `span`, and gives its id: the next position.
    pub fn add(&mut self, s: &str, span: Span) -> (r: SymbolId)
        requires
            old(self).wf(),
            old(self).has_room(),
        ensures
            final(self).wf(),
            final(self).entries() == old(self).entries().push((s@, span)),
            r.value() == old(self).entries().len(),
    {
        let id = self.symbols.len() as u32;
        let ghost old_entries = self.entries();
        let ghost old_strs = self.interner@;
        let sym = self.interner.intern(s);
        self.symbols.push(Symbol::new(sym, span));
        proof {
            assert forall|i: int| 0 <= i < self.symbols@.len() implies self.interner.contains_id(
                #[trigger] self.symbols@[i].sym,
            ) by {}
            assert forall|i: int| 0 <= i < old_entries.len() implies self.entries()[i] == old_entries[i] by {
                assert(self.interner@[self.symbols@[i].sym.value() as int] == old_strs[self.symbols@[i].sym.value() as int]);
            }
            assert(self.entries() =~= old_entries.push((s@, span)));
        }
        SymbolId(id)
    }

    /// The name of symbol `id`, which must be one of the table's.
    pub fn name(&self, id: SymbolId) -> (r: &str)
        requires
            self.wf(),
            id.value() < self.entries().len(),
        ensures
            r@ == self.entries()[id.value() as int].0,
    {
        self.interner.resolve(self.symbols[id.0 as usize].sym)
    }

    /// The span of symbol `id`, which must be one of the table's.
    pub fn span(&self, id: SymbolId) -> (r: Span)
        requires
            id.value() < self.entries().len(),
        ensures
            r == self.entries()[id.value() as int].1,
    {
        self.symbols[id.0 as usize].span
    }
}

/// A symbol added is read back with the name and span it was added with, and adding it
/// leaves the symbols before it as they were.
pub proof fn law_added_symbol_reads_back(before: Seq<(Seq<char>, Span)>, name: Seq<char>, span: Span)
    ensures
        before.push((name, span))[before.len() as int] == (name, span),
        forall|i: int| 0 <= i < before.len() ==> #[trigger] before.push((name, span))[i] == before[i],
{
}

} // verus!
