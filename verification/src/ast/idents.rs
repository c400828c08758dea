//! Identifiers.
use super::AstView;
use crate::arena::ArenaId;
use crate::lexer::Span;
use crate::strings::StrId;
use vstd::prelude::*;

verus! {

pub type IdentId = ArenaId<Ident>;

/// An identifier: its interned string and the span it was written at.
#[derive(Debug, Clone, Copy, PartialEq, Eq)]
pub struct Ident {
    pub str: StrId,
    pub span: Span,
}

impl Ident {
    pub fn new(str: StrId, span: Span) -> (r: Self)
        ensures
            r == (Ident { str, span }),
    {
        Ident { str, span }
    }
}

/// An identifier of an AST, seen together with the AST.
#[derive(Debug, Clone, Copy)]
pub struct IdentView<'a> {
    pub view: AstView<'a>,
    pub id: IdentId,
}

impl<'a> IdentView<'a> {
    /// The view is well formed and the id names an identifier.
    pub open spec fn wf(&self) -> bool {
        self.view.wf() && self.view.ast.idents.contains_id(self.id)
    }

    /// The identifier node.
    pub open spec fn spec_node(&self) -> Ident {
        self.view.ast.idents@[self.id.value() as int]
    }

    pub fn new(view: AstView<'a>, id: IdentId) -> (r: Self)
        ensures
            r.view == view,
            r.id == id,
    {
        IdentView { view, id }
    }

    pub fn id(&self) -> (r: IdentId)
        ensures
            r == self.id,
    {
        self.id
    }

    pub fn span(&self) -> (r: Span)
        requires
            self.wf(),
        ensures
            r == self.spec_node().span,
    {
        self.node().span
    }

    fn node(&self) -> (r: &'a Ident)
        requires
            self.wf(),
        ensures
            *r == self.spec_node(),
    {
        self.view.ast.idents.index(self.id)
    }

    /// The interned string of the identifier.
    pub fn str_id(&self) -> (r: StrId)
        requires
            self.wf(),
        ensures
            r == self.spec_node().str,
    {
        self.node().str
    }

    /// The text of the identifier.
    pub fn str(&self) -> (r: &'a str)
        requires
            self.wf(),
        ensures
            r@ == self.view.interner@[self.spec_node().str.value() as int],
    {
        self.view.interner.resolve(self.str_id())
    }
}

} // verus!
