//! Type expressions.
use super::AstView;
use super::idents::{IdentId, IdentView};
use crate::arena::ArenaId;
use crate::lexer::Span;
use vstd::prelude::*;

verus! {

pub type TypeId = ArenaId<Type>;

#[derive(Debug, Clone, Copy, PartialEq, Eq)]
pub enum TypeKind {
    /// T
    Identifier(IdentId),
    /// *T
    Ptr(TypeId),
}

#[derive(Debug, Clone, Copy, PartialEq, Eq)]
pub struct Type {
    pub kind: TypeKind,
    pub span: Span,
}

impl Type {
    pub fn new(kind: TypeKind, span: Span) -> (r: Self)
        ensures
            r == (Type { kind, span }),
    {
        Type { kind, span }
    }
}

/// See [`TypeKind`].
#[derive(Debug, Clone, Copy)]
pub enum TypeKindView<'a> {
    Identifier(IdentView<'a>),
    Ptr(TypeView<'a>),
}

/// A type of an AST, seen together with the AST.
#[derive(Debug, Clone, Copy)]
pub struct TypeView<'a> {
    pub view: AstView<'a>,
    pub id: TypeId,
}

impl<'a> TypeView<'a> {
    pub open spec fn wf(&self) -> bool {
        self.view.wf() && self.view.ast.types.contains_id(self.id)
    }

    pub open spec fn spec_node(&self) -> Type {
        self.view.ast.types@[self.id.value() as int]
    }

    /// The view of the node's kind.
    pub open spec fn spec_kind(&self) -> TypeKindView<'a> {
        match self.spec_node().kind {
            TypeKind::Identifier(id) => TypeKindView::Identifier(IdentView { view: self.view, id }),
            TypeKind::Ptr(id) => TypeKindView::Ptr(TypeView { view: self.view, id }),
        }
    }

    pub fn new(view: AstView<'a>, id: TypeId) -> (r: Self)
        ensures
            r.view == view,
            r.id == id,
    {
        TypeView { view, id }
    }

    pub fn id(&self) -> (r: TypeId)
        ensures
            r == self.id,
    {
        self.id
    }

    pub fn span(&self) -> (r: Span)
        requires
            self.wf(),
        ensures
            r == self.spec_node().span,
    {
        self.node().span
    }

    fn node(&self) -> (r: &'a Type)
        requires
            self.wf(),
        ensures
            *r == self.spec_node(),
    {
        self.view.ast.types.index(self.id)
    }

    /// The kind of the type, its parts seen together with the AST; they are well formed.
    pub fn kind(&self) -> (r: TypeKindView<'a>)
        requires
            self.wf(),
        ensures
            r == self.spec_kind(),
            match r {
                TypeKindView::Identifier(v) => v.wf(),
                TypeKindView::Ptr(v) => v.wf() && v.id.value() < self.id.value(),
            },
    {
        proof {
            self.view.ast.lemma_type(self.id);
        }
        match self.node().kind {
            TypeKind::Identifier(id) => TypeKindView::Identifier(IdentView::new(self.view, id)),
            TypeKind::Ptr(id) => TypeKindView::Ptr(Self::new(self.view, id)),
        }
    }
}

} // verus!
