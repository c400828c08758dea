//! String and number literals.
use super::AstView;
use crate::arena::ArenaId;
use crate::lexer::Span;
use crate::strings::StrId;
use crate::text::str_slice;
use vstd::prelude::*;
use vstd::string::StringSliceAdditionalSpecFns;

verus! {

pub type StrLitId = ArenaId<StrLit>;

pub type NumLitId = ArenaId<NumLit>;

#[derive(Debug, Clone, Copy, PartialEq, Eq)]
pub struct StrLit {
    /// Parsed string literal, without quotes and escape sequences.
    pub str: StrId,
    pub span: Span,
}

#[derive(Debug, Clone, Copy, PartialEq, Eq)]
pub struct NumLit {
    pub num: u128,
    pub span: Span,
}

/// A string literal of an AST, seen together with the AST.
#[derive(Debug, Clone, Copy)]
pub struct StrLitView<'a> {
    pub view: AstView<'a>,
    pub id: StrLitId,
}

impl<'a> StrLitView<'a> {
    pub open spec fn wf(&self) -> bool {
        self.view.wf() && self.view.ast.strings.contains_id(self.id)
    }

    pub open spec fn spec_node(&self) -> StrLit {
        self.view.ast.strings@[self.id.value() as int]
    }

    pub fn new(view: AstView<'a>, id: StrLitId) -> (r: Self)
        ensures
            r.view == view,
            r.id == id,
    {
        StrLitView { view, id }
    }

    pub fn id(&self) -> (r: StrLitId)
        ensures
            r == self.id,
    {
        self.id
    }

    pub fn span(&self) -> (r: Span)
        requires
            self.wf(),
        ensures
            r == self.spec_node().span,
    {
        self.node().span
    }

    fn node(&self) -> (r: &'a StrLit)
        requires
            self.wf(),
        ensures
            *r == self.spec_node(),
    {
        self.view.ast.strings.index(self.id)
    }

    pub fn str_id(&self) -> (r: StrId)
        requires
            self.wf(),
        ensures
            r == self.spec_node().str,
    {
        self.node().str
    }

    /// The resolved string literal, without quotes and escape sequences.
    pub fn str(&self) -> (r: &'a str)
        requires
            self.wf(),
        ensures
            r@ == self.view.interner@[self.spec_node().str.value() as int],
    {
        self.view.interner.resolve(self.str_id())
    }

    /// The string literal as written in the source, with quotes and escape sequences.
    pub fn src(&self) -> (r: &'a str)
        requires
            self.wf(),
        ensures
            r.spec_bytes() == self.view.src.spec_bytes().subrange(
                self.spec_node().span.start as int,
                self.spec_node().span.end as int,
            ),
    {
        let span = self.span();
        str_slice(self.view.src, span.start as usize, span.end as usize)
    }
}

/// A number literal of an AST, seen together with the AST.
#[derive(Debug, Clone, Copy)]
pub struct NumLitView<'a> {
    pub view: AstView<'a>,
    pub id: NumLitId,
}

impl<'a> NumLitView<'a> {
    pub open spec fn wf(&self) -> bool {
        self.view.wf() && self.view.ast.numbers.contains_id(self.id)
    }

    pub open spec fn spec_node(&self) -> NumLit {
        self.view.ast.numbers@[self.id.value() as int]
    }

    pub fn new(view: AstView<'a>, id: NumLitId) -> (r: Self)
        ensures
            r.view == view,
            r.id == id,
    {
        NumLitView { view, id }
    }

    pub fn id(&self) -> (r: NumLitId)
        ensures
            r == self.id,
    {
        self.id
    }

    pub fn span(&self) -> (r: Span)
        requires
            self.wf(),
        ensures
            r == self.spec_node().span,
    {
        self.node().span
    }

    fn node(&self) -> (r: &'a NumLit)
        requires
            self.wf(),
        ensures
            *r == self.spec_node(),
    {
        self.view.ast.numbers.index(self.id)
    }

    /// The value of the literal.
    pub fn num(&self) -> (r: u128)
        requires
            self.wf(),
        ensures
            r == self.spec_node().num,
    {
        self.node().num
    }

    /// The source text of the literal.
    pub fn str(&self) -> (r: &'a str)
        requires
            self.wf(),
        ensures
            r.spec_bytes() == self.view.src.spec_bytes().subrange(
                self.spec_node().span.start as int,
                self.spec_node().span.end as int,
            ),
    {
        let span = self.span();
        str_slice(self.view.src, span.start as usize, span.end as usize)
    }
}

} // verus!
