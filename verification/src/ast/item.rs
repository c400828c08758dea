//! Items: functions and their parameters.
use super::AstView;
use super::idents::{IdentId, IdentView};
use super::stmt::{StmtId, StmtListView};
use super::typ::{TypeId, TypeView};
use crate::arena::{ArenaId, ArenaRange};
use crate::lexer::Span;
use vstd::prelude::*;

verus! {

pub type ItemId = ArenaId<Item>;

pub type ParamId = ArenaId<Param>;

#[derive(Debug, Clone, Copy, PartialEq, Eq)]
pub enum Item {
    Fun(Fun),
}

impl Item {
    /// The function that the item is.
    pub fn as_fun(&self) -> (r: Option<&Fun>)
        ensures
            r == match *self {
                Item::Fun(f) => Some(&f),
            },
    {
        match self {
            Item::Fun(fun) => Some(fun),
        }
    }
}

#[derive(Debug, Clone, Copy, PartialEq, Eq)]
pub struct Fun {
    pub ident: IdentId,
    pub params: ArenaRange<Param>,
    pub ret_type: Option<TypeId>,
    pub body: Option<ArenaRange<StmtId>>,
}

#[derive(Debug, Clone, Copy, PartialEq, Eq)]
pub enum ParamType {
    Type(TypeId),
    Variadic(Span),
}

#[derive(Debug, Clone, Copy, PartialEq, Eq)]
pub struct Param {
    pub typ: ParamType,
    pub ident: IdentId,
}

impl Param {
    pub fn new(typ: ParamType, ident: IdentId) -> (r: Self)
        ensures
            r == (Param { typ, ident }),
    {
        Param { typ, ident }
    }
}

#[derive(Debug, Clone, Copy)]
pub enum ParamTypeView<'a> {
    Type(TypeView<'a>),
    Variadic(Span),
}

/// A parameter of an AST, seen together with the AST.
#[derive(Debug, Clone, Copy)]
pub struct ParamView<'a> {
    pub view: AstView<'a>,
    pub id: ParamId,
}

impl<'a> ParamView<'a> {
    pub open spec fn wf(&self) -> bool {
        self.view.wf() && self.view.ast.params.contains_id(self.id)
    }

    pub open spec fn spec_node(&self) -> Param {
        self.view.ast.params@[self.id.value() as int]
    }

    pub fn new(view: AstView<'a>, id: ParamId) -> (r: Self)
        ensures
            r.view == view,
            r.id == id,
    {
        ParamView { id, view }
    }

    pub fn id(&self) -> (r: ParamId)
        ensures
            r == self.id,
    {
        self.id
    }

    /// The type of the parameter: a type, or `...` for further arguments.
    pub fn typ(&self) -> (r: ParamTypeView<'a>)
        requires
            self.wf(),
        ensures
            match self.spec_node().typ {
                ParamType::Type(t) => r matches ParamTypeView::Type(v) && v.view == self.view
                    && v.id == t && v.wf(),
                ParamType::Variadic(s) => r == ParamTypeView::Variadic(s),
            },
    {
        proof {
            self.view.ast.lemma_param(self.id);
        }
        match self.node().typ {
            ParamType::Type(id) => ParamTypeView::Type(TypeView::new(self.view, id)),
            ParamType::Variadic(span) => ParamTypeView::Variadic(span),
        }
    }

    /// The name of the parameter.
    pub fn ident(&self) -> (r: IdentView<'a>)
        requires
            self.wf(),
        ensures
            r.view == self.view,
            r.id == self.spec_node().ident,
            r.wf(),
    {
        proof {
            self.view.ast.lemma_param(self.id);
        }
        IdentView::new(self.view, self.node().ident)
    }

    pub fn node(&self) -> (r: &'a Param)
        requires
            self.wf(),
        ensures
            *r == self.spec_node(),
    {
        self.view.ast.params.index(self.id)
    }
}

/// A function of an AST, seen together with the AST.
#[derive(Debug, Clone, Copy)]
pub struct FunView<'a> {
    pub view: AstView<'a>,
    pub fun: &'a Fun,
}

impl<'a> FunView<'a> {
    /// The view is well formed and the function's parts lie in its AST.
    pub open spec fn wf(&self) -> bool {
        self.view.wf() && self.view.ast.fun_wf(*self.fun)
    }

    pub fn new(view: AstView<'a>, fun: &'a Fun) -> (r: Self)
        ensures
            r.view == view,
            r.fun == fun,
    {
        FunView { view, fun }
    }

    /// The name of the function.
    pub fn ident(&self) -> (r: IdentView<'a>)
        requires
            self.wf(),
        ensures
            r.view == self.view,
            r.id == self.fun.ident,
            r.wf(),
    {
        IdentView::new(self.view, self.fun.ident)
    }

    /// The parameters, in order.
    pub fn params(&self) -> (r: Vec<ParamView<'a>>)
        requires
            self.wf(),
        ensures
            r@.len() == self.fun.params.end() - self.fun.params.start(),
            forall|i: int|
                0 <= i < r@.len() ==> (#[trigger] r@[i]).view == self.view && r@[i].id.value()
                    == self.fun.params.start() + i && r@[i].wf(),
    {
        let ids = self.fun.params.iter();
        let mut r: Vec<ParamView<'a>> = Vec::new();
        let mut i: usize = 0;
        while i < ids.len()
            invariant
                self.wf(),
                ids@.len() == self.fun.params.end() - self.fun.params.start(),
                forall|k: int|
                    0 <= k < ids@.len() ==> (#[trigger] ids@[k]).value() == self.fun.params.start()
                        + k,
                i <= ids@.len(),
                r@.len() == i,
                forall|k: int|
                    0 <= k < i ==> (#[trigger] r@[k]).view == self.view && r@[k].id.value()
                        == self.fun.params.start() + k && r@[k].wf(),
            decreases ids.len() - i,
        {
            r.push(ParamView::new(self.view, ids[i]));
            i = i + 1;
        }
        r
    }

    /// The declared return type, if any.
    pub fn ret_type(&self) -> (r: Option<TypeView<'a>>)
        requires
            self.wf(),
        ensures
            match self.fun.ret_type {
                Some(t) => r matches Some(v) && v.view == self.view && v.id == t && v.wf(),
                None => r is None,
            },
    {
        match self.fun.ret_type {
            Some(id) => Some(TypeView::new(self.view, id)),
            None => None,
        }
    }

    /// The body, if the function has one.
    pub fn body(&self) -> (r: Option<StmtListView<'a>>)
        requires
            self.wf(),
        ensures
            match self.fun.body {
                Some(b) => r matches Some(v) && v.view == self.view && v.ids == b && v.wf(),
                None => r is None,
            },
    {
        match self.fun.body {
            Some(ids) => Some(StmtListView::new(self.view, ids)),
            None => None,
        }
    }
}

#[derive(Debug, Clone, Copy)]
pub enum ItemKindView<'a> {
    Fun(FunView<'a>),
}

/// An item of an AST, seen together with the AST.
#[derive(Debug, Clone, Copy)]
pub struct ItemView<'a> {
    pub view: AstView<'a>,
    pub id: ItemId,
}

impl<'a> ItemView<'a> {
    pub open spec fn wf(&self) -> bool {
        self.view.wf() && self.view.ast.items.contains_id(self.id)
    }

    pub open spec fn spec_node(&self) -> Item {
        self.view.ast.items@[self.id.value() as int]
    }

    pub fn new(view: AstView<'a>, id: ItemId) -> (r: Self)
        ensures
            r.view == view,
            r.id == id,
    {
        ItemView { id, view }
    }

    pub fn id(&self) -> (r: ItemId)
        ensures
            r == self.id,
    {
        self.id
    }

    /// The kind of the item, seen together with the AST.
    pub fn kind(&self) -> (r: ItemKindView<'a>)
        requires
            self.wf(),
        ensures
            match r {
                ItemKindView::Fun(f) => self.spec_node() == Item::Fun(*f.fun) && f.view
                    == self.view && f.wf(),
            },
    {
        proof {
            self.view.ast.lemma_item(self.id);
        }
        match self.node() {
            Item::Fun(fun) => ItemKindView::Fun(FunView::new(self.view, fun)),
        }
    }

    pub fn node(&self) -> (r: &'a Item)
        requires
            self.wf(),
        ensures
            *r == self.spec_node(),
    {
        self.view.ast.items.index(self.id)
    }
}

} // verus!
