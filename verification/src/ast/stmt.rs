//! Statements and blocks.
use super::AstView;
use super::expr::{ExprId, ExprView};
use super::idents::{IdentId, IdentView};
use super::typ::{TypeId, TypeView};
use crate::arena::{ArenaId, ArenaRange};
use crate::lexer::Span;
use vstd::prelude::*;

verus! {

pub type StmtId = ArenaId<Stmt>;

pub type CondBlockId = ArenaId<CondBlock>;

#[derive(Debug, Clone, Copy, PartialEq, Eq)]
pub enum StmtKind {
    Expr(ExprId),
    VarDecl { ident: IdentId, expr: ExprId, typ: Option<TypeId> },
    Assign { lhs: ExprId, rhs: ExprId },
    Return(Option<ExprId>),
    If {
        /// [0] is the main `if` block, [1..] are the `else if` blocks
        elifs: ArenaRange<CondBlockId>,
        els: Option<ArenaRange<StmtId>>,
    },
    While(CondBlockId),
    Break,
    Continue,
}

/// Conditional block, used for if and while statements
#[derive(Debug, Clone, Copy, PartialEq, Eq)]
pub struct CondBlock {
    pub cond: ExprId,
    pub block: ArenaRange<StmtId>,
}

#[derive(Debug, Clone, Copy, PartialEq, Eq)]
pub struct Stmt {
    pub kind: StmtKind,
    pub span: Span,
}

impl Stmt {
    pub fn new(kind: StmtKind, span: Span) -> (r: Self)
        ensures
            r == (Stmt { kind, span }),
    {
        Stmt { kind, span }
    }
}

/// A block of statements, seen together with the AST.
#[derive(Debug, Clone, Copy)]
pub struct StmtListView<'a> {
    pub view: AstView<'a>,
    pub ids: ArenaRange<StmtId>,
}

impl<'a> StmtListView<'a> {
    pub open spec fn wf(&self) -> bool {
        &&& self.view.wf()
        &&& self.ids.start() <= self.ids.end() <= self.view.ast.stmts_lists@.len()
    }

    /// The ids of the statements of the block.
    pub open spec fn spec_ids(&self) -> Seq<StmtId> {
        self.view.ast.stmts_lists@.subrange(self.ids.start() as int, self.ids.end() as int)
    }

    pub fn new(view: AstView<'a>, ids: ArenaRange<StmtId>) -> (r: Self)
        ensures
            r.view == view,
            r.ids == ids,
    {
        StmtListView { ids, view }
    }

    /// The statements of the block, in order, seen together with the AST.
    pub fn iter(&self) -> (r: Vec<StmtView<'a>>)
        requires
            self.wf(),
        ensures
            r@.len() == self.spec_ids().len(),
            forall|i: int|
                0 <= i < r@.len() ==> (#[trigger] r@[i]).view == self.view && r@[i].id
                    == self.spec_ids()[i] && r@[i].wf(),
    {
        let ids = self.view.ast.stmts_lists.slice(self.ids);
        let mut r: Vec<StmtView<'a>> = Vec::new();
        let mut i: usize = 0;
        while i < ids.len()
            invariant
                self.wf(),
                ids@ == self.spec_ids(),
                i <= ids@.len(),
                r@.len() == i,
                forall|k: int|
                    0 <= k < i ==> (#[trigger] r@[k]).view == self.view && r@[k].id == ids@[k]
                        && r@[k].wf(),
            decreases ids.len() - i,
        {
            proof {
                self.view.ast.lemma_stmts_list(self.ids.start() + i);
            }
            r.push(StmtView::new(self.view, ids[i]));
            i = i + 1;
        }
        r
    }
}

/// A conditional block, seen together with the AST.
#[derive(Debug, Clone, Copy)]
pub struct CondBlockView<'a> {
    pub view: AstView<'a>,
    pub block: CondBlockId,
}

impl<'a> CondBlockView<'a> {
    pub open spec fn wf(&self) -> bool {
        self.view.wf() && self.view.ast.cond_blocks.contains_id(self.block)
    }

    pub open spec fn spec_node(&self) -> CondBlock {
        self.view.ast.cond_blocks@[self.block.value() as int]
    }

    pub fn new(view: AstView<'a>, block: CondBlockId) -> (r: Self)
        ensures
            r.view == view,
            r.block == block,
    {
        CondBlockView { block, view }
    }

    pub fn id(&self) -> (r: CondBlockId)
        ensures
            r == self.block,
    {
        self.block
    }

    /// The condition.
    pub fn cond(&self) -> (r: ExprView<'a>)
        requires
            self.wf(),
        ensures
            r.view == self.view,
            r.id == self.spec_node().cond,
            r.wf(),
    {
        proof {
            self.view.ast.lemma_cond_block(self.block);
        }
        ExprView::new(self.view, self.view.ast.cond_blocks.index(self.block).cond)
    }

    /// The block that the condition guards.
    pub fn block(&self) -> (r: StmtListView<'a>)
        requires
            self.wf(),
        ensures
            r.view == self.view,
            r.ids == self.spec_node().block,
            r.wf(),
    {
        proof {
            self.view.ast.lemma_cond_block(self.block);
        }
        StmtListView::new(self.view, self.view.ast.cond_blocks.index(self.block).block)
    }
}

/// The conditional blocks of an `if` chain, seen together with the AST.
#[derive(Debug, Clone, Copy)]
pub struct CondBlockListView<'a> {
    pub view: AstView<'a>,
    pub ids: ArenaRange<CondBlockId>,
}

impl<'a> CondBlockListView<'a> {
    pub open spec fn wf(&self) -> bool {
        &&& self.view.wf()
        &&& self.ids.start() <= self.ids.end() <= self.view.ast.cond_blocks_lists@.len()
    }

    /// The ids of the conditional blocks.
    pub open spec fn spec_ids(&self) -> Seq<CondBlockId> {
        self.view.ast.cond_blocks_lists@.subrange(self.ids.start() as int, self.ids.end() as int)
    }

    pub fn new(view: AstView<'a>, ids: ArenaRange<CondBlockId>) -> (r: Self)
        ensures
            r.view == view,
            r.ids == ids,
    {
        CondBlockListView { ids, view }
    }

    /// The conditional blocks, in order, seen together with the AST.
    pub fn iter(&self) -> (r: Vec<CondBlockView<'a>>)
        requires
            self.wf(),
        ensures
            r@.len() == self.spec_ids().len(),
            forall|i: int|
                0 <= i < r@.len() ==> (#[trigger] r@[i]).view == self.view && r@[i].block
                    == self.spec_ids()[i] && r@[i].wf(),
    {
        let ids = self.view.ast.cond_blocks_lists.slice(self.ids);
        let mut r: Vec<CondBlockView<'a>> = Vec::new();
        let mut i: usize = 0;
        while i < ids.len()
            invariant
                self.wf(),
                ids@ == self.spec_ids(),
                i <= ids@.len(),
                r@.len() == i,
                forall|k: int|
                    0 <= k < i ==> (#[trigger] r@[k]).view == self.view && r@[k].block == ids@[k]
                        && r@[k].wf(),
            decreases ids.len() - i,
        {
            proof {
                self.view.ast.lemma_cond_blocks_list(self.ids.start() + i);
            }
            r.push(CondBlockView::new(self.view, ids[i]));
            i = i + 1;
        }
        r
    }
}

/// See [`StmtKind`].
#[derive(Debug, Clone, Copy)]
pub enum StmtKindView<'a> {
    Expr(ExprView<'a>),
    VarDecl { ident: IdentView<'a>, expr: ExprView<'a>, typ: Option<TypeView<'a>> },
    Assign { lhs: ExprView<'a>, rhs: ExprView<'a> },
    Return(Option<ExprView<'a>>),
    If { elifs: CondBlockListView<'a>, els: Option<StmtListView<'a>> },
    While(CondBlockView<'a>),
    Break,
    Continue,
}

/// A statement of an AST, seen together with the AST.
#[derive(Debug, Clone, Copy)]
pub struct StmtView<'a> {
    pub view: AstView<'a>,
    pub id: StmtId,
}

impl<'a> StmtView<'a> {
    pub open spec fn wf(&self) -> bool {
        self.view.wf() && self.view.ast.stmts.contains_id(self.id)
    }

    pub open spec fn spec_node(&self) -> Stmt {
        self.view.ast.stmts@[self.id.value() as int]
    }

    /// The view of the node's kind.
    pub open spec fn spec_kind(&self) -> StmtKindView<'a> {
        let v = self.view;
        match self.spec_node().kind {
            StmtKind::Expr(e) => StmtKindView::Expr(ExprView { view: v, id: e }),
            StmtKind::VarDecl { ident, expr, typ } => StmtKindView::VarDecl {
                ident: IdentView { view: v, id: ident },
                expr: ExprView { view: v, id: expr },
                typ: match typ {
                    Some(t) => Some(TypeView { view: v, id: t }),
                    None => None,
                },
            },
            StmtKind::Assign { lhs, rhs } => StmtKindView::Assign {
                lhs: ExprView { view: v, id: lhs },
                rhs: ExprView { view: v, id: rhs },
            },
            StmtKind::Return(e) => StmtKindView::Return(
                match e {
                    Some(e) => Some(ExprView { view: v, id: e }),
                    None => None,
                },
            ),
            StmtKind::If { elifs, els } => StmtKindView::If {
                elifs: CondBlockListView { view: v, ids: elifs },
                els: match els {
                    Some(b) => Some(StmtListView { view: v, ids: b }),
                    None => None,
                },
            },
            StmtKind::While(b) => StmtKindView::While(CondBlockView { view: v, block: b }),
            StmtKind::Break => StmtKindView::Break,
            StmtKind::Continue => StmtKindView::Continue,
        }
    }

    pub fn new(view: AstView<'a>, id: StmtId) -> (r: Self)
        ensures
            r.view == view,
            r.id == id,
    {
        StmtView { view, id }
    }

    pub fn id(&self) -> (r: StmtId)
        ensures
            r == self.id,
    {
        self.id
    }

    pub fn span(&self) -> (r: Span)
        requires
            self.wf(),
        ensures
            r == self.spec_node().span,
    {
        self.node().span
    }

    fn node(&self) -> (r: &'a Stmt)
        requires
            self.wf(),
        ensures
            *r == self.spec_node(),
    {
        self.view.ast.stmts.index(self.id)
    }

    /// The kind of the statement, its parts seen together with the AST; the parts are
    /// well formed.
    pub fn kind(&self) -> (r: StmtKindView<'a>)
        requires
            self.wf(),
        ensures
            r == self.spec_kind(),
            match r {
                StmtKindView::Expr(e) => e.wf(),
                StmtKindView::VarDecl { ident, expr, typ } => ident.wf() && expr.wf() && (
                typ matches Some(t) ==> t.wf()),
                StmtKindView::Assign { lhs, rhs } => lhs.wf() && rhs.wf(),
                StmtKindView::Return(e) => e matches Some(e) ==> e.wf(),
                StmtKindView::If { elifs, els } => elifs.wf() && (els matches Some(b) ==> b.wf()),
                StmtKindView::While(b) => b.wf(),
                _ => true,
            },
    {
        proof {
            self.view.ast.lemma_stmt(self.id);
        }
        let v = self.view;
        match self.node().kind {
            StmtKind::Expr(e) => StmtKindView::Expr(ExprView::new(v, e)),
            StmtKind::VarDecl { ident, expr, typ } => StmtKindView::VarDecl {
                ident: IdentView::new(v, ident),
                expr: ExprView::new(v, expr),
                typ: match typ {
                    Some(t) => Some(TypeView::new(v, t)),
                    None => None,
                },
            },
            StmtKind::Assign { lhs, rhs } => StmtKindView::Assign {
                lhs: ExprView::new(v, lhs),
                rhs: ExprView::new(v, rhs),
            },
            StmtKind::Return(e) => StmtKindView::Return(
                match e {
                    Some(e) => Some(ExprView::new(v, e)),
                    None => None,
                },
            ),
            StmtKind::If { elifs, els } => StmtKindView::If {
                elifs: CondBlockListView::new(v, elifs),
                els: match els {
                    Some(b) => Some(StmtListView::new(v, b)),
                    None => None,
                },
            },
            StmtKind::While(b) => StmtKindView::While(CondBlockView::new(v, b)),
            StmtKind::Break => StmtKindView::Break,
            StmtKind::Continue => StmtKindView::Continue,
        }
    }
}

} // verus!
