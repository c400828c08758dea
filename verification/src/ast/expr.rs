//! Expressions.
use super::AstView;
use super::idents::{IdentId, IdentView};
use super::literals::{NumLitId, NumLitView, StrLitId, StrLitView};
use crate::arena::{ArenaId, ArenaRange};
use crate::lexer::Span;
use vstd::prelude::*;

verus! {

pub type ExprId = ArenaId<Expr>;

#[derive(Debug, Clone, Copy, PartialEq, Eq)]
pub enum ExprKind {
    Identifier(IdentId),
    Number(NumLitId),
    String(StrLitId),
    Group(ExprId),
    BinOp { op: BinOp, lhs: ExprId, rhs: ExprId },
    UniOp { op: UniOp, expr: ExprId },
    Index { base: ExprId, index: ExprId },
    Call { callee: ExprId, args: ArenaRange<ExprId> },
}

#[derive(Debug, Clone, Copy, PartialEq, Eq)]
pub struct Expr {
    pub kind: ExprKind,
    pub span: Span,
}

impl Expr {
    pub fn new(kind: ExprKind, span: Span) -> (r: Self)
        ensures
            r == (Expr { kind, span }),
    {
        Expr { kind, span }
    }
}

/// The arguments of a call, seen together with the AST.
#[derive(Debug, Clone, Copy)]
pub struct ExprViewList<'a> {
    pub view: AstView<'a>,
    pub ids: ArenaRange<ExprId>,
}

impl<'a> ExprViewList<'a> {
    /// The view is well formed and the range lies in the list arena.
    pub open spec fn wf(&self) -> bool {
        &&& self.view.wf()
        &&& self.ids.start() <= self.ids.end() <= self.view.ast.exprs_lists@.len()
    }

    /// The ids of the listed expressions.
    pub open spec fn spec_ids(&self) -> Seq<ExprId> {
        self.view.ast.exprs_lists@.subrange(self.ids.start() as int, self.ids.end() as int)
    }

    pub fn new(view: AstView<'a>, ids: ArenaRange<ExprId>) -> (r: Self)
        ensures
            r.view == view,
            r.ids == ids,
    {
        ExprViewList { ids, view }
    }

    /// The listed expressions, in order, seen together with the AST.
    pub fn iter(&self) -> (r: Vec<ExprView<'a>>)
        requires
            self.wf(),
        ensures
            r@.len() == self.spec_ids().len(),
            forall|i: int|
                0 <= i < r@.len() ==> (#[trigger] r@[i]).view == self.view && r@[i].id
                    == self.spec_ids()[i] && r@[i].wf(),
    {
        let ids = self.view.ast.exprs_lists.slice(self.ids);
        let mut r: Vec<ExprView<'a>> = Vec::new();
        let mut i: usize = 0;
        while i < ids.len()
            invariant
                self.wf(),
                ids@ == self.spec_ids(),
                i <= ids@.len(),
                r@.len() == i,
                forall|k: int|
                    0 <= k < i ==> (#[trigger] r@[k]).view == self.view && r@[k].id == ids@[k]
                        && r@[k].wf(),
            decreases ids.len() - i,
        {
            proof {
                self.view.ast.lemma_exprs_list(self.ids.start() + i);
            }
            r.push(ExprView::new(self.view, ids[i]));
            i = i + 1;
        }
        r
    }
}

/// See [`ExprKind`].
#[derive(Debug, Clone, Copy)]
pub enum ExprKindView<'a> {
    Identifier(IdentView<'a>),
    Number(NumLitView<'a>),
    String(StrLitView<'a>),
    Group(ExprView<'a>),
    BinOp { op: BinOp, lhs: ExprView<'a>, rhs: ExprView<'a> },
    UniOp { op: UniOp, expr: ExprView<'a> },
    Index { base: ExprView<'a>, index: ExprView<'a> },
    Call { callee: ExprView<'a>, args: ExprViewList<'a> },
}

/// An expression of an AST, seen together with the AST.
#[derive(Debug, Clone, Copy)]
pub struct ExprView<'a> {
    pub view: AstView<'a>,
    pub id: ExprId,
}

impl<'a> ExprView<'a> {
    pub open spec fn wf(&self) -> bool {
        self.view.wf() && self.view.ast.exprs.contains_id(self.id)
    }

    pub open spec fn spec_node(&self) -> Expr {
        self.view.ast.exprs@[self.id.value() as int]
    }

    /// The view of the node's kind.
    pub open spec fn spec_kind(&self) -> ExprKindView<'a> {
        let v = self.view;
        match self.spec_node().kind {
            ExprKind::Identifier(id) => ExprKindView::Identifier(IdentView { view: v, id }),
            ExprKind::Number(id) => ExprKindView::Number(NumLitView { view: v, id }),
            ExprKind::String(id) => ExprKindView::String(StrLitView { view: v, id }),
            ExprKind::Group(id) => ExprKindView::Group(ExprView { view: v, id }),
            ExprKind::BinOp { op, lhs, rhs } => ExprKindView::BinOp {
                op,
                lhs: ExprView { view: v, id: lhs },
                rhs: ExprView { view: v, id: rhs },
            },
            ExprKind::UniOp { op, expr } => ExprKindView::UniOp {
                op,
                expr: ExprView { view: v, id: expr },
            },
            ExprKind::Index { base, index } => ExprKindView::Index {
                base: ExprView { view: v, id: base },
                index: ExprView { view: v, id: index },
            },
            ExprKind::Call { callee, args } => ExprKindView::Call {
                callee: ExprView { view: v, id: callee },
                args: ExprViewList { view: v, ids: args },
            },
        }
    }

    pub fn new(view: AstView<'a>, id: ExprId) -> (r: Self)
        ensures
            r.view == view,
            r.id == id,
    {
        ExprView { view, id }
    }

    pub fn id(&self) -> (r: ExprId)
        ensures
            r == self.id,
    {
        self.id
    }

    pub fn span(&self) -> (r: Span)
        requires
            self.wf(),
        ensures
            r == self.spec_node().span,
    {
        self.node().span
    }

    fn node(&self) -> (r: &'a Expr)
        requires
            self.wf(),
        ensures
            *r == self.spec_node(),
    {
        self.view.ast.exprs.index(self.id)
    }

    /// The kind of the expression, its parts seen together with the AST; the parts are
    /// well formed, and subexpressions come earlier in the arena.
    pub fn kind(&self) -> (r: ExprKindView<'a>)
        requires
            self.wf(),
        ensures
            r == self.spec_kind(),
            match r {
                ExprKindView::Identifier(v) => v.wf(),
                ExprKindView::Number(v) => v.wf(),
                ExprKindView::String(v) => v.wf(),
                ExprKindView::Group(e) => e.wf() && e.id.value() < self.id.value(),
                ExprKindView::BinOp { lhs, rhs, .. } => lhs.wf() && rhs.wf() && lhs.id.value()
                    < self.id.value() && rhs.id.value() < self.id.value(),
                ExprKindView::UniOp { expr, .. } => expr.wf() && expr.id.value() < self.id.value(),
                ExprKindView::Index { base, index } => base.wf() && index.wf() && base.id.value()
                    < self.id.value() && index.id.value() < self.id.value(),
                ExprKindView::Call { callee, args } => callee.wf() && args.wf()
                    && callee.id.value() < self.id.value() && forall|k: int|
                    0 <= k < args.spec_ids().len() ==> (#[trigger] args.spec_ids()[k]).value()
                        < self.id.value(),
            },
    {
        proof {
            self.view.ast.lemma_expr(self.id);
        }
        let v = self.view;
        match self.node().kind {
            ExprKind::Identifier(id) => ExprKindView::Identifier(IdentView::new(v, id)),
            ExprKind::Number(id) => ExprKindView::Number(NumLitView::new(v, id)),
            ExprKind::String(id) => ExprKindView::String(StrLitView::new(v, id)),
            ExprKind::Group(id) => ExprKindView::Group(Self::new(v, id)),
            ExprKind::BinOp { op, lhs, rhs } => ExprKindView::BinOp {
                op,
                lhs: Self::new(v, lhs),
                rhs: Self::new(v, rhs),
            },
            ExprKind::UniOp { op, expr } => ExprKindView::UniOp { op, expr: Self::new(v, expr) },
            ExprKind::Index { base, index } => ExprKindView::Index {
                base: Self::new(v, base),
                index: Self::new(v, index),
            },
            ExprKind::Call { callee, args } => ExprKindView::Call {
                callee: Self::new(v, callee),
                args: ExprViewList::new(v, args),
            },
        }
    }
}

#[derive(Debug, Clone, Copy, PartialEq, Eq, Structural)]
pub enum BinOp {
    Mul,
    Div,
    Rem,
    Add,
    Sub,
    Shl,
    Shr,
    Lt,
    Gt,
    Le,
    Ge,
    Eq,
    Ne,
    BitAnd,
    BitXor,
    BitOr,
    LogicalAnd,
    LogicalOr,
}

impl BinOp {
    /// The operator compares its operands.
    pub open spec fn spec_is_comparison(self) -> bool {
        match self {
            BinOp::Lt | BinOp::Gt | BinOp::Le | BinOp::Ge | BinOp::Eq | BinOp::Ne => true,
            _ => false,
        }
    }

    pub fn is_comparison(&self) -> (r: bool)
        ensures
            r == self.spec_is_comparison(),
    {
        match self {
            BinOp::Lt | BinOp::Gt | BinOp::Le | BinOp::Ge | BinOp::Eq | BinOp::Ne => true,
            _ => false,
        }
    }
}

#[derive(Debug, Clone, Copy, PartialEq, Eq, Structural)]
pub enum UniOp {
    Neg,
    Not,
    Ref,
    Deref,
}

} // verus!
