//! The abstract syntax tree: nodes kept in arenas and named by ids.
pub mod expr;
pub mod idents;
pub mod item;
pub mod literals;
pub mod printer;
pub mod stmt;
pub mod symbols;
pub mod tree;
pub mod typ;

use crate::arena::{Arena, ArenaRange};
use crate::lexer::Span;
use crate::strings::Interner;
use crate::text::on_char_boundary;
use expr::{Expr, ExprId, ExprKind};
use idents::Ident;
use item::{Fun, Item, ItemView, Param, ParamType};
use literals::{NumLit, StrLit};
use stmt::{CondBlock, CondBlockId, Stmt, StmtId, StmtKind};
use typ::{Type, TypeKind};
use vstd::prelude::*;

verus! {

broadcast use crate::arena::group_arena_id;

#[derive(Debug)]
pub struct Ast {
    pub exprs: Arena<Expr>,
    /// for calls and array literals
    pub exprs_lists: Arena<ExprId>,
    pub types: Arena<Type>,
    pub stmts: Arena<Stmt>,
    /// this represents blocks
    pub stmts_lists: Arena<StmtId>,
    /// for `if` and `while` conditions
    pub cond_blocks: Arena<CondBlock>,
    /// for `if else` chains
    pub cond_blocks_lists: Arena<CondBlockId>,
    pub items: Arena<Item>,
    pub params: Arena<Param>,
    pub idents: Arena<Ident>,
    pub strings: Arena<StrLit>,
    pub numbers: Arena<NumLit>,
}

/// The range `r` lies inside an arena of `len` items.
pub open spec fn range_in<T>(r: ArenaRange<T>, len: nat) -> bool {
    r.start() <= r.end() <= len
}

impl Ast {
    /// The listed expressions of `args` all come before position `i`.
    pub open spec fn exprs_below(&self, args: ArenaRange<ExprId>, i: int) -> bool {
        &&& range_in(args, self.exprs_lists@.len())
        &&& forall|k: int|
            args.start() <= k < args.end() ==> (#[trigger] self.exprs_lists@[k]).value() < i
    }

    /// The statements of the block `b` all come before position `i`.
    pub open spec fn stmts_below(&self, b: ArenaRange<StmtId>, i: int) -> bool {
        &&& range_in(b, self.stmts_lists@.len())
        &&& forall|k: int| b.start() <= k < b.end() ==> (#[trigger] self.stmts_lists@[k]).value() < i
    }

    /// The conditional blocks of `r` all guard statements that come before position `i`.
    pub open spec fn cond_blocks_below(&self, r: ArenaRange<CondBlockId>, i: int) -> bool {
        &&& range_in(r, self.cond_blocks_lists@.len())
        &&& forall|k: int|
            r.start() <= k < r.end() ==> self.stmts_below(
                self.cond_blocks@[(#[trigger] self.cond_blocks_lists@[k]).value() as int].block,
                i,
            )
    }

    /// Expression `e`, at position `i`, names nodes that exist, its subexpressions earlier.
    pub open spec fn expr_wf(&self, e: Expr, i: int) -> bool {
        match e.kind {
            ExprKind::Identifier(x) => self.idents.contains_id(x),
            ExprKind::Number(x) => self.numbers.contains_id(x),
            ExprKind::String(x) => self.strings.contains_id(x),
            ExprKind::Group(x) => x.value() < i,
            ExprKind::BinOp { lhs, rhs, .. } => lhs.value() < i && rhs.value() < i,
            ExprKind::UniOp { expr, .. } => expr.value() < i,
            ExprKind::Index { base, index } => base.value() < i && index.value() < i,
            ExprKind::Call { callee, args } => callee.value() < i && self.exprs_below(args, i),
        }
    }

    /// Type `t`, at position `i`, names nodes that exist, its inner type earlier.
    pub open spec fn type_wf(&self, t: Type, i: int) -> bool {
        match t.kind {
            TypeKind::Identifier(x) => self.idents.contains_id(x),
            TypeKind::Ptr(x) => x.value() < i,
        }
    }

    /// Statement `s`, at position `i`, names nodes that exist, its nested statements earlier.
    pub open spec fn stmt_wf(&self, s: Stmt, i: int) -> bool {
        match s.kind {
            StmtKind::Expr(e) => self.exprs.contains_id(e),
            StmtKind::VarDecl { ident, expr, typ } => self.idents.contains_id(ident)
                && self.exprs.contains_id(expr) && (typ matches Some(t) ==> self.types.contains_id(
                t,
            )),
            StmtKind::Assign { lhs, rhs } => self.exprs.contains_id(lhs) && self.exprs.contains_id(
                rhs,
            ),
            StmtKind::Return(e) => e matches Some(e) ==> self.exprs.contains_id(e),
            StmtKind::If { elifs, els } => self.cond_blocks_below(elifs, i) && (els matches Some(
                b,
            ) ==> self.stmts_below(b, i)),
            StmtKind::While(b) => self.cond_blocks.contains_id(b) && self.stmts_below(
                self.cond_blocks@[b.value() as int].block,
                i,
            ),
            StmtKind::Break => true,
            StmtKind::Continue => true,
        }
    }

    pub open spec fn cond_block_wf(&self, c: CondBlock) -> bool {
        self.exprs.contains_id(c.cond) && range_in(c.block, self.stmts_lists@.len())
    }

    pub open spec fn fun_wf(&self, f: Fun) -> bool {
        &&& self.idents.contains_id(f.ident)
        &&& range_in(f.params, self.params@.len())
        &&& f.params.end() < u32::MAX
        &&& f.ret_type matches Some(t) ==> self.types.contains_id(t)
        &&& f.body matches Some(b) ==> range_in(b, self.stmts_lists@.len())
    }

    pub open spec fn param_wf(&self, p: Param) -> bool {
        &&& p.typ matches ParamType::Type(t) ==> self.types.contains_id(t)
        &&& self.idents.contains_id(p.ident)
    }

    /// Every arena holds at most `n` nodes.
    pub open spec fn sizes_at_most(&self, n: int) -> bool {
        &&& self.exprs@.len() <= n
        &&& self.exprs_lists@.len() <= n
        &&& self.types@.len() <= n
        &&& self.stmts@.len() <= n
        &&& self.stmts_lists@.len() <= n
        &&& self.cond_blocks@.len() <= n
        &&& self.cond_blocks_lists@.len() <= n
        &&& self.items@.len() <= n
        &&& self.params@.len() <= n
        &&& self.idents@.len() <= n
        &&& self.strings@.len() <= n
        &&& self.numbers@.len() <= n
    }

    /// Every node names only nodes that exist, and nested nodes come first.
    pub open spec fn wf(&self) -> bool {
        &&& self.sizes_at_most(u32::MAX - 1)
        &&& forall|i: int| 0 <= i < self.exprs@.len() ==> self.expr_wf(#[trigger] self.exprs@[i], i)
        &&& forall|i: int|
            0 <= i < self.exprs_lists@.len() ==> self.exprs.contains_id(
                #[trigger] self.exprs_lists@[i],
            )
        &&& forall|i: int| 0 <= i < self.types@.len() ==> self.type_wf(#[trigger] self.types@[i], i)
        &&& forall|i: int| 0 <= i < self.stmts@.len() ==> self.stmt_wf(#[trigger] self.stmts@[i], i)
        &&& forall|i: int|
            0 <= i < self.stmts_lists@.len() ==> self.stmts.contains_id(
                #[trigger] self.stmts_lists@[i],
            )
        &&& forall|i: int|
            0 <= i < self.cond_blocks@.len() ==> self.cond_block_wf(#[trigger] self.cond_blocks@[i])
        &&& forall|i: int|
            0 <= i < self.cond_blocks_lists@.len() ==> self.cond_blocks.contains_id(
                #[trigger] self.cond_blocks_lists@[i],
            )
        &&& forall|i: int|
            0 <= i < self.items@.len() ==> (#[trigger] self.items@[i] matches Item::Fun(f)
                && self.fun_wf(f))
        &&& forall|i: int| 0 <= i < self.params@.len() ==> self.param_wf(#[trigger] self.params@[i])
    }

    /// An AST without nodes.
    pub fn new() -> (r: Self)
        ensures
            r.wf(),
            r.is_empty(),
    {
        Ast {
            exprs: Arena::new(),
            exprs_lists: Arena::new(),
            types: Arena::new(),
            stmts: Arena::new(),
            stmts_lists: Arena::new(),
            cond_blocks: Arena::new(),
            cond_blocks_lists: Arena::new(),
            items: Arena::new(),
            params: Arena::new(),
            idents: Arena::new(),
            strings: Arena::new(),
            numbers: Arena::new(),
        }
    }

    /// Every arena is empty.
    pub open spec fn is_empty(&self) -> bool {
        &&& self.exprs@.len() == 0
        &&& self.exprs_lists@.len() == 0
        &&& self.types@.len() == 0
        &&& self.stmts@.len() == 0
        &&& self.stmts_lists@.len() == 0
        &&& self.cond_blocks@.len() == 0
        &&& self.cond_blocks_lists@.len() == 0
        &&& self.items@.len() == 0
        &&& self.params@.len() == 0
        &&& self.idents@.len() == 0
        &&& self.strings@.len() == 0
        &&& self.numbers@.len() == 0
    }

    /// Seen together with `interner` and `src`, the AST is well formed.
    pub open spec fn view_wf(&self, interner: &Interner, src: &str) -> bool {
        AstView { ast: self, interner, src }.wf()
    }

    /// The AST seen together with the strings of its identifiers and its source text.
    pub fn view<'a>(&'a self, interner: &'a Interner, src: &'a str) -> (r: AstView<'a>)
        ensures
            r.ast == self,
            r.interner == interner,
            r.src == src,
    {
        AstView::new(self, interner, src)
    }

    pub proof fn lemma_expr(&self, id: ExprId)
        requires
            self.wf(),
            self.exprs.contains_id(id),
        ensures
            self.expr_wf(self.exprs@[id.value() as int], id.value() as int),
    {
        assert(self.expr_wf(self.exprs@[id.value() as int], id.value() as int));
    }

    pub proof fn lemma_exprs_list(&self, k: int)
        requires
            self.wf(),
            0 <= k < self.exprs_lists@.len(),
        ensures
            self.exprs.contains_id(self.exprs_lists@[k]),
    {
    }

    pub proof fn lemma_type(&self, id: typ::TypeId)
        requires
            self.wf(),
            self.types.contains_id(id),
        ensures
            self.type_wf(self.types@[id.value() as int], id.value() as int),
    {
        assert(self.type_wf(self.types@[id.value() as int], id.value() as int));
    }

    pub proof fn lemma_stmt(&self, id: StmtId)
        requires
            self.wf(),
            self.stmts.contains_id(id),
        ensures
            self.stmt_wf(self.stmts@[id.value() as int], id.value() as int),
    {
        assert(self.stmt_wf(self.stmts@[id.value() as int], id.value() as int));
    }

    pub proof fn lemma_stmts_list(&self, k: int)
        requires
            self.wf(),
            0 <= k < self.stmts_lists@.len(),
        ensures
            self.stmts.contains_id(self.stmts_lists@[k]),
    {
    }

    pub proof fn lemma_cond_blocks_list(&self, k: int)
        requires
            self.wf(),
            0 <= k < self.cond_blocks_lists@.len(),
        ensures
            self.cond_blocks.contains_id(self.cond_blocks_lists@[k]),
    {
    }

    pub proof fn lemma_cond_block(&self, id: CondBlockId)
        requires
            self.wf(),
            self.cond_blocks.contains_id(id),
        ensures
            self.cond_block_wf(self.cond_blocks@[id.value() as int]),
    {
        assert(self.cond_block_wf(self.cond_blocks@[id.value() as int]));
    }

    pub proof fn lemma_param(&self, id: item::ParamId)
        requires
            self.wf(),
            self.params.contains_id(id),
        ensures
            self.param_wf(self.params@[id.value() as int]),
    {
        assert(self.param_wf(self.params@[id.value() as int]));
    }

    pub proof fn lemma_item(&self, id: item::ItemId)
        requires
            self.wf(),
            self.items.contains_id(id),
        ensures
            self.items@[id.value() as int] matches Item::Fun(f) && self.fun_wf(f),
    {
        assert(self.items@[id.value() as int] matches Item::Fun(f) && self.fun_wf(f));
    }
}

impl Default for Ast {
    fn default() -> (r: Self)
        ensures
            r.wf(),
            r.is_empty(),
    {
        Ast::new()
    }
}

/// The span `sp` runs forward between two characters of `src`.
pub open spec fn span_in(src: &str, sp: Span) -> bool {
    &&& sp.start <= sp.end
    &&& on_char_boundary(src@, sp.start as int)
    &&& on_char_boundary(src@, sp.end as int)
}

/// An AST seen together with the strings of its identifiers and its source text.
#[derive(Debug, Clone, Copy)]
pub struct AstView<'a> {
    pub ast: &'a Ast,
    pub interner: &'a Interner,
    pub src: &'a str,
}

impl<'a> AstView<'a> {
    /// The AST is well formed, its strings are interned, and its literals lie in the source.
    pub open spec fn wf(&self) -> bool {
        &&& self.ast.wf()
        &&& self.interner.wf()
        &&& forall|i: int|
            0 <= i < self.ast.idents@.len() ==> self.interner.contains_id(
                (#[trigger] self.ast.idents@[i]).str,
            )
        &&& forall|i: int|
            0 <= i < self.ast.strings@.len() ==> self.interner.contains_id(
                (#[trigger] self.ast.strings@[i]).str,
            ) && span_in(self.src, self.ast.strings@[i].span)
        &&& forall|i: int|
            0 <= i < self.ast.numbers@.len() ==> span_in(
                self.src,
                (#[trigger] self.ast.numbers@[i]).span,
            )
    }

    pub fn new(ast: &'a Ast, interner: &'a Interner, src: &'a str) -> (r: Self)
        ensures
            r.ast == ast,
            r.interner == interner,
            r.src == src,
    {
        AstView { ast, interner, src }
    }

    /// The items, in order.
    pub fn items(&self) -> (r: Vec<ItemView<'a>>)
        requires
            self.wf(),
        ensures
            r@.len() == self.ast.items@.len(),
            forall|i: int|
                0 <= i < r@.len() ==> (#[trigger] r@[i]).view == *self && r@[i].id.value() == i
                    && r@[i].wf(),
    {
        let n = self.ast.items.len();
        let mut r: Vec<ItemView<'a>> = Vec::new();
        let mut i: usize = 0;
        while i < n
            invariant
                self.wf(),
                n == self.ast.items@.len(),
                i <= n,
                r@.len() == i,
                forall|k: int|
                    0 <= k < i ==> (#[trigger] r@[k]).view == *self && r@[k].id.value() == k
                        && r@[k].wf(),
            decreases n - i,
        {
            r.push(ItemView::new(*self, crate::arena::ArenaId::new(i as u32)));
            i = i + 1;
        }
        r
    }

    pub fn ast(&self) -> (r: &'a Ast)
        ensures
            r == self.ast,
    {
        self.ast
    }

    pub fn interner(&self) -> (r: &'a Interner)
        ensures
            r == self.interner,
    {
        self.interner
    }

    pub fn src(&self) -> (r: &'a str)
        ensures
            r == self.src,
    {
        self.src
    }
}

} // verus!
