//! The trees that the nodes of an AST stand for, as plain values: what a parse
//! produces, independent of where in the arenas its nodes were put.
use super::Ast;
use super::expr::{BinOp, ExprId, ExprKind, UniOp};
use super::idents::IdentId;
use super::item::{Fun, Param, ParamType};
use super::stmt::{StmtId, StmtKind};
use super::typ::{TypeId, TypeKind};
use crate::arena::ArenaRange;
use crate::lexer::Span;
use vstd::prelude::*;

verus! {

broadcast use crate::arena::group_arena_id;

/// A type written in the source.
pub enum TypeTree {
    Named { name: Seq<char>, span: Span },
    Ptr { inner: Box<TypeTree>, span: Span },
}

/// An expression written in the source.
pub enum ExprTree {
    Ident { name: Seq<char>, span: Span },
    Number { value: u128, span: Span },
    Str { value: Seq<char>, span: Span },
    Group { inner: Box<ExprTree>, span: Span },
    BinOp { op: BinOp, lhs: Box<ExprTree>, rhs: Box<ExprTree>, span: Span },
    UniOp { op: UniOp, expr: Box<ExprTree>, span: Span },
    Index { base: Box<ExprTree>, index: Box<ExprTree>, span: Span },
    Call { callee: Box<ExprTree>, args: Seq<ExprTree>, span: Span },
}

impl ExprTree {
    /// The span of the expression.
    pub open spec fn span(self) -> Span {
        match self {
            ExprTree::Ident { span, .. } => span,
            ExprTree::Number { span, .. } => span,
            ExprTree::Str { span, .. } => span,
            ExprTree::Group { span, .. } => span,
            ExprTree::BinOp { span, .. } => span,
            ExprTree::UniOp { span, .. } => span,
            ExprTree::Index { span, .. } => span,
            ExprTree::Call { span, .. } => span,
        }
    }
}

impl TypeTree {
    /// The span of the type.
    pub open spec fn span(self) -> Span {
        match self {
            TypeTree::Named { span, .. } => span,
            TypeTree::Ptr { span, .. } => span,
        }
    }
}

/// A statement written in the source; `Other` stands for the kinds that are not
/// written with `var`, `return` or as an expression.
pub enum StmtTree {
    Expr { expr: ExprTree, span: Span },
    Var { name: Seq<char>, typ: Option<TypeTree>, expr: ExprTree, span: Span },
    Return { expr: Option<ExprTree>, span: Span },
    Other { span: Span },
}

/// The type of a parameter.
pub enum ParamTypeTree {
    Type(TypeTree),
    Variadic(Span),
}

/// A parameter: its name and type.
pub struct ParamTree {
    pub name: Seq<char>,
    pub typ: ParamTypeTree,
}

/// A function: name, parameters, return type and body.
pub struct FunTree {
    pub name: Seq<char>,
    pub params: Seq<ParamTree>,
    pub ret_type: Option<TypeTree>,
    pub body: Option<Seq<StmtTree>>,
}

/// The text of identifier `x`, its string looked up in `strs`.
pub open spec fn ident_name(ast: &Ast, strs: Seq<Seq<char>>, x: IdentId) -> Seq<char> {
    strs[ast.idents@[x.value() as int].str.value() as int]
}

/// The tree of type `id`.
#[verifier::opaque]
pub open spec fn type_tree(ast: &Ast, strs: Seq<Seq<char>>, id: TypeId) -> TypeTree
    decreases id.value(),
{
    let t = ast.types@[id.value() as int];
    match t.kind {
        TypeKind::Identifier(x) => TypeTree::Named { name: ident_name(ast, strs, x), span: t.span },
        TypeKind::Ptr(inner) => if inner.value() < id.value() {
            TypeTree::Ptr { inner: Box::new(type_tree(ast, strs, inner)), span: t.span }
        } else {
            TypeTree::Named { name: Seq::empty(), span: t.span }
        },
    }
}

/// The ids of the expressions listed in `r`.
pub open spec fn listed_exprs(ast: &Ast, r: ArenaRange<ExprId>) -> Seq<ExprId> {
    ast.exprs_lists@.subrange(r.start() as int, r.end() as int)
}

/// The tree of expression `id`.
#[verifier::opaque]
pub open spec fn expr_tree(ast: &Ast, strs: Seq<Seq<char>>, id: ExprId) -> ExprTree
    decreases id.value() + 1, 0int,
{
    let e = ast.exprs@[id.value() as int];
    let v = id.value();
    match e.kind {
        ExprKind::Identifier(x) => ExprTree::Ident { name: ident_name(ast, strs, x), span: e.span },
        ExprKind::Number(x) => ExprTree::Number {
            value: ast.numbers@[x.value() as int].num,
            span: e.span,
        },
        ExprKind::String(x) => ExprTree::Str {
            value: strs[ast.strings@[x.value() as int].str.value() as int],
            span: e.span,
        },
        ExprKind::Group(x) => if x.value() < v {
            ExprTree::Group { inner: Box::new(expr_tree(ast, strs, x)), span: e.span }
        } else {
            ExprTree::Ident { name: Seq::empty(), span: e.span }
        },
        ExprKind::BinOp { op, lhs, rhs } => if lhs.value() < v && rhs.value() < v {
            ExprTree::BinOp {
                op,
                lhs: Box::new(expr_tree(ast, strs, lhs)),
                rhs: Box::new(expr_tree(ast, strs, rhs)),
                span: e.span,
            }
        } else {
            ExprTree::Ident { name: Seq::empty(), span: e.span }
        },
        ExprKind::UniOp { op, expr } => if expr.value() < v {
            ExprTree::UniOp { op, expr: Box::new(expr_tree(ast, strs, expr)), span: e.span }
        } else {
            ExprTree::Ident { name: Seq::empty(), span: e.span }
        },
        ExprKind::Index { base, index } => if base.value() < v && index.value() < v {
            ExprTree::Index {
                base: Box::new(expr_tree(ast, strs, base)),
                index: Box::new(expr_tree(ast, strs, index)),
                span: e.span,
            }
        } else {
            ExprTree::Ident { name: Seq::empty(), span: e.span }
        },
        ExprKind::Call { callee, args } => if callee.value() < v {
            ExprTree::Call {
                callee: Box::new(expr_tree(ast, strs, callee)),
                args: expr_trees(ast, strs, listed_exprs(ast, args), v as int),
                span: e.span,
            }
        } else {
            ExprTree::Ident { name: Seq::empty(), span: e.span }
        },
    }
}

/// The trees of the expressions `ids`, each of which must come before `bound`.
#[verifier::opaque]
pub open spec fn expr_trees(ast: &Ast, strs: Seq<Seq<char>>, ids: Seq<ExprId>, bound: int) -> Seq<
    ExprTree,
>
    decreases bound, ids.len(),
{
    if ids.len() == 0 {
        Seq::empty()
    } else if 0 <= ids[0].value() < bound {
        seq![expr_tree(ast, strs, ids[0])] + expr_trees(ast, strs, ids.drop_first(), bound)
    } else {
        Seq::empty()
    }
}

/// The tree of statement `id`.
pub open spec fn stmt_tree(ast: &Ast, strs: Seq<Seq<char>>, id: StmtId) -> StmtTree {
    let s = ast.stmts@[id.value() as int];
    match s.kind {
        StmtKind::Expr(e) => StmtTree::Expr { expr: expr_tree(ast, strs, e), span: s.span },
        StmtKind::VarDecl { ident, expr, typ } => StmtTree::Var {
            name: ident_name(ast, strs, ident),
            typ: match typ {
                Some(t) => Some(type_tree(ast, strs, t)),
                None => None,
            },
            expr: expr_tree(ast, strs, expr),
            span: s.span,
        },
        StmtKind::Return(e) => StmtTree::Return {
            expr: match e {
                Some(e) => Some(expr_tree(ast, strs, e)),
                None => None,
            },
            span: s.span,
        },
        _ => StmtTree::Other { span: s.span },
    }
}

/// The trees of the statements `ids`.
pub open spec fn stmt_trees(ast: &Ast, strs: Seq<Seq<char>>, ids: Seq<StmtId>) -> Seq<StmtTree> {
    Seq::new(ids.len(), |k: int| stmt_tree(ast, strs, ids[k]))
}

/// The tree of a parameter.
pub open spec fn param_tree(ast: &Ast, strs: Seq<Seq<char>>, p: Param) -> ParamTree {
    ParamTree {
        name: ident_name(ast, strs, p.ident),
        typ: match p.typ {
            ParamType::Type(t) => ParamTypeTree::Type(type_tree(ast, strs, t)),
            ParamType::Variadic(sp) => ParamTypeTree::Variadic(sp),
        },
    }
}

/// The tree of a function.
pub open spec fn fun_tree(ast: &Ast, strs: Seq<Seq<char>>, f: Fun) -> FunTree {
    let ps = ast.params@.subrange(f.params.start() as int, f.params.end() as int);
    FunTree {
        name: ident_name(ast, strs, f.ident),
        params: Seq::new(ps.len(), |k: int| param_tree(ast, strs, ps[k])),
        ret_type: match f.ret_type {
            Some(t) => Some(type_tree(ast, strs, t)),
            None => None,
        },
        body: match f.body {
            Some(b) => Some(
                stmt_trees(
                    ast,
                    strs,
                    ast.stmts_lists@.subrange(b.start() as int, b.end() as int),
                ),
            ),
            None => None,
        },
    }
}

/// Every arena of `a` is a prefix of the same arena of `b`.
#[verifier::opaque]
pub open spec fn ast_extends(a: &Ast, b: &Ast) -> bool {
    &&& a.exprs@ == b.exprs@.take(a.exprs@.len() as int)
    &&& a.exprs@.len() <= b.exprs@.len()
    &&& a.exprs_lists@ == b.exprs_lists@.take(a.exprs_lists@.len() as int)
    &&& a.exprs_lists@.len() <= b.exprs_lists@.len()
    &&& a.types@ == b.types@.take(a.types@.len() as int)
    &&& a.types@.len() <= b.types@.len()
    &&& a.stmts@ == b.stmts@.take(a.stmts@.len() as int)
    &&& a.stmts@.len() <= b.stmts@.len()
    &&& a.stmts_lists@ == b.stmts_lists@.take(a.stmts_lists@.len() as int)
    &&& a.stmts_lists@.len() <= b.stmts_lists@.len()
    &&& a.cond_blocks@ == b.cond_blocks@.take(a.cond_blocks@.len() as int)
    &&& a.cond_blocks@.len() <= b.cond_blocks@.len()
    &&& a.cond_blocks_lists@ == b.cond_blocks_lists@.take(a.cond_blocks_lists@.len() as int)
    &&& a.cond_blocks_lists@.len() <= b.cond_blocks_lists@.len()
    &&& a.items@ == b.items@.take(a.items@.len() as int)
    &&& a.items@.len() <= b.items@.len()
    &&& a.params@ == b.params@.take(a.params@.len() as int)
    &&& a.params@.len() <= b.params@.len()
    &&& a.idents@ == b.idents@.take(a.idents@.len() as int)
    &&& a.idents@.len() <= b.idents@.len()
    &&& a.strings@ == b.strings@.take(a.strings@.len() as int)
    &&& a.strings@.len() <= b.strings@.len()
    &&& a.numbers@ == b.numbers@.take(a.numbers@.len() as int)
    &&& a.numbers@.len() <= b.numbers@.len()
}

/// `a` is a prefix of `b`.
pub open spec fn strs_extend(a: Seq<Seq<char>>, b: Seq<Seq<char>>) -> bool {
    a.len() <= b.len() && a == b.take(a.len() as int)
}

/// An extension keeps the items that were there.
pub proof fn lemma_item_kept(a: &Ast, b: &Ast, j: int)
    requires
        ast_extends(a, b),
        0 <= j < a.items@.len(),
    ensures
        b.items@[j] == a.items@[j],
{
    reveal(ast_extends);
    assert(b.items@.take(a.items@.len() as int)[j] == b.items@[j]);
}

/// Extending is reflexive.
pub proof fn lemma_extends_refl(a: &Ast)
    ensures
        ast_extends(a, a),
{
    reveal(ast_extends);
    assert(a.exprs@ =~= a.exprs@.take(a.exprs@.len() as int));
    assert(a.exprs_lists@ =~= a.exprs_lists@.take(a.exprs_lists@.len() as int));
    assert(a.types@ =~= a.types@.take(a.types@.len() as int));
    assert(a.stmts@ =~= a.stmts@.take(a.stmts@.len() as int));
    assert(a.stmts_lists@ =~= a.stmts_lists@.take(a.stmts_lists@.len() as int));
    assert(a.cond_blocks@ =~= a.cond_blocks@.take(a.cond_blocks@.len() as int));
    assert(a.cond_blocks_lists@ =~= a.cond_blocks_lists@.take(
        a.cond_blocks_lists@.len() as int,
    ));
    assert(a.items@ =~= a.items@.take(a.items@.len() as int));
    assert(a.params@ =~= a.params@.take(a.params@.len() as int));
    assert(a.idents@ =~= a.idents@.take(a.idents@.len() as int));
    assert(a.strings@ =~= a.strings@.take(a.strings@.len() as int));
    assert(a.numbers@ =~= a.numbers@.take(a.numbers@.len() as int));
}

/// Extending is transitive.
pub proof fn lemma_extends_trans(a: &Ast, b: &Ast, c: &Ast)
    requires
        ast_extends(a, b),
        ast_extends(b, c),
    ensures
        ast_extends(a, c),
{
    reveal(ast_extends);
    assert(a.exprs@ =~= c.exprs@.take(a.exprs@.len() as int));
    assert(a.exprs_lists@ =~= c.exprs_lists@.take(a.exprs_lists@.len() as int));
    assert(a.types@ =~= c.types@.take(a.types@.len() as int));
    assert(a.stmts@ =~= c.stmts@.take(a.stmts@.len() as int));
    assert(a.stmts_lists@ =~= c.stmts_lists@.take(a.stmts_lists@.len() as int));
    assert(a.cond_blocks@ =~= c.cond_blocks@.take(a.cond_blocks@.len() as int));
    assert(a.cond_blocks_lists@ =~= c.cond_blocks_lists@.take(
        a.cond_blocks_lists@.len() as int,
    ));
    assert(a.items@ =~= c.items@.take(a.items@.len() as int));
    assert(a.params@ =~= c.params@.take(a.params@.len() as int));
    assert(a.idents@ =~= c.idents@.take(a.idents@.len() as int));
    assert(a.strings@ =~= c.strings@.take(a.strings@.len() as int));
    assert(a.numbers@ =~= c.numbers@.take(a.numbers@.len() as int));
}

/// The strings of identifier `x` agree in an extension.
pub proof fn lemma_ident_name_stable(
    a: &Ast,
    b: &Ast,
    sa: Seq<Seq<char>>,
    sb: Seq<Seq<char>>,
    x: IdentId,
)
    requires
        ast_extends(a, b),
        strs_extend(sa, sb),
        x.value() < a.idents@.len(),
        a.idents@[x.value() as int].str.value() < sa.len(),
    ensures
        ident_name(a, sa, x) == ident_name(b, sb, x),
{
    reveal(ast_extends);
    assert(a.idents@[x.value() as int] == b.idents@[x.value() as int]);
}

/// Every identifier and string literal of `a` names a string of `strs`.
pub open spec fn strs_cover(a: &Ast, strs: Seq<Seq<char>>) -> bool {
    &&& forall|i: int|
        0 <= i < a.idents@.len() ==> (#[trigger] a.idents@[i]).str.value() < strs.len()
    &&& forall|i: int|
        0 <= i < a.strings@.len() ==> (#[trigger] a.strings@[i]).str.value() < strs.len()
}

/// The tree of a type does not change when the AST and the strings grow.
pub proof fn lemma_type_tree_stable(
    a: &Ast,
    b: &Ast,
    sa: Seq<Seq<char>>,
    sb: Seq<Seq<char>>,
    id: TypeId,
)
    requires
        a.wf(),
        ast_extends(a, b),
        strs_extend(sa, sb),
        strs_cover(a, sa),
        a.types.contains_id(id),
    ensures
        type_tree(a, sa, id) == type_tree(b, sb, id),
    decreases id.value(),
{
    reveal(ast_extends);
    reveal(type_tree);
    a.lemma_type(id);
    let t = a.types@[id.value() as int];
    assert(b.types@[id.value() as int] == t);
    match t.kind {
        TypeKind::Identifier(x) => {
            lemma_ident_name_stable(a, b, sa, sb, x);
        },
        TypeKind::Ptr(inner) => {
            lemma_type_tree_stable(a, b, sa, sb, inner);
        },
    }
}

/// The tree of an expression does not change when the AST and the strings grow.
pub proof fn lemma_expr_tree_stable(
    a: &Ast,
    b: &Ast,
    sa: Seq<Seq<char>>,
    sb: Seq<Seq<char>>,
    id: ExprId,
)
    requires
        a.wf(),
        ast_extends(a, b),
        strs_extend(sa, sb),
        strs_cover(a, sa),
        a.exprs.contains_id(id),
    ensures
        expr_tree(a, sa, id) == expr_tree(b, sb, id),
    decreases id.value() + 1, 0int,
{
    reveal(ast_extends);
    reveal(expr_tree);
    reveal(expr_trees);
    a.lemma_expr(id);
    let e = a.exprs@[id.value() as int];
    assert(b.exprs@[id.value() as int] == e);
    match e.kind {
        ExprKind::Identifier(x) => {
            lemma_ident_name_stable(a, b, sa, sb, x);
        },
        ExprKind::Number(x) => {
            assert(a.numbers@[x.value() as int] == b.numbers@[x.value() as int]);
        },
        ExprKind::String(x) => {
            assert(a.strings@[x.value() as int] == b.strings@[x.value() as int]);
            assert(a.strings@[x.value() as int].str.value() < sa.len());
        },
        ExprKind::Group(x) => {
            lemma_expr_tree_stable(a, b, sa, sb, x);
        },
        ExprKind::BinOp { lhs, rhs, .. } => {
            lemma_expr_tree_stable(a, b, sa, sb, lhs);
            lemma_expr_tree_stable(a, b, sa, sb, rhs);
        },
        ExprKind::UniOp { expr, .. } => {
            lemma_expr_tree_stable(a, b, sa, sb, expr);
        },
        ExprKind::Index { base, index } => {
            lemma_expr_tree_stable(a, b, sa, sb, base);
            lemma_expr_tree_stable(a, b, sa, sb, index);
        },
        ExprKind::Call { callee, args } => {
            lemma_expr_tree_stable(a, b, sa, sb, callee);
            let ids = listed_exprs(a, args);
            assert(ids =~= listed_exprs(b, args));
            lemma_expr_trees_stable(a, b, sa, sb, ids, id.value() as int);
        },
    }
}

/// The trees of a list of expressions do not change when the AST and the strings grow.
pub proof fn lemma_expr_trees_stable(
    a: &Ast,
    b: &Ast,
    sa: Seq<Seq<char>>,
    sb: Seq<Seq<char>>,
    ids: Seq<ExprId>,
    bound: int,
)
    requires
        a.wf(),
        ast_extends(a, b),
        strs_extend(sa, sb),
        strs_cover(a, sa),
        bound <= a.exprs@.len(),
    ensures
        expr_trees(a, sa, ids, bound) == expr_trees(b, sb, ids, bound),
    decreases bound, ids.len(),
{
    reveal(ast_extends);
    reveal(expr_tree);
    reveal(expr_trees);
    if ids.len() > 0 && 0 <= ids[0].value() < bound {
        lemma_expr_tree_stable(a, b, sa, sb, ids[0]);
        lemma_expr_trees_stable(a, b, sa, sb, ids.drop_first(), bound);
    }
}

} // verus!
verus! {

/// The tree of a statement does not change when the AST and the strings grow.
pub proof fn lemma_stmt_tree_stable(
    a: &Ast,
    b: &Ast,
    sa: Seq<Seq<char>>,
    sb: Seq<Seq<char>>,
    id: StmtId,
)
    requires
        a.wf(),
        ast_extends(a, b),
        strs_extend(sa, sb),
        strs_cover(a, sa),
        a.stmts.contains_id(id),
    ensures
        stmt_tree(a, sa, id) == stmt_tree(b, sb, id),
{
    reveal(ast_extends);
    a.lemma_stmt(id);
    let st = a.stmts@[id.value() as int];
    assert(b.stmts@[id.value() as int] == st);
    match st.kind {
        StmtKind::Expr(e) => {
            lemma_expr_tree_stable(a, b, sa, sb, e);
        },
        StmtKind::VarDecl { ident, expr, typ } => {
            lemma_ident_name_stable(a, b, sa, sb, ident);
            lemma_expr_tree_stable(a, b, sa, sb, expr);
            if let Some(t) = typ {
                lemma_type_tree_stable(a, b, sa, sb, t);
            }
        },
        StmtKind::Return(e) => {
            if let Some(e) = e {
                lemma_expr_tree_stable(a, b, sa, sb, e);
            }
        },
        _ => {},
    }
}

} // verus!
verus! {

/// The tree of a parameter does not change when the AST and the strings grow.
pub proof fn lemma_param_tree_stable(a: &Ast, b: &Ast, sa: Seq<Seq<char>>, sb: Seq<Seq<char>>, p: Param)
    requires
        a.wf(),
        ast_extends(a, b),
        strs_extend(sa, sb),
        strs_cover(a, sa),
        a.param_wf(p),
    ensures
        param_tree(a, sa, p) == param_tree(b, sb, p),
{
    lemma_ident_name_stable(a, b, sa, sb, p.ident);
    if let ParamType::Type(t) = p.typ {
        lemma_type_tree_stable(a, b, sa, sb, t);
    }
}

/// The tree of a function does not change when the AST and the strings grow.
pub proof fn lemma_fun_tree_stable(a: &Ast, b: &Ast, sa: Seq<Seq<char>>, sb: Seq<Seq<char>>, f: Fun)
    requires
        a.wf(),
        ast_extends(a, b),
        strs_extend(sa, sb),
        strs_cover(a, sa),
        a.fun_wf(f),
    ensures
        fun_tree(a, sa, f) == fun_tree(b, sb, f),
{
    reveal(ast_extends);
    lemma_ident_name_stable(a, b, sa, sb, f.ident);
    let pa = a.params@.subrange(f.params.start() as int, f.params.end() as int);
    let pb = b.params@.subrange(f.params.start() as int, f.params.end() as int);
    assert(pa =~= pb);
    assert forall|k: int| 0 <= k < pa.len() implies param_tree(a, sa, #[trigger] pa[k])
        == param_tree(b, sb, pa[k]) by {
        a.lemma_param(crate::arena::ArenaId::from_value((f.params.start() + k) as u32));
        assert(a.param_wf(a.params@[f.params.start() + k]));
        lemma_param_tree_stable(a, b, sa, sb, pa[k]);
    }
    assert(Seq::new(pa.len(), |k: int| param_tree(a, sa, pa[k])) =~= Seq::new(
        pb.len(),
        |k: int| param_tree(b, sb, pb[k]),
    ));
    if let Some(t) = f.ret_type {
        lemma_type_tree_stable(a, b, sa, sb, t);
    }
    if let Some(body) = f.body {
        let ba = a.stmts_lists@.subrange(body.start() as int, body.end() as int);
        let bb = b.stmts_lists@.subrange(body.start() as int, body.end() as int);
        assert(ba =~= bb);
        assert forall|k: int| 0 <= k < ba.len() implies stmt_tree(a, sa, #[trigger] ba[k])
            == stmt_tree(b, sb, ba[k]) by {
            a.lemma_stmts_list(body.start() + k);
            lemma_stmt_tree_stable(a, b, sa, sb, ba[k]);
        }
        assert(stmt_trees(a, sa, ba) =~= stmt_trees(b, sb, bb));
    }
}

} // verus!
