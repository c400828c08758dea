//! Printing an AST back as source text.
use super::expr::{BinOp, ExprId, ExprKind, ExprKindView, ExprView, ExprViewList, UniOp};
use super::idents::IdentId;
use super::item::{Fun, FunView, Item, ItemKindView, ParamType, ParamTypeView};
use super::stmt::{
    CondBlockId, CondBlockListView, CondBlockView, StmtId, StmtKind, StmtKindView, StmtListView,
    StmtView,
};
use super::typ::{TypeId, TypeKind, TypeKindView, TypeView};
use super::{Ast, AstView};
use crate::arena::ArenaRange;
use crate::lexer::{lex, Span, Tok};
use vstd::prelude::*;
use vstd::string::{StringExecFns, StringSliceAdditionalSpecFns};
use vstd::utf8::decode_utf8;

verus! {

broadcast use crate::arena::group_arena_id;

/// The text of identifier `x`.
pub open spec fn ident_text(v: AstView, x: IdentId) -> Seq<char> {
    v.interner@[v.ast.idents@[x.value() as int].str.value() as int]
}

/// The source text of the byte span `sp`.
pub open spec fn span_text(src: &str, sp: Span) -> Seq<char> {
    decode_utf8(src.spec_bytes().subrange(sp.start as int, sp.end as int))
}

/// Four spaces for each of `n` levels.
pub open spec fn indent_text(n: nat) -> Seq<char>
    decreases n,
{
    if n == 0 {
        Seq::empty()
    } else {
        indent_text((n - 1) as nat) + seq![' ', ' ', ' ', ' ']
    }
}

/// How a binary operator is written.
pub open spec fn binop_text(op: BinOp) -> Seq<char> {
    match op {
        BinOp::Mul => seq!['*'],
        BinOp::Div => seq!['/'],
        BinOp::Rem => seq!['%'],
        BinOp::Add => seq!['+'],
        BinOp::Sub => seq!['-'],
        BinOp::Shl => seq!['<', '<'],
        BinOp::Shr => seq!['>', '>'],
        BinOp::Lt => seq!['<'],
        BinOp::Gt => seq!['>'],
        BinOp::Le => seq!['<', '='],
        BinOp::Ge => seq!['>', '='],
        BinOp::Eq => seq!['=', '='],
        BinOp::Ne => seq!['!', '='],
        BinOp::BitAnd => seq!['&'],
        BinOp::BitXor => seq!['^'],
        BinOp::BitOr => seq!['|'],
        BinOp::LogicalAnd => seq!['a', 'n', 'd'],
        BinOp::LogicalOr => seq!['o', 'r'],
    }
}

/// How a unary operator is written.
pub open spec fn uniop_text(op: UniOp) -> Seq<char> {
    match op {
        UniOp::Neg => seq!['-'],
        UniOp::Not => seq!['!'],
        UniOp::Ref => seq!['&'],
        UniOp::Deref => seq!['*'],
    }
}

/// The text of type `id`.
pub open spec fn type_text(v: AstView, id: TypeId) -> Seq<char>
    decreases id.value(),
{
    match v.ast.types@[id.value() as int].kind {
        TypeKind::Identifier(x) => ident_text(v, x),
        TypeKind::Ptr(inner) => if inner.value() < id.value() {
            seq!['*'] + type_text(v, inner)
        } else {
            seq!['*']
        },
    }
}

/// The text of expression `id`.
#[verifier::opaque]
pub open spec fn expr_text(v: AstView, id: ExprId) -> Seq<char>
    decreases id.value() + 1, 0int,
{
    let e = v.ast.exprs@[id.value() as int];
    let n = id.value();
    match e.kind {
        ExprKind::Identifier(x) => ident_text(v, x),
        ExprKind::Number(x) => span_text(v.src, v.ast.numbers@[x.value() as int].span),
        ExprKind::String(x) => span_text(v.src, v.ast.strings@[x.value() as int].span),
        ExprKind::Group(x) => if x.value() < n {
            seq!['('] + expr_text(v, x) + seq![')']
        } else {
            Seq::empty()
        },
        ExprKind::BinOp { op, lhs, rhs } => if lhs.value() < n && rhs.value() < n {
            expr_text(v, lhs) + seq![' '] + binop_text(op) + seq![' '] + expr_text(v, rhs)
        } else {
            Seq::empty()
        },
        ExprKind::UniOp { op, expr } => if expr.value() < n {
            uniop_text(op) + expr_text(v, expr)
        } else {
            Seq::empty()
        },
        ExprKind::Index { base, index } => if base.value() < n && index.value() < n {
            expr_text(v, base) + seq!['['] + expr_text(v, index) + seq![']']
        } else {
            Seq::empty()
        },
        ExprKind::Call { callee, args } => if callee.value() < n {
            expr_text(v, callee) + seq!['('] + args_text(
                v,
                v.ast.exprs_lists@.subrange(args.start() as int, args.end() as int),
                n as int,
            ) + seq![')']
        } else {
            Seq::empty()
        },
    }
}

/// The texts of the expressions `ids`, each before `bound`, separated by ", ".
#[verifier::opaque]
pub open spec fn args_text(v: AstView, ids: Seq<ExprId>, bound: int) -> Seq<char>
    decreases bound, ids.len(),
{
    if ids.len() == 0 {
        Seq::empty()
    } else {
        let sep = if ids.len() > 1 {
            seq![',', ' ']
        } else {
            Seq::empty()
        };
        let last = if ids.last().value() < bound {
            expr_text(v, ids.last())
        } else {
            Seq::empty()
        };
        args_text(v, ids.drop_last(), bound) + sep + last
    }
}

/// The ids of the statements listed in `r`.
pub open spec fn listed_stmts(ast: &Ast, r: ArenaRange<StmtId>) -> Seq<StmtId> {
    ast.stmts_lists@.subrange(r.start() as int, r.end() as int)
}

/// The ids of the conditional blocks listed in `r`.
pub open spec fn listed_cond_blocks(ast: &Ast, r: ArenaRange<CondBlockId>) -> Seq<CondBlockId> {
    ast.cond_blocks_lists@.subrange(r.start() as int, r.end() as int)
}

/// The text of statement `id`, `ind` levels deep.
#[verifier::opaque]
pub open spec fn stmt_text(v: AstView, ind: nat, id: StmtId) -> Seq<char>
    decreases id.value() + 1, 0int, 0int,
{
    let n = id.value() as int;
    indent_text(ind) + match v.ast.stmts@[n].kind {
        StmtKind::Expr(e) => expr_text(v, e) + seq![';'],
        StmtKind::VarDecl { ident, expr, typ } => seq!['v', 'a', 'r', ' '] + ident_text(v, ident)
            + match typ {
            Some(t) => seq![' ', ':', ' '] + type_text(v, t),
            None => Seq::empty(),
        } + seq![' ', '=', ' '] + expr_text(v, expr) + seq![';'],
        StmtKind::Assign { lhs, rhs } => expr_text(v, lhs) + seq![' ', '=', ' '] + expr_text(v, rhs)
            + seq![';'],
        StmtKind::Return(e) => seq!['r', 'e', 't', 'u', 'r', 'n'] + match e {
            Some(e) => seq![' '] + expr_text(v, e),
            None => Seq::empty(),
        } + seq![';'],
        StmtKind::If { elifs, els } => elifs_text(v, ind, listed_cond_blocks(v.ast, elifs), n)
            + match els {
            Some(b) => block_text(
                v,
                seq![' ', 'e', 'l', 's', 'e', ' '],
                ind,
                listed_stmts(v.ast, b),
                n,
            ),
            None => Seq::empty(),
        },
        StmtKind::While(b) => cond_block_text(v, seq!['w', 'h', 'i', 'l', 'e'], ind, b, n),
        StmtKind::Break => seq!['b', 'r', 'e', 'a', 'k', ';'],
        StmtKind::Continue => seq!['c', 'o', 'n', 't', 'i', 'n', 'u', 'e', ';'],
    }
}

/// The statements `ids`, each before `bound`, each on a line of its own.
#[verifier::opaque]
pub open spec fn stmts_text(v: AstView, ind: nat, ids: Seq<StmtId>, bound: int) -> Seq<char>
    decreases bound, 0int, ids.len(),
{
    if ids.len() == 0 {
        Seq::empty()
    } else {
        let last = if ids.last().value() < bound {
            stmt_text(v, ind, ids.last())
        } else {
            Seq::empty()
        };
        stmts_text(v, ind, ids.drop_last(), bound) + seq!['\n'] + last
    }
}

/// A block of the statements `ids` after `prefix`, its closing brace `ind` levels deep.
#[verifier::opaque]
pub open spec fn block_text(
    v: AstView,
    prefix: Seq<char>,
    ind: nat,
    ids: Seq<StmtId>,
    bound: int,
) -> Seq<char>
    decreases bound, 1int, 0int,
{
    prefix + seq!['{'] + stmts_text(v, ind + 1, ids, bound) + seq!['\n'] + indent_text(ind)
        + seq!['}']
}

/// A conditional block `cb` after `prefix`: its condition and its block.
#[verifier::opaque]
pub open spec fn cond_block_text(
    v: AstView,
    prefix: Seq<char>,
    ind: nat,
    cb: CondBlockId,
    bound: int,
) -> Seq<char>
    decreases bound, 2int, 0int,
{
    let c = v.ast.cond_blocks@[cb.value() as int];
    prefix + seq![' '] + expr_text(v, c.cond) + block_text(
        v,
        seq![' '],
        ind,
        listed_stmts(v.ast, c.block),
        bound,
    )
}

/// The conditional blocks of an `if`: the first after "if", the others after " else if".
#[verifier::opaque]
pub open spec fn elifs_text(v: AstView, ind: nat, cbs: Seq<CondBlockId>, bound: int) -> Seq<char>
    decreases bound, 3int, cbs.len(),
{
    if cbs.len() == 0 {
        Seq::empty()
    } else {
        let prefix = if cbs.len() == 1 {
            seq!['i', 'f']
        } else {
            seq![' ', 'e', 'l', 's', 'e', ' ', 'i', 'f']
        };
        elifs_text(v, ind, cbs.drop_last(), bound) + cond_block_text(
            v,
            prefix,
            ind,
            cbs.last(),
            bound,
        )
    }
}

/// The parameters of `f`, separated by ", ": each its name, ": " and its type.
pub open spec fn params_text(v: AstView, f: Fun, k: int) -> Seq<char>
    decreases k,
{
    if k <= 0 {
        Seq::empty()
    } else {
        let p = v.ast.params@[f.params.start() + k - 1];
        let sep = if k > 1 {
            seq![',', ' ']
        } else {
            Seq::empty()
        };
        params_text(v, f, k - 1) + sep + ident_text(v, p.ident) + seq![':', ' '] + match p.typ {
            ParamType::Type(t) => type_text(v, t),
            ParamType::Variadic(_) => seq!['.', '.', '.'],
        }
    }
}

/// The text of function `f`, followed by an empty line.
pub open spec fn fun_text(v: AstView, f: Fun) -> Seq<char> {
    seq!['f', 'u', 'n', ' '] + ident_text(v, f.ident) + seq!['('] + params_text(
        v,
        f,
        f.params.end() - f.params.start(),
    ) + seq![')'] + match f.ret_type {
        Some(t) => seq![' ', ':', ' '] + type_text(v, t),
        None => seq![' ', ':', ' ', 'v', 'o', 'i', 'd'],
    } + match f.body {
        Some(b) => block_text(v, seq![' '], 0, listed_stmts(v.ast, b), v.ast.stmts@.len() as int)
            + seq!['\n', '\n'],
        None => seq![';', '\n', '\n'],
    }
}

/// The text of the first `k` items.
pub open spec fn items_text(v: AstView, k: int) -> Seq<char>
    decreases k,
{
    if k <= 0 {
        Seq::empty()
    } else {
        items_text(v, k - 1) + match v.ast.items@[k - 1] {
            Item::Fun(f) => fun_text(v, f),
        }
    }
}

/// Appends four spaces for each of `n` levels.
fn write_indent(out: &mut String, n: u32)
    ensures
        final(out)@ == old(out)@ + indent_text(n as nat),
{
    let ghost o0 = out@;
    let mut i: u32 = 0;
    while i < n
        invariant
            i <= n,
            out@ == o0 + indent_text(i as nat),
        decreases n - i,
    {
        proof {
            reveal_strlit("    ");
        }
        out.append("    ");
        i = i + 1;
        proof {
            assert(out@ =~= o0 + indent_text(i as nat));
        }
    }
}

/// How a binary operator is written.
pub fn binop_str(op: BinOp) -> (r: &'static str)
    ensures
        r@ == binop_text(op),
{
    match op {
        BinOp::Mul => {
            proof { reveal_strlit("*"); }
            "*"
        },
        BinOp::Div => {
            proof { reveal_strlit("/"); }
            "/"
        },
        BinOp::Rem => {
            proof { reveal_strlit("%"); }
            "%"
        },
        BinOp::Add => {
            proof { reveal_strlit("+"); }
            "+"
        },
        BinOp::Sub => {
            proof { reveal_strlit("-"); }
            "-"
        },
        BinOp::Shl => {
            proof { reveal_strlit("<<"); }
            "<<"
        },
        BinOp::Shr => {
            proof { reveal_strlit(">>"); }
            ">>"
        },
        BinOp::Lt => {
            proof { reveal_strlit("<"); }
            "<"
        },
        BinOp::Gt => {
            proof { reveal_strlit(">"); }
            ">"
        },
        BinOp::Le => {
            proof { reveal_strlit("<="); }
            "<="
        },
        BinOp::Ge => {
            proof { reveal_strlit(">="); }
            ">="
        },
        BinOp::Eq => {
            proof { reveal_strlit("=="); }
            "=="
        },
        BinOp::Ne => {
            proof { reveal_strlit("!="); }
            "!="
        },
        BinOp::BitAnd => {
            proof { reveal_strlit("&"); }
            "&"
        },
        BinOp::BitXor => {
            proof { reveal_strlit("^"); }
            "^"
        },
        BinOp::BitOr => {
            proof { reveal_strlit("|"); }
            "|"
        },
        BinOp::LogicalAnd => {
            proof { reveal_strlit("and"); }
            "and"
        },
        BinOp::LogicalOr => {
            proof { reveal_strlit("or"); }
            "or"
        },
    }
}

/// How a unary operator is written.
pub fn uniop_str(op: UniOp) -> (r: &'static str)
    ensures
        r@ == uniop_text(op),
{
    match op {
        UniOp::Neg => {
            proof { reveal_strlit("-"); }
            "-"
        },
        UniOp::Not => {
            proof { reveal_strlit("!"); }
            "!"
        },
        UniOp::Ref => {
            proof { reveal_strlit("&"); }
            "&"
        },
        UniOp::Deref => {
            proof { reveal_strlit("*"); }
            "*"
        },
    }
}

impl<'a> AstView<'a> {
    /// Appends the text of type `typ`.
    pub fn fmt_type(&self, out: &mut String, typ: &TypeView<'a>)
        requires
            self.wf(),
            typ.wf(),
            typ.view == *self,
        ensures
            final(out)@ == old(out)@ + type_text(*self, typ.id),
        decreases typ.id.value(),
    {
        match typ.kind() {
            TypeKindView::Identifier(ident) => {
                out.append(ident.str());
            },
            TypeKindView::Ptr(inner) => {
                proof {
                    reveal_strlit("*");
                }
                let ghost o1 = out@;
                out.append("*");
                self.fmt_type(out, &inner);
                proof {
                    assert(out@ =~= o1 + (seq!['*'] + type_text(*self, inner.id)));
                }
            },
        }
    }

    /// Appends the text of expression `expr`.
    pub fn fmt_expr(&self, out: &mut String, expr: &ExprView<'a>)
        requires
            self.wf(),
            expr.wf(),
            expr.view == *self,
        ensures
            final(out)@ == old(out)@ + expr_text(*self, expr.id),
        decreases expr.id.value(), 1int,
    {
        let ghost o0 = out@;
        let ghost e = expr.spec_node();
        match expr.kind() {
            ExprKindView::Identifier(id) => {
                out.append(id.str());
                proof {
                    assert(expr_text(*self, expr.id) == ident_text(*self, id.id)) by {
                        reveal(expr_text);
                        reveal(args_text);
                    }
                }
            },
            ExprKindView::Number(id) => {
                let t = id.str();
                proof {
                    vstd::utf8::encode_utf8_decode_utf8(t@);
                    assert(expr_text(*self, expr.id) == span_text(self.src, id.spec_node().span))
                        by {
                        reveal(expr_text);
                        reveal(args_text);
                    }
                }
                out.append(t);
            },
            ExprKindView::String(id) => {
                let t = id.src();
                proof {
                    vstd::utf8::encode_utf8_decode_utf8(t@);
                    assert(expr_text(*self, expr.id) == span_text(self.src, id.spec_node().span))
                        by {
                        reveal(expr_text);
                        reveal(args_text);
                    }
                }
                out.append(t);
            },
            ExprKindView::Group(inner) => {
                proof {
                    reveal_strlit("(");
                    reveal_strlit(")");
                }
                out.append("(");
                self.fmt_expr(out, &inner);
                out.append(")");
                proof {
                    let x = seq!['('] + expr_text(*self, inner.id) + seq![')'];
                    assert(expr_text(*self, expr.id) == x) by {
                        reveal(expr_text);
                        reveal(args_text);
                    }
                    assert(out@ =~= o0 + x);
                }
            },
            ExprKindView::BinOp { op, lhs, rhs } => {
                self.fmt_expr(out, &lhs);
                let op_str = binop_str(op);
                proof {
                    reveal_strlit(" ");
                    assert(" "@ =~= seq![' ']);
                }
                out.append(" ");
                out.append(op_str);
                out.append(" ");
                self.fmt_expr(out, &rhs);
                proof {
                    let x = expr_text(*self, lhs.id) + seq![' '] + binop_text(op) + seq![' ']
                        + expr_text(*self, rhs.id);
                    assert(expr_text(*self, expr.id) == x) by {
                        reveal(expr_text);
                        reveal(args_text);
                    }
                    assert(out@ =~= o0 + x);
                }
            },
            ExprKindView::UniOp { op, expr: inner } => {
                out.append(uniop_str(op));
                self.fmt_expr(out, &inner);
                proof {
                    let x = uniop_text(op) + expr_text(*self, inner.id);
                    assert(expr_text(*self, expr.id) == x) by {
                        reveal(expr_text);
                        reveal(args_text);
                    }
                    assert(out@ =~= o0 + x);
                }
            },
            ExprKindView::Index { base, index } => {
                proof {
                    reveal_strlit("[");
                    reveal_strlit("]");
                }
                self.fmt_expr(out, &base);
                out.append("[");
                self.fmt_expr(out, &index);
                out.append("]");
                proof {
                    let x = expr_text(*self, base.id) + seq!['['] + expr_text(*self, index.id)
                        + seq![']'];
                    assert(expr_text(*self, expr.id) == x) by {
                        reveal(expr_text);
                        reveal(args_text);
                    }
                    assert(out@ =~= o0 + x);
                }
            },
            ExprKindView::Call { callee, args } => {
                proof {
                    reveal_strlit("(");
                    reveal_strlit(")");
                }
                let ghost n = expr.id.value() as int;
                self.fmt_expr(out, &callee);
                out.append("(");
                self.fmt_args(out, &args, Ghost(n));
                out.append(")");
                proof {
                    let x = expr_text(*self, callee.id) + seq!['('] + args_text(
                        *self,
                        args.spec_ids(),
                        n,
                    ) + seq![')'];
                    assert(e.kind == ExprKind::Call { callee: callee.id, args: args.ids });
                    assert(callee.id.value() < n);
                    assert(args.spec_ids() == self.ast.exprs_lists@.subrange(
                        args.ids.start() as int,
                        args.ids.end() as int,
                    ));
                    assert(expr_text(*self, expr.id) == x) by {
                        reveal(expr_text);
                        reveal(args_text);
                    }
                    assert(out@ =~= o0 + x);
                }
            },
        }
    }

    /// Appends the texts of the expressions of `args`, separated by ", ".
    fn fmt_args(&self, out: &mut String, args: &ExprViewList<'a>, Ghost(n): Ghost<int>)
        requires
            self.wf(),
            args.wf(),
            args.view == *self,
            forall|k: int| 0 <= k < args.spec_ids().len() ==> (#[trigger] args.spec_ids()[k]).value() < n,
        ensures
            final(out)@ == old(out)@ + args_text(*self, args.spec_ids(), n),
        decreases n, 0int,
    {
        proof {
            reveal_strlit(", ");
        }
        let ghost ids = args.spec_ids();
        let ghost o1 = out@;
        let items = args.iter();
        let mut i: usize = 0;
        proof {
            assert(args_text(*self, ids.take(0), n) == Seq::<char>::empty()) by {
                reveal(args_text);
                reveal(expr_text);
            }
            assert(out@ =~= o1 + args_text(*self, ids.take(0), n));
        }
        while i < items.len()
            invariant
                self.wf(),
                i <= items@.len(),
                items@.len() == ids.len(),
                forall|k: int|
                    0 <= k < items@.len() ==> (#[trigger] items@[k]).view == *self && items@[k].id
                        == ids[k] && items@[k].wf(),
                forall|k: int| 0 <= k < ids.len() ==> (#[trigger] ids[k]).value() < n,
                out@ == o1 + args_text(*self, ids.take(i as int), n),
            decreases items.len() - i,
        {
            let ghost o2 = out@;
            proof {
                reveal_strlit(", ");
            }
            if i > 0 {
                out.append(", ");
            }
            self.fmt_expr(out, &items[i]);
            proof {
                let t = ids.take(i + 1);
                assert(t.drop_last() =~= ids.take(i as int));
                assert(t.last() == ids[i as int]);
                let sep = if i > 0 { seq![',', ' '] } else { Seq::<char>::empty() };
                assert(ids[i as int].value() < n);
                assert(args_text(*self, t, n) == args_text(*self, ids.take(i as int), n) + sep
                    + expr_text(*self, ids[i as int])) by {
                    reveal(args_text);
                    reveal(expr_text);
                    assert(t.len() == i + 1);
                    assert(t.drop_last() =~= ids.take(i as int));
                    assert(t.last() == ids[i as int]);
                }
                assert(out@ =~= o1 + args_text(*self, t, n));
            }
            i = i + 1;
        }
        proof {
            assert(ids.take(ids.len() as int) =~= ids);
        }
    }
}

impl Ast {
    /// Every `if` statement has at least one conditional block.
    pub open spec fn spec_ifs_have_conditions(&self) -> bool {
        forall|i: int|
            0 <= i < self.stmts@.len() ==> match (#[trigger] self.stmts@[i]).kind {
                StmtKind::If { elifs, .. } => elifs.start() < elifs.end(),
                _ => true,
            }
    }

    /// Whether every `if` statement has at least one conditional block, as printing
    /// requires: it writes the first one after "if".
    pub fn ifs_have_conditions(&self) -> (r: bool)
        requires
            self.wf(),
        ensures
            r == self.spec_ifs_have_conditions(),
    {
        let n = self.stmts.len();
        let mut i: usize = 0;
        while i < n
            invariant
                self.wf(),
                n == self.stmts@.len(),
                i <= n,
                forall|k: int|
                    0 <= k < i ==> match (#[trigger] self.stmts@[k]).kind {
                        StmtKind::If { elifs, .. } => elifs.start() < elifs.end(),
                        _ => true,
                    },
            decreases n - i,
        {
            let id = crate::arena::ArenaId::new(i as u32);
            proof {
                self.lemma_stmt(id);
            }
            match self.stmts.index(id).kind {
                StmtKind::If { elifs, .. } => {
                    if elifs.is_empty() {
                        return false;
                    }
                },
                _ => {},
            }
            i = i + 1;
        }
        true
    }
}

impl<'a> AstView<'a> {
    /// Appends the text of statement `stmt`, `indents` levels deep. A statement nested
    /// in `stmt` was built before it and so has a smaller id; the nesting below `stmt`
    /// is thus less deep than its id, and `indents` plus that id bounds every indent
    /// that is printed, which must fit a `u32`.
    #[verifier::rlimit(50)]
    pub fn fmt_stmt(&self, out: &mut String, indents: u32, stmt: &StmtView<'a>)
        requires
            self.wf(),
            self.ast.spec_ifs_have_conditions(),
            stmt.wf(),
            stmt.view == *self,
            indents + stmt.id.value() < u32::MAX,
        ensures
            final(out)@ == old(out)@ + stmt_text(*self, indents as nat, stmt.id),
        decreases stmt.id.value() + 1, 0int,
    {
        let ghost o0 = out@;
        let ghost n = stmt.id.value() as int;
        let ghost ind = indents as nat;
        proof {
            self.ast.lemma_stmt(stmt.id);
            reveal_strlit(";");
            reveal_strlit(" ");
            assert(" "@ =~= seq![' ']);
            reveal_strlit(" = ");
            reveal_strlit(" : ");
            reveal_strlit("var ");
            reveal_strlit("return");
            reveal_strlit("if");
            assert("if"@ =~= seq!['i', 'f']);
            reveal_strlit(" else if");
            assert(" else if"@ =~= seq![' ', 'e', 'l', 's', 'e', ' ', 'i', 'f']);
            reveal_strlit(" else ");
            assert(" else "@ =~= seq![' ', 'e', 'l', 's', 'e', ' ']);
            reveal_strlit("while");
            assert("while"@ =~= seq!['w', 'h', 'i', 'l', 'e']);
            reveal_strlit("break;");
            reveal_strlit("continue;");
        }
        write_indent(out, indents);
        let ghost o1 = out@;
        let ghost node = stmt.spec_node();
        match stmt.kind() {
            StmtKindView::Expr(e) => {
                self.fmt_expr(out, &e);
                out.append(";");
                proof {
                    let x = expr_text(*self, e.id) + seq![';'];
                    assert(stmt_text(*self, ind, stmt.id) == indent_text(ind) + x) by {
                        reveal(stmt_text);
                        reveal(stmts_text);
                        reveal(block_text);
                        reveal(cond_block_text);
                        reveal(elifs_text);
                    }
                    assert(out@ =~= o0 + (indent_text(ind) + x));
                }
            },
            StmtKindView::Return(e) => {
                out.append("return");
                let ghost o2 = out@;
                let ghost y = match e {
                    Some(e) => seq![' '] + expr_text(*self, e.id),
                    None => Seq::<char>::empty(),
                };
                match e {
                    Some(e) => {
                        out.append(" ");
                        self.fmt_expr(out, &e);
                    },
                    None => {},
                }
                proof {
                    assert(out@ =~= o2 + y);
                }
                out.append(";");
                proof {
                    let x = seq!['r', 'e', 't', 'u', 'r', 'n'] + y + seq![';'];
                    assert(stmt_text(*self, ind, stmt.id) == indent_text(ind) + x) by {
                        reveal(stmt_text);
                        reveal(stmts_text);
                        reveal(block_text);
                        reveal(cond_block_text);
                        reveal(elifs_text);
                    }
                    assert(out@ =~= o0 + (indent_text(ind) + x));
                }
            },
            StmtKindView::VarDecl { ident, expr, typ } => {
                out.append("var ");
                out.append(ident.str());
                let ghost o2 = out@;
                let ghost y = match typ {
                    Some(t) => seq![' ', ':', ' '] + type_text(*self, t.id),
                    None => Seq::<char>::empty(),
                };
                match typ {
                    Some(t) => {
                        out.append(" : ");
                        self.fmt_type(out, &t);
                    },
                    None => {},
                }
                proof {
                    assert(out@ =~= o2 + y);
                }
                out.append(" = ");
                self.fmt_expr(out, &expr);
                out.append(";");
                proof {
                    let x = seq!['v', 'a', 'r', ' '] + ident_text(*self, ident.id) + y + seq![
                        ' ',
                        '=',
                        ' ',
                    ] + expr_text(*self, expr.id) + seq![';'];
                    assert(stmt_text(*self, ind, stmt.id) == indent_text(ind) + x) by {
                        reveal(stmt_text);
                        reveal(stmts_text);
                        reveal(block_text);
                        reveal(cond_block_text);
                        reveal(elifs_text);
                    }
                    assert(out@ =~= o0 + (indent_text(ind) + x));
                }
            },
            StmtKindView::Assign { lhs, rhs } => {
                self.fmt_expr(out, &lhs);
                out.append(" = ");
                self.fmt_expr(out, &rhs);
                out.append(";");
                proof {
                    let x = expr_text(*self, lhs.id) + seq![' ', '=', ' '] + expr_text(*self, rhs.id)
                        + seq![';'];
                    assert(stmt_text(*self, ind, stmt.id) == indent_text(ind) + x) by {
                        reveal(stmt_text);
                        reveal(stmts_text);
                        reveal(block_text);
                        reveal(cond_block_text);
                        reveal(elifs_text);
                    }
                    assert(out@ =~= o0 + (indent_text(ind) + x));
                }
            },
            StmtKindView::If { elifs, els } => {
                proof {
                    assert(node.kind matches StmtKind::If { elifs: r, .. } && r == elifs.ids);
                }
                self.fmt_if(out, indents, &elifs, els, Ghost(n));
                proof {
                    let y = match els {
                        Some(b) => block_text(
                            *self,
                            seq![' ', 'e', 'l', 's', 'e', ' '],
                            ind,
                            b.spec_ids(),
                            n,
                        ),
                        None => Seq::<char>::empty(),
                    };
                    let x = elifs_text(*self, ind, elifs.spec_ids(), n) + y;
                    assert(stmt_text(*self, ind, stmt.id) == indent_text(ind) + x) by {
                        reveal(stmt_text);
                        reveal(stmts_text);
                        reveal(block_text);
                        reveal(cond_block_text);
                        reveal(elifs_text);
                    }
                    assert(out@ =~= o0 + (indent_text(ind) + x));
                }
            },
            StmtKindView::While(b) => {
                self.fmt_cond_block(out, "while", indents, &b, Ghost(n));
                proof {
                    let x = cond_block_text(*self, seq!['w', 'h', 'i', 'l', 'e'], ind, b.block, n);
                    assert(stmt_text(*self, ind, stmt.id) == indent_text(ind) + x) by {
                        reveal(stmt_text);
                        reveal(stmts_text);
                        reveal(block_text);
                        reveal(cond_block_text);
                        reveal(elifs_text);
                    }
                    assert(out@ =~= o0 + (indent_text(ind) + x));
                }
            },
            StmtKindView::Break => {
                out.append("break;");
                proof {
                    let x = seq!['b', 'r', 'e', 'a', 'k', ';'];
                    assert(stmt_text(*self, ind, stmt.id) == indent_text(ind) + x) by {
                        reveal(stmt_text);
                        reveal(stmts_text);
                        reveal(block_text);
                        reveal(cond_block_text);
                        reveal(elifs_text);
                    }
                    assert(out@ =~= o0 + (indent_text(ind) + x));
                }
            },
            StmtKindView::Continue => {
                out.append("continue;");
                proof {
                    let x = seq!['c', 'o', 'n', 't', 'i', 'n', 'u', 'e', ';'];
                    assert(stmt_text(*self, ind, stmt.id) == indent_text(ind) + x) by {
                        reveal(stmt_text);
                        reveal(stmts_text);
                        reveal(block_text);
                        reveal(cond_block_text);
                        reveal(elifs_text);
                    }
                    assert(out@ =~= o0 + (indent_text(ind) + x));
                }
            },
        }
    }

    /// Appends the conditional blocks of an `if`, the first after "if" and the others
    /// after " else if", then its `else` block if it has one.
    fn fmt_if(
        &self,
        out: &mut String,
        indents: u32,
        elifs: &CondBlockListView<'a>,
        els: Option<StmtListView<'a>>,
        Ghost(n): Ghost<int>,
    )
        requires
            self.wf(),
            self.ast.spec_ifs_have_conditions(),
            elifs.wf(),
            elifs.view == *self,
            elifs.ids.start() < elifs.ids.end(),
            self.ast.cond_blocks_below(elifs.ids, n),
            els matches Some(b) ==> b.wf() && b.view == *self && self.ast.stmts_below(b.ids, n),
            0 <= n,
            indents + n < u32::MAX,
        ensures
            final(out)@ == old(out)@ + elifs_text(*self, indents as nat, elifs.spec_ids(), n)
                + match els {
                Some(b) => block_text(
                    *self,
                    seq![' ', 'e', 'l', 's', 'e', ' '],
                    indents as nat,
                    b.spec_ids(),
                    n,
                ),
                None => Seq::<char>::empty(),
            },
        decreases n, 3int,
    {
        proof {
            reveal_strlit("if");
            assert("if"@ =~= seq!['i', 'f']);
            reveal_strlit(" else ");
            assert(" else "@ =~= seq![' ', 'e', 'l', 's', 'e', ' ']);
        }
        let ghost o1 = out@;
        let ghost ind = indents as nat;
        let ghost cbs = elifs.spec_ids();
        let blocks = elifs.iter();
        proof {
            assert(self.ast.stmts_below(self.ast.cond_blocks@[cbs[0].value() as int].block, n));
        }
        self.fmt_cond_block(out, "if", indents, &blocks[0], Ghost(n));
        proof {
            assert(elifs_text(*self, ind, cbs.take(0), n) == Seq::<char>::empty()) by {
                reveal(stmt_text);
                reveal(stmts_text);
                reveal(block_text);
                reveal(cond_block_text);
                reveal(elifs_text);
            }
            assert(elifs_text(*self, ind, cbs.take(1), n) == cond_block_text(
                *self,
                seq!['i', 'f'],
                ind,
                cbs[0],
                n,
            )) by {
                reveal(stmt_text);
                reveal(stmts_text);
                reveal(block_text);
                reveal(cond_block_text);
                reveal(elifs_text);
                assert(cbs.take(1).drop_last() =~= cbs.take(0));
                assert(cbs.take(1).last() == cbs[0]);
            }
            assert(out@ =~= o1 + elifs_text(*self, ind, cbs.take(1), n));
        }
        let mut i: usize = 1;
        while i < blocks.len()
            invariant
                self.wf(),
                self.ast.spec_ifs_have_conditions(),
                1 <= i <= blocks@.len(),
                blocks@.len() == cbs.len(),
                forall|k: int|
                    0 <= k < blocks@.len() ==> (#[trigger] blocks@[k]).view == *self
                        && blocks@[k].block == cbs[k] && blocks@[k].wf(),
                forall|k: int|
                    0 <= k < cbs.len() ==> self.ast.stmts_below(
                        self.ast.cond_blocks@[(#[trigger] cbs[k]).value() as int].block,
                        n,
                    ),
                indents + n < u32::MAX,
                0 <= n,
                ind == indents,
                out@ == o1 + elifs_text(*self, ind, cbs.take(i as int), n),
            decreases blocks.len() - i,
        {
            proof {
                reveal_strlit(" else if");
                assert(" else if"@ =~= seq![' ', 'e', 'l', 's', 'e', ' ', 'i', 'f']);
            }
            self.fmt_cond_block(out, " else if", indents, &blocks[i], Ghost(n));
            proof {
                let t = cbs.take(i + 1);
                assert(elifs_text(*self, ind, t, n) == elifs_text(*self, ind, cbs.take(i as int), n)
                    + cond_block_text(
                    *self,
                    seq![' ', 'e', 'l', 's', 'e', ' ', 'i', 'f'],
                    ind,
                    cbs[i as int],
                    n,
                )) by {
                    reveal(stmt_text);
                    reveal(stmts_text);
                    reveal(block_text);
                    reveal(cond_block_text);
                    reveal(elifs_text);
                    assert(t.drop_last() =~= cbs.take(i as int));
                    assert(t.last() == cbs[i as int]);
                }
                assert(out@ =~= o1 + elifs_text(*self, ind, t, n));
            }
            i = i + 1;
        }
        proof {
            assert(cbs.take(cbs.len() as int) =~= cbs);
        }
        let ghost o2 = out@;
        match els {
            Some(b) => {
                self.fmt_block(out, " else ", indents, &b, Ghost(n));
            },
            None => {},
        }
        proof {
            assert(o2 == o1 + elifs_text(*self, ind, cbs, n));
        }
    }

    /// Appends a conditional block after `prefix`: its condition, then its block.
    fn fmt_cond_block(
        &self,
        out: &mut String,
        prefix: &str,
        indents: u32,
        cond_block: &CondBlockView<'a>,
        Ghost(bound): Ghost<int>,
    )
        requires
            self.wf(),
            self.ast.spec_ifs_have_conditions(),
            cond_block.wf(),
            cond_block.view == *self,
            self.ast.stmts_below(cond_block.spec_node().block, bound),
            0 <= bound,
            indents + bound < u32::MAX,
        ensures
            final(out)@ == old(out)@ + cond_block_text(
                *self,
                prefix@,
                indents as nat,
                cond_block.block,
                bound,
            ),
        decreases bound, 2int,
    {
        proof {
            reveal_strlit(" ");
            assert(" "@ =~= seq![' ']);
        }
        let ghost o0 = out@;
        out.append(prefix);
        out.append(" ");
        let cond = cond_block.cond();
        self.fmt_expr(out, &cond);
        let block = cond_block.block();
        self.fmt_block(out, " ", indents, &block, Ghost(bound));
        proof {
            assert(cond.id == cond_block.spec_node().cond);
            assert(block.spec_ids() == listed_stmts(self.ast, cond_block.spec_node().block));
            let x = prefix@ + seq![' '] + expr_text(*self, cond.id) + block_text(
                *self,
                seq![' '],
                indents as nat,
                block.spec_ids(),
                bound,
            );
            assert(cond_block_text(*self, prefix@, indents as nat, cond_block.block, bound) == x)
                by {
                reveal(stmt_text);
                reveal(stmts_text);
                reveal(block_text);
                reveal(cond_block_text);
                reveal(elifs_text);
            }
            assert(out@ =~= o0 + x);
        }
    }

    /// Appends a block after `prefix`: each statement on a line of its own, one level
    /// deeper, and the closing brace `indents` levels deep.
    fn fmt_block(
        &self,
        out: &mut String,
        prefix: &str,
        indents: u32,
        block: &StmtListView<'a>,
        Ghost(bound): Ghost<int>,
    )
        requires
            self.wf(),
            self.ast.spec_ifs_have_conditions(),
            block.wf(),
            block.view == *self,
            forall|k: int|
                0 <= k < block.spec_ids().len() ==> (#[trigger] block.spec_ids()[k]).value() < bound,
            0 <= bound,
            indents + bound < u32::MAX,
        ensures
            final(out)@ == old(out)@ + block_text(
                *self,
                prefix@,
                indents as nat,
                block.spec_ids(),
                bound,
            ),
        decreases bound, 1int,
    {
        proof {
            reveal_strlit("{");
            reveal_strlit("}");
            reveal_strlit("\n");
        }
        let ghost o0 = out@;
        let ghost ids = block.spec_ids();
        let ghost ind = indents as nat;
        out.append(prefix);
        out.append("{");
        let ghost o1 = out@;
        let stmts = block.iter();
        proof {
            assert(stmts_text(*self, ind + 1, ids.take(0), bound) == Seq::<char>::empty()) by {
                reveal(stmt_text);
                reveal(stmts_text);
                reveal(block_text);
                reveal(cond_block_text);
                reveal(elifs_text);
            }
            assert(out@ =~= o1 + stmts_text(*self, ind + 1, ids.take(0), bound));
        }
        let mut i: usize = 0;
        while i < stmts.len()
            invariant
                self.wf(),
                self.ast.spec_ifs_have_conditions(),
                i <= stmts@.len(),
                stmts@.len() == ids.len(),
                forall|k: int|
                    0 <= k < stmts@.len() ==> (#[trigger] stmts@[k]).view == *self && stmts@[k].id
                        == ids[k] && stmts@[k].wf(),
                forall|k: int| 0 <= k < ids.len() ==> (#[trigger] ids[k]).value() < bound,
                indents + bound < u32::MAX,
                ind == indents,
                out@ == o1 + stmts_text(*self, ind + 1, ids.take(i as int), bound),
            decreases stmts.len() - i,
        {
            proof {
                reveal_strlit("\n");
                assert(ids[i as int].value() < bound);
            }
            out.append("\n");
            self.fmt_stmt(out, indents + 1, &stmts[i]);
            proof {
                let t = ids.take(i + 1);
                assert(stmts_text(*self, ind + 1, t, bound) == stmts_text(
                    *self,
                    ind + 1,
                    ids.take(i as int),
                    bound,
                ) + seq!['\n'] + stmt_text(*self, ind + 1, ids[i as int])) by {
                    reveal(stmt_text);
                    reveal(stmts_text);
                    reveal(block_text);
                    reveal(cond_block_text);
                    reveal(elifs_text);
                    assert(t.drop_last() =~= ids.take(i as int));
                    assert(t.last() == ids[i as int]);
                }
                assert(out@ =~= o1 + stmts_text(*self, ind + 1, t, bound));
            }
            i = i + 1;
        }
        proof {
            assert(ids.take(ids.len() as int) =~= ids);
        }
        let ghost o2 = out@;
        out.append("\n");
        write_indent(out, indents);
        out.append("}");
        proof {
            let x = prefix@ + seq!['{'] + stmts_text(*self, ind + 1, ids, bound) + seq!['\n']
                + indent_text(ind) + seq!['}'];
            assert(block_text(*self, prefix@, ind, ids, bound) == x) by {
                reveal(stmt_text);
                reveal(stmts_text);
                reveal(block_text);
                reveal(cond_block_text);
                reveal(elifs_text);
            }
            assert(out@ =~= o0 + x);
        }
    }
}

impl<'a> AstView<'a> {
    /// Appends the text of function `fun`: its header, then its block or ";", and an
    /// empty line.
    pub fn fmt_fun(&self, out: &mut String, fun: &FunView<'a>)
        requires
            self.wf(),
            self.ast.spec_ifs_have_conditions(),
            fun.wf(),
            fun.view == *self,
        ensures
            final(out)@ == old(out)@ + fun_text(*self, *fun.fun),
    {
        proof {
            reveal_strlit("fun ");
            reveal_strlit("(");
            reveal_strlit(")");
            reveal_strlit(", ");
            reveal_strlit(": ");
            reveal_strlit("...");
            reveal_strlit(" : ");
            reveal_strlit(" : void");
            reveal_strlit(" ");
            assert(" "@ =~= seq![' ']);
            reveal_strlit("\n\n");
            reveal_strlit(";\n\n");
        }
        let ghost f = *fun.fun;
        let ghost o0 = out@;
        out.append("fun ");
        out.append(fun.ident().str());
        out.append("(");
        let ghost o1 = out@;
        let params = fun.params();
        let mut i: usize = 0;
        while i < params.len()
            invariant
                self.wf(),
                fun.wf(),
                fun.view == *self,
                f == *fun.fun,
                i <= params@.len(),
                params@.len() == f.params.end() - f.params.start(),
                forall|k: int|
                    0 <= k < params@.len() ==> (#[trigger] params@[k]).view == *self
                        && params@[k].id.value() == f.params.start() + k && params@[k].wf(),
                out@ == o1 + params_text(*self, f, i as int),
            decreases params.len() - i,
        {
            proof {
                reveal_strlit(", ");
                reveal_strlit(": ");
                reveal_strlit("...");
            }
            let ghost o2 = out@;
            if i > 0 {
                out.append(", ");
            }
            let param = &params[i];
            out.append(param.ident().str());
            out.append(": ");
            let ghost o3 = out@;
            let ghost p = self.ast.params@[f.params.start() + i];
            let ghost y = match p.typ {
                ParamType::Type(t) => type_text(*self, t),
                ParamType::Variadic(_) => seq!['.', '.', '.'],
            };
            match param.typ() {
                ParamTypeView::Type(typ) => {
                    self.fmt_type(out, &typ);
                },
                ParamTypeView::Variadic(_) => {
                    out.append("...");
                },
            }
            proof {
                assert(out@ =~= o3 + y);
                let sep = if i > 0 { seq![',', ' '] } else { Seq::<char>::empty() };
                assert(params_text(*self, f, i + 1) == params_text(*self, f, i as int) + sep
                    + ident_text(*self, p.ident) + seq![':', ' '] + y);
                assert(out@ =~= o1 + params_text(*self, f, i + 1));
            }
            i = i + 1;
        }
        out.append(")");
        let ghost o4 = out@;
        match fun.ret_type() {
            Some(t) => {
                out.append(" : ");
                self.fmt_type(out, &t);
            },
            None => {
                out.append(" : void");
            },
        }
        let ghost o5 = out@;
        match fun.body() {
            Some(body) => {
                proof {
                    assert forall|k: int| 0 <= k < body.spec_ids().len() implies (
                    #[trigger] body.spec_ids()[k]).value() < self.ast.stmts@.len() by {
                        self.ast.lemma_stmts_list(body.ids.start() + k);
                    }
                }
                self.fmt_block(out, " ", 0, &body, Ghost(self.ast.stmts@.len() as int));
                out.append("\n\n");
            },
            None => {
                out.append(";\n\n");
            },
        }
        proof {
            assert(out@ =~= o0 + fun_text(*self, f));
        }
    }

    /// The text of every item, in order.
    pub fn to_string(&self) -> (r: String)
        requires
            self.wf(),
            self.ast.spec_ifs_have_conditions(),
        ensures
            r@ == items_text(*self, self.ast.items@.len() as int),
    {
        let mut out = String::new();
        let items = self.items();
        let mut i: usize = 0;
        while i < items.len()
            invariant
                self.wf(),
                self.ast.spec_ifs_have_conditions(),
                i <= items@.len(),
                items@.len() == self.ast.items@.len(),
                forall|k: int|
                    0 <= k < items@.len() ==> (#[trigger] items@[k]).view == *self
                        && items@[k].id.value() == k && items@[k].wf(),
                out@ == items_text(*self, i as int),
            decreases items.len() - i,
        {
            match items[i].kind() {
                ItemKindView::Fun(fun) => {
                    self.fmt_fun(&mut out, &fun);
                },
            }
            i = i + 1;
        }
        out
    }
}

/// Printing keeps whether a variable declaration has a type. After `var` and the
/// declared name, the printed declaration goes on with ` : ` and the type's text
/// only where it has a type, then ` = `, the initializer's text and `;`; read back by
/// the lexer, the token after the name is `:` where there is a type and `=` where
/// there is none, so a declaration without a type never prints as one with a type.
pub proof fn law_declaration_prints_its_type(v: AstView, ind: nat, id: StmtId)
    requires
        0 <= id.value() < v.ast.stmts@.len(),
        v.ast.stmts@[id.value() as int].kind is VarDecl,
    ensures
        ({
            let t = stmt_text(v, ind, id);
            let (ident, expr, typ) = match v.ast.stmts@[id.value() as int].kind {
                StmtKind::VarDecl { ident, expr, typ } => (ident, expr, typ),
                _ => (arbitrary(), arbitrary(), arbitrary()),
            };
            let q = indent_text(ind).len() as int;
            let p = q + 4 + ident_text(v, ident).len();
            let tl = match typ {
                Some(ty) => 3 + type_text(v, ty).len(),
                None => 0,
            };
            &&& t.subrange(q, q + 4) == seq!['v', 'a', 'r', ' ']
            &&& t.subrange(q + 4, p) == ident_text(v, ident)
            &&& typ is None ==> t.subrange(p, p + 3) == seq![' ', '=', ' ']
            &&& typ matches Some(ty) ==> t.subrange(p, p + 3) == seq![' ', ':', ' ']
                && t.subrange(p + 3, p + 3 + type_text(v, ty).len()) == type_text(v, ty)
            &&& lex(t, p).1 == p + 1
            &&& lex(t, p).0 == (if typ is Some {
                Tok::Colon
            } else {
                Tok::Equal
            })
            &&& t.subrange(p + tl, p + tl + 3) == seq![' ', '=', ' ']
            &&& t.subrange(p + tl + 3, t.len() - 1) == expr_text(v, expr)
            &&& t.last() == ';'
        }),
{
    reveal(stmt_text);
    let t = stmt_text(v, ind, id);
    match v.ast.stmts@[id.value() as int].kind {
        StmtKind::VarDecl { ident, expr, typ } => {
            let i = indent_text(ind);
            let nm = ident_text(v, ident);
            let tp = match typ {
                Some(ty) => seq![' ', ':', ' '] + type_text(v, ty),
                None => Seq::<char>::empty(),
            };
            let rest = seq![' ', '=', ' '] + expr_text(v, expr) + seq![';'];
            let q = i.len() as int;
            let p = q + 4 + nm.len();
            assert(t =~= i + seq!['v', 'a', 'r', ' '] + nm + tp + rest);
            assert(t.subrange(q, q + 4) =~= seq!['v', 'a', 'r', ' ']);
            assert(t.subrange(q + 4, p) =~= nm);
            assert(t.last() == ';');
            let tl = tp.len() as int;
            assert(t.subrange(p + tl, p + tl + 3) =~= seq![' ', '=', ' ']);
            assert(t.subrange(p + tl + 3, t.len() - 1) =~= expr_text(v, expr));
            match typ {
                Some(ty) => {
                    assert(t.subrange(p, p + 3) =~= seq![' ', ':', ' ']);
                    assert(t.subrange(p + 3, p + 3 + type_text(v, ty).len()) =~= type_text(v, ty));
                },
                None => {
                    assert(t.subrange(p, p + 3) =~= seq![' ', '=', ' ']);
                },
            }
            assert(t[p] == ' ');
            assert(t[p + 1] == ':' || t[p + 1] == '=');
            assert(t[p + 2] == ' ');
            assert(crate::lexer::ws_end(t, p + 1) == p + 1);
            crate::lexer::lemma_lex(t, p + 1);
            assert(lex(t, p) == lex(t, p + 1));
        },
        _ => {},
    }
}

} // verus!
