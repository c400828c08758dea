//! The parser: recursive descent over the tokens of the lexer, building the AST.
pub mod grammar;
pub mod roundtrip;

use crate::arena::ArenaId;
use crate::ast::{Ast, AstView};
use crate::ast::printer::items_text;
use crate::ast::expr::{Expr, ExprId, ExprKind};
use crate::ast::idents::{Ident, IdentId};
use crate::ast::literals::{NumLit, NumLitId, StrLit, StrLitId};
use crate::ast::span_in;
use crate::ast::tree::{ast_extends, lemma_extends_refl, lemma_extends_trans, lemma_item_kept, strs_cover, strs_extend};
use crate::ast::typ::{Type, TypeId};
use crate::errors::{add_report, add_reports, lemma_add_reports_concat, lemma_add_reports_single, Errors};
use crate::lexer::{lemma_lex, lex, token_at, LexerWindow, Span, Token};
use crate::strings::Interner;
use crate::text::{byte_len, byte_offset, lemma_len_le_bytes, lemma_offset_end, lemma_offset_mono};
use crate::ast::tree::{
    expr_tree, expr_trees, lemma_expr_tree_stable, lemma_type_tree_stable, listed_exprs, type_tree,
    ExprTree, TypeTree, StmtTree, stmt_tree, lemma_stmt_tree_stable, fun_tree, param_tree,
    lemma_fun_tree_stable, lemma_param_tree_stable, FunTree, ParamTree, ParamTypeTree, stmt_trees,
};
use crate::arena::ArenaRange;
use grammar::{
    binop_rest, missing_comma_msg, parse_args_at, parse_binop_at, parse_expr_at, parse_prefix_at,
    parse_suffix_at, parse_term_at, success, failure, suffix_rest, uni_op_of, Parsed, group_at,
    index_suffix_at, call_suffix_at, after_arg_at, parse_var_at, parse_stmt_at,
    skip_stmt_from, block_rest, block_close, parse_block_at, expect_report, param_at,
    after_param_at, params_rest, parse_param_list_at, parse_fun_at, parse_item_at, skip_item_from,
    program_rest,
};
use crate::ast::expr::UniOp;
use crate::ast::typ::TypeKind;
use crate::ast::stmt::{Stmt, StmtId, StmtKind};
use crate::ast::item::{Fun, Item, ItemId, Param, ParamType};
use crate::lexer::Tok;
use crate::ast::expr::BinOp;
use crate::text::{chars_of, string_of_chars};
use grammar::{
    bin_op_of, leading_value, expect_msg_spec, found_msg, join, kind_at, list_sep,
    names_upto, next_pos, number_value, parse_type_at, precedence, span_at, string_value,
    text_at, unescape_from, Report,
};
use vstd::string::StringExecFns;
use vstd::prelude::*;
use vstd::string::StringSliceAdditionalSpecFns;

verus! {

broadcast use crate::arena::group_arena_id;

/// The lengths of the arenas of `a`, in the order of its fields.
pub open spec fn lens(a: &Ast) -> Seq<int> {
    seq![
        a.exprs@.len() as int,
        a.exprs_lists@.len() as int,
        a.types@.len() as int,
        a.stmts@.len() as int,
        a.stmts_lists@.len() as int,
        a.cond_blocks@.len() as int,
        a.cond_blocks_lists@.len() as int,
        a.items@.len() as int,
        a.params@.len() as int,
        a.idents@.len() as int,
        a.strings@.len() as int,
        a.numbers@.len() as int,
    ]
}

/// No arena of `b` holds more than `d` nodes beyond those of `a`, and no more than `d`
/// strings were interned in between.
pub open spec fn grown_within(
    a: &Ast,
    b: &Ast,
    sa: Seq<Seq<char>>,
    sb: Seq<Seq<char>>,
    d: int,
) -> bool {
    &&& forall|k: int| 0 <= k < 12 ==> #[trigger] lens(b)[k] <= lens(a)[k] + d
    &&& sb.len() <= sa.len() + d
}

/// The arenas `lo..hi` of `b` have the lengths they have in `a`.
pub open spec fn frames(a: &Ast, b: &Ast, lo: int, hi: int) -> bool {
    forall|k: int| lo <= k < hi ==> #[trigger] lens(b)[k] == lens(a)[k]
}

/// A parser over one source text. It builds an AST, interns the text of
/// identifiers and string literals, and collects errors.
pub struct Parser<'a> {
    lexer: LexerWindow<'a>,
    ast: Ast,
    interner: &'a mut Interner,
    errors: &'a mut Errors,
    /// The number of strings that the interner held at the start.
    base: Ghost<int>,
}

impl<'a> Parser<'a> {
    /// The source text.
    pub closed spec fn input(&self) -> &'a str {
        self.lexer.input()
    }

    /// The characters of the source text.
    pub closed spec fn text(&self) -> Seq<char> {
        self.lexer.text()
    }

    /// The position from which the next token is lexed.
    pub closed spec fn cursor(&self) -> int {
        self.lexer.cursor()
    }

    /// The AST built so far.
    pub closed spec fn syntax(&self) -> Ast {
        self.ast
    }

    /// The strings of the interner.
    pub closed spec fn strs(&self) -> Seq<Seq<char>> {
        (*self.interner)@
    }

    /// The reports collected so far.
    pub closed spec fn reports(&self) -> Seq<Report> {
        (*self.errors).reports()
    }

    /// `other` parses the same text, from the same interner.
    pub closed spec fn same_run(&self, other: &Self) -> bool {
        &&& self.lexer.input() == other.lexer.input()
        &&& self.base == other.base
    }

    /// The AST is well formed, its strings are interned, its literals lie in the
    /// source, and no arena or the interner has grown past what the consumed text
    /// allows.
    pub closed spec fn inv(&self) -> bool {
        let s = self.lexer.text();
        &&& self.lexer.wf()
        &&& self.ast.wf()
        &&& (*self.interner).wf()
        &&& strs_cover(&self.ast, (*self.interner)@)
        &&& self.ast.sizes_at_most(self.lexer.cursor())
        &&& self.ast.spec_ifs_have_conditions()
        &&& 0 <= self.base@
        &&& (*self.interner)@.len() <= self.base@ + self.lexer.cursor()
        &&& self.base@ + s.len() + 1 < u32::MAX
        &&& byte_len(s) < u32::MAX
        &&& forall|i: int|
            0 <= i < self.ast.strings@.len() ==> span_in(
                self.lexer.input(),
                (#[trigger] self.ast.strings@[i]).span,
            )
        &&& forall|i: int|
            0 <= i < self.ast.numbers@.len() ==> span_in(
                self.lexer.input(),
                (#[trigger] self.ast.numbers@[i]).span,
            )
    }

    /// `new` follows from this parser by a parse that stopped at `end` and made `reports`.
    pub open spec fn stepped(&self, new: &Self, end: int, reports: Seq<Report>) -> bool {
        &&& new.inv()
        &&& new.same_run(self)
        &&& new.cursor() == end
        &&& self.cursor() <= end
        &&& new.reports() == add_reports(self.reports(), reports)
        &&& ast_extends(&self.syntax(), &new.syntax())
        &&& strs_extend(self.strs(), new.strs())
        &&& grown_within(&self.syntax(), &new.syntax(), self.strs(), new.strs(), end - self.cursor())
    }

    /// The tree of expression `id` in the AST built so far.
    pub open spec fn expr_of(&self, id: ExprId) -> ExprTree {
        expr_tree(&self.syntax(), self.strs(), id)
    }

    /// `new`, with the result `r`, follows from this parser by the parse `p` of an
    /// expression: a parse that succeeds consumes a token and gives the id of a node
    /// whose tree is the one parsed.
    pub open spec fn expr_result(&self, new: &Self, p: Parsed<ExprTree>, r: Result<ExprId, ()>) -> bool {
        &&& self.stepped(new, p.end, p.reports)
        &&& p.value is Some ==> p.end > self.cursor()
        &&& p.value is Some ==> lens(&new.syntax())[1] < lens(&self.syntax())[1] + (p.end
            - self.cursor())
        &&& frames(&self.syntax(), &new.syntax(), 3, 9)
        &&& p.value matches Some(e) ==> (r matches Ok(id) && new.syntax().exprs.contains_id(id)
            && new.expr_of(id) == e)
        &&& p.value is None ==> r is Err
    }

    proof fn lemma_inv(&self)
        requires
            self.inv(),
        ensures
            0 <= self.cursor() <= self.text().len(),
            self.text().len() <= byte_len(self.text()) < u32::MAX,
            self.text() == self.input()@,
            forall|k: int| 0 <= k < 12 ==> #[trigger] lens(&self.syntax())[k] <= self.cursor(),
            self.lexer.wf(),
            self.strs().len() <= self.base@ + self.cursor(),
    {
        reveal(Parser::inv);
        self.lexer.lemma_wf();
        lemma_len_le_bytes(self.lexer.text());
    }

    /// A parser at the start of `input`, which must hold fewer than `u32::MAX` bytes;
    /// the strings interned and the errors reported go to `interner` and `errors`.
    /// Parsing interns at most one new string per character of `input`, so the
    /// interner must have room for that many: its number of strings, plus the number
    /// of characters of `input`, plus one, must stay below `u32::MAX`.
    pub fn new(input: &'a str, interner: &'a mut Interner, errors: &'a mut Errors) -> (r: Self)
        requires
            input.spec_bytes().len() < u32::MAX,
            old(interner).wf(),
            old(interner)@.len() + input@.len() + 1 < u32::MAX,
        ensures
            r.inv(),
            r.input() == input,
            r.text() == input@,
            r.cursor() == 0,
            r.syntax().is_empty(),
            r.strs() == old(interner)@,
            r.reports() == old(errors).reports(),
    {
        reveal(Parser::inv);
        let lexer = LexerWindow::new(input);
        let ast = Ast::default();
        let ghost base = interner@.len() as int;
        Parser { lexer, ast, interner, errors, base: Ghost(base) }
    }

    /// The AST built so far, seen together with the interned strings and the source.
    pub closed spec fn view_spec(&self) -> AstView<'_> {
        AstView { ast: &self.ast, interner: &*self.interner, src: self.lexer.input() }
    }

    /// The text of the items parsed so far, printed as [`AstView::to_string`] prints
    /// them, from the AST seen together with the interned strings and the source.
    pub fn print_items(&self) -> (r: String)
        requires
            self.inv(),
        ensures
            self.view_spec().wf(),
            *self.view_spec().ast == self.syntax(),
            self.view_spec().interner@ == self.strs(),
            self.view_spec().src == self.input(),
            r@ == items_text(self.view_spec(), self.syntax().items@.len() as int),
    {
        reveal(Parser::inv);
        let view = AstView::new(&self.ast, &*self.interner, self.lexer.input_str());
        proof {
            assert(view == self.view_spec());
        }
        view.to_string()
    }

    /// The AST that was built.
    pub fn finish(self) -> (r: Ast)
        ensures
            r == self.syntax(),
    {
        self.ast
    }

    /// The next token, without moving past it.
    fn peek(&mut self) -> (r: Token)
        requires
            old(self).inv(),
        ensures
            final(self).inv(),
            final(self).same_run(&*old(self)),
            final(self).cursor() == old(self).cursor(),
            final(self).syntax() == old(self).syntax(),
            final(self).strs() == old(self).strs(),
            final(self).reports() == old(self).reports(),
            r == token_at(old(self).text(), old(self).cursor()),
    {
        reveal(Parser::inv);
        self.lexer.peek()
    }

    /// Gives the next token and moves past it.
    fn advance(&mut self) -> (r: Token)
        requires
            old(self).inv(),
        ensures
            final(self).inv(),
            final(self).same_run(&*old(self)),
            final(self).cursor() == next_pos(old(self).text(), old(self).cursor()),
            old(self).cursor() <= final(self).cursor() <= old(self).text().len(),
            final(self).syntax() == old(self).syntax(),
            final(self).strs() == old(self).strs(),
            final(self).reports() == old(self).reports(),
            r == token_at(old(self).text(), old(self).cursor()),
    {
        reveal(Parser::inv);
        proof {
            self.lexer.lemma_wf();
            lemma_lex(self.lexer.text(), self.lexer.cursor());
        }
        self.lexer.advance()
    }

    /// Adds an error.
    fn report(&mut self, message: String, span: Span)
        requires
            old(self).inv(),
        ensures
            final(self).inv(),
            final(self).same_run(&*old(self)),
            final(self).cursor() == old(self).cursor(),
            final(self).syntax() == old(self).syntax(),
            final(self).strs() == old(self).strs(),
            final(self).reports() == add_report(old(self).reports(), (message@, span)),
    {
        reveal(Parser::inv);
        self.errors.add(message, span);
    }

    /// Adds a type node; it must name nodes that exist, and the consumed text must
    /// leave room for it.
    fn add_type(&mut self, t: Type) -> (r: TypeId)
        requires
            old(self).inv(),
            old(self).syntax().type_wf(t, old(self).syntax().types@.len() as int),
            old(self).syntax().types@.len() + 1 <= old(self).cursor(),
        ensures
            final(self).inv(),
            final(self).same_run(&*old(self)),
            final(self).cursor() == old(self).cursor(),
            final(self).strs() == old(self).strs(),
            final(self).reports() == old(self).reports(),
            final(self).syntax().types@ == old(self).syntax().types@.push(t),
            ast_extends(&old(self).syntax(), &final(self).syntax()),
            lens(&final(self).syntax()) == lens(&old(self).syntax()).update(
                2,
                lens(&old(self).syntax())[2] + 1,
            ),
            r.value() == old(self).syntax().types@.len(),
    {
        reveal(Parser::inv);
        reveal(ast_extends);
        proof {
            self.lemma_inv();
        }
        let ghost a = self.ast;
        let r = self.ast.types.add(t);
        proof {
            lemma_extends_refl(&a);
            assert(self.ast.types@.take(a.types@.len() as int) =~= a.types@);
            assert(lens(&self.ast) =~= lens(&a).update(2, lens(&a)[2] + 1));
            assert forall|i: int| 0 <= i < self.ast.types@.len() implies self.ast.type_wf(
                #[trigger] self.ast.types@[i],
                i,
            ) by {
                if i < a.types@.len() {
                    assert(a.type_wf(a.types@[i], i));
                }
            }
        }
        r
    }

    /// Adds an expression node; it must name nodes that exist, and the consumed text
    /// must leave room for it.
    fn add_expr(&mut self, e: Expr) -> (r: ExprId)
        requires
            old(self).inv(),
            old(self).syntax().expr_wf(e, old(self).syntax().exprs@.len() as int),
            old(self).syntax().exprs@.len() + 1 <= old(self).cursor(),
        ensures
            final(self).inv(),
            final(self).same_run(&*old(self)),
            final(self).cursor() == old(self).cursor(),
            final(self).strs() == old(self).strs(),
            final(self).reports() == old(self).reports(),
            final(self).syntax().exprs@ == old(self).syntax().exprs@.push(e),
            ast_extends(&old(self).syntax(), &final(self).syntax()),
            lens(&final(self).syntax()) == lens(&old(self).syntax()).update(
                0,
                lens(&old(self).syntax())[0] + 1,
            ),
            r.value() == old(self).syntax().exprs@.len(),
    {
        reveal(Parser::inv);
        reveal(ast_extends);
        proof {
            self.lemma_inv();
        }
        let ghost a = self.ast;
        let r = self.ast.exprs.add(e);
        proof {
            lemma_extends_refl(&a);
            assert(self.ast.exprs@.take(a.exprs@.len() as int) =~= a.exprs@);
            assert(lens(&self.ast) =~= lens(&a).update(0, lens(&a)[0] + 1));
            assert forall|i: int| 0 <= i < self.ast.exprs@.len() implies self.ast.expr_wf(
                #[trigger] self.ast.exprs@[i],
                i,
            ) by {
                if i < a.exprs@.len() {
                    assert(a.expr_wf(a.exprs@[i], i));
                }
            }
        }
        r
    }

    /// Room for one more interned string.
    closed spec fn string_room(&self) -> bool {
        (*self.interner)@.len() + 1 <= self.base@ + self.lexer.cursor()
    }

    /// Interns the source text between character positions `a` and `b`, whose byte
    /// span is `span`, and adds an identifier node for it.
    fn slice_ident(&mut self, span: Span, Ghost(a): Ghost<int>, Ghost(b): Ghost<int>) -> (r:
        IdentId)
        requires
            old(self).inv(),
            0 <= a <= b <= old(self).text().len(),
            span.start == byte_offset(old(self).text(), a),
            span.end == byte_offset(old(self).text(), b),
            old(self).syntax().idents@.len() + 1 <= old(self).cursor(),
            old(self).string_room(),
        ensures
            final(self).inv(),
            final(self).same_run(&*old(self)),
            final(self).cursor() == old(self).cursor(),
            final(self).reports() == old(self).reports(),
            ast_extends(&old(self).syntax(), &final(self).syntax()),
            strs_extend(old(self).strs(), final(self).strs()),
            final(self).strs().len() <= old(self).strs().len() + 1,
            lens(&final(self).syntax()) == lens(&old(self).syntax()).update(
                9,
                lens(&old(self).syntax())[9] + 1,
            ),
            r.value() == old(self).syntax().idents@.len(),
            final(self).syntax().idents@[r.value() as int].span == span,
            final(self).strs()[final(self).syntax().idents@[r.value() as int].str.value() as int]
                == old(self).text().subrange(a, b),
    {
        reveal(Parser::inv);
        reveal(ast_extends);
        proof {
            self.lemma_inv();
            let s = self.lexer.text();
            lemma_offset_mono(s, a, b);
            assert(byte_offset(s, a) == span.start);
            assert(byte_offset(s, b) == span.end);
        }
        let text = self.lexer.slice(span);
        let str = self.interner.intern(text);
        let ghost a0 = self.ast;
        let r = self.ast.idents.add(Ident::new(str, span));
        proof {
            lemma_extends_refl(&a0);
            assert(self.ast.idents@.take(a0.idents@.len() as int) =~= a0.idents@);
            assert(lens(&self.ast) =~= lens(&a0).update(9, lens(&a0)[9] + 1));
            assert(old(self).strs() =~= self.strs().take(old(self).strs().len() as int));
            assert forall|i: int| 0 <= i < self.ast.idents@.len() implies (
            #[trigger] self.ast.idents@[i]).str.value() < self.strs().len() by {
                if i < a0.idents@.len() {
                    assert(a0.idents@[i] == self.ast.idents@[i]);
                }
            }
        }
        r
    }

    /// Adds a number literal node whose span lies in the source.
    fn add_number(&mut self, n: NumLit) -> (r: NumLitId)
        requires
            old(self).inv(),
            span_in(old(self).input(), n.span),
            old(self).syntax().numbers@.len() + 1 <= old(self).cursor(),
        ensures
            final(self).inv(),
            final(self).same_run(&*old(self)),
            final(self).cursor() == old(self).cursor(),
            final(self).strs() == old(self).strs(),
            final(self).reports() == old(self).reports(),
            final(self).syntax().numbers@ == old(self).syntax().numbers@.push(n),
            ast_extends(&old(self).syntax(), &final(self).syntax()),
            lens(&final(self).syntax()) == lens(&old(self).syntax()).update(
                11,
                lens(&old(self).syntax())[11] + 1,
            ),
            r.value() == old(self).syntax().numbers@.len(),
    {
        reveal(Parser::inv);
        reveal(ast_extends);
        proof {
            self.lemma_inv();
        }
        let ghost a0 = self.ast;
        let r = self.ast.numbers.add(n);
        proof {
            lemma_extends_refl(&a0);
            assert(self.ast.numbers@.take(a0.numbers@.len() as int) =~= a0.numbers@);
            assert(lens(&self.ast) =~= lens(&a0).update(11, lens(&a0)[11] + 1));
        }
        r
    }

    /// Interns `value` and adds a string literal node for it, whose span lies in the
    /// source.
    fn add_string(&mut self, value: &str, span: Span) -> (r: StrLitId)
        requires
            old(self).inv(),
            span_in(old(self).input(), span),
            old(self).syntax().strings@.len() + 1 <= old(self).cursor(),
            old(self).string_room(),
        ensures
            final(self).inv(),
            final(self).same_run(&*old(self)),
            final(self).cursor() == old(self).cursor(),
            final(self).reports() == old(self).reports(),
            ast_extends(&old(self).syntax(), &final(self).syntax()),
            strs_extend(old(self).strs(), final(self).strs()),
            final(self).strs().len() <= old(self).strs().len() + 1,
            lens(&final(self).syntax()) == lens(&old(self).syntax()).update(
                10,
                lens(&old(self).syntax())[10] + 1,
            ),
            r.value() == old(self).syntax().strings@.len(),
            final(self).syntax().strings@[r.value() as int].span == span,
            final(self).strs()[final(self).syntax().strings@[r.value() as int].str.value() as int]
                == value@,
    {
        reveal(Parser::inv);
        reveal(ast_extends);
        proof {
            self.lemma_inv();
        }
        let str = self.interner.intern(value);
        let ghost a0 = self.ast;
        let r = self.ast.strings.add(StrLit { str, span });
        proof {
            lemma_extends_refl(&a0);
            assert(self.ast.strings@.take(a0.strings@.len() as int) =~= a0.strings@);
            assert(lens(&self.ast) =~= lens(&a0).update(10, lens(&a0)[10] + 1));
            assert(old(self).strs() =~= self.strs().take(old(self).strs().len() as int));
            assert forall|i: int| 0 <= i < self.ast.strings@.len() implies (
            #[trigger] self.ast.strings@[i]).str.value() < self.strs().len() by {
                if i < a0.strings@.len() {
                    assert(a0.strings@[i] == self.ast.strings@[i]);
                }
            }
        }
        r
    }
}

impl<'a> Parser<'a> {
    /// Type
    ///     = identifier
    ///     | "*" Type
    pub fn parse_type(&mut self) -> (r: Result<TypeId, ()>)
        requires
            old(self).inv(),
        ensures
            old(self).stepped(
                &*final(self),
                parse_type_at(old(self).text(), old(self).cursor()).end,
                parse_type_at(old(self).text(), old(self).cursor()).reports,
            ),
            parse_type_at(old(self).text(), old(self).cursor()).value matches Some(t) ==> (
            r matches Ok(id) && final(self).syntax().types.contains_id(id) && type_tree(
                &final(self).syntax(),
                final(self).strs(),
                id,
            ) == t),
            parse_type_at(old(self).text(), old(self).cursor()).value is None ==> r is Err,
            frames(&old(self).syntax(), &final(self).syntax(), 0, 2),
            frames(&old(self).syntax(), &final(self).syntax(), 3, 9),
        decreases old(self).text().len() - old(self).cursor(),
    {
        reveal(parse_type_at);
        let ghost s = self.text();
        let ghost i = self.cursor();
        let ghost p0 = *self;
        proof {
            self.lemma_inv();
            lemma_token_span(s, i);
        }
        let peek = self.peek();
        match peek.kind {
            Tok::Identifier => {
                let identifier = self.advance();
                let ghost p1 = *self;
                let ident = self.slice_ident(identifier.span, Ghost(lex(s, i).1), Ghost(lex(s, i).2));
                let ghost p2 = *self;
                let id = self.add_type(Type::new(TypeKind::Identifier(ident), identifier.span));
                proof {
                    assert(self.syntax().idents@[ident.value() as int] == p2.syntax().idents@[ident.value() as int]) by {
                        reveal(ast_extends);
                    }
                    lemma_extends_trans(&p1.syntax(), &p2.syntax(), &self.syntax());
                    assert(p1.strs() =~= self.strs().take(p1.strs().len() as int));
                    assert forall|k: int| 0 <= k < 12 implies #[trigger] lens(&self.syntax())[k]
                        <= lens(&p1.syntax())[k] + 1 by {}
                    lemma_leaf(&p0, &p1, &*self);
                }
                proof {
                    assert(type_tree(&self.syntax(), self.strs(), id) == (TypeTree::Named { name: text_at(s, i), span: identifier.span })) by {
                        reveal(type_tree);
                    }
                }
                Ok(id)
            },
            Tok::Asterisk => {
                let asterisk = self.advance().span;
                let ghost p1 = *self;
                proof {
                    lemma_moved(&p0, &p1);
                }
                match self.parse_type() {
                    Ok(inner) => {
                        let ghost p2 = *self;
                        proof {
                            lemma_stepped_trans(&p0, &p1, &p2, p1.cursor(), Seq::empty(),
                                p2.cursor(), parse_type_at(s, p1.cursor()).reports);
                            assert(Seq::<Report>::empty() + parse_type_at(s, p1.cursor()).reports
                                =~= parse_type_at(s, p1.cursor()).reports);
                            self.lemma_inv();
                            p0.lemma_inv();
                            self.ast.lemma_type(inner);
                            lemma_stepped_lens(&p1, &p2, p2.cursor(), parse_type_at(s, p1.cursor()).reports, 2);
                            assert(lens(&p0.syntax())[2] <= i);
                        }
                        let span = asterisk.join(&self.ast.types.index(inner).span);
                        let id = self.add_type(Type::new(TypeKind::Ptr(inner), span));
                        proof {
                            lemma_node_step(&p0, &p2, &*self, 2, 1, p2.cursor(), parse_type_at(s, p1.cursor()).reports);
                            assert(p2.strs() =~= p2.strs().take(p2.strs().len() as int));
                            lemma_type_kept(&p2, &*self, inner);
                            lemma_type_tree_span(&self.syntax(), self.strs(), inner);
                        }
                        proof {
                            assert(type_tree(&self.syntax(), self.strs(), id) == (TypeTree::Ptr { inner: Box::new(type_tree(&self.syntax(), self.strs(), inner)), span })) by {
                                reveal(type_tree);
                            }
                        }
                        Ok(id)
                    },
                    Err(()) => {
                        proof {
                            lemma_stepped_trans(&p0, &p1, &*self, p1.cursor(), Seq::empty(),
                                self.cursor(), parse_type_at(s, p1.cursor()).reports);
                            assert(Seq::<Report>::empty() + parse_type_at(s, p1.cursor()).reports
                                =~= parse_type_at(s, p1.cursor()).reports);
                        }
                        Err(())
                    },
                }
            },
            _ => {
                let ghost pp = *self;
                let mut msg = String::from_str("expected type, but found ");
                msg.append(peek.kind.as_str());
                self.report(msg, peek.span);
                proof {
                    lemma_reported(&pp, &*self, (msg@, peek.span));
                    lemma_same_view(&p0, &pp, &*self, i, seq![(msg@, peek.span)]);
                }
                Err(())
            },
        }
    }
}

/// How a token of kind `found` is reported where one of `toks` was expected.
pub fn expect_msg(toks: &[Tok], found: &Tok) -> (r: String)
    ensures
        r@ == expect_msg_spec(toks@, *found),
{
    let mut msg = String::from_str("expected ");
    let n = toks.len();
    let mut i: usize = 0;
    while i < n
        invariant
            n == toks@.len(),
            i <= n,
            msg@ == "expected "@ + names_upto(toks@, i as int),
        decreases n - i,
    {
        let ghost m0 = msg@;
        if i > 0 && i != n - 1 {
            msg.append(", ");
        }
        if i == n - 1 && i != 0 {
            msg.append(" or ");
        }
        msg.append(toks[i].as_str());
        proof {
            let sep = list_sep(i as int, n as int);
            assert(msg@ =~= m0 + sep + Tok::name(toks@[i as int])) by {
                if i == 0 {
                    assert(sep =~= Seq::<char>::empty());
                }
            }
            assert(msg@ =~= "expected "@ + names_upto(toks@, i + 1));
        }
        i = i + 1;
    }
    msg.append(", but found ");
    msg.append(found.as_str());
    msg
}

/// The binary operator that a token stands for, if any.
pub fn bin_op_from_tok(tok: &Tok) -> (r: Option<BinOp>)
    ensures
        r == bin_op_of(*tok),
{
    match tok {
        Tok::Plus => Some(BinOp::Add),
        Tok::Minus => Some(BinOp::Sub),
        Tok::Asterisk => Some(BinOp::Mul),
        Tok::Slash => Some(BinOp::Div),
        Tok::Percent => Some(BinOp::Rem),
        Tok::EqualEqual => Some(BinOp::Eq),
        Tok::BangEqual => Some(BinOp::Ne),
        Tok::Less => Some(BinOp::Lt),
        Tok::LessEqual => Some(BinOp::Le),
        Tok::Greater => Some(BinOp::Gt),
        Tok::GreaterEqual => Some(BinOp::Ge),
        Tok::And => Some(BinOp::LogicalAnd),
        Tok::Or => Some(BinOp::LogicalOr),
        Tok::Ampersand => Some(BinOp::BitAnd),
        Tok::Caret => Some(BinOp::BitXor),
        Tok::Pipe => Some(BinOp::BitOr),
        Tok::LessLess => Some(BinOp::Shl),
        Tok::GreaterGreater => Some(BinOp::Shr),
        _ => None,
    }
}

/// How tightly a binary operator binds: higher binds tighter.
pub fn bin_op_precedence(op: BinOp) -> (r: u8)
    ensures
        r == precedence(op),
{
    match op {
        BinOp::LogicalOr => 1,
        BinOp::LogicalAnd => 2,
        BinOp::BitOr => 3,
        BinOp::BitXor => 4,
        BinOp::BitAnd => 5,
        BinOp::Eq | BinOp::Ne => 6,
        BinOp::Lt | BinOp::Le | BinOp::Gt | BinOp::Ge => 7,
        BinOp::Shl | BinOp::Shr => 8,
        BinOp::Add | BinOp::Sub => 9,
        BinOp::Mul | BinOp::Div | BinOp::Rem => 10,
    }
}

/// The value of a number literal's text: its leading decimal digits in base ten, or
/// the largest `u128` where that value does not fit one.
pub fn number_literal_value(text: &str) -> (r: u128)
    ensures
        r == number_value(text@),
{
    let chars = chars_of(text);
    let ghost t = text@;
    let mut v: u128 = 0;
    let ghost mut acc: nat = 0;
    let mut i: usize = 0;
    proof {
        assert(t.skip(0) =~= t);
    }
    while i < chars.len()
        invariant
            chars@ == t,
            t == text@,
            i <= t.len(),
            leading_value(t, 0) == leading_value(t.skip(i as int), acc),
            v == (if acc <= u128::MAX { acc } else { u128::MAX as nat }),
        decreases t.len() - i,
    {
        let c = chars[i];
        proof {
            assert(t.skip(i as int)[0] == c);
        }
        if !('0' <= c && c <= '9') {
            return v;
        }
        let cv = c as u32;
        proof {
            assert(('0' as int) == 48);
            assert(48 <= (c as int) <= 57);
            assert(cv == c as int);
            assert(t.skip(i as int).drop_first() =~= t.skip(i + 1));
        }
        let d = (cv - 48) as u128;
        let ghost next: nat = acc * 10 + ((c as u32) - ('0' as u32)) as nat;
        v = match v.checked_mul(10) {
            Some(m) => match m.checked_add(d) {
                Some(w) => w,
                None => u128::MAX,
            },
            None => u128::MAX,
        };
        proof {
            acc = next;
        }
        i = i + 1;
    }
    proof {
        assert(t.skip(i as int).len() == 0);
    }
    v
}

/// The value of a string literal's text: the characters between the quotes,
/// escapes resolved.
pub fn string_literal_value(text: &str) -> (r: String)
    ensures
        r@ == string_value(text@),
{
    let chars = chars_of(text);
    let ghost t = text@;
    let mut out: Vec<char> = Vec::new();
    let mut i: usize = 1;
    let n = chars.len();
    while i < n
        invariant
            chars@ == t,
            t == text@,
            n == t.len(),
            1 <= i,
            i <= n || i == 1,
            out@ + unescape_from(t, i as int) == unescape_from(t, 1),
        ensures
            out@ == unescape_from(t, 1),
        decreases n - i,
    {
        let c = chars[i];
        if c == '"' {
            proof {
                assert(unescape_from(t, i as int) =~= Seq::<char>::empty());
                assert(out@ + Seq::<char>::empty() =~= out@);
            }
            break;
        }
        let ghost o0 = out@;
        if c == '\\' && i + 1 < n {
            let e = chars[i + 1];
            let u = if e == 'n' {
                '\n'
            } else if e == 't' {
                '\t'
            } else if e == 'r' {
                '\r'
            } else if e == '0' {
                '\0'
            } else {
                e
            };
            out.push(u);
            proof {
                assert(out@ + unescape_from(t, i + 2) =~= o0 + unescape_from(t, i as int));
            }
            i = i + 2;
        } else {
            out.push(c);
            proof {
                assert(out@ + unescape_from(t, i + 1) =~= o0 + unescape_from(t, i as int));
            }
            i = i + 1;
        }
    }
    string_of_chars(&out)
}

/// The span of a token is the byte offsets of its ends, which lie between characters.
pub proof fn lemma_token_span(s: Seq<char>, i: int)
    requires
        0 <= i <= s.len(),
        byte_len(s) < u32::MAX,
    ensures
        i <= lex(s, i).1 <= lex(s, i).2 <= s.len(),
        token_at(s, i).span.start == byte_offset(s, lex(s, i).1),
        token_at(s, i).span.end == byte_offset(s, lex(s, i).2),
        token_at(s, i).span.start <= token_at(s, i).span.end,
        crate::text::on_char_boundary(s, token_at(s, i).span.start as int),
        crate::text::on_char_boundary(s, token_at(s, i).span.end as int),
        lex(s, i).0 != Tok::Eof ==> lex(s, i).1 < lex(s, i).2,
{
    lemma_lex(s, i);
    let (t, a, b) = lex(s, i);
    lemma_offset_mono(s, a, b);
    lemma_offset_mono(s, b, s.len() as int);
    lemma_offset_end(s);
    assert(byte_offset(s, a) == token_at(s, i).span.start);
    assert(byte_offset(s, b) == token_at(s, i).span.end);
}

impl<'a> Parser<'a> {
    /// Expr = BinopExpr(0)
    pub fn parse_expr(&mut self) -> (r: Result<ExprId, ()>)
        requires
            old(self).inv(),
        ensures
            old(self).expr_result(
                &*final(self),
                parse_expr_at(old(self).text(), old(self).cursor()),
                r,
            ),
        decreases old(self).text().len() - old(self).cursor(), 5int,
    {
        reveal(parse_expr_at);
        reveal(parse_binop_at);
        proof {
            self.lemma_inv();
        }
        self.parse_binop_expr(0)
    }

    /// Term
    ///     = number
    ///     | identifier
    ///     | string
    ///     | "(" Expr ")"
    #[verifier::rlimit(60)]
    pub fn parse_term(&mut self) -> (r: Result<ExprId, ()>)
        requires
            old(self).inv(),
        ensures
            old(self).expr_result(
                &*final(self),
                parse_term_at(old(self).text(), old(self).cursor()),
                r,
            ),
        decreases old(self).text().len() - old(self).cursor(), 1int,
    {
        reveal(parse_term_at);
        reveal(group_at);
        let ghost s = self.text();
        let ghost i = self.cursor();
        let ghost p0 = *self;
        proof {
            self.lemma_inv();
            lemma_token_span(s, i);
        }
        let peek = self.peek();
        let ghost pp = *self;
        match peek.kind {
            Tok::Number => {
                let number = self.advance();
                let ghost p1 = *self;
                let text = self.lexer.slice(number.span);
                proof {
                    assert(text@ == text_at(s, i));
                }
                let v = number_literal_value(text);
                let n = self.add_number(NumLit { num: v, span: number.span });
                let ghost p2 = *self;
                let id = self.add_expr(Expr::new(ExprKind::Number(n), number.span));
                proof {
                    assert(self.syntax().numbers@[n.value() as int] == p2.syntax().numbers@[n.value() as int]) by {
                        reveal(ast_extends);
                    }
                    lemma_extends_trans(&p1.syntax(), &p2.syntax(), &self.syntax());
                    assert(p1.strs() =~= self.strs().take(p1.strs().len() as int));
                    assert forall|k: int| 0 <= k < 12 implies #[trigger] lens(&self.syntax())[k]
                        <= lens(&p1.syntax())[k] + 1 by {}
                    lemma_leaf(&p0, &p1, &*self);
                }
                proof {
                    assert(self.expr_of(id) == (ExprTree::Number { value: v, span: number.span })) by {
                        reveal(expr_tree);
                        reveal(expr_trees);
                    }
                }
                Ok(id)
            },
            Tok::Identifier => {
                let identifier = self.advance();
                let ghost p1 = *self;
                let ident = self.slice_ident(identifier.span, Ghost(lex(s, i).1), Ghost(lex(s, i).2));
                let ghost p2 = *self;
                let id = self.add_expr(Expr::new(ExprKind::Identifier(ident), identifier.span));
                proof {
                    assert(self.syntax().idents@[ident.value() as int] == p2.syntax().idents@[ident.value() as int]) by {
                        reveal(ast_extends);
                    }
                    lemma_extends_trans(&p1.syntax(), &p2.syntax(), &self.syntax());
                    assert(p1.strs() =~= self.strs().take(p1.strs().len() as int));
                    assert forall|k: int| 0 <= k < 12 implies #[trigger] lens(&self.syntax())[k]
                        <= lens(&p1.syntax())[k] + 1 by {}
                    lemma_leaf(&p0, &p1, &*self);
                }
                proof {
                    assert(self.expr_of(id) == (ExprTree::Ident { name: text_at(s, i), span: identifier.span })) by {
                        reveal(expr_tree);
                        reveal(expr_trees);
                    }
                }
                Ok(id)
            },
            Tok::String => {
                let string = self.advance();
                let ghost p1 = *self;
                let text = self.lexer.slice(string.span);
                proof {
                    assert(text@ == text_at(s, i));
                }
                let value = string_literal_value(text);
                let sid = self.add_string(value.as_str(), string.span);
                let ghost p2 = *self;
                let id = self.add_expr(Expr::new(ExprKind::String(sid), string.span));
                proof {
                    assert(self.syntax().strings@[sid.value() as int] == p2.syntax().strings@[sid.value() as int]) by {
                        reveal(ast_extends);
                    }
                    lemma_extends_trans(&p1.syntax(), &p2.syntax(), &self.syntax());
                    assert(p1.strs() =~= self.strs().take(p1.strs().len() as int));
                    assert forall|k: int| 0 <= k < 12 implies #[trigger] lens(&self.syntax())[k]
                        <= lens(&p1.syntax())[k] + 1 by {}
                    lemma_leaf(&p0, &p1, &*self);
                }
                proof {
                    assert(self.expr_of(id) == (ExprTree::Str { value: string_value(text_at(s, i)), span: string.span })) by {
                        reveal(expr_tree);
                        reveal(expr_trees);
                    }
                }
                Ok(id)
            },
            Tok::LParen => {
                let r = self.parse_group();
                proof {
                    let q = group_at(s, i);
                    lemma_same_view(&p0, &pp, &*self, q.end, q.reports);
                }
                r
            },
            _ => {
                let mut msg = String::from_str("expected an expression, but found ");
                msg.append(peek.kind.as_str());
                self.report(msg, peek.span);
                proof {
                    lemma_reported(&pp, &*self, (msg@, peek.span));
                    lemma_same_view(&p0, &pp, &*self, i, seq![(msg@, peek.span)]);
                }
                Err(())
            },
        }
    }

    /// "(" Expr ")", at a `(`.
    #[verifier::rlimit(30)]
    fn parse_group(&mut self) -> (r: Result<ExprId, ()>)
        requires
            old(self).inv(),
            kind_at(old(self).text(), old(self).cursor()) == Tok::LParen,
        ensures
            old(self).expr_result(&*final(self), group_at(old(self).text(), old(self).cursor()), r),
        decreases old(self).text().len() - old(self).cursor(), 0int,
    {
        reveal(group_at);
        reveal(parse_expr_at);
        let ghost s = self.text();
        let ghost i = self.cursor();
        let ghost p0 = *self;
        proof {
            self.lemma_inv();
            lemma_token_span(s, i);
        }
        let lparen = self.advance().span;
        let ghost p1 = *self;
        proof {
            lemma_moved(&p0, &p1);
        }
        match self.parse_expr() {
            Err(()) => {
                proof {
                    let q = parse_expr_at(s, p1.cursor());
                    lemma_stepped_trans(&p0, &p1, &*self, p1.cursor(), Seq::empty(), q.end,
                        q.reports);
                    assert(Seq::<Report>::empty() + q.reports =~= q.reports);
                }
                Err(())
            },
            Ok(expr) => {
                let ghost p2 = *self;
                let ghost q = parse_expr_at(s, p1.cursor());
                proof {
                    lemma_stepped_trans(&p0, &p1, &p2, p1.cursor(), Seq::empty(), q.end,
                        q.reports);
                    assert(Seq::<Report>::empty() + q.reports =~= q.reports);
                    p2.lemma_inv();
                    lemma_token_span(s, q.end);
                }
                match self.expect_tokens(&[Tok::RParen]) {
                    Ok(rp) => {
                        let ghost p3 = *self;
                        proof {
                            assert([Tok::RParen]@ == seq![Tok::RParen]);
                            lemma_moved(&p2, &p3);
                            lemma_stepped_trans(&p0, &p2, &p3, q.end, q.reports, p3.cursor(),
                                Seq::empty());
                            assert(q.reports + Seq::<Report>::empty() =~= q.reports);
                            lemma_stepped_lens(&p1, &p2, q.end, q.reports, 0);
                            p0.lemma_inv();
                        }
                        let id = self.add_expr(
                            Expr::new(ExprKind::Group(expr), lparen.join(&rp.span)),
                        );
                        proof {
                            lemma_node_step(&p0, &p3, &*self, 0, 1, p3.cursor(), q.reports);
                            lemma_expr_kept(&p2, &*self, expr);
                        }
                        proof {
                            assert(self.expr_of(id) == (ExprTree::Group { inner: Box::new(self.expr_of(expr)), span: join(lparen, rp.span) })) by {
                                reveal(expr_tree);
                                reveal(expr_trees);
                            }
                        }
                        Ok(id)
                    },
                    Err(()) => {
                        proof {
                            assert([Tok::RParen]@ == seq![Tok::RParen]);
                            let m = (
                                expect_msg_spec(seq![Tok::RParen], kind_at(s, q.end)),
                                span_at(s, q.end),
                            );
                            lemma_reported(&p2, &*self, m);
                            lemma_stepped_trans(&p0, &p2, &*self, q.end, q.reports, q.end,
                                seq![m]);
                        }
                        Err(())
                    },
                }
            },
        }
    }

    /// PrefixExpr
    ///     = PrefixOp* SuffixExpr
    ///
    /// PrefixOp
    ///     = "-" | "!" | "&" | "*"
    #[verifier::rlimit(60)]
    fn parse_prefix_expr(&mut self) -> (r: Result<ExprId, ()>)
        requires
            old(self).inv(),
        ensures
            old(self).expr_result(
                &*final(self),
                parse_prefix_at(old(self).text(), old(self).cursor()),
                r,
            ),
        decreases old(self).text().len() - old(self).cursor(), 3int,
    {
        reveal(parse_prefix_at);
        reveal(parse_suffix_at);
        let ghost s = self.text();
        let ghost i = self.cursor();
        let ghost p0 = *self;
        proof {
            self.lemma_inv();
            lemma_token_span(s, i);
        }
        let peek = self.peek();
        let ghost pp = *self;
        let op = match peek.kind {
            Tok::Minus => UniOp::Neg,
            Tok::Bang => UniOp::Not,
            Tok::Ampersand => UniOp::Ref,
            Tok::Asterisk => UniOp::Deref,
            _ => {
                let r = self.parse_suffix_expr();
                proof {
                    let q = parse_suffix_at(s, i);
                    lemma_same_view(&p0, &pp, &*self, q.end, q.reports);
                }
                return r;
            },
        };
        let op_token = self.advance();
        let ghost p1 = *self;
        proof {
            lemma_moved(&p0, &p1);
        }
        match self.parse_prefix_expr() {
            Err(()) => {
                proof {
                    let q = parse_prefix_at(s, p1.cursor());
                    lemma_stepped_trans(&p0, &p1, &*self, p1.cursor(), Seq::empty(), q.end,
                        q.reports);
                    assert(Seq::<Report>::empty() + q.reports =~= q.reports);
                }
                Err(())
            },
            Ok(expr) => {
                let ghost p2 = *self;
                let ghost q = parse_prefix_at(s, p1.cursor());
                proof {
                    lemma_stepped_trans(&p0, &p1, &p2, p1.cursor(), Seq::empty(), q.end,
                        q.reports);
                    assert(Seq::<Report>::empty() + q.reports =~= q.reports);
                    p2.lemma_inv();
                    p2.syntax().lemma_expr(expr);
                    assert(lens(&p2.syntax())[0] <= lens(&p1.syntax())[0] + (p2.cursor()
                        - p1.cursor()));
                    lemma_expr_tree_span(&p2.syntax(), p2.strs(), expr);
                }
                let span = op_token.span.join(&self.ast.exprs.index(expr).span);
                let id = self.add_expr(Expr::new(ExprKind::UniOp { op, expr }, span));
                proof {
                    lemma_node_step(&p0, &p2, &*self, 0, 1, p2.cursor(), q.reports);
                    lemma_expr_kept(&p2, &*self, expr);
                }
                proof {
                    assert(self.expr_of(id) == (ExprTree::UniOp { op, expr: Box::new(self.expr_of(expr)), span })) by {
                        reveal(expr_tree);
                        reveal(expr_trees);
                    }
                }
                Ok(id)
            },
        }
    }

    /// BinopExpr(p) = PrefixExpr (BinOp BinopExpr(prec + 1))*, taking operators of
    /// precedence at least `min_prec`, left to right; when the right operand cannot
    /// be parsed the expression stops at the left one.
    #[verifier::rlimit(60)]
    fn parse_binop_expr(&mut self, min_prec: u8) -> (r: Result<ExprId, ()>)
        requires
            old(self).inv(),
        ensures
            old(self).expr_result(
                &*final(self),
                parse_binop_at(old(self).text(), old(self).cursor(), min_prec as int),
                r,
            ),
        decreases old(self).text().len() - old(self).cursor(), 4int,
    {
        reveal(parse_binop_at);
        reveal(parse_prefix_at);
        reveal(binop_rest);
        let ghost s = self.text();
        let ghost i = self.cursor();
        let ghost p0 = *self;
        proof {
            self.lemma_inv();
        }
        let mut lhs = match self.parse_prefix_expr() {
            Ok(l) => l,
            Err(()) => {
                return Err(());
            },
        };
        let ghost mut acc: Seq<Report> = parse_prefix_at(s, i).reports;
        proof {
            self.lemma_inv();
        }
        loop
            invariant
                self.inv(),
                self.text() == s,
                old(self).text() == s,
                p0 == *old(self),
                old(self).cursor() == i,
                p0.stepped(&*self, self.cursor(), acc),
                i < self.cursor() <= s.len(),
                lens(&self.syntax())[1] < lens(&p0.syntax())[1] + (self.cursor() - i),
                frames(&p0.syntax(), &self.syntax(), 3, 9),
                self.syntax().exprs.contains_id(lhs),
                parse_binop_at(s, i, min_prec as int) == binop_rest(
                    s,
                    self.cursor(),
                    min_prec as int,
                    self.expr_of(lhs),
                    acc,
                ),
            ensures
                self.inv(),
                p0.stepped(&*self, self.cursor(), acc),
                i < self.cursor(),
                lens(&self.syntax())[1] < lens(&p0.syntax())[1] + (self.cursor() - i),
                frames(&p0.syntax(), &self.syntax(), 3, 9),
                self.syntax().exprs.contains_id(lhs),
                parse_binop_at(s, i, min_prec as int) == success(
                    self.expr_of(lhs),
                    self.cursor(),
                    acc,
                ),
            decreases s.len() - self.cursor(),
        {
            reveal(binop_rest);
            reveal(parse_binop_at);
            let ghost pl = *self;
            let ghost j = self.cursor();
            proof {
                self.lemma_inv();
                lemma_token_span(s, j);
            }
            let peek = self.peek();
            let op = match bin_op_from_tok(&peek.kind) {
                Some(op) => op,
                None => {
                    break;
                },
            };
            let prec = bin_op_precedence(op);
            if prec < min_prec {
                break;
            }
            let _op_token = self.advance();
            let ghost pb = *self;
            proof {
                assert(self.text() == s);
                assert(self.cursor() > i);
                lemma_stepped_lens(&p0, &pl, j, acc, 0);
                lemma_stepped_lens(&p0, &pl, j, acc, 1);
            }
            match self.parse_binop_expr(prec + 1) {
                Err(()) => {
                    proof {
                        let q = parse_binop_at(s, pb.cursor(), prec + 1);
                        lemma_stepped_around(&p0, &pl, &pb, &*self, acc, q.reports);
                        lemma_stepped_lens(&pb, &*self, q.end, q.reports, 1);
                        assert(pb.syntax() == pl.syntax());
                        assert(ast_extends(&pl.syntax(), &self.syntax()));
                        lemma_expr_kept(&pl, &*self, lhs);
                        acc = acc + q.reports;
                    }
                    return Ok(lhs);
                },
                Ok(rhs) => {
                    let ghost pc = *self;
                    let ghost q = parse_binop_at(s, pb.cursor(), prec + 1);
                    proof {
                        lemma_stepped_around(&p0, &pl, &pb, &pc, acc, q.reports);
                        pc.lemma_inv();
                        assert(lens(&pc.syntax())[0] <= lens(&pb.syntax())[0] + (pc.cursor()
                            - pb.cursor()));
                        lemma_expr_kept(&pl, &pc, lhs);
                        lemma_expr_tree_span(&pc.syntax(), pc.strs(), lhs);
                        lemma_expr_tree_span(&pc.syntax(), pc.strs(), rhs);
                        pc.syntax().lemma_expr(lhs);
                        pc.syntax().lemma_expr(rhs);
                    }
                    let lhs_span = self.ast.exprs.index(lhs).span;
                    let rhs_span = self.ast.exprs.index(rhs).span;
                    let span = lhs_span.join(&rhs_span);
                    let ghost old_lhs = lhs;
                    lhs = self.add_expr(Expr::new(ExprKind::BinOp { op, lhs, rhs }, span));
                    proof {
                        lemma_node_step(&p0, &pc, &*self, 0, 1, pc.cursor(), acc + q.reports);
                        lemma_expr_kept(&pc, &*self, old_lhs);
                        lemma_expr_kept(&pc, &*self, rhs);
                        acc = acc + q.reports;
                    }
                    proof {
                        assert(self.expr_of(lhs) == (ExprTree::BinOp { op, lhs: Box::new(self.expr_of(old_lhs)), rhs: Box::new(self.expr_of(rhs)), span })) by {
                            reveal(expr_tree);
                            reveal(expr_trees);
                        }
                    }
                },
            }
        }
        Ok(lhs)
    }
}

impl<'a> Parser<'a> {
    /// SuffixExpr
    ///     = Term (Index | FnCallArgs)*
    #[verifier::rlimit(100)]
    fn parse_suffix_expr(&mut self) -> (r: Result<ExprId, ()>)
        requires
            old(self).inv(),
        ensures
            old(self).expr_result(
                &*final(self),
                parse_suffix_at(old(self).text(), old(self).cursor()),
                r,
            ),
        decreases old(self).text().len() - old(self).cursor(), 2int,
    {
        reveal(parse_suffix_at);
        reveal(parse_term_at);
        reveal(suffix_rest);
        let ghost s = self.text();
        let ghost i = self.cursor();
        let ghost p0 = *self;
        proof {
            self.lemma_inv();
        }
        let mut expr = match self.parse_term() {
            Ok(e) => e,
            Err(()) => {
                return Err(());
            },
        };
        let ghost mut acc: Seq<Report> = parse_term_at(s, i).reports;
        proof {
            self.lemma_inv();
            assert(parse_term_at(s, i).value is Some);
            assert(parse_term_at(s, i).end == self.cursor());
            assert(parse_term_at(s, i).value == Some(self.expr_of(expr)));
            assert(i < self.cursor() <= s.len());
            assert(parse_suffix_at(s, i) == suffix_rest(s, parse_term_at(s, i).end, parse_term_at(s, i).value->0, parse_term_at(s, i).reports)) by {
                reveal(parse_suffix_at);
            }
            assert(parse_suffix_at(s, i) == suffix_rest(s, self.cursor(), self.expr_of(expr), acc));
        }
        loop
            invariant
                p0.inv(),
                self.text() == s,
                old(self).text() == s,
                p0 == *old(self),
                old(self).cursor() == i,
                p0.stepped(&*self, self.cursor(), acc),
                i < self.cursor() <= s.len(),
                lens(&self.syntax())[1] < lens(&p0.syntax())[1] + (self.cursor() - i),
                frames(&p0.syntax(), &self.syntax(), 3, 9),
                self.syntax().exprs.contains_id(expr),
                parse_suffix_at(s, i) == suffix_rest(s, self.cursor(), self.expr_of(expr), acc),
            ensures
                p0.stepped(&*self, self.cursor(), acc),
                i < self.cursor(),
                lens(&self.syntax())[1] < lens(&p0.syntax())[1] + (self.cursor() - i),
                frames(&p0.syntax(), &self.syntax(), 3, 9),
                self.syntax().exprs.contains_id(expr),
                parse_suffix_at(s, i) == success(self.expr_of(expr), self.cursor(), acc),
            decreases s.len() - self.cursor(),
        {
            reveal(suffix_rest);
            reveal(index_suffix_at);
            reveal(call_suffix_at);
            let ghost pl = *self;
            let ghost j = self.cursor();
            proof {
                self.lemma_inv();
                lemma_token_span(s, j);
            }
            let peek = self.peek();
            let ghost pp = *self;
            if peek.kind == Tok::LBracket || peek.kind == Tok::LParen {
                let ghost q = if peek.kind == Tok::LBracket {
                    index_suffix_at(s, j, pl.expr_of(expr))
                } else {
                    call_suffix_at(s, j, pl.expr_of(expr))
                };
                let step = if peek.kind == Tok::LBracket {
                    self.parse_index_suffix(expr)
                } else {
                    self.parse_call_suffix(expr)
                };
                proof {
                    lemma_same_view(&pl, &pp, &*self, q.end, q.reports);
                    lemma_stepped_trans(&p0, &pl, &*self, j, acc, q.end, q.reports);
                }
                match step {
                    Err(()) => {
                        return Err(());
                    },
                    Ok(e2) => {
                        proof {
                            self.lemma_inv();
                            acc = acc + q.reports;
                        }
                        expr = e2;
                    },
                }
            } else {
                break;
            }
        }
        Ok(expr)
    }

    /// Index = "[" Expr "]", after the expression `base`, at a `[`.
    #[verifier::rlimit(30)]
    fn parse_index_suffix(&mut self, base: ExprId) -> (r: Result<ExprId, ()>)
        requires
            old(self).inv(),
            kind_at(old(self).text(), old(self).cursor()) == Tok::LBracket,
            old(self).syntax().exprs.contains_id(base),
        ensures
            old(self).expr_result(
                &*final(self),
                index_suffix_at(old(self).text(), old(self).cursor(), old(self).expr_of(base)),
                r,
            ),
        decreases old(self).text().len() - old(self).cursor(), 9int,
    {
        reveal(index_suffix_at);
        reveal(parse_expr_at);
        let ghost s = self.text();
        let ghost j = self.cursor();
        let ghost p0 = *self;
        proof {
            self.lemma_inv();
            lemma_token_span(s, j);
        }
        let lbracket = self.advance().span;
        let ghost p1 = *self;
        proof {
            lemma_moved(&p0, &p1);
        }
        let index = match self.parse_expr() {
            Ok(x) => x,
            Err(()) => {
                proof {
                    let q = parse_expr_at(s, p1.cursor());
                    lemma_stepped_trans(&p0, &p1, &*self, p1.cursor(), Seq::empty(), q.end,
                        q.reports);
                    assert(Seq::<Report>::empty() + q.reports =~= q.reports);
                }
                return Err(());
            },
        };
        let ghost p2 = *self;
        let ghost q = parse_expr_at(s, p1.cursor());
        proof {
            lemma_stepped_trans(&p0, &p1, &p2, p1.cursor(), Seq::empty(), q.end, q.reports);
            assert(Seq::<Report>::empty() + q.reports =~= q.reports);
            p2.lemma_inv();
            lemma_token_span(s, q.end);
        }
        let rbracket = match self.expect_tokens(&[Tok::RBracket]) {
            Ok(t) => t.span,
            Err(()) => {
                proof {
                    assert([Tok::RBracket]@ == seq![Tok::RBracket]);
                    let m = (
                        expect_msg_spec(seq![Tok::RBracket], kind_at(s, q.end)),
                        span_at(s, q.end),
                    );
                    lemma_reported(&p2, &*self, m);
                    lemma_stepped_trans(&p0, &p2, &*self, q.end, q.reports, q.end, seq![m]);
                }
                return Err(());
            },
        };
        let ghost p3 = *self;
        proof {
            assert([Tok::RBracket]@ == seq![Tok::RBracket]);
            lemma_moved(&p2, &p3);
            lemma_stepped_trans(&p0, &p2, &p3, q.end, q.reports, p3.cursor(), Seq::empty());
            assert(q.reports + Seq::<Report>::empty() =~= q.reports);
            p0.lemma_inv();
            lemma_stepped_lens(&p1, &p2, q.end, q.reports, 0);
            lemma_expr_kept(&p0, &p3, base);
            lemma_expr_tree_span(&p3.syntax(), p3.strs(), base);
        }
        let base_span = self.ast.exprs.index(base).span;
        let span = base_span.join(&lbracket).join(&rbracket);
        let id = self.add_expr(Expr::new(ExprKind::Index { base, index }, span));
        proof {
            lemma_node_step(&p0, &p3, &*self, 0, 1, p3.cursor(), q.reports);
            lemma_expr_kept(&p3, &*self, base);
            lemma_expr_kept(&p2, &*self, index);
        }
        proof {
            assert(self.expr_of(id) == (ExprTree::Index { base: Box::new(self.expr_of(base)), index: Box::new(self.expr_of(index)), span })) by {
                reveal(expr_tree);
                reveal(expr_trees);
            }
        }
        Ok(id)
    }

    /// Looks at what follows an argument: `0` at a `)`, which stays; `1` after a `,`,
    /// or where a comma is missing, which is reported; `2` at a token that cannot go
    /// on the arguments, which is reported.
    fn after_arg(&mut self) -> (r: u8)
        requires
            old(self).inv(),
        ensures
            old(self).stepped(
                &*final(self),
                after_arg_at(old(self).text(), old(self).cursor()).1,
                after_arg_at(old(self).text(), old(self).cursor()).2,
            ),
            r as int == after_arg_at(old(self).text(), old(self).cursor()).0,
            frames(&old(self).syntax(), &final(self).syntax(), 0, 12),
    {
        let ghost s = self.text();
        let ghost j = self.cursor();
        let ghost p0 = *self;
        proof {
            self.lemma_inv();
            lemma_token_span(s, j);
        }
        let peek = self.peek();
        let ghost pp = *self;
        match peek.kind {
            Tok::RParen => {
                proof {
                    lemma_moved(&p0, &pp);
                }
                0
            },
            Tok::Comma => {
                self.advance();
                proof {
                    lemma_moved(&p0, &*self);
                }
                1
            },
            Tok::RBrace | Tok::RBracket | Tok::Colon | Tok::Eof => {
                let msg = expect_msg(&[Tok::Comma, Tok::RParen], &peek.kind);
                self.report(msg, peek.span);
                proof {
                    assert([Tok::Comma, Tok::RParen]@ == seq![Tok::Comma, Tok::RParen]);
                    lemma_reported(&pp, &*self, (msg@, peek.span));
                    lemma_same_view(&p0, &pp, &*self, j, seq![(msg@, peek.span)]);
                }
                2
            },
            _ => {
                let mut msg = String::from_str("expected ");
                msg.append(Tok::Comma.as_str());
                msg.append(" after argument");
                self.report(msg, peek.span);
                proof {
                    assert(msg@ =~= missing_comma_msg(" after argument"@));
                    lemma_reported(&pp, &*self, (msg@, peek.span));
                    lemma_same_view(&p0, &pp, &*self, j, seq![(msg@, peek.span)]);
                }
                1
            },
        }
    }

    /// Closes a call at its `)`: lists the arguments `args`, whose trees are `trees`, and
    /// adds the call node.
    fn finish_call(&mut self, callee: ExprId, args: Vec<ExprId>, Ghost(trees): Ghost<Seq<ExprTree>>) -> (r:
        ExprId)
        requires
            old(self).inv(),
            kind_at(old(self).text(), old(self).cursor()) == Tok::RParen,
            old(self).syntax().exprs.contains_id(callee),
            args@.len() == trees.len(),
            forall|k: int|
                0 <= k < args@.len() ==> old(self).syntax().exprs.contains_id(#[trigger] args@[k])
                    && old(self).expr_of(args@[k]) == trees[k],
            lens(&old(self).syntax())[1] + args@.len() <= old(self).cursor(),
            lens(&old(self).syntax())[0] <= old(self).cursor(),
        ensures
            final(self).inv(),
            final(self).same_run(&*old(self)),
            final(self).cursor() == next_pos(old(self).text(), old(self).cursor()),
            old(self).cursor() < final(self).cursor(),
            final(self).reports() == old(self).reports(),
            final(self).strs() == old(self).strs(),
            ast_extends(&old(self).syntax(), &final(self).syntax()),
            lens(&final(self).syntax()) == lens(&old(self).syntax()).update(
                1,
                lens(&old(self).syntax())[1] + args@.len(),
            ).update(0, lens(&old(self).syntax())[0] + 1),
            final(self).syntax().exprs.contains_id(r),
            final(self).expr_of(r) == (ExprTree::Call {
                callee: Box::new(old(self).expr_of(callee)),
                args: trees,
                span: join(old(self).expr_of(callee).span(), span_at(old(self).text(), old(self).cursor())),
            }),
    {
        let ghost s = self.text();
        let ghost z = self.cursor();
        let ghost pz = *self;
        proof {
            self.lemma_inv();
            lemma_token_span(s, z);
        }
        let rparen = self.advance().span;
        let ghost p4 = *self;
        let ghost ids = args@;
        let range = self.add_expr_list(args);
        let ghost p5 = *self;
        proof {
            lemma_expr_kept(&pz, &p5, callee);
            lemma_expr_tree_span(&p5.syntax(), p5.strs(), callee);
        }
        let base_span = self.ast.exprs.index(callee).span;
        let ghost n = self.ast.exprs@.len();
        proof {
            assert(listed_exprs(&p5.syntax(), range) =~= ids);
            assert forall|k: int| range.start() <= k < range.end() implies (
            #[trigger] p5.syntax().exprs_lists@[k]).value() < n by {
                assert(p5.syntax().exprs_lists@[k] == ids[k - range.start()]);
            }
        }
        let id = self.add_expr(
            Expr::new(ExprKind::Call { callee, args: range }, base_span.join(&rparen)),
        );
        proof {
            lemma_expr_kept(&p5, &*self, callee);
            assert(self.syntax().exprs_lists@ == p5.syntax().exprs_lists@) by {
                reveal(ast_extends);
                assert(self.syntax().exprs_lists@ =~= p5.syntax().exprs_lists@);
            }
            assert(listed_exprs(&self.syntax(), range) =~= ids);
            assert forall|k: int| 0 <= k < ids.len() implies 0 <= (#[trigger] ids[k]).value()
                < n by {}
            lemma_expr_trees_all(&self.syntax(), self.strs(), ids, n as int);
            lemma_extends_trans(&pz.syntax(), &p5.syntax(), &self.syntax());
            assert forall|k: int| 0 <= k < ids.len() implies expr_tree(
                &self.syntax(),
                self.strs(),
                #[trigger] ids[k],
            ) == trees[k] by {
                lemma_expr_kept(&pz, &*self, ids[k]);
            }
            assert(Seq::new(ids.len(), |k: int| expr_tree(&self.syntax(), self.strs(), ids[k]))
                =~= trees);
            assert(lens(&self.syntax()) =~= lens(&pz.syntax()).update(
                1,
                lens(&pz.syntax())[1] + ids.len(),
            ).update(0, lens(&pz.syntax())[0] + 1));
        }
        proof {
            assert(self.expr_of(id) == (ExprTree::Call { callee: Box::new(self.expr_of(callee)), args: expr_trees(&self.syntax(), self.strs(), listed_exprs(&self.syntax(), range), n as int), span: join(base_span, rparen) })) by {
                reveal(expr_tree);
                reveal(expr_trees);
            }
        }
        id
    }

    /// FnCallArgs = "(" (Expr ",")* Expr? ")", after the expression `callee`, at a `(`.
    /// A missing comma between arguments is reported and the arguments go on.
    #[verifier::rlimit(60)]
    fn parse_call_suffix(&mut self, callee: ExprId) -> (r: Result<ExprId, ()>)
        requires
            old(self).inv(),
            kind_at(old(self).text(), old(self).cursor()) == Tok::LParen,
            old(self).syntax().exprs.contains_id(callee),
        ensures
            old(self).expr_result(
                &*final(self),
                call_suffix_at(old(self).text(), old(self).cursor(), old(self).expr_of(callee)),
                r,
            ),
        decreases old(self).text().len() - old(self).cursor(), 9int,
    {
        reveal(call_suffix_at);
        reveal(parse_args_at);
        let ghost s = self.text();
        let ghost j = self.cursor();
        let ghost p0 = *self;
        proof {
            self.lemma_inv();
            lemma_token_span(s, j);
        }
        let _lparen = self.advance();
        let ghost p1 = *self;
        let ghost a0 = p1.cursor();
        let mut args: Vec<ExprId> = Vec::new();
        let ghost mut trees: Seq<ExprTree> = Seq::empty();
        let ghost mut areps: Seq<Report> = Seq::empty();
        proof {
            lemma_moved(&p1, &p1);
            lemma_moved(&p0, &p1);
            let r0 = parse_args_at(s, a0, Seq::empty()).reports;
            assert(Seq::<Report>::empty() + r0 =~= r0);
        }
        let mut failed = false;
        loop
            invariant_except_break
                p1.inv(),
                self.text() == s,
                old(self).text() == s,
                p0 == *old(self),
                old(self).cursor() == j,
                p0.stepped(&p1, a0, Seq::empty()),
                p0.inv(),
                j < a0,
                a0 == next_pos(s, j),
                !failed,
                p1.stepped(&*self, self.cursor(), areps),
                a0 <= self.cursor() <= s.len(),
                args@.len() == trees.len(),
                lens(&self.syntax())[1] + args@.len() <= lens(&p1.syntax())[1] + (self.cursor()
                    - a0),
                frames(&p1.syntax(), &self.syntax(), 3, 9),
                forall|k: int|
                    0 <= k < args@.len() ==> self.syntax().exprs.contains_id(#[trigger] args@[k])
                        && self.expr_of(args@[k]) == trees[k],
                parse_args_at(s, a0, Seq::empty()).value == parse_args_at(
                    s,
                    self.cursor(),
                    trees,
                ).value,
                parse_args_at(s, a0, Seq::empty()).end == parse_args_at(
                    s,
                    self.cursor(),
                    trees,
                ).end,
                parse_args_at(s, a0, Seq::empty()).reports == areps + parse_args_at(
                    s,
                    self.cursor(),
                    trees,
                ).reports,
            ensures
                p1.stepped(&*self, self.cursor(), areps),
                a0 <= self.cursor() <= s.len(),
                frames(&p1.syntax(), &self.syntax(), 3, 9),
                failed ==> parse_args_at(s, a0, Seq::empty()) == failure::<(Seq<ExprTree>, Span)>(
                    self.cursor(),
                    areps,
                ),
                !failed ==> {
                    &&& self.cursor() < s.len()
                    &&& kind_at(s, self.cursor()) == Tok::RParen
                    &&& args@.len() == trees.len()
                    &&& lens(&self.syntax())[1] + args@.len() <= lens(&p1.syntax())[1] + (
                    self.cursor() - a0)
                    &&& frames(&p1.syntax(), &self.syntax(), 3, 9)
                    &&& forall|k: int|
                        0 <= k < args@.len() ==> self.syntax().exprs.contains_id(
                            #[trigger] args@[k],
                        ) && self.expr_of(args@[k]) == trees[k]
                    &&& parse_args_at(s, a0, Seq::empty()) == success(
                        (trees, span_at(s, self.cursor())),
                        next_pos(s, self.cursor()),
                        areps,
                    )
                },
            decreases s.len() - self.cursor(),
        {
            reveal(parse_args_at);
            reveal(parse_expr_at);
            let ghost pa = *self;
            let ghost c = self.cursor();
            proof {
                self.lemma_inv();
                lemma_token_span(s, c);
            }
            let peek_kind = self.peek().kind;
            let ghost pq = *self;
            if peek_kind == Tok::RParen {
                proof {
                    assert(areps + Seq::<Report>::empty() =~= areps);
                }
                break;
            }
            proof {
                lemma_same_end(&p1, &pa, &pq, c, areps);
            }
            let arg = match self.parse_expr() {
                Ok(x) => x,
                Err(()) => {
                    proof {
                        let aq = parse_expr_at(s, c);
                        lemma_stepped_trans(&p1, &pq, &*self, c, areps, aq.end, aq.reports);
                        self.lemma_inv();
                        areps = areps + aq.reports;
                    }
                    failed = true;
                    break;
                },
            };
            let ghost pr = *self;
            let ghost aq = parse_expr_at(s, c);
            let ghost x = aq.value->0;
            proof {
                lemma_stepped_trans(&p1, &pq, &pr, c, areps, aq.end, aq.reports);
                pr.lemma_inv();
                lemma_token_span(s, aq.end);
                assert forall|k: int| 0 <= k < args@.len() implies pr.syntax().exprs.contains_id(
                    #[trigger] args@[k],
                ) && pr.expr_of(args@[k]) == trees[k] by {
                    lemma_expr_kept(&pq, &pr, args@[k]);
                }
            }
            args.push(arg);
            proof {
                trees = trees.push(x);
            }
            let ghost ps = *self;
            let ghost out = after_arg_at(s, aq.end);
            let o = self.after_arg();
            proof {
                lemma_stepped_trans(&p1, &ps, &*self, aq.end, areps + aq.reports, out.1, out.2);
                self.lemma_inv();
                lemma_stepped_basics(&ps, &*self, out.1, out.2);
                assert forall|k: int| 0 <= k < args@.len() implies self.syntax().exprs.contains_id(
                    #[trigger] args@[k],
                ) && self.expr_of(args@[k]) == trees[k] by {
                    lemma_expr_kept(&ps, &*self, args@[k]);
                }
            }
            if o == 0 {
                proof {
                    assert(areps + aq.reports + out.2 =~= areps + aq.reports);
                    areps = areps + aq.reports;
                }
                break;
            } else if o == 2 {
                proof {
                    assert(areps + (aq.reports + out.2) =~= areps + aq.reports + out.2);
                    areps = areps + aq.reports + out.2;
                }
                failed = true;
                break;
            } else {
                proof {
                    let rest = parse_args_at(s, out.1, trees);
                    assert(areps + (aq.reports + out.2 + rest.reports) =~= areps + aq.reports
                        + out.2 + rest.reports);
                    areps = areps + aq.reports + out.2;
                }
            }
        }
        if failed {
            proof {
                lemma_stepped_trans(&p0, &p1, &*self, a0, Seq::empty(), self.cursor(), areps);
                assert(Seq::<Report>::empty() + areps =~= areps);
            }
            return Err(());
        }
        let ghost pz = *self;
        let ghost z = self.cursor();
        let ghost n_args = args@.len() as int;
        proof {
            self.lemma_inv();
            p0.lemma_inv();
            lemma_stepped_trans(&p0, &p1, &pz, a0, Seq::empty(), z, areps);
            assert(Seq::<Report>::empty() + areps =~= areps);
            lemma_stepped_lens(&p0, &pz, z, areps, 0);
            lemma_stepped_lens(&p1, &pz, z, areps, 1);
            lemma_stepped_basics(&p0, &pz, z, areps);
            lemma_expr_kept(&p0, &pz, callee);
        }
        let id = self.finish_call(callee, args, Ghost(trees));
        proof {
            lemma_token_span(s, z);
            assert forall|k: int| 0 <= k < 12 implies #[trigger] lens(&self.syntax())[k] <= lens(
                &p0.syntax(),
            )[k] + (self.cursor() - j) by {
                lemma_stepped_lens(&p0, &pz, z, areps, k);
            }
            lemma_grow_step(&p0, &pz, &*self, self.cursor(), areps);
        }
        Ok(id)
    }
}

/// One token consumed, then at most one node added to each arena and at most one
/// string interned: a step without reports.
pub proof fn lemma_leaf<'a>(p0: &Parser<'a>, p1: &Parser<'a>, pf: &Parser<'a>)
    requires
        p0.inv(),
        p1.inv(),
        p1.same_run(p0),
        p0.cursor() < p1.cursor(),
        p1.syntax() == p0.syntax(),
        p1.strs() == p0.strs(),
        p1.reports() == p0.reports(),
        pf.inv(),
        pf.same_run(p1),
        pf.cursor() == p1.cursor(),
        pf.reports() == p1.reports(),
        ast_extends(&p1.syntax(), &pf.syntax()),
        strs_extend(p1.strs(), pf.strs()),
        pf.strs().len() <= p1.strs().len() + 1,
        forall|k: int| 0 <= k < 12 ==> #[trigger] lens(&pf.syntax())[k] <= lens(&p1.syntax())[k] + 1,
    ensures
        p0.stepped(pf, p1.cursor(), Seq::empty()),
{
    reveal(Parser::stepped);
    assert forall|k: int| 0 <= k < 12 implies #[trigger] lens(&pf.syntax())[k] <= lens(
        &p0.syntax(),
    )[k] + (p1.cursor() - p0.cursor()) by {
        assert(lens(&pf.syntax())[k] <= lens(&p1.syntax())[k] + 1);
    }
}

/// The tree of an expression of `a` is the same in a later state `b`.
pub proof fn lemma_expr_kept<'a>(a: &Parser<'a>, b: &Parser<'a>, id: ExprId)
    requires
        a.inv(),
        ast_extends(&a.syntax(), &b.syntax()),
        strs_extend(a.strs(), b.strs()) || a.strs() == b.strs(),
        a.syntax().exprs.contains_id(id),
    ensures
        a.expr_of(id) == b.expr_of(id),
        b.syntax().exprs.contains_id(id),
        b.syntax().exprs@[id.value() as int] == a.syntax().exprs@[id.value() as int],
{
    reveal(Parser::inv);
    reveal(ast_extends);
    assert(a.strs() =~= b.strs().take(a.strs().len() as int));
    lemma_expr_tree_stable(&a.syntax(), &b.syntax(), a.strs(), b.strs(), id);
}

/// The tree of a type of `a` is the same in a later state `b`.
pub proof fn lemma_type_kept<'a>(a: &Parser<'a>, b: &Parser<'a>, id: TypeId)
    requires
        a.inv(),
        ast_extends(&a.syntax(), &b.syntax()),
        strs_extend(a.strs(), b.strs()) || a.strs() == b.strs(),
        a.syntax().types.contains_id(id),
    ensures
        type_tree(&a.syntax(), a.strs(), id) == type_tree(&b.syntax(), b.strs(), id),
        b.syntax().types.contains_id(id),
        b.syntax().types@[id.value() as int] == a.syntax().types@[id.value() as int],
{
    reveal(Parser::inv);
    reveal(ast_extends);
    assert(a.strs() =~= b.strs().take(a.strs().len() as int));
    lemma_type_tree_stable(&a.syntax(), &b.syntax(), a.strs(), b.strs(), id);
}

/// A step followed by growth within the room of the whole is a step.
pub proof fn lemma_grow_step<'a>(
    p0: &Parser<'a>,
    pm: &Parser<'a>,
    pf: &Parser<'a>,
    e: int,
    reps: Seq<Report>,
)
    requires
        p0.stepped(pm, pm.cursor(), reps),
        pf.inv(),
        pf.same_run(pm),
        pm.cursor() <= e,
        pf.cursor() == e,
        pf.reports() == pm.reports(),
        pf.strs() == pm.strs(),
        ast_extends(&pm.syntax(), &pf.syntax()),
        forall|k: int|
            0 <= k < 12 ==> #[trigger] lens(&pf.syntax())[k] <= lens(&p0.syntax())[k] + (e
                - p0.cursor()),
    ensures
        p0.stepped(pf, e, reps),
{
    lemma_extends_trans(&p0.syntax(), &pm.syntax(), &pf.syntax());
}

/// A state with the same view at the end of a step is its end too.
pub proof fn lemma_same_end<'a>(a: &Parser<'a>, b: &Parser<'a>, c: &Parser<'a>, e: int, r: Seq<Report>)
    requires
        a.stepped(b, e, r),
        c.inv(),
        c.same_run(b),
        c.cursor() == b.cursor(),
        c.syntax() == b.syntax(),
        c.strs() == b.strs(),
        c.reports() == b.reports(),
    ensures
        a.stepped(c, e, r),
{
}

impl<'a> Parser<'a> {
    /// `new`, with the result `r`, follows from this parser by the parse `p` of a
    /// statement: a parse that succeeds consumes a token and gives the id of a node
    /// whose tree is the one parsed.
    pub open spec fn stmt_result(&self, new: &Self, p: Parsed<StmtTree>, r: Result<StmtId, ()>) -> bool {
        &&& self.stepped(new, p.end, p.reports)
        &&& p.value is Some ==> p.end > self.cursor()
        &&& p.value matches Some(t) ==> (r matches Ok(id) && new.syntax().stmts.contains_id(id)
            && stmt_tree(&new.syntax(), new.strs(), id) == t)
        &&& p.value is None ==> r is Err
        &&& frames(&self.syntax(), &new.syntax(), 4, 9)
    }

    /// Adds a statement node; it must name nodes that exist, and the consumed text
    /// must leave room for it.
    fn add_stmt(&mut self, st: Stmt) -> (r: StmtId)
        requires
            old(self).inv(),
            old(self).syntax().stmt_wf(st, old(self).syntax().stmts@.len() as int),
            old(self).syntax().stmts@.len() + 1 <= old(self).cursor(),
            st.kind matches StmtKind::If { elifs, .. } ==> elifs.start() < elifs.end(),
        ensures
            final(self).inv(),
            final(self).same_run(&*old(self)),
            final(self).cursor() == old(self).cursor(),
            final(self).strs() == old(self).strs(),
            final(self).reports() == old(self).reports(),
            final(self).syntax().stmts@ == old(self).syntax().stmts@.push(st),
            ast_extends(&old(self).syntax(), &final(self).syntax()),
            lens(&final(self).syntax()) == lens(&old(self).syntax()).update(
                3,
                lens(&old(self).syntax())[3] + 1,
            ),
            r.value() == old(self).syntax().stmts@.len(),
    {
        reveal(Parser::inv);
        reveal(ast_extends);
        proof {
            self.lemma_inv();
        }
        let ghost a = self.ast;
        let r = self.ast.stmts.add(st);
        proof {
            lemma_extends_refl(&a);
            assert(self.ast.stmts@.take(a.stmts@.len() as int) =~= a.stmts@);
            assert(lens(&self.ast) =~= lens(&a).update(3, lens(&a)[3] + 1));
            assert forall|i: int| 0 <= i < self.ast.stmts@.len() implies self.ast.stmt_wf(
                #[trigger] self.ast.stmts@[i],
                i,
            ) by {
                if i < a.stmts@.len() {
                    assert(a.stmt_wf(a.stmts@[i], i));
                }
            }
            assert(self.ast.spec_ifs_have_conditions()) by {
                assert forall|i: int| 0 <= i < self.ast.stmts@.len() implies match (
                #[trigger] self.ast.stmts@[i]).kind {
                    StmtKind::If { elifs, .. } => elifs.start() < elifs.end(),
                    _ => true,
                } by {
                    if i < a.stmts@.len() {
                        assert(self.ast.stmts@[i] == a.stmts@[i]);
                    }
                }
            }
        }
        r
    }

    /// Moves past the next token if it has kind `tok`.
    fn match_tok(&mut self, tok: Tok) -> (r: bool)
        requires
            old(self).inv(),
        ensures
            r == (kind_at(old(self).text(), old(self).cursor()) == tok),
            r ==> old(self).stepped(
                &*final(self),
                next_pos(old(self).text(), old(self).cursor()),
                Seq::empty(),
            ),
            !r ==> old(self).stepped(&*final(self), old(self).cursor(), Seq::empty()),
            frames(&old(self).syntax(), &final(self).syntax(), 0, 12),
            final(self).syntax() == old(self).syntax(),
    {
        let ghost p0 = *self;
        proof {
            self.lemma_inv();
        }
        let peek = self.peek();
        if peek.kind == tok {
            self.advance();
            proof {
                lemma_moved(&p0, &*self);
            }
            true
        } else {
            proof {
                lemma_moved(&p0, &*self);
            }
            false
        }
    }

    /// VarDecl
    ///     = "var" identifier (":" Type)? "=" Expr ";"
    #[verifier::rlimit(60)]
    pub fn parse_var(&mut self) -> (r: Result<StmtId, ()>)
        requires
            old(self).inv(),
        ensures
            old(self).stmt_result(&*final(self), parse_var_at(old(self).text(), old(self).cursor()), r),
    {
        reveal(parse_var_at);
        let ghost s = self.text();
        let ghost i = self.cursor();
        let ghost p0 = *self;
        proof {
            self.lemma_inv();
            lemma_token_span(s, i);
        }
        let var = match self.expect_tokens(&[Tok::Var]) {
            Ok(t) => t,
            Err(()) => {
                proof {
                    assert([Tok::Var]@ == seq![Tok::Var]);
                    lemma_reported(&p0, &*self, expect_report(s, i, Tok::Var));
                }
                return Err(());
            },
        };
        let ghost p1 = *self;
        let ghost j1 = self.cursor();
        proof {
            assert([Tok::Var]@ == seq![Tok::Var]);
            lemma_moved(&p0, &p1);
            self.lemma_inv();
            lemma_token_span(s, j1);
        }
        let ident_tok = match self.expect_tokens(&[Tok::Identifier]) {
            Ok(t) => t,
            Err(()) => {
                proof {
                    assert([Tok::Identifier]@ == seq![Tok::Identifier]);
                    let m = expect_report(s, j1, Tok::Identifier);
                    lemma_reported(&p1, &*self, m);
                    lemma_stepped_trans(&p0, &p1, &*self, j1, Seq::empty(), j1, seq![m]);
                    assert(Seq::<Report>::empty() + seq![m] =~= seq![m]);
                }
                return Err(());
            },
        };
        let ghost p2 = *self;
        let ghost j2 = self.cursor();
        proof {
            assert([Tok::Identifier]@ == seq![Tok::Identifier]);
            lemma_moved(&p1, &p2);
            lemma_stepped_trans(&p0, &p1, &p2, j1, Seq::empty(), j2, Seq::empty());
            assert(Seq::<Report>::empty() + Seq::<Report>::empty() =~= Seq::<Report>::empty());
            self.lemma_inv();
            lemma_token_span(s, j2);
        }
        let ghost tq = if kind_at(s, j2) == Tok::Colon {
            parse_type_at(s, next_pos(s, j2))
        } else {
            success(TypeTree::Named { name: Seq::empty(), span: span_at(s, j2) }, j2, Seq::empty())
        };
        let typ = if self.match_tok(Tok::Colon) {
            let ghost pc = *self;
            match self.parse_type() {
                Ok(t) => {
                    proof {
                        lemma_stepped_trans(&p2, &pc, &*self, pc.cursor(), Seq::empty(), tq.end,
                            tq.reports);
                        assert(Seq::<Report>::empty() + tq.reports =~= tq.reports);
                    }
                    Some(t)
                },
                Err(()) => {
                    proof {
                        lemma_stepped_trans(&p2, &pc, &*self, pc.cursor(), Seq::empty(), tq.end,
                            tq.reports);
                        assert(Seq::<Report>::empty() + tq.reports =~= tq.reports);
                        lemma_stepped_trans(&p0, &p2, &*self, j2, Seq::empty(), tq.end, tq.reports);
                    }
                    return Err(());
                },
            }
        } else {
            None
        };
        let ghost p4 = *self;
        let ghost j3 = self.cursor();
        proof {
            lemma_stepped_trans(&p0, &p2, &p4, j2, Seq::empty(), j3, tq.reports);
            assert(Seq::<Report>::empty() + tq.reports =~= tq.reports);
            self.lemma_inv();
            lemma_token_span(s, j3);
            if let Some(t) = typ {
                assert(p4.syntax().types.contains_id(t));
            }
        }
        match self.expect_tokens(&[Tok::Equal]) {
            Ok(_) => {},
            Err(()) => {
                proof {
                    assert([Tok::Equal]@ == seq![Tok::Equal]);
                    let m = expect_report(s, j3, Tok::Equal);
                    lemma_reported(&p4, &*self, m);
                    lemma_stepped_trans(&p0, &p4, &*self, j3, tq.reports, j3, seq![m]);
                }
                return Err(());
            },
        }
        let ghost p5 = *self;
        proof {
            assert([Tok::Equal]@ == seq![Tok::Equal]);
            lemma_moved(&p4, &p5);
            lemma_stepped_trans(&p0, &p4, &p5, j3, tq.reports, p5.cursor(), Seq::empty());
            assert(tq.reports + Seq::<Report>::empty() =~= tq.reports);
        }
        let ghost eq = parse_expr_at(s, p5.cursor());
        let expr = match self.parse_expr() {
            Ok(e) => e,
            Err(()) => {
                proof {
                    lemma_stepped_trans(&p0, &p5, &*self, p5.cursor(), tq.reports, eq.end,
                        eq.reports);
                }
                return Err(());
            },
        };
        let ghost p6 = *self;
        let ghost m = self.cursor();
        proof {
            lemma_stepped_trans(&p0, &p5, &p6, p5.cursor(), tq.reports, eq.end, eq.reports);
            self.lemma_inv();
            lemma_token_span(s, m);
        }
        let semicolon = match self.expect_tokens(&[Tok::Semicolon]) {
            Ok(t) => t,
            Err(()) => {
                proof {
                    assert([Tok::Semicolon]@ == seq![Tok::Semicolon]);
                    let mm = expect_report(s, m, Tok::Semicolon);
                    lemma_reported(&p6, &*self, mm);
                    lemma_stepped_trans(&p0, &p6, &*self, m, tq.reports + eq.reports, m,
                        seq![mm]);
                }
                return Err(());
            },
        };
        let ghost p7 = *self;
        proof {
            assert([Tok::Semicolon]@ == seq![Tok::Semicolon]);
            lemma_moved(&p6, &p7);
            lemma_stepped_trans(&p0, &p6, &p7, m, tq.reports + eq.reports, p7.cursor(),
                Seq::empty());
            assert(tq.reports + eq.reports + Seq::<Report>::empty() =~= tq.reports + eq.reports);
            self.lemma_inv();
            p0.lemma_inv();
            lemma_lex(s, m);
            lemma_stepped_lens(&p2, &p7, p7.cursor(), tq.reports + eq.reports, 3);
            lemma_stepped_lens(&p2, &p7, p7.cursor(), tq.reports + eq.reports, 9);
        }
        proof {
            if let Some(t) = typ {
                lemma_type_kept(&p4, &p6, t);
            }
        }
        let ident = self.slice_ident(ident_tok.span, Ghost(lex(s, j1).1), Ghost(lex(s, j1).2));
        let ghost p8 = *self;
        let span = var.span.join(&semicolon.span);
        let id = self.add_stmt(Stmt::new(StmtKind::VarDecl { ident, expr, typ }, span));
        proof {
            lemma_extends_trans(&p7.syntax(), &p8.syntax(), &self.syntax());
            lemma_expr_kept(&p6, &*self, expr);
            if let Some(t) = typ {
                lemma_type_kept(&p6, &*self, t);
            }
            assert(self.syntax().idents@[ident.value() as int] == p8.syntax().idents@[ident.value() as int]) by {
                reveal(ast_extends);
            }
            assert forall|k: int| 0 <= k < 12 implies #[trigger] lens(&self.syntax())[k] <= lens(
                &p0.syntax(),
            )[k] + (p7.cursor() - i) by {
                lemma_stepped_lens(&p2, &p7, p7.cursor(), tq.reports + eq.reports, k);
            }
            lemma_grow_strs_step(&p0, &p7, &*self, p7.cursor(), tq.reports + eq.reports);
        }
        Ok(id)
    }
}

impl<'a> Parser<'a> {
    /// Stmt
    ///    = VarDecl
    ///    | Expr ";"
    ///    | "return" Expr? ";"
    #[verifier::rlimit(60)]
    pub fn parse_stmt(&mut self) -> (r: Result<StmtId, ()>)
        requires
            old(self).inv(),
        ensures
            old(self).stmt_result(&*final(self), parse_stmt_at(old(self).text(), old(self).cursor()), r),
    {
        reveal(parse_stmt_at);
        let ghost s = self.text();
        let ghost i = self.cursor();
        let ghost p0 = *self;
        proof {
            self.lemma_inv();
            lemma_token_span(s, i);
        }
        let peek = self.peek();
        let ghost pp = *self;
        match peek.kind {
            Tok::Var => {
                let r = self.parse_var();
                proof {
                    let q = parse_var_at(s, i);
                    lemma_same_view(&p0, &pp, &*self, q.end, q.reports);
                }
                r
            },
            Tok::Return => {
                let return_ = self.advance();
                let ghost p1 = *self;
                let ghost j = self.cursor();
                proof {
                    lemma_moved(&p0, &p1);
                    self.lemma_inv();
                    lemma_token_span(s, j);
                }
                let ghost eq = if kind_at(s, j) != Tok::Semicolon {
                    parse_expr_at(s, j)
                } else {
                    success(ExprTree::Ident { name: Seq::empty(), span: span_at(s, j) }, j, Seq::empty())
                };
                let next_kind = self.peek().kind;
                let ghost pq = *self;
                proof {
                    lemma_same_end(&p0, &p1, &pq, j, Seq::empty());
                    lemma_moved(&pq, &pq);
                }
                let expr = if next_kind != Tok::Semicolon {
                    match self.parse_expr() {
                        Ok(e) => Some(e),
                        Err(()) => {
                            proof {
                                lemma_stepped_trans(&p0, &pq, &*self, j, Seq::empty(), eq.end,
                                    eq.reports);
                                assert(Seq::<Report>::empty() + eq.reports =~= eq.reports);
                            }
                            return Err(());
                        },
                    }
                } else {
                    None
                };
                let ghost p2 = *self;
                let ghost m = self.cursor();
                proof {
                    lemma_stepped_trans(&p0, &pq, &p2, j, Seq::empty(), m, eq.reports);
                    assert(Seq::<Report>::empty() + eq.reports =~= eq.reports);
                    self.lemma_inv();
                    lemma_token_span(s, m);
                }
                let semicolon = match self.expect_tokens(&[Tok::Semicolon]) {
                    Ok(t) => t,
                    Err(()) => {
                        proof {
                            assert([Tok::Semicolon]@ == seq![Tok::Semicolon]);
                            let mm = expect_report(s, m, Tok::Semicolon);
                            lemma_reported(&p2, &*self, mm);
                            lemma_stepped_trans(&p0, &p2, &*self, m, eq.reports, m, seq![mm]);
                        }
                        return Err(());
                    },
                };
                let ghost p3 = *self;
                proof {
                    assert([Tok::Semicolon]@ == seq![Tok::Semicolon]);
                    lemma_moved(&p2, &p3);
                    lemma_stepped_trans(&p0, &p2, &p3, m, eq.reports, p3.cursor(), Seq::empty());
                    assert(eq.reports + Seq::<Report>::empty() =~= eq.reports);
                    lemma_stepped_lens(&pq, &p2, m, eq.reports, 3);
                    p0.lemma_inv();
                    lemma_lex(s, m);
                }
                let span = return_.span.join(&semicolon.span);
                let id = self.add_stmt(Stmt::new(StmtKind::Return(expr), span));
                proof {
                    lemma_node_step(&p0, &p3, &*self, 3, 1, p3.cursor(), eq.reports);
                    if let Some(e) = expr {
                        lemma_expr_kept(&p2, &*self, e);
                    }
                }
                Ok(id)
            },
            _ => {
                let ghost eq = parse_expr_at(s, i);
                let expr = match self.parse_expr() {
                    Ok(e) => e,
                    Err(()) => {
                        proof {
                            lemma_same_view(&p0, &pp, &*self, eq.end, eq.reports);
                        }
                        return Err(());
                    },
                };
                let ghost p2 = *self;
                let ghost m = self.cursor();
                proof {
                    lemma_same_view(&p0, &pp, &p2, eq.end, eq.reports);
                    self.lemma_inv();
                    lemma_token_span(s, m);
                }
                let semicolon = match self.expect_tokens(&[Tok::Semicolon]) {
                    Ok(t) => t,
                    Err(()) => {
                        proof {
                            assert([Tok::Semicolon]@ == seq![Tok::Semicolon]);
                            let mm = expect_report(s, m, Tok::Semicolon);
                            lemma_reported(&p2, &*self, mm);
                            lemma_stepped_trans(&p0, &p2, &*self, m, eq.reports, m, seq![mm]);
                        }
                        return Err(());
                    },
                };
                let ghost p3 = *self;
                proof {
                    assert([Tok::Semicolon]@ == seq![Tok::Semicolon]);
                    lemma_moved(&p2, &p3);
                    lemma_stepped_trans(&p0, &p2, &p3, m, eq.reports, p3.cursor(), Seq::empty());
                    assert(eq.reports + Seq::<Report>::empty() =~= eq.reports);
                    p0.lemma_inv();
                    lemma_lex(s, m);
                    assert(lens(&p2.syntax())[3] == lens(&p0.syntax())[3]);
                    lemma_expr_tree_span(&p3.syntax(), p3.strs(), expr);
                }
                let span = self.ast.exprs.index(expr).span.join(&semicolon.span);
                let id = self.add_stmt(Stmt::new(StmtKind::Expr(expr), span));
                proof {
                    lemma_node_step(&p0, &p3, &*self, 3, 1, p3.cursor(), eq.reports);
                    lemma_expr_kept(&p2, &*self, expr);
                }
                Ok(id)
            },
        }
    }

    /// Skips to the next statement: past the `;` or `}` that ends the statement at the
    /// outer level, or to the end of the text.
    fn find_next_stmt(&mut self)
        requires
            old(self).inv(),
        ensures
            old(self).stepped(
                &*final(self),
                skip_stmt_from(old(self).text(), old(self).cursor(), 0),
                Seq::empty(),
            ),
            final(self).syntax() == old(self).syntax(),
            kind_at(old(self).text(), old(self).cursor()) != Tok::Eof ==> old(self).cursor()
                < final(self).cursor(),
    {
        let ghost s = self.text();
        let ghost i = self.cursor();
        let ghost p0 = *self;
        let mut level: u32 = 0;
        proof {
            self.lemma_inv();
            lemma_moved(&p0, &p0);
        }
        loop
            invariant_except_break
                level <= self.cursor() - i,
                skip_stmt_from(s, i, 0) == skip_stmt_from(s, self.cursor(), level as nat),
                kind_at(s, i) != Tok::Eof && self.cursor() == i ==> level == 0,
            invariant
                p0.inv(),
                self.text() == s,
                p0.stepped(&*self, self.cursor(), Seq::empty()),
                self.syntax() == p0.syntax(),
                0 <= i <= self.cursor() <= s.len(),
                s.len() < u32::MAX,
            ensures
                p0.stepped(&*self, self.cursor(), Seq::empty()),
                self.syntax() == p0.syntax(),
                skip_stmt_from(s, i, 0) == self.cursor(),
                kind_at(s, i) != Tok::Eof ==> i < self.cursor(),
            decreases s.len() - self.cursor(),
        {
            reveal(skip_stmt_from);
            let ghost pl = *self;
            let ghost c = self.cursor();
            proof {
                self.lemma_inv();
                lemma_token_span(s, c);
            }
            let peek = self.peek();
            let ghost pp = *self;
            proof {
                lemma_same_end(&p0, &pl, &pp, c, Seq::empty());
                assert(level <= c - i);
                assert(c <= s.len());
            }
            match peek.kind {
                Tok::LBrace => {
                    self.advance();
                    proof {
                        lemma_moved(&pp, &*self);
                        lemma_stepped_trans(&p0, &pp, &*self, c, Seq::empty(), self.cursor(),
                            Seq::empty());
                        assert(Seq::<Report>::empty() + Seq::<Report>::empty() =~= Seq::<Report>::empty());
                    }
                    level = level + 1;
                },
                Tok::RBrace => {
                    self.advance();
                    proof {
                        lemma_moved(&pp, &*self);
                        lemma_stepped_trans(&p0, &pp, &*self, c, Seq::empty(), self.cursor(),
                            Seq::empty());
                        assert(Seq::<Report>::empty() + Seq::<Report>::empty() =~= Seq::<Report>::empty());
                    }
                    if level == 0 {
                        break;
                    }
                    level = level - 1;
                },
                Tok::Semicolon => {
                    self.advance();
                    proof {
                        lemma_moved(&pp, &*self);
                        lemma_stepped_trans(&p0, &pp, &*self, c, Seq::empty(), self.cursor(),
                            Seq::empty());
                        assert(Seq::<Report>::empty() + Seq::<Report>::empty() =~= Seq::<Report>::empty());
                    }
                    if level == 0 {
                        break;
                    }
                },
                Tok::Eof => {
                    break;
                },
                _ => {
                    self.advance();
                    proof {
                        lemma_moved(&pp, &*self);
                        lemma_stepped_trans(&p0, &pp, &*self, c, Seq::empty(), self.cursor(),
                            Seq::empty());
                        assert(Seq::<Report>::empty() + Seq::<Report>::empty() =~= Seq::<Report>::empty());
                    }
                },
            }
        }
    }

    /// Block
    ///     = "{" Stmt* "}"
    /// A statement that fails is skipped; the block ends at a `}` or at the end of
    /// the text.
    #[verifier::rlimit(60)]
    pub fn parse_block(&mut self) -> (r: Result<Vec<StmtId>, ()>)
        requires
            old(self).inv(),
        ensures
            old(self).stepped(
                &*final(self),
                parse_block_at(old(self).text(), old(self).cursor()).end,
                parse_block_at(old(self).text(), old(self).cursor()).reports,
            ),
            parse_block_at(old(self).text(), old(self).cursor()).value matches Some(ts) ==> (
            r matches Ok(v) && v@.len() == ts.len() && forall|k: int|
                0 <= k < v@.len() ==> final(self).syntax().stmts.contains_id(#[trigger] v@[k])
                    && stmt_tree(&final(self).syntax(), final(self).strs(), v@[k]) == ts[k]),
            r matches Ok(v) ==> v@.len() <= final(self).cursor() - old(self).cursor(),
            parse_block_at(old(self).text(), old(self).cursor()).value is None ==> r is Err,
            frames(&old(self).syntax(), &final(self).syntax(), 4, 9),
    {
        reveal(parse_block_at);
        reveal(block_rest);
        let ghost s = self.text();
        let ghost i = self.cursor();
        let ghost p0 = *self;
        proof {
            self.lemma_inv();
            lemma_token_span(s, i);
        }
        let ghost mut areps: Seq<Report> = if kind_at(s, i) == Tok::LBrace {
            Seq::empty()
        } else {
            seq![expect_report(s, i, Tok::LBrace)]
        };
        let _lbrace = self.expect_tokens(&[Tok::LBrace]);
        proof {
            assert([Tok::LBrace]@ == seq![Tok::LBrace]);
            if kind_at(s, i) == Tok::LBrace {
                lemma_moved(&p0, &*self);
            } else {
                lemma_reported(&p0, &*self, expect_report(s, i, Tok::LBrace));
            }
        }
        let ghost j0 = self.cursor();
        let mut stmts: Vec<StmtId> = Vec::new();
        let ghost mut trees: Seq<StmtTree> = Seq::empty();
        loop
            invariant_except_break
                parse_block_at(s, i) == block_rest(s, self.cursor(), trees, areps),
            invariant
                p0.inv(),
                self.text() == s,
                old(self).text() == s,
                p0 == *old(self),
                old(self).cursor() == i,
                p0.stepped(&*self, self.cursor(), areps),
                i <= j0 <= self.cursor() <= s.len(),
                stmts@.len() == trees.len(),
                stmts@.len() <= self.cursor() - j0,
                frames(&p0.syntax(), &self.syntax(), 4, 9),
                forall|k: int|
                    0 <= k < stmts@.len() ==> self.syntax().stmts.contains_id(#[trigger] stmts@[k])
                        && stmt_tree(&self.syntax(), self.strs(), stmts@[k]) == trees[k],
            ensures
                p0.stepped(&*self, self.cursor(), areps),
                self.cursor() <= s.len(),
                stmts@.len() == trees.len(),
                stmts@.len() <= self.cursor() - i,
                frames(&p0.syntax(), &self.syntax(), 4, 9),
                forall|k: int|
                    0 <= k < stmts@.len() ==> self.syntax().stmts.contains_id(#[trigger] stmts@[k])
                        && stmt_tree(&self.syntax(), self.strs(), stmts@[k]) == trees[k],
                parse_block_at(s, i) == block_close(s, self.cursor(), trees, areps),
            decreases s.len() - self.cursor(),
        {
            reveal(block_rest);
            let ghost pl = *self;
            let ghost c = self.cursor();
            proof {
                self.lemma_inv();
                lemma_token_span(s, c);
            }
            let kind = self.peek().kind;
            let ghost pq = *self;
            proof {
                lemma_same_end(&p0, &pl, &pq, c, areps);
            }
            if kind == Tok::Eof || kind == Tok::RBrace {
                break;
            }
            let ghost st = parse_stmt_at(s, c);
            match self.parse_stmt() {
                Ok(id) => {
                    proof {
                        lemma_stepped_trans(&p0, &pq, &*self, c, areps, st.end, st.reports);
                        assert forall|k: int| 0 <= k < stmts@.len() implies self.syntax().stmts.contains_id(
                            #[trigger] stmts@[k],
                        ) && stmt_tree(&self.syntax(), self.strs(), stmts@[k]) == trees[k] by {
                            lemma_stmt_kept(&pq, &*self, stmts@[k]);
                        }
                        trees = trees.push(st.value->0);
                    }
                    stmts.push(id);
                },
                Err(()) => {
                    let ghost pe = *self;
                    proof {
                        lemma_stepped_trans(&p0, &pq, &pe, c, areps, st.end, st.reports);
                        self.lemma_inv();
                    }
                    self.find_next_stmt();
                    proof {
                        lemma_stepped_trans(&p0, &pe, &*self, st.end, areps + st.reports,
                            self.cursor(), Seq::empty());
                        assert(areps + st.reports + Seq::<Report>::empty() =~= areps + st.reports);
                        assert forall|k: int| 0 <= k < stmts@.len() implies self.syntax().stmts.contains_id(
                            #[trigger] stmts@[k],
                        ) && stmt_tree(&self.syntax(), self.strs(), stmts@[k]) == trees[k] by {
                            lemma_stmt_kept(&pq, &pe, stmts@[k]);
                            lemma_stmt_kept(&pe, &*self, stmts@[k]);
                        }
                    }
                },
            }
            proof {
                areps = areps + st.reports;
                self.lemma_inv();
                lemma_token_span(s, self.cursor());
            }
            let ghost pb = *self;
            let next = self.peek().kind;
            let ghost pn = *self;
            proof {
                lemma_same_end(&p0, &pb, &pn, self.cursor(), areps);
            }
            if next == Tok::RBrace || next == Tok::Eof {
                break;
            }
        }
        let ghost pz = *self;
        let ghost z = self.cursor();
        proof {
            self.lemma_inv();
            lemma_token_span(s, z);
        }
        match self.expect_tokens(&[Tok::RBrace]) {
            Ok(_) => {
                proof {
                    assert([Tok::RBrace]@ == seq![Tok::RBrace]);
                    lemma_moved(&pz, &*self);
                    lemma_stepped_trans(&p0, &pz, &*self, z, areps, self.cursor(), Seq::empty());
                    assert(areps + Seq::<Report>::empty() =~= areps);
                    lemma_lex(s, z);
                }
                Ok(stmts)
            },
            Err(()) => {
                proof {
                    assert([Tok::RBrace]@ == seq![Tok::RBrace]);
                    let m = expect_report(s, z, Tok::RBrace);
                    lemma_reported(&pz, &*self, m);
                    lemma_stepped_trans(&p0, &pz, &*self, z, areps, z, seq![m]);
                }
                Err(())
            },
        }
    }
}

/// The tree of a statement of `a` is the same in a later state `b`.
pub proof fn lemma_stmt_kept<'a>(a: &Parser<'a>, b: &Parser<'a>, id: StmtId)
    requires
        a.inv(),
        ast_extends(&a.syntax(), &b.syntax()),
        strs_extend(a.strs(), b.strs()) || a.strs() == b.strs(),
        a.syntax().stmts.contains_id(id),
    ensures
        stmt_tree(&a.syntax(), a.strs(), id) == stmt_tree(&b.syntax(), b.strs(), id),
        b.syntax().stmts.contains_id(id),
{
    reveal(Parser::inv);
    reveal(ast_extends);
    assert(a.strs() =~= b.strs().take(a.strs().len() as int));
    lemma_stmt_tree_stable(&a.syntax(), &b.syntax(), a.strs(), b.strs(), id);
}

/// A step followed by growth, the interning of strings among it, within the room of
/// the whole is a step.
pub proof fn lemma_grow_strs_step<'a>(
    p0: &Parser<'a>,
    pm: &Parser<'a>,
    pf: &Parser<'a>,
    e: int,
    reps: Seq<Report>,
)
    requires
        p0.stepped(pm, e, reps),
        pf.inv(),
        pf.same_run(pm),
        pf.cursor() == e,
        pf.reports() == pm.reports(),
        strs_extend(pm.strs(), pf.strs()),
        pf.strs().len() <= p0.strs().len() + (e - p0.cursor()),
        ast_extends(&pm.syntax(), &pf.syntax()),
        forall|k: int|
            0 <= k < 12 ==> #[trigger] lens(&pf.syntax())[k] <= lens(&p0.syntax())[k] + (e
                - p0.cursor()),
    ensures
        p0.stepped(pf, e, reps),
{
    lemma_extends_trans(&p0.syntax(), &pm.syntax(), &pf.syntax());
    assert(p0.strs() =~= pf.strs().take(p0.strs().len() as int));
}

impl<'a> Parser<'a> {
    /// Adds the parameters `ps`, which must name nodes that exist, when the consumed
    /// text leaves room for them.
    fn add_params(&mut self, ps: Vec<Param>) -> (r: ArenaRange<Param>)
        requires
            old(self).inv(),
            forall|k: int| 0 <= k < ps@.len() ==> old(self).syntax().param_wf(#[trigger] ps@[k]),
            old(self).syntax().params@.len() + ps@.len() <= old(self).cursor(),
        ensures
            final(self).inv(),
            final(self).same_run(&*old(self)),
            final(self).cursor() == old(self).cursor(),
            final(self).strs() == old(self).strs(),
            final(self).reports() == old(self).reports(),
            final(self).syntax().params@ == old(self).syntax().params@ + ps@,
            ast_extends(&old(self).syntax(), &final(self).syntax()),
            lens(&final(self).syntax()) == lens(&old(self).syntax()).update(
                8,
                lens(&old(self).syntax())[8] + ps@.len(),
            ),
            r.start() == old(self).syntax().params@.len(),
            r.end() == final(self).syntax().params@.len(),
    {
        reveal(Parser::inv);
        reveal(ast_extends);
        proof {
            self.lemma_inv();
        }
        let ghost a = self.ast;
        let ghost v = ps@;
        let r = self.ast.params.alloc_iter(ps);
        proof {
            lemma_extends_refl(&a);
            assert(self.ast.params@.take(a.params@.len() as int) =~= a.params@);
            assert(lens(&self.ast) =~= lens(&a).update(8, lens(&a)[8] + v.len()));
            assert forall|i: int| 0 <= i < self.ast.params@.len() implies self.ast.param_wf(
                #[trigger] self.ast.params@[i],
            ) by {
                if i < a.params@.len() {
                    assert(a.param_wf(a.params@[i]));
                } else {
                    assert(self.ast.params@[i] == v[i - a.params@.len()]);
                }
            }
        }
        r
    }

    /// Adds the statement ids `v`, which must name statements, as a block, when the
    /// consumed text leaves room for them.
    fn add_stmt_list(&mut self, v: Vec<StmtId>) -> (r: ArenaRange<StmtId>)
        requires
            old(self).inv(),
            forall|k: int| 0 <= k < v@.len() ==> old(self).syntax().stmts.contains_id(#[trigger] v@[k]),
            old(self).syntax().stmts_lists@.len() + v@.len() <= old(self).cursor(),
        ensures
            final(self).inv(),
            final(self).same_run(&*old(self)),
            final(self).cursor() == old(self).cursor(),
            final(self).strs() == old(self).strs(),
            final(self).reports() == old(self).reports(),
            final(self).syntax().stmts_lists@ == old(self).syntax().stmts_lists@ + v@,
            ast_extends(&old(self).syntax(), &final(self).syntax()),
            lens(&final(self).syntax()) == lens(&old(self).syntax()).update(
                4,
                lens(&old(self).syntax())[4] + v@.len(),
            ),
            r.start() == old(self).syntax().stmts_lists@.len(),
            r.end() == final(self).syntax().stmts_lists@.len(),
    {
        reveal(Parser::inv);
        reveal(ast_extends);
        proof {
            self.lemma_inv();
        }
        let ghost a = self.ast;
        let ghost w = v@;
        let r = self.ast.stmts_lists.alloc_iter(v);
        proof {
            lemma_extends_refl(&a);
            assert(self.ast.stmts_lists@.take(a.stmts_lists@.len() as int) =~= a.stmts_lists@);
            assert(lens(&self.ast) =~= lens(&a).update(4, lens(&a)[4] + w.len()));
            assert forall|i: int| 0 <= i < self.ast.stmts_lists@.len() implies self.ast.stmts.contains_id(
                #[trigger] self.ast.stmts_lists@[i],
            ) by {
                if i < a.stmts_lists@.len() {
                    assert(a.stmts.contains_id(a.stmts_lists@[i]));
                } else {
                    assert(self.ast.stmts_lists@[i] == w[i - a.stmts_lists@.len()]);
                }
            }
            assert forall|i: int| 0 <= i < self.ast.stmts@.len() implies self.ast.stmt_wf(
                #[trigger] self.ast.stmts@[i],
                i,
            ) by {
                assert(a.stmt_wf(a.stmts@[i], i));
            }
            assert forall|i: int| 0 <= i < self.ast.cond_blocks@.len() implies self.ast.cond_block_wf(
                #[trigger] self.ast.cond_blocks@[i],
            ) by {
                assert(a.cond_block_wf(a.cond_blocks@[i]));
            }
            assert forall|i: int| 0 <= i < self.ast.items@.len() implies (
            #[trigger] self.ast.items@[i] matches Item::Fun(f) && self.ast.fun_wf(f)) by {
                assert(a.items@[i] matches Item::Fun(f) && a.fun_wf(f));
            }
        }
        r
    }

    /// Adds an item for the function `f`, which must name nodes that exist, when the
    /// consumed text leaves room for it.
    fn add_item(&mut self, f: Fun) -> (r: ItemId)
        requires
            old(self).inv(),
            old(self).syntax().fun_wf(f),
            old(self).syntax().items@.len() + 1 <= old(self).cursor(),
        ensures
            final(self).inv(),
            final(self).same_run(&*old(self)),
            final(self).cursor() == old(self).cursor(),
            final(self).strs() == old(self).strs(),
            final(self).reports() == old(self).reports(),
            final(self).syntax().items@ == old(self).syntax().items@.push(Item::Fun(f)),
            ast_extends(&old(self).syntax(), &final(self).syntax()),
            lens(&final(self).syntax()) == lens(&old(self).syntax()).update(
                7,
                lens(&old(self).syntax())[7] + 1,
            ),
            r.value() == old(self).syntax().items@.len(),
    {
        reveal(Parser::inv);
        reveal(ast_extends);
        proof {
            self.lemma_inv();
        }
        let ghost a = self.ast;
        let r = self.ast.items.add(Item::Fun(f));
        proof {
            lemma_extends_refl(&a);
            assert(self.ast.items@.take(a.items@.len() as int) =~= a.items@);
            assert(lens(&self.ast) =~= lens(&a).update(7, lens(&a)[7] + 1));
            assert forall|i: int| 0 <= i < self.ast.items@.len() implies (
            #[trigger] self.ast.items@[i] matches Item::Fun(g) && self.ast.fun_wf(g)) by {
                if i < a.items@.len() {
                    assert(a.items@[i] matches Item::Fun(g) && a.fun_wf(g));
                }
            }
        }
        r
    }
}

/// The tree of a function of `a` is the same in a later state `b`.
pub proof fn lemma_fun_kept<'a>(a: &Parser<'a>, b: &Parser<'a>, f: Fun)
    requires
        a.inv(),
        ast_extends(&a.syntax(), &b.syntax()),
        strs_extend(a.strs(), b.strs()) || a.strs() == b.strs(),
        a.syntax().fun_wf(f),
    ensures
        fun_tree(&a.syntax(), a.strs(), f) == fun_tree(&b.syntax(), b.strs(), f),
        b.syntax().fun_wf(f),
{
    reveal(Parser::inv);
    reveal(ast_extends);
    assert(a.strs() =~= b.strs().take(a.strs().len() as int));
    lemma_fun_tree_stable(&a.syntax(), &b.syntax(), a.strs(), b.strs(), f);
}

/// The tree of a parameter of `a` is the same in a later state `b`.
pub proof fn lemma_param_kept<'a>(a: &Parser<'a>, b: &Parser<'a>, p: Param)
    requires
        a.inv(),
        ast_extends(&a.syntax(), &b.syntax()),
        strs_extend(a.strs(), b.strs()) || a.strs() == b.strs(),
        a.syntax().param_wf(p),
    ensures
        param_tree(&a.syntax(), a.strs(), p) == param_tree(&b.syntax(), b.strs(), p),
        b.syntax().param_wf(p),
{
    reveal(Parser::inv);
    reveal(ast_extends);
    assert(a.strs() =~= b.strs().take(a.strs().len() as int));
    lemma_param_tree_stable(&a.syntax(), &b.syntax(), a.strs(), b.strs(), p);
}

impl<'a> Parser<'a> {
    /// One parameter: identifier ":" (Type | "...").
    #[verifier::rlimit(60)]
    fn parse_param(&mut self) -> (r: Result<Param, ()>)
        requires
            old(self).inv(),
        ensures
            old(self).stepped(
                &*final(self),
                param_at(old(self).text(), old(self).cursor()).end,
                param_at(old(self).text(), old(self).cursor()).reports,
            ),
            param_at(old(self).text(), old(self).cursor()).value matches Some(t) ==> (r matches Ok(
                p,
            ) && final(self).syntax().param_wf(p) && param_tree(
                &final(self).syntax(),
                final(self).strs(),
                p,
            ) == t && param_at(old(self).text(), old(self).cursor()).end > old(self).cursor()),
            param_at(old(self).text(), old(self).cursor()).value is None ==> r is Err,
            frames(&old(self).syntax(), &final(self).syntax(), 3, 9),
    {
        reveal(param_at);
        let ghost s = self.text();
        let ghost c = self.cursor();
        let ghost p0 = *self;
        proof {
            self.lemma_inv();
            lemma_token_span(s, c);
        }
        let ident_tok = match self.expect_tokens(&[Tok::Identifier]) {
            Ok(t) => t,
            Err(()) => {
                proof {
                    assert([Tok::Identifier]@ == seq![Tok::Identifier]);
                    lemma_reported(&p0, &*self, expect_report(s, c, Tok::Identifier));
                }
                return Err(());
            },
        };
        let ghost pa = *self;
        let ghost j1 = self.cursor();
        proof {
            assert([Tok::Identifier]@ == seq![Tok::Identifier]);
            lemma_moved(&p0, &pa);
            self.lemma_inv();
            lemma_token_span(s, j1);
        }
        match self.expect_tokens(&[Tok::Colon]) {
            Ok(_) => {},
            Err(()) => {
                proof {
                    assert([Tok::Colon]@ == seq![Tok::Colon]);
                    let m = expect_report(s, j1, Tok::Colon);
                    lemma_reported(&pa, &*self, m);
                    lemma_stepped_trans(&p0, &pa, &*self, j1, Seq::empty(), j1, seq![m]);
                    assert(Seq::<Report>::empty() + seq![m] =~= seq![m]);
                }
                return Err(());
            },
        }
        let ghost pb = *self;
        let ghost j2 = self.cursor();
        proof {
            assert([Tok::Colon]@ == seq![Tok::Colon]);
            lemma_moved(&pa, &pb);
            lemma_stepped_trans(&p0, &pa, &pb, j1, Seq::empty(), j2, Seq::empty());
            assert(Seq::<Report>::empty() + Seq::<Report>::empty() =~= Seq::<Report>::empty());
            self.lemma_inv();
            lemma_token_span(s, j2);
            p0.lemma_inv();
            lemma_lex(s, c);
            lemma_lex(s, j1);
        }
        let ghost tq = param_at(s, c);
        let peek = self.peek();
        let ghost pc = *self;
        proof {
            lemma_same_end(&p0, &pb, &pc, j2, Seq::empty());
        }
        let typ = if peek.kind == Tok::DotDotDot {
            self.advance();
            proof {
                lemma_moved(&pc, &*self);
                lemma_stepped_trans(&p0, &pc, &*self, j2, Seq::empty(), self.cursor(), Seq::empty());
                assert(Seq::<Report>::empty() + Seq::<Report>::empty() =~= Seq::<Report>::empty());
            }
            ParamType::Variadic(peek.span)
        } else {
            let ghost ty = parse_type_at(s, j2);
            match self.parse_type() {
                Ok(t) => {
                    proof {
                        lemma_stepped_trans(&p0, &pc, &*self, j2, Seq::empty(), ty.end, ty.reports);
                        assert(Seq::<Report>::empty() + ty.reports =~= ty.reports);
                    }
                    ParamType::Type(t)
                },
                Err(()) => {
                    proof {
                        lemma_stepped_trans(&p0, &pc, &*self, j2, Seq::empty(), ty.end, ty.reports);
                        assert(Seq::<Report>::empty() + ty.reports =~= ty.reports);
                    }
                    return Err(());
                },
            }
        };
        let ghost pd = *self;
        let ghost j3 = self.cursor();
        proof {
            self.lemma_inv();
            lemma_stepped_lens(&pc, &pd, j3, tq.reports, 9);
            lemma_stepped_basics(&p0, &pd, j3, tq.reports);
            reveal(Parser::stepped);
            if let ParamType::Type(t) = typ {
                assert(pd.syntax().types.contains_id(t));
            }
        }
        let ident = self.slice_ident(ident_tok.span, Ghost(lex(s, c).1), Ghost(lex(s, c).2));
        let p = Param::new(typ, ident);
        proof {
            if let ParamType::Type(t) = typ {
                lemma_type_kept(&pd, &*self, t);
            }
            assert forall|k: int| 0 <= k < 12 implies #[trigger] lens(&self.syntax())[k] <= lens(
                &p0.syntax(),
            )[k] + (j3 - c) by {
                lemma_stepped_lens(&pc, &pd, j3, tq.reports, k);
            }
            lemma_grow_strs_step(&p0, &pd, &*self, j3, tq.reports);
            assert(param_tree(&self.syntax(), self.strs(), p) == tq.value->0);
        }
        Ok(p)
    }

    /// Looks at what follows a parameter: `0` at a `)`, which stays; `1` after a `,`,
    /// or where a comma is missing before a name, which is reported; `2` at another
    /// token, which is reported.
    fn after_param(&mut self) -> (r: u8)
        requires
            old(self).inv(),
        ensures
            old(self).stepped(
                &*final(self),
                after_param_at(old(self).text(), old(self).cursor()).1,
                after_param_at(old(self).text(), old(self).cursor()).2,
            ),
            r as int == after_param_at(old(self).text(), old(self).cursor()).0,
            final(self).syntax() == old(self).syntax(),
            final(self).strs() == old(self).strs(),
    {
        let ghost s = self.text();
        let ghost j = self.cursor();
        let ghost p0 = *self;
        proof {
            self.lemma_inv();
            lemma_token_span(s, j);
        }
        let peek = self.peek();
        let ghost pp = *self;
        match peek.kind {
            Tok::RParen => {
                proof {
                    lemma_moved(&p0, &pp);
                }
                0
            },
            Tok::Comma => {
                self.advance();
                proof {
                    lemma_moved(&p0, &*self);
                }
                1
            },
            Tok::Identifier => {
                let mut msg = String::from_str("expected ");
                msg.append(Tok::Comma.as_str());
                msg.append(" after parameter");
                self.report(msg, peek.span);
                proof {
                    assert(msg@ =~= missing_comma_msg(" after parameter"@));
                    lemma_reported(&pp, &*self, (msg@, peek.span));
                    lemma_same_view(&p0, &pp, &*self, j, seq![(msg@, peek.span)]);
                }
                1
            },
            _ => {
                let msg = expect_msg(&[Tok::Comma, Tok::RParen], &peek.kind);
                self.report(msg, peek.span);
                proof {
                    assert([Tok::Comma, Tok::RParen]@ == seq![Tok::Comma, Tok::RParen]);
                    lemma_reported(&pp, &*self, (msg@, peek.span));
                    lemma_same_view(&p0, &pp, &*self, j, seq![(msg@, peek.span)]);
                }
                2
            },
        }
    }

    /// ParamList
    ///     = "(" (identifier ":" Type ",")* (identifier ":" Type)? ")"
    /// where a type may also be `...`. A missing comma before a parameter name is
    /// reported and the parameters go on.
    #[verifier::rlimit(60)]
    fn parse_param_list(&mut self) -> (r: Result<Vec<Param>, ()>)
        requires
            old(self).inv(),
        ensures
            old(self).stepped(
                &*final(self),
                parse_param_list_at(old(self).text(), old(self).cursor()).end,
                parse_param_list_at(old(self).text(), old(self).cursor()).reports,
            ),
            parse_param_list_at(old(self).text(), old(self).cursor()).value matches Some(ts) ==> (
            r matches Ok(v) && v@.len() == ts.len() && forall|k: int|
                0 <= k < v@.len() ==> final(self).syntax().param_wf(#[trigger] v@[k])
                    && param_tree(&final(self).syntax(), final(self).strs(), v@[k]) == ts[k]),
            r matches Ok(v) ==> v@.len() <= final(self).cursor() - old(self).cursor(),
            parse_param_list_at(old(self).text(), old(self).cursor()).value is None ==> r is Err,
            frames(&old(self).syntax(), &final(self).syntax(), 3, 9),
    {
        reveal(parse_param_list_at);
        reveal(params_rest);
        let ghost s = self.text();
        let ghost i = self.cursor();
        let ghost p0 = *self;
        proof {
            self.lemma_inv();
            lemma_token_span(s, i);
        }
        match self.expect_tokens(&[Tok::LParen]) {
            Ok(_) => {},
            Err(()) => {
                proof {
                    assert([Tok::LParen]@ == seq![Tok::LParen]);
                    lemma_reported(&p0, &*self, expect_report(s, i, Tok::LParen));
                }
                return Err(());
            },
        }
        let ghost p1 = *self;
        let ghost a0 = self.cursor();
        proof {
            assert([Tok::LParen]@ == seq![Tok::LParen]);
            lemma_moved(&p0, &p1);
            lemma_moved(&p1, &p1);
            lemma_lex(s, i);
            let r0 = parse_param_list_at(s, i).reports;
        }
        let mut params: Vec<Param> = Vec::new();
        let ghost mut trees: Seq<ParamTree> = Seq::empty();
        let ghost mut areps: Seq<Report> = Seq::empty();
        let mut failed = false;
        loop
            invariant_except_break
                !failed,
                parse_param_list_at(s, i) == params_rest(s, self.cursor(), trees, areps),
            invariant
                p0.inv(),
                p1.inv(),
                self.text() == s,
                old(self).text() == s,
                p0 == *old(self),
                old(self).cursor() == i,
                p0.stepped(&p1, a0, Seq::empty()),
                i < a0,
                p1.stepped(&*self, self.cursor(), areps),
                a0 <= self.cursor() <= s.len(),
                params@.len() == trees.len(),
                params@.len() <= self.cursor() - a0,
                frames(&p1.syntax(), &self.syntax(), 3, 9),
                forall|k: int|
                    0 <= k < params@.len() ==> self.syntax().param_wf(#[trigger] params@[k])
                        && param_tree(&self.syntax(), self.strs(), params@[k]) == trees[k],
            ensures
                failed ==> parse_param_list_at(s, i) == failure::<Seq<ParamTree>>(
                    self.cursor(),
                    areps,
                ),
                !failed ==> self.cursor() < s.len() && kind_at(s, self.cursor()) == Tok::RParen
                    && parse_param_list_at(s, i) == success(trees, next_pos(s, self.cursor()), areps),
            decreases s.len() - self.cursor(),
        {
            reveal(params_rest);
            reveal(param_at);
            let ghost pl = *self;
            let ghost c = self.cursor();
            proof {
                self.lemma_inv();
                lemma_token_span(s, c);
            }
            let kind = self.peek().kind;
            let ghost pq = *self;
            proof {
                lemma_same_end(&p1, &pl, &pq, c, areps);
            }
            if kind == Tok::RParen {
                proof {
                    assert(areps + Seq::<Report>::empty() =~= areps);
                }
                break;
            }
            let ghost pt = param_at(s, c);
            let p = match self.parse_param() {
                Ok(p) => p,
                Err(()) => {
                    proof {
                        lemma_stepped_trans(&p1, &pq, &*self, c, areps, pt.end, pt.reports);
                        self.lemma_inv();
                        assert forall|k: int| 0 <= k < params@.len() implies self.syntax().param_wf(
                            #[trigger] params@[k],
                        ) && param_tree(&self.syntax(), self.strs(), params@[k]) == trees[k] by {
                            lemma_param_kept(&pq, &*self, params@[k]);
                        }
                        areps = areps + pt.reports;
                    }
                    failed = true;
                    break;
                },
            };
            let ghost pr = *self;
            proof {
                lemma_stepped_trans(&p1, &pq, &pr, c, areps, pt.end, pt.reports);
                pr.lemma_inv();
                lemma_token_span(s, pt.end);
                assert forall|k: int| 0 <= k < params@.len() implies pr.syntax().param_wf(
                    #[trigger] params@[k],
                ) && param_tree(&pr.syntax(), pr.strs(), params@[k]) == trees[k] by {
                    lemma_param_kept(&pq, &pr, params@[k]);
                }
            }
            params.push(p);
            proof {
                trees = trees.push(pt.value->0);
            }
            let ghost out = after_param_at(s, pt.end);
            let o = self.after_param();
            proof {
                lemma_stepped_trans(&p1, &pr, &*self, pt.end, areps + pt.reports, out.1, out.2);
                self.lemma_inv();
                assert forall|k: int| 0 <= k < params@.len() implies self.syntax().param_wf(
                    #[trigger] params@[k],
                ) && param_tree(&self.syntax(), self.strs(), params@[k]) == trees[k] by {}
            }
            if o == 0 {
                proof {
                    assert(areps + pt.reports + out.2 =~= areps + pt.reports);
                    areps = areps + pt.reports;
                }
                break;
            } else if o == 2 {
                proof {
                    areps = areps + pt.reports + out.2;
                }
                failed = true;
                break;
            } else {
                proof {
                    areps = areps + pt.reports + out.2;
                }
            }
        }
        if failed {
            proof {
                lemma_stepped_trans(&p0, &p1, &*self, a0, Seq::empty(), self.cursor(), areps);
                assert(Seq::<Report>::empty() + areps =~= areps);
            }
            return Err(());
        }
        let ghost pz = *self;
        let ghost z = self.cursor();
        proof {
            self.lemma_inv();
            lemma_token_span(s, z);
        }
        self.advance();
        proof {
            lemma_moved(&pz, &*self);
            lemma_stepped_trans(&p1, &pz, &*self, z, areps, self.cursor(), Seq::empty());
            assert(areps + Seq::<Report>::empty() =~= areps);
            lemma_stepped_trans(&p0, &p1, &*self, a0, Seq::empty(), self.cursor(), areps);
            assert(Seq::<Report>::empty() + areps =~= areps);
        }
        Ok(params)
    }
}

impl<'a> Parser<'a> {
    /// Adds the nodes of a function whose parts were parsed: its name, whose text
    /// lies between character positions `a` and `b`, its parameters, its return type
    /// and its body; `ft` is the tree they make.
    #[verifier::rlimit(60)]
    fn build_fun(
        &mut self,
        span: Span,
        Ghost(a): Ghost<int>,
        Ghost(b): Ghost<int>,
        params: Vec<Param>,
        ret_type: Option<TypeId>,
        body: Option<Vec<StmtId>>,
        Ghost(ft): Ghost<FunTree>,
    ) -> (r: ItemId)
        requires
            old(self).inv(),
            0 <= a <= b <= old(self).text().len(),
            span.start == byte_offset(old(self).text(), a),
            span.end == byte_offset(old(self).text(), b),
            ft.name == old(self).text().subrange(a, b),
            params@.len() == ft.params.len(),
            forall|k: int|
                0 <= k < params@.len() ==> old(self).syntax().param_wf(#[trigger] params@[k])
                    && param_tree(&old(self).syntax(), old(self).strs(), params@[k]) == ft.params[k],
            ret_type is Some <==> ft.ret_type is Some,
            ret_type matches Some(t) ==> old(self).syntax().types.contains_id(t) && type_tree(
                &old(self).syntax(),
                old(self).strs(),
                t,
            ) == ft.ret_type->0,
            body is Some <==> ft.body is Some,
            body matches Some(v) ==> v@.len() == ft.body->0.len() && forall|k: int|
                0 <= k < v@.len() ==> old(self).syntax().stmts.contains_id(#[trigger] v@[k])
                    && stmt_tree(&old(self).syntax(), old(self).strs(), v@[k]) == ft.body->0[k],
            old(self).syntax().idents@.len() + 1 <= old(self).cursor(),
            old(self).string_room(),
            old(self).syntax().params@.len() + params@.len() <= old(self).cursor(),
            body matches Some(v) ==> old(self).syntax().stmts_lists@.len() + v@.len() <= old(
                self,
            ).cursor(),
            old(self).syntax().items@.len() + 1 <= old(self).cursor(),
        ensures
            final(self).inv(),
            final(self).same_run(&*old(self)),
            final(self).cursor() == old(self).cursor(),
            final(self).reports() == old(self).reports(),
            ast_extends(&old(self).syntax(), &final(self).syntax()),
            strs_extend(old(self).strs(), final(self).strs()),
            final(self).strs().len() <= old(self).strs().len() + 1,
            forall|k: int|
                0 <= k < 12 && k != 4 && k != 7 && k != 8 && k != 9 ==> #[trigger] lens(
                    &final(self).syntax(),
                )[k] == lens(&old(self).syntax())[k],
            lens(&final(self).syntax())[4] == lens(&old(self).syntax())[4] + (if body is Some {
                body->0@.len() as int
            } else {
                0int
            }),
            lens(&final(self).syntax())[7] == lens(&old(self).syntax())[7] + 1,
            lens(&final(self).syntax())[8] == lens(&old(self).syntax())[8] + params@.len(),
            lens(&final(self).syntax())[9] == lens(&old(self).syntax())[9] + 1,
            r.value() == old(self).syntax().items@.len(),
            final(self).syntax().items@.len() == old(self).syntax().items@.len() + 1,
            final(self).syntax().items@.last() matches Item::Fun(f) && final(self).syntax().fun_wf(f)
                && fun_tree(&final(self).syntax(), final(self).strs(), f) == ft,
    {
        let ghost p5 = *self;
        let ghost pv = params@;
        let ghost bv = if body is Some {
            body->0@
        } else {
            Seq::<StmtId>::empty()
        };
        let ident = self.slice_ident(span, Ghost(a), Ghost(b));
        let ghost p6 = *self;
        proof {
            assert forall|k: int| 0 <= k < pv.len() implies p6.syntax().param_wf(#[trigger] pv[k])
                && param_tree(&p6.syntax(), p6.strs(), pv[k]) == ft.params[k] by {
                lemma_param_kept(&p5, &p6, pv[k]);
            }
            assert forall|k: int| 0 <= k < bv.len() implies p6.syntax().stmts.contains_id(
                #[trigger] bv[k],
            ) && stmt_tree(&p6.syntax(), p6.strs(), bv[k]) == ft.body->0[k] by {
                lemma_stmt_kept(&p5, &p6, bv[k]);
            }
            if let Some(t) = ret_type {
                lemma_type_kept(&p5, &p6, t);
            }
        }
        let prange = self.add_params(params);
        let ghost p7 = *self;
        proof {
            assert forall|k: int| 0 <= k < pv.len() implies param_tree(
                &p7.syntax(),
                p7.strs(),
                #[trigger] pv[k],
            ) == ft.params[k] by {
                lemma_param_kept(&p6, &p7, pv[k]);
            }
            assert forall|k: int| 0 <= k < bv.len() implies p7.syntax().stmts.contains_id(
                #[trigger] bv[k],
            ) && stmt_tree(&p7.syntax(), p7.strs(), bv[k]) == ft.body->0[k] by {
                lemma_stmt_kept(&p6, &p7, bv[k]);
            }
            if let Some(t) = ret_type {
                lemma_type_kept(&p6, &p7, t);
            }
            assert(p7.syntax().idents@[ident.value() as int] == p6.syntax().idents@[ident.value() as int]) by {
                reveal(ast_extends);
            }
        }
        let brange = match body {
            Some(v) => Some(self.add_stmt_list(v)),
            None => None,
        };
        let ghost p8 = *self;
        proof {
            assert(ast_extends(&p7.syntax(), &p8.syntax())) by {
                if brange is None {
                    lemma_extends_refl(&p7.syntax());
                }
            }
            assert forall|k: int| 0 <= k < pv.len() implies param_tree(
                &p8.syntax(),
                p8.strs(),
                #[trigger] pv[k],
            ) == ft.params[k] by {
                lemma_param_kept(&p7, &p8, pv[k]);
            }
            assert forall|k: int| 0 <= k < bv.len() implies stmt_tree(
                &p8.syntax(),
                p8.strs(),
                #[trigger] bv[k],
            ) == ft.body->0[k] by {
                lemma_stmt_kept(&p7, &p8, bv[k]);
            }
            if let Some(t) = ret_type {
                lemma_type_kept(&p7, &p8, t);
            }
            assert(p8.syntax().idents@[ident.value() as int] == p7.syntax().idents@[ident.value() as int]) by {
                reveal(ast_extends);
            }
            assert(p8.syntax().params@ == p7.syntax().params@) by {
                reveal(ast_extends);
                assert(p8.syntax().params@ =~= p7.syntax().params@);
            }
        }
        let f = Fun { ident, params: prange, ret_type, body: brange };
        let id = self.add_item(f);
        proof {
            assert(self.syntax().params@ == p8.syntax().params@) by {
                reveal(ast_extends);
                assert(self.syntax().params@ =~= p8.syntax().params@);
            }
            assert(self.syntax().stmts_lists@ == p8.syntax().stmts_lists@) by {
                reveal(ast_extends);
                assert(self.syntax().stmts_lists@ =~= p8.syntax().stmts_lists@);
            }
            assert(self.syntax().idents@[ident.value() as int] == p8.syntax().idents@[ident.value() as int]) by {
                reveal(ast_extends);
            }
            assert forall|k: int| 0 <= k < pv.len() implies param_tree(
                &self.syntax(),
                self.strs(),
                #[trigger] pv[k],
            ) == ft.params[k] by {
                lemma_param_kept(&p8, &*self, pv[k]);
            }
            assert forall|k: int| 0 <= k < bv.len() implies stmt_tree(
                &self.syntax(),
                self.strs(),
                #[trigger] bv[k],
            ) == ft.body->0[k] by {
                lemma_stmt_kept(&p8, &*self, bv[k]);
            }
            if let Some(t) = ret_type {
                lemma_type_kept(&p8, &*self, t);
            }
            let pr = self.syntax().params@.subrange(prange.start() as int, prange.end() as int);
            assert(pr =~= pv);
            assert(Seq::new(pr.len(), |k: int| param_tree(&self.syntax(), self.strs(), pr[k]))
                =~= ft.params);
            if let Some(br) = brange {
                let sl = self.syntax().stmts_lists@.subrange(br.start() as int, br.end() as int);
                assert(sl =~= bv);
                assert(stmt_trees(&self.syntax(), self.strs(), sl) =~= ft.body->0);
            }
            lemma_extends_trans(&p5.syntax(), &p6.syntax(), &p7.syntax());
            lemma_extends_trans(&p5.syntax(), &p7.syntax(), &p8.syntax());
            lemma_extends_trans(&p5.syntax(), &p8.syntax(), &self.syntax());
        }
        id
    }
}

impl<'a> Parser<'a> {
    /// Fun
    ///     = "fun" identifier ParamList (":" Type)? (Block | ";")
    #[verifier::rlimit(100)]
    pub fn parse_fun(&mut self) -> (r: Result<ItemId, ()>)
        requires
            old(self).inv(),
        ensures
            old(self).stepped(
                &*final(self),
                parse_fun_at(old(self).text(), old(self).cursor()).end,
                parse_fun_at(old(self).text(), old(self).cursor()).reports,
            ),
            parse_fun_at(old(self).text(), old(self).cursor()).value matches Some(ft) ==> {
                &&& r matches Ok(id) && id.value() == old(self).syntax().items@.len()
                &&& final(self).syntax().items@.len() == old(self).syntax().items@.len() + 1
                &&& final(self).syntax().items@.last() matches Item::Fun(f) && final(self).syntax().fun_wf(f) && fun_tree(&final(self).syntax(), final(self).strs(), f)
                    == ft
                &&& parse_fun_at(old(self).text(), old(self).cursor()).end > old(self).cursor()
            },
            parse_fun_at(old(self).text(), old(self).cursor()).value is None ==> r is Err
                && final(self).syntax().items@.len() == old(self).syntax().items@.len(),
            kind_at(old(self).text(), old(self).cursor()) == Tok::Fun ==> final(self).cursor()
                > old(self).cursor(),
    {
        reveal(parse_fun_at);
        let ghost s = self.text();
        let ghost i = self.cursor();
        let ghost p0 = *self;
        proof {
            self.lemma_inv();
            lemma_token_span(s, i);
        }
        match self.expect_tokens(&[Tok::Fun]) {
            Ok(_) => {},
            Err(()) => {
                proof {
                    assert([Tok::Fun]@ == seq![Tok::Fun]);
                    lemma_reported(&p0, &*self, expect_report(s, i, Tok::Fun));
                }
                return Err(());
            },
        }
        let ghost p1 = *self;
        let ghost j1 = self.cursor();
        proof {
            assert([Tok::Fun]@ == seq![Tok::Fun]);
            lemma_lex(s, i);
            assert(j1 > i);
            lemma_moved(&p0, &p1);
            self.lemma_inv();
            lemma_token_span(s, j1);
        }
        let ident_tok = match self.expect_tokens(&[Tok::Identifier]) {
            Ok(t) => t,
            Err(()) => {
                proof {
                    assert([Tok::Identifier]@ == seq![Tok::Identifier]);
                    let m = expect_report(s, j1, Tok::Identifier);
                    lemma_reported(&p1, &*self, m);
                    lemma_stepped_trans(&p0, &p1, &*self, j1, Seq::empty(), j1, seq![m]);
                    assert(Seq::<Report>::empty() + seq![m] =~= seq![m]);
                }
                return Err(());
            },
        };
        let ghost p2 = *self;
        let ghost ja = self.cursor();
        proof {
            assert([Tok::Identifier]@ == seq![Tok::Identifier]);
            lemma_moved(&p1, &p2);
            lemma_stepped_trans(&p0, &p1, &p2, j1, Seq::empty(), ja, Seq::empty());
            assert(Seq::<Report>::empty() + Seq::<Report>::empty() =~= Seq::<Report>::empty());
            lemma_lex(s, i);
            lemma_lex(s, j1);
        }
        let ghost ps = parse_param_list_at(s, ja);
        let params = match self.parse_param_list() {
            Ok(v) => v,
            Err(()) => {
                proof {
                    lemma_stepped_trans(&p0, &p2, &*self, ja, Seq::empty(), ps.end, ps.reports);
                    assert(Seq::<Report>::empty() + ps.reports =~= ps.reports);
                    lemma_stepped_basics(&p2, &*self, ps.end, ps.reports);
                    assert(lens(&self.syntax())[7] == lens(&p2.syntax())[7]);
                }
                return Err(());
            },
        };
        let ghost p3 = *self;
        let ghost j2 = self.cursor();
        proof {
            lemma_stepped_trans(&p0, &p2, &p3, ja, Seq::empty(), j2, ps.reports);
            assert(Seq::<Report>::empty() + ps.reports =~= ps.reports);
            self.lemma_inv();
            lemma_token_span(s, j2);
        }
        let ghost tq = if kind_at(s, j2) == Tok::Colon {
            parse_type_at(s, next_pos(s, j2))
        } else {
            success(TypeTree::Named { name: Seq::empty(), span: span_at(s, j2) }, j2, Seq::empty())
        };
        let ret_type = if self.match_tok(Tok::Colon) {
            let ghost pc = *self;
            match self.parse_type() {
                Ok(t) => {
                    proof {
                        lemma_stepped_trans(&p3, &pc, &*self, pc.cursor(), Seq::empty(), tq.end,
                            tq.reports);
                        assert(Seq::<Report>::empty() + tq.reports =~= tq.reports);
                    }
                    Some(t)
                },
                Err(()) => {
                    proof {
                        lemma_stepped_trans(&p3, &pc, &*self, pc.cursor(), Seq::empty(), tq.end,
                            tq.reports);
                        assert(Seq::<Report>::empty() + tq.reports =~= tq.reports);
                        lemma_stepped_trans(&p0, &p3, &*self, j2, ps.reports, tq.end, tq.reports);
                        assert(lens(&self.syntax())[7] == lens(&p0.syntax())[7]);
                    }
                    return Err(());
                },
            }
        } else {
            None
        };
        let ghost p4 = *self;
        let ghost j3 = self.cursor();
        proof {
            lemma_stepped_trans(&p0, &p3, &p4, j2, ps.reports, j3, tq.reports);
            self.lemma_inv();
            lemma_token_span(s, j3);
            if let Some(t) = ret_type {
                assert(p4.syntax().types.contains_id(t));
            }
            assert forall|k: int| 0 <= k < params@.len() implies p4.syntax().param_wf(
                #[trigger] params@[k],
            ) && param_tree(&p4.syntax(), p4.strs(), params@[k]) == ps.value->0[k] by {
                lemma_param_kept(&p3, &p4, params@[k]);
            }
        }
        let ghost reps = ps.reports + tq.reports;
        let ghost bq = parse_block_at(s, j3);
        let body = if self.match_tok(Tok::Semicolon) {
            None
        } else {
            let ghost pb = *self;
            match self.parse_block() {
                Ok(v) => {
                    proof {
                        lemma_stepped_trans(&p4, &pb, &*self, j3, Seq::empty(), bq.end, bq.reports);
                        assert(Seq::<Report>::empty() + bq.reports =~= bq.reports);
                    }
                    Some(v)
                },
                Err(()) => {
                    proof {
                        lemma_stepped_trans(&p4, &pb, &*self, j3, Seq::empty(), bq.end, bq.reports);
                        assert(Seq::<Report>::empty() + bq.reports =~= bq.reports);
                        lemma_stepped_trans(&p0, &p4, &*self, j3, reps, bq.end, bq.reports);
                        assert(lens(&self.syntax())[7] == lens(&p0.syntax())[7]);
                    }
                    return Err(());
                },
            }
        };
        let ghost p5 = *self;
        let ghost e = self.cursor();
        let ghost breps = if kind_at(s, j3) == Tok::Semicolon {
            Seq::<Report>::empty()
        } else {
            bq.reports
        };
        proof {
            if kind_at(s, j3) == Tok::Semicolon {
                lemma_stepped_trans(&p0, &p4, &p5, j3, reps, e, Seq::empty());
            } else {
                lemma_stepped_trans(&p0, &p4, &p5, j3, reps, e, bq.reports);
            }
            assert(reps + Seq::<Report>::empty() =~= reps);
            self.lemma_inv();
            p0.lemma_inv();
            lemma_stepped_basics(&p4, &p5, e, breps);
            assert forall|k: int| 0 <= k < params@.len() implies p5.syntax().param_wf(
                #[trigger] params@[k],
            ) && param_tree(&p5.syntax(), p5.strs(), params@[k]) == ps.value->0[k] by {
                lemma_param_kept(&p4, &p5, params@[k]);
            }
            if let Some(t) = ret_type {
                lemma_type_kept(&p4, &p5, t);
            }
            lemma_stepped_trans(&p2, &p3, &p4, j2, ps.reports, j3, tq.reports);
            lemma_stepped_trans(&p2, &p4, &p5, j3, ps.reports + tq.reports, e, breps);
            assert(lens(&p5.syntax())[7] == lens(&p0.syntax())[7]);
            assert(lens(&p5.syntax())[8] == lens(&p0.syntax())[8]);
            assert(lens(&p5.syntax())[4] == lens(&p0.syntax())[4]);
        }
        let ghost ft = parse_fun_at(s, i).value->0;
        proof {
            assert(ft.name == text_at(s, j1));
            lemma_lex(s, j1);
            lemma_stepped_lens(&p2, &p5, e, reps + breps, 9);
            reveal(Parser::inv);
            reveal(Parser::stepped);
            assert(p2.strs() == p0.strs());
            assert(self.string_room());
            assert(lens(&p2.syntax())[9] == lens(&p0.syntax())[9]);
        }
        let id = self.build_fun(ident_tok.span, Ghost(lex(s, j1).1), Ghost(lex(s, j1).2), params,
            ret_type, body, Ghost(ft));
        proof {
            assert forall|k: int| 0 <= k < 12 implies #[trigger] lens(&self.syntax())[k] <= lens(
                &p0.syntax(),
            )[k] + (e - i) by {
                lemma_stepped_lens(&p0, &p5, e, reps + breps, k);
                lemma_stepped_lens(&p2, &p5, e, ps.reports + tq.reports + breps, k);
            }
            lemma_grow_strs_step(&p0, &p5, &*self, e, reps + breps);
        }
        Ok(id)
    }
}

impl<'a> Parser<'a> {
    /// Item = Fun
    pub fn parse_item(&mut self) -> (r: Result<ItemId, ()>)
        requires
            old(self).inv(),
        ensures
            old(self).stepped(
                &*final(self),
                parse_item_at(old(self).text(), old(self).cursor()).end,
                parse_item_at(old(self).text(), old(self).cursor()).reports,
            ),
            parse_item_at(old(self).text(), old(self).cursor()).value matches Some(ft) ==> {
                &&& r matches Ok(id) && id.value() == old(self).syntax().items@.len()
                &&& final(self).syntax().items@.len() == old(self).syntax().items@.len() + 1
                &&& final(self).syntax().items@.last() matches Item::Fun(f) && final(self).syntax().fun_wf(f) && fun_tree(&final(self).syntax(), final(self).strs(), f)
                    == ft
                &&& parse_item_at(old(self).text(), old(self).cursor()).end > old(self).cursor()
            },
            parse_item_at(old(self).text(), old(self).cursor()).value is None ==> r is Err
                && final(self).syntax().items@.len() == old(self).syntax().items@.len(),
            kind_at(old(self).text(), old(self).cursor()) == Tok::Fun ==> final(self).cursor()
                > old(self).cursor(),
    {
        reveal(parse_item_at);
        let ghost s = self.text();
        let ghost i = self.cursor();
        let ghost p0 = *self;
        proof {
            self.lemma_inv();
            lemma_token_span(s, i);
        }
        let peek = self.peek();
        let ghost pp = *self;
        match peek.kind {
            Tok::Fun => {
                let r = self.parse_fun();
                proof {
                    let q = parse_fun_at(s, i);
                    lemma_same_view(&p0, &pp, &*self, q.end, q.reports);
                }
                r
            },
            _ => {
                let mut msg = String::from_str("expected an item, but found ");
                msg.append(peek.kind.as_str());
                self.report(msg, peek.span);
                proof {
                    lemma_reported(&pp, &*self, (msg@, peek.span));
                    lemma_same_view(&p0, &pp, &*self, i, seq![(msg@, peek.span)]);
                }
                Err(())
            },
        }
    }

    /// Skips to the next item: to a `fun` at the outer level, past the `}` that closes
    /// the outer level, or to the end of the text.
    fn find_next_item(&mut self)
        requires
            old(self).inv(),
        ensures
            old(self).stepped(
                &*final(self),
                skip_item_from(old(self).text(), old(self).cursor(), 0),
                Seq::empty(),
            ),
            final(self).syntax() == old(self).syntax(),
            kind_at(old(self).text(), old(self).cursor()) != Tok::Eof && kind_at(
                old(self).text(),
                old(self).cursor(),
            ) != Tok::Fun ==> old(self).cursor() < final(self).cursor(),
    {
        let ghost s = self.text();
        let ghost i = self.cursor();
        let ghost p0 = *self;
        let mut level: u32 = 0;
        proof {
            self.lemma_inv();
            lemma_moved(&p0, &p0);
        }
        loop
            invariant_except_break
                level <= self.cursor() - i,
                skip_item_from(s, i, 0) == skip_item_from(s, self.cursor(), level as nat),
                kind_at(s, i) != Tok::Eof && kind_at(s, i) != Tok::Fun && self.cursor() == i
                    ==> level == 0,
            invariant
                p0.inv(),
                self.text() == s,
                p0.stepped(&*self, self.cursor(), Seq::empty()),
                self.syntax() == p0.syntax(),
                0 <= i <= self.cursor() <= s.len(),
                s.len() < u32::MAX,
            ensures
                skip_item_from(s, i, 0) == self.cursor(),
                kind_at(s, i) != Tok::Eof && kind_at(s, i) != Tok::Fun ==> i < self.cursor(),
            decreases s.len() - self.cursor(),
        {
            reveal(skip_item_from);
            let ghost pl = *self;
            let ghost c = self.cursor();
            proof {
                self.lemma_inv();
                lemma_token_span(s, c);
            }
            let peek = self.peek();
            let ghost pp = *self;
            proof {
                lemma_same_end(&p0, &pl, &pp, c, Seq::empty());
                assert(level <= c - i);
            }
            match peek.kind {
                Tok::Fun => {
                    if level == 0 {
                        break;
                    }
                    self.advance();
                    proof {
                        lemma_moved(&pp, &*self);
                        lemma_stepped_trans(&p0, &pp, &*self, c, Seq::empty(), self.cursor(),
                            Seq::empty());
                        assert(Seq::<Report>::empty() + Seq::<Report>::empty() =~= Seq::<Report>::empty());
                    }
                },
                Tok::LBrace => {
                    self.advance();
                    proof {
                        lemma_moved(&pp, &*self);
                        lemma_stepped_trans(&p0, &pp, &*self, c, Seq::empty(), self.cursor(),
                            Seq::empty());
                        assert(Seq::<Report>::empty() + Seq::<Report>::empty() =~= Seq::<Report>::empty());
                    }
                    level = level + 1;
                },
                Tok::RBrace => {
                    self.advance();
                    proof {
                        lemma_moved(&pp, &*self);
                        lemma_stepped_trans(&p0, &pp, &*self, c, Seq::empty(), self.cursor(),
                            Seq::empty());
                        assert(Seq::<Report>::empty() + Seq::<Report>::empty() =~= Seq::<Report>::empty());
                    }
                    if level == 0 {
                        break;
                    }
                    level = level - 1;
                },
                Tok::Eof => {
                    break;
                },
                _ => {
                    self.advance();
                    proof {
                        lemma_moved(&pp, &*self);
                        lemma_stepped_trans(&p0, &pp, &*self, c, Seq::empty(), self.cursor(),
                            Seq::empty());
                        assert(Seq::<Report>::empty() + Seq::<Report>::empty() =~= Seq::<Report>::empty());
                    }
                },
            }
        }
    }

    /// Parses items up to the end of the text; an item that fails is skipped.
    #[verifier::rlimit(60)]
    pub fn parse(&mut self)
        requires
            old(self).inv(),
        ensures
            old(self).stepped(
                &*final(self),
                program_rest(old(self).text(), old(self).cursor(), Seq::empty(), Seq::empty()).end,
                program_rest(old(self).text(), old(self).cursor(), Seq::empty(), Seq::empty()).reports,
            ),
            final(self).syntax().items@.len() == old(self).syntax().items@.len() + program_rest(
                old(self).text(),
                old(self).cursor(),
                Seq::empty(),
                Seq::empty(),
            ).value->0.len(),
            forall|k: int|
                0 <= k < program_rest(old(self).text(), old(self).cursor(), Seq::empty(), Seq::empty()).value->0.len()
                    ==> (#[trigger] final(self).syntax().items@[old(self).syntax().items@.len() + k] matches Item::Fun(f)
                    && fun_tree(&final(self).syntax(), final(self).strs(), f) == program_rest(
                    old(self).text(),
                    old(self).cursor(),
                    Seq::empty(),
                    Seq::empty(),
                ).value->0[k]),
    {
        let ghost s = self.text();
        let ghost i = self.cursor();
        let ghost p0 = *self;
        let ghost n0 = self.syntax().items@.len() as int;
        let ghost mut funs: Seq<FunTree> = Seq::empty();
        let ghost mut areps: Seq<Report> = Seq::empty();
        proof {
            self.lemma_inv();
            lemma_moved(&p0, &p0);
        }
        loop
            invariant_except_break
                program_rest(s, i, Seq::empty(), Seq::empty()) == program_rest(
                    s,
                    self.cursor(),
                    funs,
                    areps,
                ),
            invariant
                p0.inv(),
                self.text() == s,
                old(self).text() == s,
                p0 == *old(self),
                old(self).cursor() == i,
                p0.stepped(&*self, self.cursor(), areps),
                i <= self.cursor() <= s.len(),
                n0 == p0.syntax().items@.len(),
                self.syntax().items@.len() == n0 + funs.len(),
                forall|k: int|
                    0 <= k < funs.len() ==> (#[trigger] self.syntax().items@[n0 + k] matches Item::Fun(
                        f,
                    ) && self.syntax().fun_wf(f) && fun_tree(&self.syntax(), self.strs(), f)
                        == funs[k]),
            ensures
                program_rest(s, i, Seq::empty(), Seq::empty()) == success(funs, self.cursor(), areps),
            decreases s.len() - self.cursor(),
        {
            reveal(program_rest);
            let ghost pl = *self;
            let ghost c = self.cursor();
            proof {
                self.lemma_inv();
                lemma_token_span(s, c);
            }
            let kind = self.peek().kind;
            let ghost pq = *self;
            proof {
                lemma_same_end(&p0, &pl, &pq, c, areps);
            }
            if kind == Tok::Eof {
                break;
            }
            let ghost it = parse_item_at(s, c);
            proof {
                assert(pq.syntax().items@.len() == n0 + funs.len());
            }
            match self.parse_item() {
                Ok(_) => {
                    proof {
                        let fs = funs;
                        lemma_stepped_trans(&p0, &pq, &*self, c, areps, it.end, it.reports);
                        lemma_stepped_basics(&pq, &*self, it.end, it.reports);
                        self.lemma_inv();
                        let pn = *self;
                        assert forall|k: int| 0 <= k < fs.len() implies (
                        #[trigger] pn.syntax().items@[n0 + k] matches Item::Fun(f)
                            && pn.syntax().fun_wf(f) && fun_tree(&pn.syntax(), pn.strs(), f)
                            == fs[k]) by {
                            assert(pq.syntax().items@.len() == n0 + fs.len());
                            lemma_item_kept(&pq.syntax(), &pn.syntax(), n0 + k);
                            let g = match pq.syntax().items@[n0 + k] {
                                Item::Fun(g) => g,
                            };
                            lemma_fun_kept(&pq, &pn, g);
                        }
                        funs = funs.push(it.value->0);
                        areps = areps + it.reports;
                    }
                },
                Err(()) => {
                    let ghost pe = *self;
                    proof {
                        lemma_stepped_trans(&p0, &pq, &pe, c, areps, it.end, it.reports);
                        lemma_stepped_basics(&pq, &pe, it.end, it.reports);
                        self.lemma_inv();
                    }
                    self.find_next_item();
                    proof {
                        lemma_stepped_trans(&p0, &pe, &*self, it.end, areps + it.reports,
                            self.cursor(), Seq::empty());
                        assert(areps + it.reports + Seq::<Report>::empty() =~= areps + it.reports);
                        self.lemma_inv();
                        let fs = funs;
                        let pn = *self;
                        lemma_stepped_trans(&pq, &pe, &pn, it.end, it.reports, pn.cursor(),
                            Seq::empty());
                        lemma_stepped_basics(&pq, &pn, pn.cursor(), it.reports + Seq::empty());
                        assert forall|k: int| 0 <= k < fs.len() implies (
                        #[trigger] pn.syntax().items@[n0 + k] matches Item::Fun(f)
                            && pn.syntax().fun_wf(f) && fun_tree(&pn.syntax(), pn.strs(), f)
                            == fs[k]) by {
                            let g = match pq.syntax().items@[n0 + k] {
                                Item::Fun(g) => g,
                            };
                            assert(pq.syntax().items@.len() == n0 + fs.len());
                            lemma_item_kept(&pq.syntax(), &pn.syntax(), n0 + k);
                            lemma_fun_kept(&pq, &pn, g);
                        }
                        areps = areps + it.reports;
                    }
                },
            }
        }
    }
}

/// A parser state that only moved its cursor forward is a step without reports.
pub proof fn lemma_moved<'a>(a: &Parser<'a>, b: &Parser<'a>)
    requires
        a.inv(),
        b.inv(),
        b.same_run(a),
        a.cursor() <= b.cursor(),
        b.syntax() == a.syntax(),
        b.strs() == a.strs(),
        b.reports() == a.reports(),
    ensures
        a.stepped(b, b.cursor(), Seq::empty()),
{
    reveal(Parser::stepped);
    lemma_extends_refl(&a.syntax());
    assert(a.strs() =~= a.strs().take(a.strs().len() as int));
}

/// What a step says of the new state, without the growth of the AST.
pub proof fn lemma_stepped_basics<'a>(a: &Parser<'a>, b: &Parser<'a>, e: int, r: Seq<Report>)
    requires
        a.stepped(b, e, r),
    ensures
        b.inv(),
        b.same_run(a),
        b.cursor() == e,
        a.cursor() <= e,
        b.reports() == add_reports(a.reports(), r),
        ast_extends(&a.syntax(), &b.syntax()),
        strs_extend(a.strs(), b.strs()),
{
    reveal(Parser::stepped);
}

/// How much arena `k` grew in a step.
pub proof fn lemma_stepped_lens<'a>(a: &Parser<'a>, b: &Parser<'a>, e: int, r: Seq<Report>, k: int)
    requires
        a.stepped(b, e, r),
        0 <= k < 12,
    ensures
        lens(&b.syntax())[k] <= lens(&a.syntax())[k] + (e - a.cursor()),
{
    reveal(Parser::stepped);
}


impl<'a> Parser<'a> {
    /// Moves past the next token if its kind is one of `expected`, giving it;
    /// otherwise reports what was expected.
    fn expect_tokens(&mut self, expected: &[Tok]) -> (r: Result<Token, ()>)
        requires
            old(self).inv(),
        ensures
            final(self).inv(),
            final(self).same_run(&*old(self)),
            final(self).syntax() == old(self).syntax(),
            final(self).strs() == old(self).strs(),
            expected@.contains(kind_at(old(self).text(), old(self).cursor())) ==> {
                &&& r == Ok::<Token, ()>(token_at(old(self).text(), old(self).cursor()))
                &&& final(self).cursor() == next_pos(old(self).text(), old(self).cursor())
                &&& final(self).reports() == old(self).reports()
            },
            !expected@.contains(kind_at(old(self).text(), old(self).cursor())) ==> {
                &&& r is Err
                &&& final(self).cursor() == old(self).cursor()
                &&& final(self).reports() == add_report(
                    old(self).reports(),
                    (
                        expect_msg_spec(expected@, kind_at(old(self).text(), old(self).cursor())),
                        span_at(old(self).text(), old(self).cursor()),
                    ),
                )
            },
            old(self).cursor() <= final(self).cursor() <= old(self).text().len(),
    {
        reveal(Parser::inv);
        proof {
            self.lemma_inv();
        }
        let peek = self.peek();
        let mut found = false;
        let mut k: usize = 0;
        while k < expected.len()
            invariant
                k <= expected@.len(),
                found == exists|j: int| 0 <= j < k && expected@[j] == peek.kind,
            decreases expected.len() - k,
        {
            if expected[k] == peek.kind {
                found = true;
            }
            k = k + 1;
        }
        proof {
            if found {
                let j = choose|j: int| 0 <= j < k && expected@[j] == peek.kind;
                assert(expected@.contains(peek.kind));
            } else {
                assert forall|j: int| 0 <= j < expected@.len() implies expected@[j] != peek.kind by {}
            }
        }
        if found {
            Ok(self.advance())
        } else {
            let msg = expect_msg(expected, &peek.kind);
            self.report(msg, peek.span);
            Err(())
        }
    }

    /// Adds the ids `ids` to the list arena; they must name expressions, and the
    /// consumed text must leave room for them.
    fn add_expr_list(&mut self, ids: Vec<ExprId>) -> (r: ArenaRange<ExprId>)
        requires
            old(self).inv(),
            forall|k: int| 0 <= k < ids@.len() ==> old(self).syntax().exprs.contains_id(#[trigger] ids@[k]),
            old(self).syntax().exprs_lists@.len() + ids@.len() <= old(self).cursor(),
        ensures
            final(self).inv(),
            final(self).same_run(&*old(self)),
            final(self).cursor() == old(self).cursor(),
            final(self).strs() == old(self).strs(),
            final(self).reports() == old(self).reports(),
            final(self).syntax().exprs_lists@ == old(self).syntax().exprs_lists@ + ids@,
            ast_extends(&old(self).syntax(), &final(self).syntax()),
            lens(&final(self).syntax()) == lens(&old(self).syntax()).update(
                1,
                lens(&old(self).syntax())[1] + ids@.len(),
            ),
            r.start() == old(self).syntax().exprs_lists@.len(),
            r.end() == final(self).syntax().exprs_lists@.len(),
    {
        reveal(Parser::inv);
        reveal(ast_extends);
        proof {
            self.lemma_inv();
        }
        let ghost a = self.ast;
        let ghost v = ids@;
        let r = self.ast.exprs_lists.alloc_iter(ids);
        proof {
            lemma_extends_refl(&a);
            assert(self.ast.exprs_lists@.take(a.exprs_lists@.len() as int) =~= a.exprs_lists@);
            assert(lens(&self.ast) =~= lens(&a).update(1, lens(&a)[1] + v.len()));
            assert forall|i: int| 0 <= i < self.ast.exprs_lists@.len() implies self.ast.exprs.contains_id(
                #[trigger] self.ast.exprs_lists@[i],
            ) by {
                if i < a.exprs_lists@.len() {
                    assert(a.exprs.contains_id(a.exprs_lists@[i]));
                } else {
                    assert(self.ast.exprs_lists@[i] == v[i - a.exprs_lists@.len()]);
                }
            }
            assert forall|i: int| 0 <= i < self.ast.exprs@.len() implies self.ast.expr_wf(
                #[trigger] self.ast.exprs@[i],
                i,
            ) by {
                assert(a.expr_wf(a.exprs@[i], i));
                match a.exprs@[i].kind {
                    ExprKind::Call { args, .. } => {
                        assert forall|k: int| args.start() <= k < args.end() implies (
                        #[trigger] self.ast.exprs_lists@[k]).value() < i by {
                            assert(self.ast.exprs_lists@[k] == a.exprs_lists@[k]);
                        }
                    },
                    _ => {},
                }
            }
        }
        r
    }
}

/// The trees of a list of expressions that all come before `bound`.
pub proof fn lemma_expr_trees_all(a: &Ast, strs: Seq<Seq<char>>, ids: Seq<ExprId>, bound: int)
    requires
        forall|k: int| 0 <= k < ids.len() ==> 0 <= (#[trigger] ids[k]).value() < bound,
    ensures
        expr_trees(a, strs, ids, bound) == Seq::new(ids.len(), |k: int| expr_tree(a, strs, ids[k])),
    decreases ids.len(),
{
    reveal(expr_trees);
    reveal(expr_tree);
    if ids.len() > 0 {
        assert(0 <= ids[0].value() < bound);
        let rest = ids.drop_first();
        assert forall|k: int| 0 <= k < rest.len() implies 0 <= (#[trigger] rest[k]).value() < bound by {
            assert(rest[k] == ids[k + 1]);
        }
        lemma_expr_trees_all(a, strs, rest, bound);
        assert(expr_trees(a, strs, ids, bound) =~= Seq::new(
            ids.len(),
            |k: int| expr_tree(a, strs, ids[k]),
        ));
    } else {
        assert(expr_trees(a, strs, ids, bound) =~= Seq::new(
            ids.len(),
            |k: int| expr_tree(a, strs, ids[k]),
        ));
    }
}

/// Two parser states that show the same AST, strings, reports and position step alike.
pub proof fn lemma_same_view<'a>(a: &Parser<'a>, b: &Parser<'a>, c: &Parser<'a>, e: int, r: Seq<Report>)
    requires
        b.same_run(a),
        b.cursor() == a.cursor(),
        b.syntax() == a.syntax(),
        b.strs() == a.strs(),
        b.reports() == a.reports(),
        b.stepped(c, e, r),
    ensures
        a.stepped(c, e, r),
{
    reveal(Parser::stepped);
}

/// Adding one node, of arena `k`, after a step keeps it a step when the step left room.
pub proof fn lemma_node_step<'a>(
    p0: &Parser<'a>,
    pm: &Parser<'a>,
    pf: &Parser<'a>,
    k: int,
    n: int,
    e: int,
    reps: Seq<Report>,
)
    requires
        p0.stepped(pm, e, reps),
        pf.inv(),
        pf.same_run(pm),
        pf.cursor() == pm.cursor(),
        pf.strs() == pm.strs(),
        pf.reports() == pm.reports(),
        ast_extends(&pm.syntax(), &pf.syntax()),
        0 <= k < 12,
        0 <= n,
        lens(&pf.syntax()) == lens(&pm.syntax()).update(k, lens(&pm.syntax())[k] + n),
        lens(&pm.syntax())[k] + n <= lens(&p0.syntax())[k] + (e - p0.cursor()),
    ensures
        p0.stepped(pf, e, reps),
{
    reveal(Parser::stepped);
    lemma_extends_trans(&p0.syntax(), &pm.syntax(), &pf.syntax());
    assert forall|j: int| 0 <= j < 12 implies #[trigger] lens(&pf.syntax())[j] <= lens(
        &p0.syntax(),
    )[j] + (e - p0.cursor()) by {
        assert(lens(&pm.syntax())[j] <= lens(&p0.syntax())[j] + (e - p0.cursor()));
    }
}

/// A step, a token consumed, and a step make a step whose reports are those of the two.
pub proof fn lemma_stepped_around<'a>(
    p0: &Parser<'a>,
    p1: &Parser<'a>,
    p2: &Parser<'a>,
    p3: &Parser<'a>,
    r1: Seq<Report>,
    r2: Seq<Report>,
)
    requires
        p0.stepped(p1, p1.cursor(), r1),
        p1.inv(),
        p2.inv(),
        p2.same_run(p1),
        p1.cursor() <= p2.cursor(),
        p2.syntax() == p1.syntax(),
        p2.strs() == p1.strs(),
        p2.reports() == p1.reports(),
        p2.stepped(p3, p3.cursor(), r2),
    ensures
        p0.stepped(p3, p3.cursor(), r1 + r2),
        lens(&p3.syntax()) == lens(&p3.syntax()),
{
    reveal(Parser::stepped);
    lemma_moved(p1, p2);
    lemma_stepped_trans(p0, p1, p2, p1.cursor(), r1, p2.cursor(), Seq::empty());
    assert(r1 + Seq::<Report>::empty() =~= r1);
    lemma_stepped_trans(p0, p2, p3, p2.cursor(), r1, p3.cursor(), r2);
}

/// A parser state that only added a report is a step that made it.
pub proof fn lemma_reported<'a>(a: &Parser<'a>, b: &Parser<'a>, m: Report)
    requires
        a.inv(),
        b.inv(),
        b.same_run(a),
        a.cursor() == b.cursor(),
        b.syntax() == a.syntax(),
        b.strs() == a.strs(),
        b.reports() == add_report(a.reports(), m),
    ensures
        a.stepped(b, a.cursor(), seq![m]),
{
    reveal(Parser::stepped);
    lemma_extends_refl(&a.syntax());
    assert(a.strs() =~= a.strs().take(a.strs().len() as int));
    lemma_add_reports_single(a.reports(), m);
}

/// The span of a type's tree is the span of its node.
pub proof fn lemma_type_tree_span(a: &Ast, strs: Seq<Seq<char>>, id: TypeId)
    ensures
        type_tree(a, strs, id).span() == a.types@[id.value() as int].span,
{
    reveal(type_tree);
}

/// The span of an expression's tree is the span of its node.
pub proof fn lemma_expr_tree_span(a: &Ast, strs: Seq<Seq<char>>, id: ExprId)
    ensures
        expr_tree(a, strs, id).span() == a.exprs@[id.value() as int].span,
{
    reveal(expr_tree);
    reveal(expr_trees);
}

/// Steps compose: the second starts where the first stopped, and the reports follow
/// each other.
pub proof fn lemma_stepped_trans<'a>(
    a: &Parser<'a>,
    b: &Parser<'a>,
    c: &Parser<'a>,
    e1: int,
    r1: Seq<Report>,
    e2: int,
    r2: Seq<Report>,
)
    requires
        a.stepped(b, e1, r1),
        b.stepped(c, e2, r2),
        a.cursor() <= e1,
    ensures
        a.stepped(c, e2, r1 + r2),
{
    reveal(Parser::stepped);
    lemma_extends_trans(&a.syntax(), &b.syntax(), &c.syntax());
    lemma_add_reports_concat(a.reports(), r1, r2);
    assert(a.strs() =~= c.strs().take(a.strs().len() as int));
    assert forall|k: int| 0 <= k < 12 implies #[trigger] lens(&c.syntax())[k] <= lens(
        &a.syntax(),
    )[k] + (e2 - a.cursor()) by {
        assert(lens(&b.syntax())[k] <= lens(&a.syntax())[k] + (e1 - a.cursor()));
        assert(lens(&c.syntax())[k] <= lens(&b.syntax())[k] + (e2 - b.cursor()));
    }
}

} // verus!
