//! Printing undoes parsing: an expression parsed without reports from text spaced
//! as the printer spaces it prints back as that text.
use crate::ast::printer::{binop_text, uniop_text};
use crate::ast::tree::ExprTree;
use crate::lexer::{
    comment_end, keyword_tok, lemma_comment_end, lemma_lex, lemma_ws_end, lex, scan_token,
    single_char_tok, spec_is_whitespace, ws_end, Span, Tok,
};
use crate::parser::grammar::{
    after_arg_at, bin_op_of, binop_rest, call_suffix_at, group_at, index_suffix_at, kind_at,
    next_pos, parse_args_at, parse_binop_at, parse_expr_at, parse_prefix_at, parse_suffix_at,
    parse_term_at, precedence, span_at, suffix_rest, text_at, uni_op_of,
};
use crate::parser::lemma_token_span;
use crate::text::{byte_len, lemma_offset_subrange};
use vstd::prelude::*;
use vstd::utf8::{decode_utf8, encode_utf8, encode_utf8_decode_utf8};

verus! {

/// What the token before a gap asks of the gap: after a comma or a binary operator
/// the gap is one space; after an operand, a gap before a binary operator is one
/// space; every other gap is empty.
pub enum Ctx {
    Other,
    Operand,
    Comma,
    Binary,
}

/// A token of kind `t` ends an operand.
pub open spec fn ends_operand(t: Tok) -> bool {
    t == Tok::Identifier || t == Tok::Number || t == Tok::String || t == Tok::RParen || t
        == Tok::RBracket
}

/// The gap in front of a token of kind `t`, after a token that left `c`, is one space.
pub open spec fn spaced_before(c: Ctx, t: Tok) -> bool {
    c is Comma || c is Binary || (c is Operand && bin_op_of(t) is Some)
}

/// What a token of kind `t`, after a token that left `c`, leaves for the next gap.
pub open spec fn ctx_after(c: Ctx, t: Tok) -> Ctx {
    if t == Tok::Comma {
        Ctx::Comma
    } else if c is Operand && bin_op_of(t) is Some {
        Ctx::Binary
    } else if ends_operand(t) {
        Ctx::Operand
    } else {
        Ctx::Other
    }
}

/// The tokens lexed from `j` on, up to position `e`, are spaced as the printer spaces
/// them, the token before `j` having left `c`: each gap is one space or empty as
/// [`spaced_before`] says, and a comma is never followed by `)`.
pub open spec fn canonical(s: Seq<char>, j: int, e: int, c: Ctx) -> bool
    decreases e - j,
{
    if 0 <= j < e <= s.len() {
        let t = lex(s, j).0;
        let st = lex(s, j).1;
        let en = lex(s, j).2;
        &&& s.subrange(j, st) == (if spaced_before(c, t) {
            seq![' ']
        } else {
            Seq::<char>::empty()
        })
        &&& !(c is Comma && t == Tok::RParen)
        &&& if j < en <= e {
            canonical(s, en, e, ctx_after(c, t))
        } else {
            true
        }
    } else {
        true
    }
}

/// The characters of `s` that the byte span `sp` covers.
pub open spec fn span_chars(s: Seq<char>, sp: Span) -> Seq<char> {
    decode_utf8(encode_utf8(s).subrange(sp.start as int, sp.end as int))
}

/// How the printer writes the tree `t` parsed from `s`: literals as their source
/// text, one space on each side of a binary operator, `, ` between arguments.
pub open spec fn tree_text(s: Seq<char>, t: ExprTree) -> Seq<char>
    decreases t,
{
    match t {
        ExprTree::Ident { name, .. } => name,
        ExprTree::Number { span, .. } => span_chars(s, span),
        ExprTree::Str { span, .. } => span_chars(s, span),
        ExprTree::Group { inner, .. } => seq!['('] + tree_text(s, *inner) + seq![')'],
        ExprTree::BinOp { op, lhs, rhs, .. } => tree_text(s, *lhs) + seq![' '] + binop_text(op)
            + seq![' '] + tree_text(s, *rhs),
        ExprTree::UniOp { op, expr, .. } => uniop_text(op) + tree_text(s, *expr),
        ExprTree::Index { base, index, .. } => tree_text(s, *base) + seq!['['] + tree_text(
            s,
            *index,
        ) + seq![']'],
        ExprTree::Call { callee, args, .. } => tree_text(s, *callee) + seq!['('] + tree_args_text(
            s,
            args,
        ) + seq![')'],
    }
}

/// The texts of the trees `xs`, separated by `, `.
pub open spec fn tree_args_text(s: Seq<char>, xs: Seq<ExprTree>) -> Seq<char>
    decreases xs,
{
    if xs.len() == 0 {
        Seq::empty()
    } else if xs.len() == 1 {
        tree_text(s, xs[0])
    } else {
        tree_text(s, xs[0]) + seq![',', ' '] + tree_args_text(s, xs.drop_first())
    }
}

/// Lexing from `j` skips to the start of the token, and scanning from there gives it.
proof fn lemma_lex_start(s: Seq<char>, j: int)
    requires
        0 <= j <= s.len(),
        lex(s, j).0 != Tok::Eof,
    ensures
        lex(s, j).1 < s.len(),
        scan_token(s, lex(s, j).1) == (lex(s, j).0, lex(s, j).2),
    decreases s.len() - j,
{
    lemma_lex(s, j);
    if j < s.len() {
        if spec_is_whitespace(s[j]) {
            lemma_ws_end(s, j + 1);
            lemma_lex_start(s, ws_end(s, j + 1));
        } else if s[j] == '#' {
            lemma_comment_end(s, j + 1);
            lemma_lex_start(s, comment_end(s, j + 1));
        }
    }
}

/// The text of a punctuation or operator token is how it is written.
proof fn lemma_token_text(s: Seq<char>, j: int)
    requires
        0 <= j <= s.len(),
    ensures
        kind_at(s, j) == Tok::LParen ==> text_at(s, j) == seq!['('],
        kind_at(s, j) == Tok::RParen ==> text_at(s, j) == seq![')'],
        kind_at(s, j) == Tok::LBracket ==> text_at(s, j) == seq!['['],
        kind_at(s, j) == Tok::RBracket ==> text_at(s, j) == seq![']'],
        kind_at(s, j) == Tok::Comma ==> text_at(s, j) == seq![','],
        bin_op_of(kind_at(s, j)) is Some ==> text_at(s, j) == binop_text(
            bin_op_of(kind_at(s, j))->0,
        ),
        uni_op_of(kind_at(s, j)) is Some ==> text_at(s, j) == uniop_text(
            uni_op_of(kind_at(s, j))->0,
        ),
{
    lemma_lex(s, j);
    if kind_at(s, j) != Tok::Eof {
        lemma_lex_start(s, j);
        let st = lex(s, j).1;
        let en = lex(s, j).2;
        let w = s.subrange(st, en);
        if en == st + 1 {
            assert(w =~= seq![s[st]]);
        } else if en == st + 2 {
            assert(w =~= seq![s[st], s[st + 1]]);
        } else if en == st + 3 {
            assert(w =~= seq![s[st], s[st + 1], s[st + 2]]);
        }
    }
}

/// The source text of a token's byte span is the token's text.
proof fn lemma_span_text(s: Seq<char>, j: int)
    requires
        0 <= j <= s.len(),
        byte_len(s) < u32::MAX,
    ensures
        span_chars(s, span_at(s, j)) == text_at(s, j),
{
    lemma_token_span(s, j);
    lemma_offset_subrange(s, lex(s, j).1, lex(s, j).2);
    encode_utf8_decode_utf8(s.subrange(lex(s, j).1, lex(s, j).2));
}

/// One step of [`canonical`] at a token that ends by `e`.
proof fn lemma_step(s: Seq<char>, j: int, e: int, c: Ctx)
    requires
        0 <= j <= s.len(),
        canonical(s, j, e, c),
        kind_at(s, j) != Tok::Eof,
        next_pos(s, j) <= e <= s.len(),
    ensures
        j <= lex(s, j).1 < next_pos(s, j),
        lex(s, j).1 == j + (if spaced_before(c, kind_at(s, j)) { 1int } else { 0int }),
        spaced_before(c, kind_at(s, j)) ==> s[j] == ' ',
        text_at(s, j) == s.subrange(lex(s, j).1, next_pos(s, j)),
        !(c is Comma && kind_at(s, j) == Tok::RParen),
        canonical(s, next_pos(s, j), e, ctx_after(c, kind_at(s, j))),
{
    lemma_lex(s, j);
    let st = lex(s, j).1;
    if spaced_before(c, kind_at(s, j)) {
        assert(s.subrange(j, st).len() == 1);
        assert(s.subrange(j, st)[0] == s[j]);
    } else {
        assert(s.subrange(j, st).len() == 0);
    }
}

/// A parse of an expression from `i` stops between `i` and the end of the text, after
/// `i` where it succeeds; one that fails reports something.
proof fn lemma_expr_basics(s: Seq<char>, i: int)
    requires
        0 <= i <= s.len(),
    ensures
        i <= parse_expr_at(s, i).end <= s.len(),
        parse_expr_at(s, i).value is Some ==> i < parse_expr_at(s, i).end,
        parse_expr_at(s, i).value is None ==> parse_expr_at(s, i).reports.len() > 0,
    decreases s.len() - i, 5int,
{
    reveal(parse_expr_at);
    reveal(parse_binop_at);
    reveal(binop_rest);
    reveal(parse_prefix_at);
    reveal(parse_suffix_at);
    reveal(index_suffix_at);
    reveal(call_suffix_at);
    reveal(suffix_rest);
    reveal(parse_args_at);
    reveal(group_at);
    reveal(parse_term_at);
    lemma_binop_basics(s, i, 0);
}

proof fn lemma_binop_basics(s: Seq<char>, i: int, mp: int)
    requires
        0 <= i <= s.len(),
    ensures
        i <= parse_binop_at(s, i, mp).end <= s.len(),
        parse_binop_at(s, i, mp).value is Some ==> i < parse_binop_at(s, i, mp).end,
        parse_binop_at(s, i, mp).value is None ==> parse_binop_at(s, i, mp).reports.len() > 0,
    decreases s.len() - i, 4int,
{
    reveal(parse_expr_at);
    reveal(parse_binop_at);
    reveal(binop_rest);
    reveal(parse_prefix_at);
    reveal(parse_suffix_at);
    reveal(index_suffix_at);
    reveal(call_suffix_at);
    reveal(suffix_rest);
    reveal(parse_args_at);
    reveal(group_at);
    reveal(parse_term_at);
    lemma_prefix_basics(s, i);
    let lhs = parse_prefix_at(s, i);
    if lhs.value is Some && i < lhs.end <= s.len() {
        lemma_binop_rest_basics(s, lhs.end, mp, lhs.value->0, lhs.reports);
        assert(parse_binop_at(s, i, mp) == binop_rest(s, lhs.end, mp, lhs.value->0, lhs.reports));
    } else {
        assert(parse_binop_at(s, i, mp) == crate::parser::grammar::failure::<ExprTree>(lhs.end, lhs.reports));
    }
}

proof fn lemma_binop_rest_basics(
    s: Seq<char>,
    j: int,
    mp: int,
    lhs: ExprTree,
    reps: Seq<(Seq<char>, Span)>,
)
    requires
        0 <= j <= s.len(),
    ensures
        reps.len() <= binop_rest(s, j, mp, lhs, reps).reports.len(),
        j <= binop_rest(s, j, mp, lhs, reps).end <= s.len(),
        binop_rest(s, j, mp, lhs, reps).value is None ==> binop_rest(
            s,
            j,
            mp,
            lhs,
            reps,
        ).reports.len() > 0,
    decreases s.len() - j, 7int,
{
    reveal(parse_expr_at);
    reveal(parse_binop_at);
    reveal(binop_rest);
    reveal(parse_prefix_at);
    reveal(parse_suffix_at);
    reveal(index_suffix_at);
    reveal(call_suffix_at);
    reveal(suffix_rest);
    reveal(parse_args_at);
    reveal(group_at);
    reveal(parse_term_at);
    let r0 = binop_rest(s, j, mp, lhs, reps);
    match bin_op_of(kind_at(s, j)) {
        None => {
            assert(r0 == crate::parser::grammar::success(lhs, j, reps));
        },
        Some(op) => {
            if precedence(op) < mp {
                assert(r0 == crate::parser::grammar::success(lhs, j, reps));
            } else {
                lemma_lex(s, j);
                let after_op = next_pos(s, j);
                lemma_binop_basics(s, after_op, precedence(op) + 1);
                let rhs = parse_binop_at(s, after_op, precedence(op) + 1);
                match rhs.value {
                    None => {
                        assert(r0 == crate::parser::grammar::success(lhs, rhs.end, reps + rhs.reports));
                    },
                    Some(r) => {
                        let nl = ExprTree::BinOp {
                            op,
                            lhs: Box::new(lhs),
                            rhs: Box::new(r),
                            span: crate::parser::grammar::join(lhs.span(), r.span()),
                        };
                        assert(after_op < rhs.end <= s.len());
                        assert(r0 == binop_rest(s, rhs.end, mp, nl, reps + rhs.reports));
                        lemma_binop_rest_basics(s, rhs.end, mp, nl, reps + rhs.reports);
                    },
                }
            }
        },
    }
}

proof fn lemma_prefix_basics(s: Seq<char>, i: int)
    requires
        0 <= i <= s.len(),
    ensures
        i <= parse_prefix_at(s, i).end <= s.len(),
        parse_prefix_at(s, i).value is Some ==> i < parse_prefix_at(s, i).end,
        parse_prefix_at(s, i).value is None ==> parse_prefix_at(s, i).reports.len() > 0,
    decreases s.len() - i, 3int,
{
    reveal(parse_expr_at);
    reveal(parse_binop_at);
    reveal(binop_rest);
    reveal(parse_prefix_at);
    reveal(parse_suffix_at);
    reveal(index_suffix_at);
    reveal(call_suffix_at);
    reveal(suffix_rest);
    reveal(parse_args_at);
    reveal(group_at);
    reveal(parse_term_at);
    lemma_lex(s, i);
    if uni_op_of(kind_at(s, i)) is Some {
        lemma_prefix_basics(s, next_pos(s, i));
    } else {
        lemma_suffix_basics(s, i);
    }
}

proof fn lemma_suffix_basics(s: Seq<char>, i: int)
    requires
        0 <= i <= s.len(),
    ensures
        i <= parse_suffix_at(s, i).end <= s.len(),
        parse_suffix_at(s, i).value is Some ==> i < parse_suffix_at(s, i).end,
        parse_suffix_at(s, i).value is None ==> parse_suffix_at(s, i).reports.len() > 0,
    decreases s.len() - i, 2int,
{
    reveal(parse_expr_at);
    reveal(parse_binop_at);
    reveal(binop_rest);
    reveal(parse_prefix_at);
    reveal(parse_suffix_at);
    reveal(index_suffix_at);
    reveal(call_suffix_at);
    reveal(suffix_rest);
    reveal(parse_args_at);
    reveal(group_at);
    reveal(parse_term_at);
    lemma_term_basics(s, i);
    let t = parse_term_at(s, i);
    if t.value is Some && i < t.end <= s.len() {
        lemma_suffix_rest_basics(s, t.end, t.value->0, t.reports);
        assert(parse_suffix_at(s, i) == suffix_rest(s, t.end, t.value->0, t.reports));
    }
}

proof fn lemma_suffix_rest_basics(
    s: Seq<char>,
    j: int,
    e: ExprTree,
    reps: Seq<(Seq<char>, Span)>,
)
    requires
        0 <= j <= s.len(),
    ensures
        reps.len() <= suffix_rest(s, j, e, reps).reports.len(),
        j <= suffix_rest(s, j, e, reps).end <= s.len(),
        suffix_rest(s, j, e, reps).value is None ==> suffix_rest(s, j, e, reps).reports.len() > 0,
    decreases s.len() - j, 10int,
{
    reveal(parse_expr_at);
    reveal(parse_binop_at);
    reveal(binop_rest);
    reveal(parse_prefix_at);
    reveal(parse_suffix_at);
    reveal(index_suffix_at);
    reveal(call_suffix_at);
    reveal(suffix_rest);
    reveal(parse_args_at);
    reveal(group_at);
    reveal(parse_term_at);
    let r0 = suffix_rest(s, j, e, reps);
    let k = kind_at(s, j);
    if k == Tok::LBracket || k == Tok::LParen {
        let step = if k == Tok::LBracket {
            index_suffix_at(s, j, e)
        } else {
            call_suffix_at(s, j, e)
        };
        if k == Tok::LBracket {
            lemma_index_basics(s, j, e);
        } else {
            lemma_call_basics(s, j, e);
        }
        match step.value {
            None => {
                assert(r0 == crate::parser::grammar::failure::<ExprTree>(step.end, reps + step.reports));
            },
            Some(e2) => {
                assert(j < step.end <= s.len());
                assert(r0 == suffix_rest(s, step.end, e2, reps + step.reports));
                lemma_suffix_rest_basics(s, step.end, e2, reps + step.reports);
            },
        }
    } else {
        assert(r0 == crate::parser::grammar::success(e, j, reps));
    }
}

proof fn lemma_index_basics(s: Seq<char>, j: int, e: ExprTree)
    requires
        0 <= j <= s.len(),
    ensures
        j <= index_suffix_at(s, j, e).end <= s.len(),
        index_suffix_at(s, j, e).value is Some ==> j < index_suffix_at(s, j, e).end,
        index_suffix_at(s, j, e).value is None ==> index_suffix_at(s, j, e).reports.len() > 0,
    decreases s.len() - j, 9int,
{
    reveal(parse_expr_at);
    reveal(parse_binop_at);
    reveal(binop_rest);
    reveal(parse_prefix_at);
    reveal(parse_suffix_at);
    reveal(index_suffix_at);
    reveal(call_suffix_at);
    reveal(suffix_rest);
    reveal(parse_args_at);
    reveal(group_at);
    reveal(parse_term_at);
    lemma_lex(s, j);
    let n = next_pos(s, j);
    lemma_expr_basics(s, n);
    let index = parse_expr_at(s, n);
    if index.value is Some {
        lemma_lex(s, index.end);
    }
}

proof fn lemma_call_basics(s: Seq<char>, j: int, e: ExprTree)
    requires
        0 <= j <= s.len(),
    ensures
        j <= call_suffix_at(s, j, e).end <= s.len(),
        call_suffix_at(s, j, e).value is Some ==> j < call_suffix_at(s, j, e).end,
        call_suffix_at(s, j, e).value is None ==> call_suffix_at(s, j, e).reports.len() > 0,
    decreases s.len() - j, 9int,
{
    reveal(parse_expr_at);
    reveal(parse_binop_at);
    reveal(binop_rest);
    reveal(parse_prefix_at);
    reveal(parse_suffix_at);
    reveal(index_suffix_at);
    reveal(call_suffix_at);
    reveal(suffix_rest);
    reveal(parse_args_at);
    reveal(group_at);
    reveal(parse_term_at);
    lemma_lex(s, j);
    lemma_args_basics(s, next_pos(s, j), Seq::empty());
}

proof fn lemma_args_basics(s: Seq<char>, i: int, acc: Seq<ExprTree>)
    requires
        0 <= i <= s.len(),
    ensures
        i <= parse_args_at(s, i, acc).end <= s.len(),
        parse_args_at(s, i, acc).value is Some ==> i < parse_args_at(s, i, acc).end,
        parse_args_at(s, i, acc).value is None ==> parse_args_at(s, i, acc).reports.len() > 0,
    decreases s.len() - i, 6int,
{
    reveal(parse_expr_at);
    reveal(parse_binop_at);
    reveal(binop_rest);
    reveal(parse_prefix_at);
    reveal(parse_suffix_at);
    reveal(index_suffix_at);
    reveal(call_suffix_at);
    reveal(suffix_rest);
    reveal(parse_args_at);
    reveal(group_at);
    reveal(parse_term_at);
    lemma_lex(s, i);
    if kind_at(s, i) != Tok::RParen {
        lemma_expr_basics(s, i);
        let a = parse_expr_at(s, i);
        if let Some(x) = a.value {
            let j = a.end;
            lemma_lex(s, j);
            let (o, k, r) = after_arg_at(s, j);
            if o == 1 {
                lemma_args_basics(s, k, acc.push(x));
                let rest = parse_args_at(s, k, acc.push(x));
                assert(parse_args_at(s, i, acc).reports == a.reports + r + rest.reports);
            }
        }
    }
}

proof fn lemma_term_basics(s: Seq<char>, i: int)
    requires
        0 <= i <= s.len(),
    ensures
        i <= parse_term_at(s, i).end <= s.len(),
        parse_term_at(s, i).value is Some ==> i < parse_term_at(s, i).end,
        parse_term_at(s, i).value is None ==> parse_term_at(s, i).reports.len() > 0,
    decreases s.len() - i, 1int,
{
    reveal(parse_expr_at);
    reveal(parse_binop_at);
    reveal(binop_rest);
    reveal(parse_prefix_at);
    reveal(parse_suffix_at);
    reveal(index_suffix_at);
    reveal(call_suffix_at);
    reveal(suffix_rest);
    reveal(parse_args_at);
    reveal(group_at);
    reveal(parse_term_at);
    lemma_lex(s, i);
    if kind_at(s, i) == Tok::LParen {
        lemma_group_basics(s, i);
    }
}

proof fn lemma_group_basics(s: Seq<char>, i: int)
    requires
        0 <= i <= s.len(),
        kind_at(s, i) == Tok::LParen,
    ensures
        i <= group_at(s, i).end <= s.len(),
        group_at(s, i).value is Some ==> i < group_at(s, i).end,
        group_at(s, i).value is None ==> group_at(s, i).reports.len() > 0,
    decreases s.len() - i, 0int,
{
    reveal(parse_expr_at);
    reveal(parse_binop_at);
    reveal(binop_rest);
    reveal(parse_prefix_at);
    reveal(parse_suffix_at);
    reveal(index_suffix_at);
    reveal(call_suffix_at);
    reveal(suffix_rest);
    reveal(parse_args_at);
    reveal(group_at);
    reveal(parse_term_at);
    lemma_lex(s, i);
    lemma_expr_basics(s, next_pos(s, i));
    let inner = parse_expr_at(s, next_pos(s, i));
    if inner.value is Some {
        lemma_lex(s, inner.end);
    }
}

/// The argument trees that a parse of call arguments gives, if it succeeds.
pub open spec fn arg_trees(p: crate::parser::grammar::Parsed<(Seq<ExprTree>, Span)>) -> Seq<ExprTree> {
    match p.value {
        Some(v) => v.0,
        None => Seq::empty(),
    }
}

/// The gap in front of the token lexed from `j`, where `j` comes before `e`.
proof fn lemma_gap(s: Seq<char>, j: int, e: int, c: Ctx)
    requires
        0 <= j < e <= s.len(),
        canonical(s, j, e, c),
    ensures
        lex(s, j).1 == j + (if spaced_before(c, kind_at(s, j)) { 1int } else { 0int }),
        spaced_before(c, kind_at(s, j)) ==> s[j] == ' ',
        !(c is Comma && kind_at(s, j) == Tok::RParen),
{
    lemma_lex(s, j);
    let st = lex(s, j).1;
    if spaced_before(c, kind_at(s, j)) {
        assert(s.subrange(j, st).len() == 1);
        assert(s.subrange(j, st)[0] == s[j]);
    } else {
        assert(s.subrange(j, st).len() == 0);
    }
}

/// Printing the expression parsed from `i` gives the text it was parsed from, from
/// its first token on, where the text up to `e` is spaced canonically.
proof fn lemma_rt_expr(s: Seq<char>, i: int, e: int, c: Ctx)
    requires
        0 <= i <= s.len(),
        e <= s.len(),
        byte_len(s) < u32::MAX,
        !(c is Operand),
        canonical(s, i, e, c),
        parse_expr_at(s, i).value is Some,
        parse_expr_at(s, i).reports.len() == 0,
        parse_expr_at(s, i).end <= e,
    ensures
        lex(s, i).1 <= parse_expr_at(s, i).end,
        tree_text(s, parse_expr_at(s, i).value->0) == s.subrange(
            lex(s, i).1,
            parse_expr_at(s, i).end,
        ),
        canonical(s, parse_expr_at(s, i).end, e, Ctx::Operand),
    decreases s.len() - i, 5int,
{
    reveal(parse_expr_at);
    reveal(parse_binop_at);
    reveal(binop_rest);
    reveal(parse_prefix_at);
    reveal(parse_suffix_at);
    reveal(index_suffix_at);
    reveal(call_suffix_at);
    reveal(suffix_rest);
    reveal(parse_args_at);
    reveal(group_at);
    reveal(parse_term_at);
    lemma_rt_binop(s, i, 0, e, c);
}

proof fn lemma_rt_binop(s: Seq<char>, i: int, mp: int, e: int, c: Ctx)
    requires
        0 <= i <= s.len(),
        e <= s.len(),
        byte_len(s) < u32::MAX,
        !(c is Operand),
        canonical(s, i, e, c),
        parse_binop_at(s, i, mp).value is Some,
        parse_binop_at(s, i, mp).reports.len() == 0,
        parse_binop_at(s, i, mp).end <= e,
    ensures
        lex(s, i).1 <= parse_binop_at(s, i, mp).end,
        tree_text(s, parse_binop_at(s, i, mp).value->0) == s.subrange(
            lex(s, i).1,
            parse_binop_at(s, i, mp).end,
        ),
        canonical(s, parse_binop_at(s, i, mp).end, e, Ctx::Operand),
    decreases s.len() - i, 4int,
{
    reveal(parse_expr_at);
    reveal(parse_binop_at);
    reveal(binop_rest);
    reveal(parse_prefix_at);
    reveal(parse_suffix_at);
    reveal(index_suffix_at);
    reveal(call_suffix_at);
    reveal(suffix_rest);
    reveal(parse_args_at);
    reveal(group_at);
    reveal(parse_term_at);
    lemma_lex(s, i);
    lemma_prefix_basics(s, i);
    let lhs = parse_prefix_at(s, i);
    let l = lhs.value->0;
    assert(parse_binop_at(s, i, mp) == binop_rest(s, lhs.end, mp, l, lhs.reports));
    lemma_binop_rest_basics(s, lhs.end, mp, l, lhs.reports);
    lemma_rt_prefix(s, i, e, c);
    lemma_rt_binop_rest(s, lhs.end, mp, l, lhs.reports, lex(s, i).1, e);
}

proof fn lemma_rt_binop_rest(
    s: Seq<char>,
    j: int,
    mp: int,
    lhs: ExprTree,
    reps: Seq<(Seq<char>, Span)>,
    a: int,
    e: int,
)
    requires
        0 <= a <= j <= s.len(),
        e <= s.len(),
        byte_len(s) < u32::MAX,
        tree_text(s, lhs) == s.subrange(a, j),
        canonical(s, j, e, Ctx::Operand),
        binop_rest(s, j, mp, lhs, reps).value is Some,
        binop_rest(s, j, mp, lhs, reps).reports.len() == 0,
        binop_rest(s, j, mp, lhs, reps).end <= e,
    ensures
        a <= binop_rest(s, j, mp, lhs, reps).end,
        tree_text(s, binop_rest(s, j, mp, lhs, reps).value->0) == s.subrange(
            a,
            binop_rest(s, j, mp, lhs, reps).end,
        ),
        canonical(s, binop_rest(s, j, mp, lhs, reps).end, e, Ctx::Operand),
    decreases s.len() - j, 7int,
{
    reveal(parse_expr_at);
    reveal(parse_binop_at);
    reveal(binop_rest);
    reveal(parse_prefix_at);
    reveal(parse_suffix_at);
    reveal(index_suffix_at);
    reveal(call_suffix_at);
    reveal(suffix_rest);
    reveal(parse_args_at);
    reveal(group_at);
    reveal(parse_term_at);
    let r0 = binop_rest(s, j, mp, lhs, reps);
    match bin_op_of(kind_at(s, j)) {
        None => {
            assert(r0 == crate::parser::grammar::success(lhs, j, reps));
        },
        Some(op) => {
            if precedence(op) < mp {
                assert(r0 == crate::parser::grammar::success(lhs, j, reps));
            } else {
                lemma_lex(s, j);
                let after_op = next_pos(s, j);
                lemma_binop_basics(s, after_op, precedence(op) + 1);
                let rhs = parse_binop_at(s, after_op, precedence(op) + 1);
                match rhs.value {
                    None => {
                        assert(r0 == crate::parser::grammar::success(lhs, rhs.end, reps + rhs.reports));
                    },
                    Some(r) => {
                        let nl = ExprTree::BinOp {
                            op,
                            lhs: Box::new(lhs),
                            rhs: Box::new(r),
                            span: crate::parser::grammar::join(lhs.span(), r.span()),
                        };
                        assert(r0 == binop_rest(s, rhs.end, mp, nl, reps + rhs.reports));
                        lemma_binop_rest_basics(s, rhs.end, mp, nl, reps + rhs.reports);
                        assert(rhs.reports.len() == 0);
                        lemma_step(s, j, e, Ctx::Operand);
                        lemma_token_text(s, j);
                        lemma_rt_binop(s, after_op, precedence(op) + 1, e, Ctx::Binary);
                        lemma_gap(s, after_op, e, Ctx::Binary);
                        let m = rhs.end;
                        assert(tree_text(s, nl) == tree_text(s, lhs) + seq![' '] + binop_text(op)
                            + seq![' '] + tree_text(s, r));
                        assert(s.subrange(j, j + 1) =~= seq![' ']);
                        assert(s.subrange(after_op, after_op + 1) =~= seq![' ']);
                        assert(s.subrange(a, m) =~= s.subrange(a, j) + s.subrange(j, j + 1)
                            + s.subrange(j + 1, after_op) + s.subrange(after_op, after_op + 1)
                            + s.subrange(after_op + 1, m));
                        lemma_rt_binop_rest(s, m, mp, nl, reps + rhs.reports, a, e);
                    },
                }
            }
        },
    }
}

#[verifier::rlimit(100)]
#[verifier::spinoff_prover]
proof fn lemma_rt_prefix(s: Seq<char>, i: int, e: int, c: Ctx)
    requires
        0 <= i <= s.len(),
        e <= s.len(),
        byte_len(s) < u32::MAX,
        !(c is Operand),
        canonical(s, i, e, c),
        parse_prefix_at(s, i).value is Some,
        parse_prefix_at(s, i).reports.len() == 0,
        parse_prefix_at(s, i).end <= e,
    ensures
        lex(s, i).1 <= parse_prefix_at(s, i).end,
        tree_text(s, parse_prefix_at(s, i).value->0) == s.subrange(
            lex(s, i).1,
            parse_prefix_at(s, i).end,
        ),
        canonical(s, parse_prefix_at(s, i).end, e, Ctx::Operand),
    decreases s.len() - i, 3int,
{
    reveal(parse_prefix_at);
    reveal(parse_suffix_at);
    lemma_lex(s, i);
    match uni_op_of(kind_at(s, i)) {
        None => {
            assert(parse_prefix_at(s, i) == parse_suffix_at(s, i));
            lemma_rt_suffix(s, i, e, c);
        },
        Some(op) => {
            let n1 = next_pos(s, i);
            lemma_prefix_basics(s, n1);
            let inner = parse_prefix_at(s, n1);
            let x = inner.value->0;
            lemma_step(s, i, e, c);
            lemma_token_text(s, i);
            lemma_rt_prefix(s, n1, e, Ctx::Other);
            lemma_gap(s, n1, e, Ctx::Other);
            let st = lex(s, i).1;
            assert(s.subrange(st, inner.end) =~= s.subrange(st, n1) + s.subrange(n1, inner.end));
        },
    }
}

proof fn lemma_rt_suffix(s: Seq<char>, i: int, e: int, c: Ctx)
    requires
        0 <= i <= s.len(),
        e <= s.len(),
        byte_len(s) < u32::MAX,
        !(c is Operand),
        canonical(s, i, e, c),
        parse_suffix_at(s, i).value is Some,
        parse_suffix_at(s, i).reports.len() == 0,
        parse_suffix_at(s, i).end <= e,
    ensures
        lex(s, i).1 <= parse_suffix_at(s, i).end,
        tree_text(s, parse_suffix_at(s, i).value->0) == s.subrange(
            lex(s, i).1,
            parse_suffix_at(s, i).end,
        ),
        canonical(s, parse_suffix_at(s, i).end, e, Ctx::Operand),
    decreases s.len() - i, 2int,
{
    reveal(parse_expr_at);
    reveal(parse_binop_at);
    reveal(binop_rest);
    reveal(parse_prefix_at);
    reveal(parse_suffix_at);
    reveal(index_suffix_at);
    reveal(call_suffix_at);
    reveal(suffix_rest);
    reveal(parse_args_at);
    reveal(group_at);
    reveal(parse_term_at);
    lemma_lex(s, i);
    lemma_term_basics(s, i);
    let t = parse_term_at(s, i);
    let x = t.value->0;
    assert(parse_suffix_at(s, i) == suffix_rest(s, t.end, x, t.reports));
    lemma_suffix_rest_basics(s, t.end, x, t.reports);
    lemma_rt_term(s, i, e, c);
    lemma_rt_suffix_rest(s, t.end, x, t.reports, lex(s, i).1, e);
}

proof fn lemma_rt_suffix_rest(
    s: Seq<char>,
    j: int,
    x: ExprTree,
    reps: Seq<(Seq<char>, Span)>,
    a: int,
    e: int,
)
    requires
        0 <= a <= j <= s.len(),
        e <= s.len(),
        byte_len(s) < u32::MAX,
        tree_text(s, x) == s.subrange(a, j),
        canonical(s, j, e, Ctx::Operand),
        suffix_rest(s, j, x, reps).value is Some,
        suffix_rest(s, j, x, reps).reports.len() == 0,
        suffix_rest(s, j, x, reps).end <= e,
    ensures
        a <= suffix_rest(s, j, x, reps).end,
        tree_text(s, suffix_rest(s, j, x, reps).value->0) == s.subrange(
            a,
            suffix_rest(s, j, x, reps).end,
        ),
        canonical(s, suffix_rest(s, j, x, reps).end, e, Ctx::Operand),
    decreases s.len() - j, 10int,
{
    reveal(parse_expr_at);
    reveal(parse_binop_at);
    reveal(binop_rest);
    reveal(parse_prefix_at);
    reveal(parse_suffix_at);
    reveal(index_suffix_at);
    reveal(call_suffix_at);
    reveal(suffix_rest);
    reveal(parse_args_at);
    reveal(group_at);
    reveal(parse_term_at);
    let r0 = suffix_rest(s, j, x, reps);
    let k = kind_at(s, j);
    if k == Tok::LBracket || k == Tok::LParen {
        let step = if k == Tok::LBracket {
            index_suffix_at(s, j, x)
        } else {
            call_suffix_at(s, j, x)
        };
        if k == Tok::LBracket {
            lemma_index_basics(s, j, x);
        } else {
            lemma_call_basics(s, j, x);
        }
        match step.value {
            None => {
                assert(r0 == crate::parser::grammar::failure::<ExprTree>(step.end, reps + step.reports));
            },
            Some(e2) => {
                assert(r0 == suffix_rest(s, step.end, e2, reps + step.reports));
                lemma_suffix_rest_basics(s, step.end, e2, reps + step.reports);
                assert(step.reports.len() == 0);
                if k == Tok::LBracket {
                    lemma_rt_index(s, j, x, a, e);
                } else {
                    lemma_rt_call(s, j, x, a, e);
                }
                lemma_rt_suffix_rest(s, step.end, e2, reps + step.reports, a, e);
            },
        }
    } else {
        assert(r0 == crate::parser::grammar::success(x, j, reps));
    }
}

#[verifier::rlimit(100)]
#[verifier::spinoff_prover]
proof fn lemma_rt_index(s: Seq<char>, j: int, x: ExprTree, a: int, e: int)
    requires
        0 <= a <= j <= s.len(),
        e <= s.len(),
        byte_len(s) < u32::MAX,
        kind_at(s, j) == Tok::LBracket,
        tree_text(s, x) == s.subrange(a, j),
        canonical(s, j, e, Ctx::Operand),
        index_suffix_at(s, j, x).value is Some,
        index_suffix_at(s, j, x).reports.len() == 0,
        index_suffix_at(s, j, x).end <= e,
    ensures
        a <= index_suffix_at(s, j, x).end,
        tree_text(s, index_suffix_at(s, j, x).value->0) == s.subrange(
            a,
            index_suffix_at(s, j, x).end,
        ),
        canonical(s, index_suffix_at(s, j, x).end, e, Ctx::Operand),
    decreases s.len() - j, 9int,
{
    reveal(parse_expr_at);
    reveal(parse_binop_at);
    reveal(binop_rest);
    reveal(parse_prefix_at);
    reveal(parse_suffix_at);
    reveal(index_suffix_at);
    reveal(call_suffix_at);
    reveal(suffix_rest);
    reveal(parse_args_at);
    reveal(group_at);
    reveal(parse_term_at);
    lemma_lex(s, j);
    let n = next_pos(s, j);
    lemma_expr_basics(s, n);
    let index = parse_expr_at(s, n);
    let ix = index.value->0;
    let m = index.end;
    lemma_lex(s, m);
    let en = next_pos(s, m);
    lemma_step(s, j, e, Ctx::Operand);
    lemma_token_text(s, j);
    lemma_rt_expr(s, n, e, Ctx::Other);
    lemma_gap(s, n, e, Ctx::Other);
    lemma_step(s, m, e, Ctx::Operand);
    lemma_token_text(s, m);
    assert(s.subrange(a, en) =~= s.subrange(a, j) + s.subrange(j, n) + s.subrange(n, m)
        + s.subrange(m, en));
}

#[verifier::rlimit(100)]
#[verifier::spinoff_prover]
proof fn lemma_rt_call(s: Seq<char>, j: int, x: ExprTree, a: int, e: int)
    requires
        0 <= a <= j <= s.len(),
        e <= s.len(),
        byte_len(s) < u32::MAX,
        kind_at(s, j) == Tok::LParen,
        tree_text(s, x) == s.subrange(a, j),
        canonical(s, j, e, Ctx::Operand),
        call_suffix_at(s, j, x).value is Some,
        call_suffix_at(s, j, x).reports.len() == 0,
        call_suffix_at(s, j, x).end <= e,
    ensures
        a <= call_suffix_at(s, j, x).end,
        tree_text(s, call_suffix_at(s, j, x).value->0) == s.subrange(
            a,
            call_suffix_at(s, j, x).end,
        ),
        canonical(s, call_suffix_at(s, j, x).end, e, Ctx::Operand),
    decreases s.len() - j, 9int,
{
    reveal(call_suffix_at);
    reveal(parse_args_at);
    lemma_lex(s, j);
    let n = next_pos(s, j);
    lemma_args_basics(s, n, Seq::empty());
    let args = parse_args_at(s, n, Seq::empty());
    let xs = arg_trees(args);
    lemma_step(s, j, e, Ctx::Operand);
    lemma_token_text(s, j);
    lemma_rt_args(s, n, Seq::empty(), e, Ctx::Other);
    lemma_gap(s, n, e, Ctx::Other);
    assert(xs.skip(0) =~= xs);
    assert(s.subrange(a, args.end) =~= s.subrange(a, j) + s.subrange(j, n) + s.subrange(
        n,
        args.end,
    ));
}

#[verifier::rlimit(100)]
#[verifier::spinoff_prover]
proof fn lemma_rt_args(s: Seq<char>, i: int, acc: Seq<ExprTree>, e: int, c: Ctx)
    requires
        0 <= i <= s.len(),
        e <= s.len(),
        byte_len(s) < u32::MAX,
        c is Other || c is Comma,
        canonical(s, i, e, c),
        parse_args_at(s, i, acc).value is Some,
        parse_args_at(s, i, acc).reports.len() == 0,
        parse_args_at(s, i, acc).end <= e,
    ensures
        arg_trees(parse_args_at(s, i, acc)).len() >= acc.len(),
        arg_trees(parse_args_at(s, i, acc)).subrange(0, acc.len() as int) == acc,
        kind_at(s, i) != Tok::RParen ==> arg_trees(parse_args_at(s, i, acc)).len() > acc.len(),
        lex(s, i).1 <= parse_args_at(s, i, acc).end,
        s.subrange(lex(s, i).1, parse_args_at(s, i, acc).end) == tree_args_text(
            s,
            arg_trees(parse_args_at(s, i, acc)).skip(acc.len() as int),
        ) + seq![')'],
        canonical(s, parse_args_at(s, i, acc).end, e, Ctx::Operand),
    decreases s.len() - i, 6int,
{
    reveal(parse_expr_at);
    reveal(parse_binop_at);
    reveal(binop_rest);
    reveal(parse_prefix_at);
    reveal(parse_suffix_at);
    reveal(index_suffix_at);
    reveal(call_suffix_at);
    reveal(suffix_rest);
    reveal(parse_args_at);
    reveal(group_at);
    reveal(parse_term_at);
    lemma_lex(s, i);
    let r0 = parse_args_at(s, i, acc);
    if kind_at(s, i) == Tok::RParen {
        lemma_step(s, i, e, c);
        lemma_token_text(s, i);
        assert(arg_trees(r0) == acc);
        assert(acc.skip(acc.len() as int) =~= Seq::<ExprTree>::empty());
        assert(acc.subrange(0, acc.len() as int) =~= acc);
    } else {
        lemma_expr_basics(s, i);
        let a0 = parse_expr_at(s, i);
        let xx = a0.value->0;
        let j = a0.end;
        lemma_lex(s, j);
        let acc2 = acc.push(xx);
        let (o, k, rr) = after_arg_at(s, j);
        if o == 0 {
            assert(r0 == crate::parser::grammar::success(
                (acc2, span_at(s, j)),
                next_pos(s, j),
                a0.reports,
            ));
            lemma_rt_expr(s, i, e, c);
            lemma_step(s, j, e, Ctx::Operand);
            lemma_token_text(s, j);
            let st = lex(s, i).1;
            assert(acc2.skip(acc.len() as int) =~= seq![xx]);
            assert(acc2.subrange(0, acc.len() as int) =~= acc);
            assert(s.subrange(st, next_pos(s, j)) =~= s.subrange(st, j) + s.subrange(
                j,
                next_pos(s, j),
            ));
        } else if o == 1 {
            lemma_args_basics(s, k, acc2);
            let rest = parse_args_at(s, k, acc2);
            assert(r0.reports == a0.reports + rr + rest.reports);
            assert(kind_at(s, j) == Tok::Comma);
            lemma_rt_expr(s, i, e, c);
            lemma_step(s, j, e, Ctx::Operand);
            lemma_token_text(s, j);
            lemma_rt_args(s, k, acc2, e, Ctx::Comma);
            lemma_gap(s, k, e, Ctx::Comma);
            let all = arg_trees(rest);
            assert(arg_trees(r0) == all);
            let tail = all.skip(acc.len() as int);
            assert(all.subrange(0, acc2.len() as int) == acc2);
            assert(all[acc.len() as int] == acc2[acc.len() as int]);
            assert(tail[0] == xx);
            assert(tail.drop_first() =~= all.skip(acc2.len() as int));
            assert(all.subrange(0, acc.len() as int) =~= acc2.subrange(0, acc.len() as int));
            assert(acc2.subrange(0, acc.len() as int) =~= acc);
            let st = lex(s, i).1;
            assert(s.subrange(k, k + 1) =~= seq![' ']);
            assert(s.subrange(st, rest.end) =~= s.subrange(st, j) + s.subrange(j, k) + s.subrange(
                k,
                k + 1,
            ) + s.subrange(k + 1, rest.end));
        } else {
            assert(r0.value is None);
        }
    }
}

proof fn lemma_rt_term(s: Seq<char>, i: int, e: int, c: Ctx)
    requires
        0 <= i <= s.len(),
        e <= s.len(),
        byte_len(s) < u32::MAX,
        !(c is Operand),
        canonical(s, i, e, c),
        parse_term_at(s, i).value is Some,
        parse_term_at(s, i).reports.len() == 0,
        parse_term_at(s, i).end <= e,
    ensures
        lex(s, i).1 <= parse_term_at(s, i).end,
        tree_text(s, parse_term_at(s, i).value->0) == s.subrange(
            lex(s, i).1,
            parse_term_at(s, i).end,
        ),
        canonical(s, parse_term_at(s, i).end, e, Ctx::Operand),
    decreases s.len() - i, 1int,
{
    reveal(parse_expr_at);
    reveal(parse_binop_at);
    reveal(binop_rest);
    reveal(parse_prefix_at);
    reveal(parse_suffix_at);
    reveal(index_suffix_at);
    reveal(call_suffix_at);
    reveal(suffix_rest);
    reveal(parse_args_at);
    reveal(group_at);
    reveal(parse_term_at);
    lemma_lex(s, i);
    let k = kind_at(s, i);
    if k == Tok::LParen {
        assert(parse_term_at(s, i) == group_at(s, i));
        lemma_rt_group(s, i, e, c);
    } else if k == Tok::Number || k == Tok::Identifier || k == Tok::String {
        lemma_step(s, i, e, c);
        lemma_span_text(s, i);
    }
}

#[verifier::rlimit(100)]
#[verifier::spinoff_prover]
proof fn lemma_rt_group(s: Seq<char>, i: int, e: int, c: Ctx)
    requires
        0 <= i <= s.len(),
        e <= s.len(),
        byte_len(s) < u32::MAX,
        !(c is Operand),
        kind_at(s, i) == Tok::LParen,
        canonical(s, i, e, c),
        group_at(s, i).value is Some,
        group_at(s, i).reports.len() == 0,
        group_at(s, i).end <= e,
    ensures
        lex(s, i).1 <= group_at(s, i).end,
        tree_text(s, group_at(s, i).value->0) == s.subrange(lex(s, i).1, group_at(s, i).end),
        canonical(s, group_at(s, i).end, e, Ctx::Operand),
    decreases s.len() - i, 0int,
{
    reveal(parse_expr_at);
    reveal(parse_binop_at);
    reveal(binop_rest);
    reveal(parse_prefix_at);
    reveal(parse_suffix_at);
    reveal(index_suffix_at);
    reveal(call_suffix_at);
    reveal(suffix_rest);
    reveal(parse_args_at);
    reveal(group_at);
    reveal(parse_term_at);
    lemma_lex(s, i);
    let n = next_pos(s, i);
    lemma_expr_basics(s, n);
    let inner = parse_expr_at(s, n);
    let jj = inner.end;
    lemma_lex(s, jj);
    let en = next_pos(s, jj);
    lemma_step(s, i, e, c);
    lemma_token_text(s, i);
    lemma_rt_expr(s, n, e, Ctx::Other);
    lemma_gap(s, n, e, Ctx::Other);
    lemma_step(s, jj, e, Ctx::Operand);
    lemma_token_text(s, jj);
    let st = lex(s, i).1;
    assert(s.subrange(st, en) =~= s.subrange(st, n) + s.subrange(n, jj) + s.subrange(jj, en));
}

/// Printing undoes parsing. Where an expression parses from `i` without reports,
/// and the text it was parsed from is spaced as the printer spaces it (one space
/// on each side of a binary operator, `, ` between call arguments, nothing else
/// between tokens), printing the tree that the parse builds gives that text back.
pub proof fn law_print_undoes_parse(s: Seq<char>, i: int)
    requires
        0 <= i <= s.len(),
        byte_len(s) < u32::MAX,
        parse_expr_at(s, i).value is Some,
        parse_expr_at(s, i).reports.len() == 0,
        canonical(s, i, parse_expr_at(s, i).end, Ctx::Other),
    ensures
        tree_text(s, parse_expr_at(s, i).value->0) == s.subrange(i, parse_expr_at(s, i).end),
{
    let e = parse_expr_at(s, i).end;
    lemma_expr_basics(s, i);
    lemma_rt_expr(s, i, e, Ctx::Other);
    lemma_gap(s, i, e, Ctx::Other);
}

} // verus!
