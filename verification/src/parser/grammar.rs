//! The grammar of the language as spec functions over the token stream: what a
//! parse starting at a position gives, where it stops, and what it reports.
use crate::ast::expr::{BinOp, UniOp};
use crate::ast::tree::{ExprTree, FunTree, ParamTree, ParamTypeTree, StmtTree, TypeTree};
use crate::ast::printer::{binop_text, uniop_text};
use crate::lexer::{
    keyword_tok, lemma_lex, lex, spec_is_whitespace, token_at, word_end, Span, Tok,
};
use vstd::prelude::*;

verus! {

/// A report: a message and the span it is about.
pub type Report = (Seq<char>, Span);

/// The outcome of parsing from some position: the tree (if the parse succeeded),
/// the position where the parse stopped, and the reports it made, in order.
pub struct Parsed<T> {
    pub value: Option<T>,
    pub end: int,
    pub reports: Seq<Report>,
}

pub open spec fn success<T>(v: T, end: int, reports: Seq<Report>) -> Parsed<T> {
    Parsed { value: Some(v), end, reports }
}

pub open spec fn failure<T>(end: int, reports: Seq<Report>) -> Parsed<T> {
    Parsed { value: None, end, reports }
}

/// The kind of the token that is lexed from position `i`.
pub open spec fn kind_at(s: Seq<char>, i: int) -> Tok {
    lex(s, i).0
}

/// The position after the token that is lexed from position `i`.
pub open spec fn next_pos(s: Seq<char>, i: int) -> int {
    lex(s, i).2
}

/// The byte span of the token that is lexed from position `i`.
pub open spec fn span_at(s: Seq<char>, i: int) -> Span {
    token_at(s, i).span
}

/// The text of the token that is lexed from position `i`.
pub open spec fn text_at(s: Seq<char>, i: int) -> Seq<char> {
    s.subrange(lex(s, i).1, lex(s, i).2)
}

/// From the start of `a` to the end of `b`.
pub open spec fn join(a: Span, b: Span) -> Span {
    Span { start: a.start, end: b.end }
}

/// `prefix` followed by how the found token is named.
pub open spec fn found_msg(prefix: Seq<char>, found: Tok) -> Seq<char> {
    prefix + Tok::name(found)
}

/// The separator before the `i`-th of `n` names in a list: none, `, ` or ` or `.
pub open spec fn list_sep(i: int, n: int) -> Seq<char> {
    if i == 0 {
        Seq::empty()
    } else if i == n - 1 {
        " or "@
    } else {
        ", "@
    }
}

/// The names of the first `k` of `toks`, separated as in a list of all of them.
pub open spec fn names_upto(toks: Seq<Tok>, k: int) -> Seq<char>
    decreases k,
{
    if k <= 0 {
        Seq::empty()
    } else {
        names_upto(toks, k - 1) + list_sep(k - 1, toks.len() as int) + Tok::name(toks[k - 1])
    }
}

/// The message for an unexpected token `found` where one of `toks` was expected.
pub open spec fn expect_msg_spec(toks: Seq<Tok>, found: Tok) -> Seq<char> {
    "expected "@ + names_upto(toks, toks.len() as int) + ", but found "@ + Tok::name(found)
}

/// The message for a comma missing after `what`.
pub open spec fn missing_comma_msg(what: Seq<char>) -> Seq<char> {
    "expected "@ + Tok::name(Tok::Comma) + what
}

/// The value of the decimal digits at the start of `t`, read on from the value
/// `acc`: reading stops at the first character that is not a digit.
pub open spec fn leading_value(t: Seq<char>, acc: nat) -> nat
    decreases t.len(),
{
    if t.len() > 0 && '0' <= t[0] <= '9' {
        leading_value(t.drop_first(), acc * 10 + ((t[0] as u32) - ('0' as u32)) as nat)
    } else {
        acc
    }
}

/// The value of a number literal: its leading decimal digits read in base ten, or
/// the largest `u128` where that value does not fit one.
pub open spec fn number_value(t: Seq<char>) -> u128 {
    if leading_value(t, 0) <= u128::MAX {
        leading_value(t, 0) as u128
    } else {
        u128::MAX
    }
}

/// The character that the escape `\c` stands for.
pub open spec fn unescape_char(c: char) -> char {
    if c == 'n' {
        '\n'
    } else if c == 't' {
        '\t'
    } else if c == 'r' {
        '\r'
    } else if c == '0' {
        '\0'
    } else {
        c
    }
}

/// The characters of a string literal from position `i` of its text, escapes
/// resolved, up to the closing quote or the end.
pub open spec fn unescape_from(t: Seq<char>, i: int) -> Seq<char>
    decreases t.len() - i,
{
    if 0 <= i < t.len() {
        if t[i] == '"' {
            Seq::empty()
        } else if t[i] == '\\' && i + 1 < t.len() {
            seq![unescape_char(t[i + 1])] + unescape_from(t, i + 2)
        } else {
            seq![t[i]] + unescape_from(t, i + 1)
        }
    } else {
        Seq::empty()
    }
}

/// The value of a string literal: the text between the quotes, escapes resolved.
pub open spec fn string_value(t: Seq<char>) -> Seq<char> {
    unescape_from(t, 1)
}

/// The binary operator that a token stands for, if any.
pub open spec fn bin_op_of(t: Tok) -> Option<BinOp> {
    match t {
        Tok::Plus => Some(BinOp::Add),
        Tok::Minus => Some(BinOp::Sub),
        Tok::Asterisk => Some(BinOp::Mul),
        Tok::Slash => Some(BinOp::Div),
        Tok::Percent => Some(BinOp::Rem),
        Tok::EqualEqual => Some(BinOp::Eq),
        Tok::BangEqual => Some(BinOp::Ne),
        Tok::Less => Some(BinOp::Lt),
        Tok::LessEqual => Some(BinOp::Le),
        Tok::Greater => Some(BinOp::Gt),
        Tok::GreaterEqual => Some(BinOp::Ge),
        Tok::And => Some(BinOp::LogicalAnd),
        Tok::Or => Some(BinOp::LogicalOr),
        Tok::Ampersand => Some(BinOp::BitAnd),
        Tok::Caret => Some(BinOp::BitXor),
        Tok::Pipe => Some(BinOp::BitOr),
        Tok::LessLess => Some(BinOp::Shl),
        Tok::GreaterGreater => Some(BinOp::Shr),
        _ => None,
    }
}

/// The text that the printer writes for a binary operator lexes back as one token
/// that spans the whole text and that the parser reads as that operator.
pub proof fn law_binop_text_lexes_back(op: BinOp)
    ensures
        lex(binop_text(op), 0).1 == 0,
        lex(binop_text(op), 0).2 == binop_text(op).len(),
        bin_op_of(lex(binop_text(op), 0).0) == Some(op),
{
    let s = binop_text(op);
    assert(!spec_is_whitespace(s[0]) && s[0] != '#');
    if op == BinOp::LogicalAnd {
        assert(word_end(s, 3) == 3);
        assert(word_end(s, 2) == 3);
        assert(word_end(s, 1) == 3);
        assert(s.subrange(0, 3) =~= s);
        assert(keyword_tok(s) == Tok::And);
    } else if op == BinOp::LogicalOr {
        assert(word_end(s, 2) == 2);
        assert(word_end(s, 1) == 2);
        assert(s.subrange(0, 2) =~= s);
        assert(keyword_tok(s) == Tok::Or);
    }
}

/// The text that the printer writes for a unary operator lexes back as one token
/// that spans the whole text and that the parser reads as that operator in front
/// of an operand.
pub proof fn law_uniop_text_lexes_back(op: UniOp)
    ensures
        lex(uniop_text(op), 0).1 == 0,
        lex(uniop_text(op), 0).2 == uniop_text(op).len(),
        uni_op_of(lex(uniop_text(op), 0).0) == Some(op),
{
    let s = uniop_text(op);
    assert(!spec_is_whitespace(s[0]) && s[0] != '#');
}

/// How tightly a binary operator binds: higher binds tighter.
pub open spec fn precedence(op: BinOp) -> u8 {
    match op {
        BinOp::LogicalOr => 1,
        BinOp::LogicalAnd => 2,
        BinOp::BitOr => 3,
        BinOp::BitXor => 4,
        BinOp::BitAnd => 5,
        BinOp::Eq | BinOp::Ne => 6,
        BinOp::Lt | BinOp::Le | BinOp::Gt | BinOp::Ge => 7,
        BinOp::Shl | BinOp::Shr => 8,
        BinOp::Add | BinOp::Sub => 9,
        BinOp::Mul | BinOp::Div | BinOp::Rem => 10,
    }
}

/// The prefix operator that a token stands for, if any.
pub open spec fn uni_op_of(t: Tok) -> Option<UniOp> {
    match t {
        Tok::Minus => Some(UniOp::Neg),
        Tok::Bang => Some(UniOp::Not),
        Tok::Ampersand => Some(UniOp::Ref),
        Tok::Asterisk => Some(UniOp::Deref),
        _ => None,
    }
}

/// Type
///     = identifier
///     | "*" Type
#[verifier::opaque]
pub open spec fn parse_type_at(s: Seq<char>, i: int) -> Parsed<TypeTree>
    decreases s.len() - i,
{
    if !(0 <= i <= s.len()) {
        failure(i, Seq::empty())
    } else {
        let k = kind_at(s, i);
        if k == Tok::Identifier {
            success(
                TypeTree::Named { name: text_at(s, i), span: span_at(s, i) },
                next_pos(s, i),
                Seq::empty(),
            )
        } else if k == Tok::Asterisk {
            proof {
                lemma_lex(s, i);
            }
            let inner = parse_type_at(s, next_pos(s, i));
            match inner.value {
                Some(t) => success(
                    TypeTree::Ptr { inner: Box::new(t), span: join(span_at(s, i), t.span()) },
                    inner.end,
                    inner.reports,
                ),
                None => failure(inner.end, inner.reports),
            }
        } else {
            failure(
                i,
                seq![(found_msg("expected type, but found "@, k), span_at(s, i))],
            )
        }
    }
}

/// Expr = BinopExpr(0)
#[verifier::opaque]
pub open spec fn parse_expr_at(s: Seq<char>, i: int) -> Parsed<ExprTree>
    decreases s.len() - i, 5int,
{
    if !(0 <= i <= s.len()) {
        failure(i, Seq::empty())
    } else {
        parse_binop_at(s, i, 0)
    }
}

/// BinopExpr(p) = PrefixExpr (BinOp BinopExpr(prec + 1))*, taking only operators
/// of precedence at least `p`, left to right.
#[verifier::opaque]
pub open spec fn parse_binop_at(s: Seq<char>, i: int, min_prec: int) -> Parsed<ExprTree>
    decreases s.len() - i, 4int,
{
    if !(0 <= i <= s.len()) {
        failure(i, Seq::empty())
    } else {
        let lhs = parse_prefix_at(s, i);
        match lhs.value {
            Some(l) => if i < lhs.end <= s.len() {
                binop_rest(s, lhs.end, min_prec, l, lhs.reports)
            } else {
                failure(lhs.end, lhs.reports)
            },
            None => failure(lhs.end, lhs.reports),
        }
    }
}

/// The rest of a BinopExpr after the left operand `lhs`, from position `j`, with the
/// reports `reps` made so far.
#[verifier::opaque]
pub open spec fn binop_rest(
    s: Seq<char>,
    j: int,
    min_prec: int,
    lhs: ExprTree,
    reps: Seq<Report>,
) -> Parsed<ExprTree>
    decreases s.len() - j, 7int,
{
    if !(0 <= j <= s.len()) {
        failure(j, reps)
    } else {
        match bin_op_of(kind_at(s, j)) {
            None => success(lhs, j, reps),
            Some(op) => if precedence(op) < min_prec {
                success(lhs, j, reps)
            } else {
                proof {
                    lemma_lex(s, j);
                }
                let after_op = next_pos(s, j);
                let rhs = parse_binop_at(s, after_op, precedence(op) + 1);
                match rhs.value {
                    None => success(lhs, rhs.end, reps + rhs.reports),
                    Some(r) => if after_op < rhs.end <= s.len() {
                        binop_rest(
                            s,
                            rhs.end,
                            min_prec,
                            ExprTree::BinOp {
                                op,
                                lhs: Box::new(lhs),
                                rhs: Box::new(r),
                                span: join(lhs.span(), r.span()),
                            },
                            reps + rhs.reports,
                        )
                    } else {
                        failure(rhs.end, reps + rhs.reports)
                    },
                }
            },
        }
    }
}

/// PrefixExpr = PrefixOp* SuffixExpr
#[verifier::opaque]
pub open spec fn parse_prefix_at(s: Seq<char>, i: int) -> Parsed<ExprTree>
    decreases s.len() - i, 3int,
{
    if !(0 <= i <= s.len()) {
        failure(i, Seq::empty())
    } else {
        match uni_op_of(kind_at(s, i)) {
            None => parse_suffix_at(s, i),
            Some(op) => {
                proof {
                    lemma_lex(s, i);
                }
                let inner = parse_prefix_at(s, next_pos(s, i));
                match inner.value {
                    Some(e) => success(
                        ExprTree::UniOp { op, expr: Box::new(e), span: join(span_at(s, i), e.span()) },
                        inner.end,
                        inner.reports,
                    ),
                    None => failure(inner.end, inner.reports),
                }
            },
        }
    }
}

/// SuffixExpr = Term (Index | FnCallArgs)*
#[verifier::opaque]
pub open spec fn parse_suffix_at(s: Seq<char>, i: int) -> Parsed<ExprTree>
    decreases s.len() - i, 2int,
{
    if !(0 <= i <= s.len()) {
        failure(i, Seq::empty())
    } else {
        let t = parse_term_at(s, i);
        match t.value {
            Some(e) => if i < t.end <= s.len() {
                suffix_rest(s, t.end, e, t.reports)
            } else {
                failure(t.end, t.reports)
            },
            None => failure(t.end, t.reports),
        }
    }
}

/// One index suffix `[ Expr ]` of the expression `e`, whose `[` is lexed from `j`.
#[verifier::opaque]
pub open spec fn index_suffix_at(s: Seq<char>, j: int, e: ExprTree) -> Parsed<ExprTree>
    decreases s.len() - j, 9int,
{
    if !(0 <= j <= s.len()) {
        failure(j, Seq::empty())
    } else {
        proof {
            lemma_lex(s, j);
        }
        let index = parse_expr_at(s, next_pos(s, j));
        match index.value {
            None => failure(index.end, index.reports),
            Some(ix) => {
                let m = index.end;
                if kind_at(s, m) == Tok::RBracket {
                    success(
                        ExprTree::Index {
                            base: Box::new(e),
                            index: Box::new(ix),
                            span: join(join(e.span(), span_at(s, j)), span_at(s, m)),
                        },
                        next_pos(s, m),
                        index.reports,
                    )
                } else {
                    failure(
                        m,
                        index.reports + seq![
                            (expect_msg_spec(seq![Tok::RBracket], kind_at(s, m)), span_at(s, m)),
                        ],
                    )
                }
            },
        }
    }
}

/// One call suffix `( args )` of the expression `e`, whose `(` is lexed from `j`.
#[verifier::opaque]
pub open spec fn call_suffix_at(s: Seq<char>, j: int, e: ExprTree) -> Parsed<ExprTree>
    decreases s.len() - j, 9int,
{
    if !(0 <= j <= s.len()) {
        failure(j, Seq::empty())
    } else {
        proof {
            lemma_lex(s, j);
        }
        let args = parse_args_at(s, next_pos(s, j), Seq::empty());
        match args.value {
            None => failure(args.end, args.reports),
            Some(a) => success(
                ExprTree::Call { callee: Box::new(e), args: a.0, span: join(e.span(), a.1) },
                args.end,
                args.reports,
            ),
        }
    }
}

/// The suffixes after the expression `e`, from position `j`, with the reports `reps`
/// made so far.
#[verifier::opaque]
pub open spec fn suffix_rest(s: Seq<char>, j: int, e: ExprTree, reps: Seq<Report>) -> Parsed<
    ExprTree,
>
    decreases s.len() - j, 10int,
{
    if !(0 <= j <= s.len()) {
        failure(j, reps)
    } else {
        let k = kind_at(s, j);
        if k == Tok::LBracket || k == Tok::LParen {
            let step = if k == Tok::LBracket {
                index_suffix_at(s, j, e)
            } else {
                call_suffix_at(s, j, e)
            };
            match step.value {
                None => failure(step.end, reps + step.reports),
                Some(e2) => if j < step.end <= s.len() {
                    suffix_rest(s, step.end, e2, reps + step.reports)
                } else {
                    failure(step.end, reps + step.reports)
                },
            }
        } else {
            success(e, j, reps)
        }
    }
}

/// FnCallArgs after the `(`, from position `i`, with the arguments `acc` parsed so
/// far: the arguments and the span of the closing `)`, the parse stopping after it.
#[verifier::opaque]
pub open spec fn parse_args_at(s: Seq<char>, i: int, acc: Seq<ExprTree>) -> Parsed<
    (Seq<ExprTree>, Span),
>
    decreases s.len() - i, 6int,
{
    if !(0 <= i <= s.len()) {
        failure(i, Seq::empty())
    } else if kind_at(s, i) == Tok::RParen {
        success((acc, span_at(s, i)), next_pos(s, i), Seq::empty())
    } else {
        let a = parse_expr_at(s, i);
        match a.value {
            None => failure(a.end, a.reports),
            Some(x) => {
                let acc2 = acc.push(x);
                let j = a.end;
                if !(i < j <= s.len()) {
                    failure(j, a.reports)
                } else {
                    let (o, k, r) = after_arg_at(s, j);
                    if o == 0 {
                        success((acc2, span_at(s, j)), next_pos(s, j), a.reports)
                    } else if o == 2 {
                        failure(j, a.reports + r)
                    } else {
                        proof {
                            lemma_lex(s, j);
                        }
                        let rest = parse_args_at(s, k, acc2);
                        Parsed { value: rest.value, end: rest.end, reports: a.reports + r + rest.reports }
                    }
                }
            },
        }
    }
}

/// What follows an argument at position `j`: `0` when the arguments close there,
/// `1` when they go on from the position given, `2` when they fail; and the reports.
pub open spec fn after_arg_at(s: Seq<char>, j: int) -> (int, int, Seq<Report>) {
    let k = kind_at(s, j);
    if k == Tok::RParen {
        (0, j, Seq::empty())
    } else if k == Tok::Comma {
        (1, next_pos(s, j), Seq::empty())
    } else if k == Tok::RBrace || k == Tok::RBracket || k == Tok::Colon || k == Tok::Eof {
        (2, j, seq![(expect_msg_spec(seq![Tok::Comma, Tok::RParen], k), span_at(s, j))])
    } else {
        (1, j, seq![(missing_comma_msg(" after argument"@), span_at(s, j))])
    }
}

/// "(" Expr ")", whose `(` is lexed from `i`.
#[verifier::opaque]
pub open spec fn group_at(s: Seq<char>, i: int) -> Parsed<ExprTree>
    decreases s.len() - i, 0int,
{
    if !(0 <= i <= s.len()) || kind_at(s, i) != Tok::LParen {
        failure(i, Seq::empty())
    } else {
        proof {
            lemma_lex(s, i);
        }
        let inner = parse_expr_at(s, next_pos(s, i));
        match inner.value {
            None => failure(inner.end, inner.reports),
            Some(e) => {
                let j = inner.end;
                if kind_at(s, j) == Tok::RParen {
                    success(
                        ExprTree::Group { inner: Box::new(e), span: join(span_at(s, i), span_at(s, j)) },
                        next_pos(s, j),
                        inner.reports,
                    )
                } else {
                    failure(
                        j,
                        inner.reports + seq![
                            (expect_msg_spec(seq![Tok::RParen], kind_at(s, j)), span_at(s, j)),
                        ],
                    )
                }
            },
        }
    }
}

/// Term
///     = number
///     | identifier
///     | string
///     | "(" Expr ")"
#[verifier::opaque]
pub open spec fn parse_term_at(s: Seq<char>, i: int) -> Parsed<ExprTree>
    decreases s.len() - i, 1int,
{
    if !(0 <= i <= s.len()) {
        failure(i, Seq::empty())
    } else {
        let k = kind_at(s, i);
        if k == Tok::Number {
            success(
                ExprTree::Number { value: number_value(text_at(s, i)), span: span_at(s, i) },
                next_pos(s, i),
                Seq::empty(),
            )
        } else if k == Tok::Identifier {
            success(
                ExprTree::Ident { name: text_at(s, i), span: span_at(s, i) },
                next_pos(s, i),
                Seq::empty(),
            )
        } else if k == Tok::String {
            success(
                ExprTree::Str { value: string_value(text_at(s, i)), span: span_at(s, i) },
                next_pos(s, i),
                Seq::empty(),
            )
        } else if k == Tok::LParen {
            group_at(s, i)
        } else {
            failure(i, seq![(found_msg("expected an expression, but found "@, k), span_at(s, i))])
        }
    }
}


/// The report made where one token of kind `t` was expected at position `i`.
pub open spec fn expect_report(s: Seq<char>, i: int, t: Tok) -> Report {
    (expect_msg_spec(seq![t], kind_at(s, i)), span_at(s, i))
}

/// VarDecl
///     = "var" identifier (":" Type)? "=" Expr ";"
#[verifier::opaque]
pub open spec fn parse_var_at(s: Seq<char>, i: int) -> Parsed<StmtTree> {
    if !(0 <= i <= s.len()) {
        failure(i, Seq::empty())
    } else if kind_at(s, i) != Tok::Var {
        failure(i, seq![expect_report(s, i, Tok::Var)])
    } else {
        let j1 = next_pos(s, i);
        if kind_at(s, j1) != Tok::Identifier {
            failure(j1, seq![expect_report(s, j1, Tok::Identifier)])
        } else {
            let j2 = next_pos(s, j1);
            let t = if kind_at(s, j2) == Tok::Colon {
                parse_type_at(s, next_pos(s, j2))
            } else {
                success(TypeTree::Named { name: Seq::empty(), span: span_at(s, j2) }, j2, Seq::empty())
            };
            match t.value {
                None => failure(t.end, t.reports),
                Some(ty) => {
                    let typ = if kind_at(s, j2) == Tok::Colon {
                        Some(ty)
                    } else {
                        None
                    };
                    let j3 = t.end;
                    if kind_at(s, j3) != Tok::Equal {
                        failure(j3, t.reports + seq![expect_report(s, j3, Tok::Equal)])
                    } else {
                        let e = parse_expr_at(s, next_pos(s, j3));
                        match e.value {
                            None => failure(e.end, t.reports + e.reports),
                            Some(x) => {
                                let m = e.end;
                                if kind_at(s, m) != Tok::Semicolon {
                                    failure(
                                        m,
                                        t.reports + e.reports + seq![
                                            expect_report(s, m, Tok::Semicolon),
                                        ],
                                    )
                                } else {
                                    success(
                                        StmtTree::Var {
                                            name: text_at(s, j1),
                                            typ,
                                            expr: x,
                                            span: join(span_at(s, i), span_at(s, m)),
                                        },
                                        next_pos(s, m),
                                        t.reports + e.reports,
                                    )
                                }
                            },
                        }
                    }
                },
            }
        }
    }
}

/// Stmt
///    = VarDecl
///    | Expr ";"
///    | "return" Expr? ";"
#[verifier::opaque]
pub open spec fn parse_stmt_at(s: Seq<char>, i: int) -> Parsed<StmtTree> {
    if !(0 <= i <= s.len()) {
        failure(i, Seq::empty())
    } else if kind_at(s, i) == Tok::Var {
        parse_var_at(s, i)
    } else if kind_at(s, i) == Tok::Return {
        let j = next_pos(s, i);
        let e = if kind_at(s, j) != Tok::Semicolon {
            parse_expr_at(s, j)
        } else {
            success(ExprTree::Ident { name: Seq::empty(), span: span_at(s, j) }, j, Seq::empty())
        };
        match e.value {
            None => failure(e.end, e.reports),
            Some(x) => {
                let m = e.end;
                let expr = if kind_at(s, j) != Tok::Semicolon {
                    Some(x)
                } else {
                    None
                };
                if kind_at(s, m) != Tok::Semicolon {
                    failure(m, e.reports + seq![expect_report(s, m, Tok::Semicolon)])
                } else {
                    success(
                        StmtTree::Return { expr, span: join(span_at(s, i), span_at(s, m)) },
                        next_pos(s, m),
                        e.reports,
                    )
                }
            },
        }
    } else {
        let e = parse_expr_at(s, i);
        match e.value {
            None => failure(e.end, e.reports),
            Some(x) => {
                let m = e.end;
                if kind_at(s, m) != Tok::Semicolon {
                    failure(m, e.reports + seq![expect_report(s, m, Tok::Semicolon)])
                } else {
                    success(
                        StmtTree::Expr { expr: x, span: join(x.span(), span_at(s, m)) },
                        next_pos(s, m),
                        e.reports,
                    )
                }
            },
        }
    }
}

/// Where skipping to the next statement from `i` stops, `level` braces deep: after
/// the `;` or `}` that ends the statement at level 0, or at the end of the text.
#[verifier::opaque]
pub open spec fn skip_stmt_from(s: Seq<char>, i: int, level: nat) -> int
    decreases s.len() - i,
{
    if !(0 <= i <= s.len()) {
        i
    } else {
        proof {
            lemma_lex(s, i);
        }
        let k = kind_at(s, i);
        if k == Tok::Eof {
            i
        } else if k == Tok::LBrace {
            skip_stmt_from(s, next_pos(s, i), level + 1)
        } else if k == Tok::RBrace {
            if level == 0 {
                next_pos(s, i)
            } else {
                skip_stmt_from(s, next_pos(s, i), (level - 1) as nat)
            }
        } else if k == Tok::Semicolon {
            if level == 0 {
                next_pos(s, i)
            } else {
                skip_stmt_from(s, next_pos(s, i), level)
            }
        } else {
            skip_stmt_from(s, next_pos(s, i), level)
        }
    }
}

/// The statements of a block from position `j`, after the ones `acc`, with the
/// reports `reps` made so far: a statement that fails is skipped; the block ends at
/// a `}` or at the end of the text, also right after its `{`, and it must end with
/// `}`.
#[verifier::opaque]
pub open spec fn block_rest(s: Seq<char>, j: int, acc: Seq<StmtTree>, reps: Seq<Report>) -> Parsed<
    Seq<StmtTree>,
>
    decreases s.len() - j,
{
    if !(0 <= j <= s.len()) {
        failure(j, reps)
    } else if kind_at(s, j) == Tok::Eof || kind_at(s, j) == Tok::RBrace {
        block_close(s, j, acc, reps)
    } else {
        let st = parse_stmt_at(s, j);
        let acc2 = match st.value {
            Some(t) => acc.push(t),
            None => acc,
        };
        let k = match st.value {
            Some(t) => st.end,
            None => skip_stmt_from(s, st.end, 0),
        };
        let reps2 = reps + st.reports;
        if !(j < k <= s.len()) {
            failure(k, reps2)
        } else if kind_at(s, k) == Tok::RBrace || kind_at(s, k) == Tok::Eof {
            block_close(s, k, acc2, reps2)
        } else {
            block_rest(s, k, acc2, reps2)
        }
    }
}

/// The end of a block at position `k`: a `}` closes it.
pub open spec fn block_close(s: Seq<char>, k: int, acc: Seq<StmtTree>, reps: Seq<Report>) -> Parsed<
    Seq<StmtTree>,
> {
    if kind_at(s, k) == Tok::RBrace {
        success(acc, next_pos(s, k), reps)
    } else {
        failure(k, reps + seq![expect_report(s, k, Tok::RBrace)])
    }
}

/// Block
///     = "{" Stmt* "}"
/// A missing `{` is reported and the block is parsed all the same.
#[verifier::opaque]
pub open spec fn parse_block_at(s: Seq<char>, i: int) -> Parsed<Seq<StmtTree>> {
    if !(0 <= i <= s.len()) {
        failure(i, Seq::empty())
    } else if kind_at(s, i) == Tok::LBrace {
        block_rest(s, next_pos(s, i), Seq::empty(), Seq::empty())
    } else {
        block_rest(s, i, Seq::empty(), seq![expect_report(s, i, Tok::LBrace)])
    }
}


/// One parameter from position `j`: identifier ":" (Type | "...").
#[verifier::opaque]
pub open spec fn param_at(s: Seq<char>, j: int) -> Parsed<ParamTree> {
    if !(0 <= j <= s.len()) {
        failure(j, Seq::empty())
    } else if kind_at(s, j) != Tok::Identifier {
        failure(j, seq![expect_report(s, j, Tok::Identifier)])
    } else {
        let j1 = next_pos(s, j);
        if kind_at(s, j1) != Tok::Colon {
            failure(j1, seq![expect_report(s, j1, Tok::Colon)])
        } else {
            let j2 = next_pos(s, j1);
            if kind_at(s, j2) == Tok::DotDotDot {
                success(
                    ParamTree { name: text_at(s, j), typ: ParamTypeTree::Variadic(span_at(s, j2)) },
                    next_pos(s, j2),
                    Seq::empty(),
                )
            } else {
                let ty = parse_type_at(s, j2);
                match ty.value {
                    Some(x) => success(
                        ParamTree { name: text_at(s, j), typ: ParamTypeTree::Type(x) },
                        ty.end,
                        ty.reports,
                    ),
                    None => failure(ty.end, ty.reports),
                }
            }
        }
    }
}

/// What follows a parameter at position `j`: `0` when the parameters close there,
/// `1` when they go on from the position given, `2` when they fail; and the reports.
pub open spec fn after_param_at(s: Seq<char>, j: int) -> (int, int, Seq<Report>) {
    let k = kind_at(s, j);
    if k == Tok::RParen {
        (0, j, Seq::empty())
    } else if k == Tok::Comma {
        (1, next_pos(s, j), Seq::empty())
    } else if k == Tok::Identifier {
        (1, j, seq![(missing_comma_msg(" after parameter"@), span_at(s, j))])
    } else {
        (2, j, seq![(expect_msg_spec(seq![Tok::Comma, Tok::RParen], k), span_at(s, j))])
    }
}

/// The parameters from position `j`, after the ones `acc`, with the reports `reps`
/// made so far; the parse stops after the closing `)`. A missing comma before a
/// parameter name is reported and the parameters go on.
#[verifier::opaque]
pub open spec fn params_rest(s: Seq<char>, j: int, acc: Seq<ParamTree>, reps: Seq<Report>) -> Parsed<
    Seq<ParamTree>,
>
    decreases s.len() - j,
{
    if !(0 <= j <= s.len()) {
        failure(j, reps)
    } else if kind_at(s, j) == Tok::RParen {
        success(acc, next_pos(s, j), reps)
    } else {
        let p = param_at(s, j);
        match p.value {
            None => failure(p.end, reps + p.reports),
            Some(pt) => {
                let acc2 = acc.push(pt);
                let j3 = p.end;
                if !(j < j3 <= s.len()) {
                    failure(j3, reps + p.reports)
                } else {
                    let (o, k, r) = after_param_at(s, j3);
                    if o == 0 {
                        success(acc2, next_pos(s, j3), reps + p.reports)
                    } else if o == 2 {
                        failure(j3, reps + p.reports + r)
                    } else {
                        proof {
                            lemma_lex(s, j3);
                        }
                        params_rest(s, k, acc2, reps + p.reports + r)
                    }
                }
            },
        }
    }
}

/// ParamList
///     = "(" (identifier ":" Type ",")* (identifier ":" Type)? ")"
/// where a type may also be `...`.
#[verifier::opaque]
pub open spec fn parse_param_list_at(s: Seq<char>, i: int) -> Parsed<Seq<ParamTree>> {
    if !(0 <= i <= s.len()) {
        failure(i, Seq::empty())
    } else if kind_at(s, i) != Tok::LParen {
        failure(i, seq![expect_report(s, i, Tok::LParen)])
    } else {
        params_rest(s, next_pos(s, i), Seq::empty(), Seq::empty())
    }
}

/// Fun
///     = "fun" identifier ParamList (":" Type)? (Block | ";")
#[verifier::opaque]
pub open spec fn parse_fun_at(s: Seq<char>, i: int) -> Parsed<FunTree> {
    if !(0 <= i <= s.len()) {
        failure(i, Seq::empty())
    } else if kind_at(s, i) != Tok::Fun {
        failure(i, seq![expect_report(s, i, Tok::Fun)])
    } else {
        let j1 = next_pos(s, i);
        if kind_at(s, j1) != Tok::Identifier {
            failure(j1, seq![expect_report(s, j1, Tok::Identifier)])
        } else {
            let ps = parse_param_list_at(s, next_pos(s, j1));
            match ps.value {
                None => failure(ps.end, ps.reports),
                Some(params) => {
                    let j2 = ps.end;
                    let t = if kind_at(s, j2) == Tok::Colon {
                        parse_type_at(s, next_pos(s, j2))
                    } else {
                        success(TypeTree::Named { name: Seq::empty(), span: span_at(s, j2) }, j2, Seq::empty())
                    };
                    match t.value {
                        None => failure(t.end, ps.reports + t.reports),
                        Some(ty) => {
                            let ret_type = if kind_at(s, j2) == Tok::Colon {
                                Some(ty)
                            } else {
                                None
                            };
                            let j3 = t.end;
                            let reps = ps.reports + t.reports;
                            if kind_at(s, j3) == Tok::Semicolon {
                                success(
                                    FunTree { name: text_at(s, j1), params, ret_type, body: None },
                                    next_pos(s, j3),
                                    reps,
                                )
                            } else {
                                let b = parse_block_at(s, j3);
                                match b.value {
                                    None => failure(b.end, reps + b.reports),
                                    Some(stmts) => success(
                                        FunTree {
                                            name: text_at(s, j1),
                                            params,
                                            ret_type,
                                            body: Some(stmts),
                                        },
                                        b.end,
                                        reps + b.reports,
                                    ),
                                }
                            }
                        },
                    }
                },
            }
        }
    }
}

/// Item = Fun
#[verifier::opaque]
pub open spec fn parse_item_at(s: Seq<char>, i: int) -> Parsed<FunTree> {
    if !(0 <= i <= s.len()) {
        failure(i, Seq::empty())
    } else if kind_at(s, i) == Tok::Fun {
        parse_fun_at(s, i)
    } else {
        failure(
            i,
            seq![(found_msg("expected an item, but found "@, kind_at(s, i)), span_at(s, i))],
        )
    }
}

/// Where skipping to the next item from `i` stops, `level` braces deep: at a `fun`
/// at level 0, after the `}` that closes level 0, or at the end of the text.
#[verifier::opaque]
pub open spec fn skip_item_from(s: Seq<char>, i: int, level: nat) -> int
    decreases s.len() - i,
{
    if !(0 <= i <= s.len()) {
        i
    } else {
        proof {
            lemma_lex(s, i);
        }
        let k = kind_at(s, i);
        if k == Tok::Eof {
            i
        } else if k == Tok::Fun && level == 0 {
            i
        } else if k == Tok::LBrace {
            skip_item_from(s, next_pos(s, i), level + 1)
        } else if k == Tok::RBrace {
            if level == 0 {
                next_pos(s, i)
            } else {
                skip_item_from(s, next_pos(s, i), (level - 1) as nat)
            }
        } else {
            skip_item_from(s, next_pos(s, i), level)
        }
    }
}

/// The items from position `j` to the end of the text, after the ones `acc`, with
/// the reports `reps` made so far: an item that fails is skipped.
#[verifier::opaque]
pub open spec fn program_rest(s: Seq<char>, j: int, acc: Seq<FunTree>, reps: Seq<Report>) -> Parsed<
    Seq<FunTree>,
>
    decreases s.len() - j,
{
    if !(0 <= j <= s.len()) || kind_at(s, j) == Tok::Eof {
        success(acc, j, reps)
    } else {
        let it = parse_item_at(s, j);
        let acc2 = match it.value {
            Some(f) => acc.push(f),
            None => acc,
        };
        let k = match it.value {
            Some(f) => it.end,
            None => skip_item_from(s, it.end, 0),
        };
        if !(j < k <= s.len()) {
            success(acc2, k, reps + it.reports)
        } else {
            program_rest(s, k, acc2, reps + it.reports)
        }
    }
}

} // verus!
