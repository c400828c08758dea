use rix::ast::expr::{BinOp, UniOp};
use rix::ast::printer::{binop_str, uniop_str};
use rix::lexer::{Lexer, LexerWindow, Span, Tok};

#[test]
fn numbers() {
    let mut lexer = Lexer::new("123 456 7eight_nine");

    let tok = lexer.advance();
    assert_eq!(tok.kind, Tok::Number);
    assert_eq!(lexer.slice(tok.span), "123");

    let tok = lexer.advance();
    assert_eq!(tok.kind, Tok::Number);
    assert_eq!(lexer.slice(tok.span), "456");

    let tok = lexer.advance();
    assert_eq!(tok.kind, Tok::Number);
    assert_eq!(lexer.slice(tok.span), "7eight_nine");

    assert_eq!(lexer.advance().kind, Tok::Eof);
}

#[test]
fn strings() {
    let mut lexer = Lexer::new(r#" "hello" "var x = \"Hello!\"" "#);

    let tok = lexer.advance();
    assert_eq!(tok.kind, Tok::String);
    assert_eq!(lexer.slice(tok.span), r#""hello""#);
    let tok = lexer.advance();
    assert_eq!(tok.kind, Tok::String);
    assert_eq!(lexer.slice(tok.span), r#""var x = \"Hello!\"""#);

    assert_eq!(lexer.advance().kind, Tok::Eof);
}

#[test]
fn dots() {
    let mut lexer = Lexer::new(". .. ...");

    assert_eq!(lexer.advance().kind, Tok::Dot);
    assert_eq!(lexer.advance().kind, Tok::DotDot);
    assert_eq!(lexer.advance().kind, Tok::DotDotDot);
    assert_eq!(lexer.advance().kind, Tok::Eof);
}

#[test]
fn long_operators() {
    let mut lexer = Lexer::new("= == != < <= << > >= >>");
    assert_eq!(lexer.advance().kind, Tok::Equal);
    assert_eq!(lexer.advance().kind, Tok::EqualEqual);
    assert_eq!(lexer.advance().kind, Tok::BangEqual);
    assert_eq!(lexer.advance().kind, Tok::Less);
    assert_eq!(lexer.advance().kind, Tok::LessEqual);
    assert_eq!(lexer.advance().kind, Tok::LessLess);
    assert_eq!(lexer.advance().kind, Tok::Greater);
    assert_eq!(lexer.advance().kind, Tok::GreaterEqual);
    assert_eq!(lexer.advance().kind, Tok::GreaterGreater);
    assert_eq!(lexer.advance().kind, Tok::Eof);
}

#[test]
fn example() {
    let mut lexer = Lexer::new(
        r#"
            # This is a comment
            var result = add(5, 10);
            # Another comment
            fun add(a, b) : i32 {
                return a + b;
            }
            "#,
    );
    assert_eq!(lexer.advance().kind, Tok::Var);
    assert_eq!(lexer.advance().kind, Tok::Identifier);
    assert_eq!(lexer.advance().kind, Tok::Equal);
    assert_eq!(lexer.advance().kind, Tok::Identifier);
    assert_eq!(lexer.advance().kind, Tok::LParen);
    assert_eq!(lexer.advance().kind, Tok::Number);
    assert_eq!(lexer.advance().kind, Tok::Comma);
    assert_eq!(lexer.advance().kind, Tok::Number);
    assert_eq!(lexer.advance().kind, Tok::RParen);
    assert_eq!(lexer.advance().kind, Tok::Semicolon);
    assert_eq!(lexer.advance().kind, Tok::Fun);
    assert_eq!(lexer.advance().kind, Tok::Identifier);
    assert_eq!(lexer.advance().kind, Tok::LParen);
    assert_eq!(lexer.advance().kind, Tok::Identifier);
    assert_eq!(lexer.advance().kind, Tok::Comma);
    assert_eq!(lexer.advance().kind, Tok::Identifier);
    assert_eq!(lexer.advance().kind, Tok::RParen);
    assert_eq!(lexer.advance().kind, Tok::Colon);
    assert_eq!(lexer.advance().kind, Tok::Identifier);
    assert_eq!(lexer.advance().kind, Tok::LBrace);
    assert_eq!(lexer.advance().kind, Tok::Return);
    assert_eq!(lexer.advance().kind, Tok::Identifier);
    assert_eq!(lexer.advance().kind, Tok::Plus);
    assert_eq!(lexer.advance().kind, Tok::Identifier);
    assert_eq!(lexer.advance().kind, Tok::Semicolon);
    assert_eq!(lexer.advance().kind, Tok::RBrace);
    assert_eq!(lexer.advance().kind, Tok::Eof);
}

#[test]
fn window() {
    let input = "var x = a + b";
    let mut lexer = LexerWindow::new(input);

    assert_eq!(lexer.advance().kind, Tok::Var);
    assert_eq!(lexer.advance().kind, Tok::Identifier);

    assert_eq!(lexer.prev().kind, Tok::Identifier);
    assert_eq!(lexer.peek().kind, Tok::Equal);
    assert_eq!(lexer.advance().kind, Tok::Equal);

    assert_eq!(lexer.peek().kind, Tok::Identifier);
    assert_eq!(lexer.prev().kind, Tok::Equal);
    assert_eq!(lexer.advance().kind, Tok::Identifier);

    assert_eq!(lexer.prev().kind, Tok::Identifier);
    assert_eq!(lexer.peek().kind, Tok::Plus);
    assert_eq!(lexer.advance().kind, Tok::Plus);

    assert_eq!(lexer.advance().kind, Tok::Identifier);
    assert_eq!(lexer.advance().kind, Tok::Eof);
}

#[test]
fn eof_repeats_with_empty_span() {
    let mut lexer = Lexer::new("ab");
    assert_eq!(lexer.advance().kind, Tok::Identifier);
    let eof = lexer.advance();
    assert_eq!(eof.kind, Tok::Eof);
    assert_eq!(eof.span, Span { start: 2, end: 2 });
    assert_eq!(lexer.advance(), eof);
}

#[test]
fn unicode_spans_are_in_bytes() {
    // U+00A0 (two bytes) and U+3000 (three bytes) are white space; `é` is unknown.
    let mut lexer = Lexer::new("\u{a0}x\u{3000}é+");
    let tok = lexer.advance();
    assert_eq!(tok.kind, Tok::Identifier);
    assert_eq!(tok.span, Span { start: 2, end: 3 });
    let tok = lexer.advance();
    assert_eq!(tok.kind, Tok::Unknown);
    assert_eq!(tok.span, Span { start: 6, end: 8 });
    assert_eq!(lexer.slice(tok.span), "é");
    assert_eq!(lexer.advance().kind, Tok::Plus);
}

#[test]
fn keywords_and_comments() {
    let mut lexer = Lexer::new("fun return var if else while break continue and or funny # fun\n_x");
    for kind in [
        Tok::Fun,
        Tok::Return,
        Tok::Var,
        Tok::If,
        Tok::Else,
        Tok::While,
        Tok::Break,
        Tok::Continue,
        Tok::And,
        Tok::Or,
        Tok::Identifier,
        Tok::Identifier,
        Tok::Eof,
    ] {
        assert_eq!(lexer.advance().kind, kind);
    }
}

#[test]
fn unterminated_string_runs_to_end() {
    let mut lexer = Lexer::new("\"abc\\\"");
    let tok = lexer.advance();
    assert_eq!(tok.kind, Tok::String);
    assert_eq!(tok.span, Span { start: 0, end: 6 });
}

#[test]
fn match_takes_only_the_expected_token() {
    let mut w = LexerWindow::new("a;");
    assert_eq!(w.match_(Tok::Semicolon).unwrap_err().kind, Tok::Identifier);
    assert_eq!(w.match_(Tok::Identifier), Ok(Span { start: 0, end: 1 }));
    assert_eq!(w.prev().kind, Tok::Identifier);
}

#[test]
fn printed_operators_lex_back() {
    let binops = [
        (BinOp::Mul, Tok::Asterisk),
        (BinOp::Div, Tok::Slash),
        (BinOp::Rem, Tok::Percent),
        (BinOp::Add, Tok::Plus),
        (BinOp::Sub, Tok::Minus),
        (BinOp::Shl, Tok::LessLess),
        (BinOp::Shr, Tok::GreaterGreater),
        (BinOp::Lt, Tok::Less),
        (BinOp::Gt, Tok::Greater),
        (BinOp::Le, Tok::LessEqual),
        (BinOp::Ge, Tok::GreaterEqual),
        (BinOp::Eq, Tok::EqualEqual),
        (BinOp::Ne, Tok::BangEqual),
        (BinOp::BitAnd, Tok::Ampersand),
        (BinOp::BitXor, Tok::Caret),
        (BinOp::BitOr, Tok::Pipe),
        (BinOp::LogicalAnd, Tok::And),
        (BinOp::LogicalOr, Tok::Or),
    ];
    for (op, kind) in binops {
        let text = binop_str(op);
        let mut lexer = Lexer::new(text);
        let tok = lexer.advance();
        assert_eq!(tok.kind, kind);
        assert_eq!(tok.span, Span { start: 0, end: text.len() as u32 });
        assert_eq!(lexer.advance().kind, Tok::Eof);
    }
    let uniops = [
        (UniOp::Neg, Tok::Minus),
        (UniOp::Not, Tok::Bang),
        (UniOp::Ref, Tok::Ampersand),
        (UniOp::Deref, Tok::Asterisk),
    ];
    for (op, kind) in uniops {
        let text = uniop_str(op);
        let mut lexer = Lexer::new(text);
        let tok = lexer.advance();
        assert_eq!(tok.kind, kind);
        assert_eq!(tok.span, Span { start: 0, end: text.len() as u32 });
        assert_eq!(lexer.advance().kind, Tok::Eof);
    }
}

#[test]
fn gaps_before_a_token_are_space_and_comments() {
    let mut lexer = Lexer::new(" \t# c + d\n\n  + ");
    let tok = lexer.advance();
    assert_eq!(tok.kind, Tok::Plus);
    assert_eq!(tok.span, Span { start: 13, end: 14 });
    assert_eq!(lexer.advance().kind, Tok::Eof);
}
