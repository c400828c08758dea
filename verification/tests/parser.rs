use rix::ast::expr::{BinOp, ExprKind};
use rix::ast::typ::TypeKind;
use rix::errors::Errors;
use rix::lexer::{Span, Tok};
use rix::parser::{
    bin_op_from_tok, bin_op_precedence, expect_msg, number_literal_value, string_literal_value,
    Parser,
};
use rix::strings::Interner;

/// Parses `src`, then gives the printed AST and the errors, as messages and spans.
fn run(src: &str) -> (String, Vec<(String, Span)>) {
    let mut interner = Interner::new();
    let mut errors = Errors::new();
    let mut parser = Parser::new(src, &mut interner, &mut errors);
    parser.parse();
    let printed = parser.print_items();
    let _ast = parser.finish();
    let errs = errors.as_slice().iter().map(|e| (e.message.clone(), e.span)).collect();
    (printed, errs)
}

#[test]
fn prints_a_function_back() {
    let (text, errs) = run("fun add(a: i32, b: i32) : i32 {\n    return a + b;\n}\n");
    assert_eq!(text, "fun add(a: i32, b: i32) : i32 {\n    return a + b;\n}\n\n");
    assert!(errs.is_empty());
}

#[test]
fn prints_declarations_and_expressions() {
    let src = "fun printf(fmt: *u8, args: ...) : i32;\n\
               fun main() {\n\
               \x20   var s: *u8 = \"hi\\n\";\n\
               \x20   printf(s, (1 + 2) * -3, s[0]);\n\
               \x20   return;\n\
               }\n";
    let (text, errs) = run(src);
    assert_eq!(
        text,
        "fun printf(fmt: *u8, args: ...) : i32;\n\n\
         fun main() : void {\n    var s : *u8 = \"hi\\n\";\n    printf(s, (1 + 2) * -3, s[0]);\n    return;\n}\n\n"
    );
    assert!(errs.is_empty());
}

#[test]
fn binary_operators_keep_their_text() {
    let (text, errs) = run("fun f() { a << 2 and b != c or !d; }");
    assert_eq!(text, "fun f() : void {\n    a << 2 and b != c or !d;\n}\n\n");
    assert!(errs.is_empty());
}

#[test]
fn assignments_are_not_statements() {
    let (text, errs) = run("fun f() { x = 1; y; }");
    assert_eq!(text, "fun f() : void {\n    y;\n}\n\n");
    assert_eq!(errs, vec![("expected `;`, but found `=`".to_string(), Span { start: 12, end: 13 })]);
}

#[test]
fn missing_semicolon_is_reported() {
    let (text, errs) = run("fun f() {\n    return 1\n}\n");
    assert_eq!(text, "");
    assert_eq!(errs.len(), 2);
    assert_eq!(errs[0].0, "expected `;`, but found `}`");
    assert_eq!(errs[0].1, Span { start: 23, end: 24 });
    assert_eq!(errs[1].0, "expected `}`, but found <EOF>");
}

#[test]
fn a_stray_token_is_skipped_up_to_the_next_item() {
    let (text, errs) = run("x fun g();");
    assert_eq!(text, "fun g() : void;\n\n");
    assert_eq!(errs, vec![("expected an item, but found identifier".to_string(), Span { start: 0, end: 1 })]);
}

#[test]
fn the_finished_ast_prints_the_same() {
    let src = "fun a();\nfun b(x: u8) : *u8;\n";
    let mut interner = Interner::new();
    let mut errors = Errors::new();
    let mut parser = Parser::new(src, &mut interner, &mut errors);
    parser.parse();
    let printed = parser.print_items();
    let ast = parser.finish();
    assert_eq!(ast.items.len(), 2);
    assert_eq!(errors.len(), 0);
    assert!(ast.ifs_have_conditions());
    let text = ast.view(&interner, src).to_string();
    assert_eq!(text, printed);
    assert_eq!(text, "fun a() : void;\n\nfun b(x: u8) : *u8;\n\n");
}

#[test]
fn expect_messages_list_the_tokens() {
    assert_eq!(expect_msg(&[Tok::Semicolon], &Tok::RBrace), "expected `;`, but found `}`");
    assert_eq!(
        expect_msg(&[Tok::Comma, Tok::RParen], &Tok::Identifier),
        "expected `,` or `)`, but found identifier"
    );
    assert_eq!(
        expect_msg(&[Tok::Number, Tok::Comma, Tok::RParen], &Tok::Eof),
        "expected number literal, `,` or `)`, but found <EOF>"
    );
}

#[test]
fn operators_and_precedence() {
    assert_eq!(bin_op_from_tok(&Tok::Plus), Some(BinOp::Add));
    assert_eq!(bin_op_from_tok(&Tok::Semicolon), None);
    assert!(bin_op_precedence(BinOp::Mul) > bin_op_precedence(BinOp::Add));
    assert!(bin_op_precedence(BinOp::Add) > bin_op_precedence(BinOp::Lt));
    assert!(bin_op_precedence(BinOp::LogicalAnd) > bin_op_precedence(BinOp::LogicalOr));
}

#[test]
fn literal_values() {
    assert_eq!(number_literal_value("42"), 42);
    assert_eq!(number_literal_value("0"), 0);
    assert_eq!(number_literal_value("340282366920938463463374607431768211455"), u128::MAX);
    assert_eq!(number_literal_value("340282366920938463463374607431768211456"), u128::MAX);
    assert_eq!(number_literal_value("7eight_nine"), 7);
    assert_eq!(string_literal_value("\"a\\nb\""), "a\nb");
    assert_eq!(string_literal_value("\"q\\\"t\""), "q\"t");
}

#[test]
fn every_number_token_is_a_term() {
    let (text, errs) = run("fun f() { 7eight_nine; 99999999999999999999999999999999999999999; }");
    assert_eq!(
        text,
        "fun f() : void {\n    7eight_nine;\n    99999999999999999999999999999999999999999;\n}\n\n"
    );
    assert!(errs.is_empty());
}

#[test]
fn empty_blocks_parse() {
    let mut interner = Interner::new();
    let mut errors = Errors::new();
    let mut parser = Parser::new("{}", &mut interner, &mut errors);
    assert_eq!(parser.parse_block(), Ok(vec![]));
    let _ast = parser.finish();
    assert_eq!(errors.len(), 0);
    let (text, errs) = run("fun f() {}\nfun g(): i32 {\n}");
    assert_eq!(text, "fun f() : void {\n}\n\nfun g() : i32 {\n}\n\n");
    assert!(errs.is_empty());
}

#[test]
fn types_nest_pointers() {
    let src = "**i32";
    let mut interner = Interner::new();
    let mut errors = Errors::new();
    let mut parser = Parser::new(src, &mut interner, &mut errors);
    let id = parser.parse_type().unwrap();
    let ast = parser.finish();
    let t = ast.types.index(id);
    assert_eq!(t.span, Span { start: 0, end: 5 });
    let TypeKind::Ptr(inner) = t.kind else { panic!() };
    assert_eq!(ast.types.index(inner).span, Span { start: 1, end: 5 });
    let TypeKind::Ptr(inner2) = ast.types.index(inner).kind else { panic!() };
    assert!(matches!(ast.types.index(inner2).kind, TypeKind::Identifier(_)));
    assert_eq!(errors.len(), 0);
}

#[test]
fn binary_operators_associate_and_bind() {
    let src = "a - b - c";
    let mut interner = Interner::new();
    let mut errors = Errors::new();
    let mut parser = Parser::new(src, &mut interner, &mut errors);
    let id = parser.parse_expr().unwrap();
    let ast = parser.finish();
    let ExprKind::BinOp { op, lhs, .. } = ast.exprs.index(id).kind else { panic!() };
    assert_eq!(op, BinOp::Sub);
    assert!(matches!(ast.exprs.index(lhs).kind, ExprKind::BinOp { op: BinOp::Sub, .. }));
    assert_eq!(ast.exprs.index(id).span, Span { start: 0, end: 9 });

    let src = "a + b * c";
    let mut interner = Interner::new();
    let mut errors = Errors::new();
    let mut parser = Parser::new(src, &mut interner, &mut errors);
    let id = parser.parse_expr().unwrap();
    let ast = parser.finish();
    let ExprKind::BinOp { op, rhs, .. } = ast.exprs.index(id).kind else { panic!() };
    assert_eq!(op, BinOp::Add);
    assert!(matches!(ast.exprs.index(rhs).kind, ExprKind::BinOp { op: BinOp::Mul, .. }));
}

#[test]
fn statements_and_their_spans() {
    let cases = [("return;", 7), ("return x;", 9), ("x;", 2), ("var x : i32 = 1;", 16)];
    for (src, end) in cases {
        let mut interner = Interner::new();
        let mut errors = Errors::new();
        let mut parser = Parser::new(src, &mut interner, &mut errors);
        let id = parser.parse_stmt().unwrap();
        let ast = parser.finish();
        assert_eq!(ast.stmts.index(id).span, Span { start: 0, end });
        assert_eq!(errors.len(), 0);
    }
    let mut interner = Interner::new();
    let mut errors = Errors::new();
    let mut parser = Parser::new("var x 1;", &mut interner, &mut errors);
    assert_eq!(parser.parse_var(), Err(()));
    let _ast = parser.finish();
    assert_eq!(errors.as_slice()[0].message, "expected `=`, but found number literal");
}

#[test]
fn printing_a_parsed_expression_gives_it_back() {
    for expr in [
        "f(a, -b)[i] + (x * 2)",
        "a - b - c",
        "!p and q or r < 7",
        "g() * \"s t\"[0] % (-1)",
    ] {
        let (text, errs) = run(&format!("fun f() {{ {}; }}", expr));
        assert_eq!(text, format!("fun f() : void {{\n    {};\n}}\n\n", expr));
        assert!(errs.is_empty());
    }
}
