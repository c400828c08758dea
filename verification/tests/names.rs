use rix::analysis::analyse;
use rix::analysis::names::scopes::ScopeStack;
use rix::analysis::names::ScopeResolver;
use rix::ast::idents::IdentView;
use rix::arena::ArenaId;
use rix::ast::idents::IdentId;
use rix::ast::Ast;
use rix::errors::Errors;
use rix::parser::Parser;
use rix::strings::{Interner, StrId};
use rix::tir::typ::{AtomType, Typs};

fn ident_at(ast: &Ast, pos: usize) -> IdentId {
    for i in 0..ast.idents.len() {
        let id = ArenaId::new(i as u32);
        if ast.idents.index(id).span.start as usize == pos {
            return id;
        }
    }
    panic!("no identifier at {}", pos)
}

fn nth(src: &str, pat: &str, n: usize) -> usize {
    src.match_indices(pat).nth(n).unwrap().0
}

#[test]
fn names_resolve_to_their_declarations() {
    let src = "fun g() : u8;\nfun f(a: i32) : i32 {\n    var b: *u8 = g();\n    return a + b + c;\n}\nfun g();\n";
    let mut interner = Interner::new();
    let mut errors = Errors::new();
    let mut parser = Parser::new(src, &mut interner, &mut errors);
    parser.parse();
    let ast = parser.finish();
    assert_eq!(errors.len(), 0);
    let view = ast.view(&interner, src);
    let res = analyse(view, &mut errors);

    let msgs: Vec<(String, u32)> = errors.as_slice().iter().map(|e| (e.message.clone(), e.span.start)).collect();
    assert_eq!(
        msgs,
        vec![
            ("duplicate function definition of `g`".to_string(), nth(src, "g", 2) as u32),
            ("unknown identifier `c`".to_string(), src.find(" c;").unwrap() as u32 + 1),
        ]
    );

    let a_decl = ident_at(&ast, src.find("a:").unwrap());
    let a_use = ident_at(&ast, src.find("a +").unwrap());
    assert_eq!(res.get_def(a_decl), Some(ArenaId::new(3)));
    assert_eq!(res.get_def(a_use), Some(ArenaId::new(3)));
    let b_decl = ident_at(&ast, src.find("b:").unwrap());
    let b_use = ident_at(&ast, src.find("b +").unwrap());
    assert_eq!(res.get_def(b_decl), Some(ArenaId::new(4)));
    assert_eq!(res.get_def(b_use), Some(ArenaId::new(4)));
    // the second declaration of `g` replaced the first in the global scope
    let g_use = ident_at(&ast, src.find("= g()").unwrap() + 2);
    assert_eq!(res.get_def(g_use), Some(ArenaId::new(2)));
    let c_use = ident_at(&ast, src.find(" c;").unwrap() + 1);
    assert_eq!(res.get_def(c_use), Some(ArenaId::new(5)));

    let typs = Typs::new();
    let u8_name = ident_at(&ast, src.find("u8").unwrap());
    assert_eq!(res.get_typ(u8_name), Some(typs.atom(AtomType::U8)));
    let i32_name = ident_at(&ast, src.find("i32").unwrap());
    assert_eq!(res.get_typ(i32_name), Some(typs.atom(AtomType::I32)));
    assert_eq!(res.get_def(u8_name), None);
}

#[test]
fn unknown_types_resolve_to_the_error_type() {
    let src = "fun f(x: *foo);";
    let mut interner = Interner::new();
    let mut errors = Errors::new();
    let mut parser = Parser::new(src, &mut interner, &mut errors);
    parser.parse();
    let ast = parser.finish();
    let res = analyse(ast.view(&interner, src), &mut errors);
    let foo = ident_at(&ast, src.find("foo").unwrap());
    assert_eq!(res.get_typ(foo), Some(Typs::new().error()));
    assert_eq!(errors.len(), 1);
    assert_eq!(errors.as_slice()[0].message, "unknown type `foo`");
}

#[test]
fn duplicate_parameters_are_reported() {
    let src = "fun f(x: u8, x: u8) { x; }";
    let mut interner = Interner::new();
    let mut errors = Errors::new();
    let mut parser = Parser::new(src, &mut interner, &mut errors);
    parser.parse();
    let ast = parser.finish();
    let res = analyse(ast.view(&interner, src), &mut errors);
    assert_eq!(errors.len(), 1);
    assert_eq!(errors.as_slice()[0].message, "duplicate parameter name of `x`");
    let x_use = ident_at(&ast, src.find("x;").unwrap());
    assert_eq!(res.get_def(x_use), Some(ArenaId::new(2)));
}

#[test]
fn inner_scopes_shadow_and_closing_restores() {
    let mut scopes = ScopeStack::new();
    let name = StrId::new(7);
    assert!(scopes.is_empty());
    scopes.push_scope();
    assert_eq!(scopes.insert_def(name, ArenaId::new(1)), Ok(()));
    assert_eq!(scopes.insert_def(name, ArenaId::new(2)), Err(ArenaId::new(1)));
    scopes.push_scope();
    assert_eq!(scopes.get_def(name), Some(ArenaId::new(2)));
    assert_eq!(scopes.insert_def(name, ArenaId::new(3)), Ok(()));
    assert_eq!(scopes.get_def(name), Some(ArenaId::new(3)));
    assert_eq!(scopes.get_typ(name), None);
    scopes.pop_scope();
    assert_eq!(scopes.get_def(name), Some(ArenaId::new(2)));
    scopes.pop_scope();
    assert_eq!(scopes.get_def(name), None);
    scopes.pop_scope();
    assert!(scopes.is_empty());
}

#[test]
fn resolving_calls_the_fallback_only_for_unbound_names() {
    let src = "fun f(a: i32) { a; b; }";
    let mut interner = Interner::new();
    let mut errors = Errors::new();
    let mut parser = Parser::new(src, &mut interner, &mut errors);
    parser.parse();
    let ast = parser.finish();
    let view = ast.view(&interner, src);
    let a_decl = ident_at(&ast, src.find("a:").unwrap());
    let a_use = ident_at(&ast, src.find("a;").unwrap());
    let b_use = ident_at(&ast, src.find("b;").unwrap());
    let mut sr = ScopeResolver::new(ast.idents.len());
    sr.push_scope();
    assert_eq!(sr.new_def(IdentView::new(view, a_decl), ArenaId::new(7)), Ok(()));

    let mut calls = 0;
    let found = sr.resolve_def(IdentView::new(view, a_use), || {
        calls += 1;
        ArenaId::new(99)
    });
    assert_eq!(found, ArenaId::new(7));
    assert_eq!(calls, 0);
    let fallback = sr.resolve_def(IdentView::new(view, b_use), || {
        calls += 1;
        ArenaId::new(99)
    });
    assert_eq!(fallback, ArenaId::new(99));
    assert_eq!(calls, 1);

    let typs = Typs::new();
    let i32_name = ident_at(&ast, src.find("i32").unwrap());
    let t = sr.resolve_typ(IdentView::new(view, i32_name), || typs.error());
    assert_eq!(t, typs.error());

    let res = sr.into_resolutions();
    assert_eq!(res.get_def(a_use), Some(ArenaId::new(7)));
    assert_eq!(res.get_def(b_use), Some(ArenaId::new(99)));
    assert_eq!(res.get_typ(i32_name), Some(typs.error()));
}
