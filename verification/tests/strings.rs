use rix::ast::symbols::{Symbol, Symbols};
use rix::lexer::Span;
use rix::arena::{Arena, ArenaId, ArenaRange};
use rix::strings::Interner;
use rix::errors::ErrorPrinter;
use rix::parser::string_literal_value;
use rix::text::utf8_width;

#[test]
fn interning_gives_one_id_per_string() {
    let mut interner = Interner::new();
    let a = interner.intern("main");
    let b = interner.intern("x");
    let c = interner.intern("main");
    assert_eq!(a, c);
    assert_ne!(a, b);
    assert_eq!(a.get(), 0);
    assert_eq!(b.get(), 1);
    assert_eq!(interner.resolve(a), "main");
    assert_eq!(interner.resolve(b), "x");
    assert_eq!(interner.contains("x"), Some(b));
    assert_eq!(interner.contains("y"), None);
}

#[test]
fn arena_ids_name_items_in_order() {
    let mut arena: Arena<u32> = Arena::new();
    let a = arena.add(10);
    let b = arena.add(20);
    assert_eq!(a.get(), 0);
    assert_eq!(b.get(), 1);
    assert_eq!(*arena.index(b), 20);
    *arena.get_mut(a).unwrap() = 11;
    assert_eq!(*arena.index(a), 11);
    assert!(arena.get_mut(ArenaId::new(9)).is_none());
    assert_eq!(arena.get(ArenaId::new(5)), None);
    let r = arena.alloc_iter(vec![30, 40, 50]);
    assert_eq!(r.len(), 3);
    assert_eq!(arena.slice(r), &[30, 40, 50]);
    assert_eq!(arena.len(), 5);
    let ids: Vec<u32> = ArenaRange::<u32>::new(ArenaId::new(1), ArenaId::new(3)).iter().iter().map(|i| i.get()).collect();
    assert_eq!(ids, vec![1, 2]);
}

#[test]
fn characters_and_back() {
    // the characters of a literal are read one by one, and written back as a string
    assert_eq!(string_literal_value("\"aßc\""), "aßc");
    assert_eq!(string_literal_value("\"\""), "");
    // lines are found by reading the characters of the source
    let p = ErrorPrinter::new("x.rix", "héllo\nwörld");
    assert_eq!(p.line_count(), 2);
    assert_eq!(p.get_line_col(7), (2, 1));
    assert_eq!(utf8_width('a'), 1);
    assert_eq!(utf8_width('é'), 2);
    assert_eq!(utf8_width('€'), 3);
    assert_eq!(utf8_width('😀'), 4);
}

#[test]
fn symbols_keep_names_and_spans() {
    let mut symbols = Symbols::new();
    let a = symbols.add("main", Span { start: 4, end: 8 });
    let b = symbols.add("x", Span { start: 10, end: 11 });
    let c = symbols.add("main", Span { start: 20, end: 24 });
    assert_eq!(a.get(), 0);
    assert_eq!(b.get(), 1);
    assert_eq!(c.get(), 2);
    assert_eq!(symbols.name(a), "main");
    assert_eq!(symbols.name(c), "main");
    assert_eq!(symbols.name(b), "x");
    assert_eq!(symbols.span(c), Span { start: 20, end: 24 });
    let s = Symbol::new(3u32, Span { start: 1, end: 2 }).map(|v| v * 2);
    assert_eq!(s, Symbol::new(6u32, Span { start: 1, end: 2 }));
}
