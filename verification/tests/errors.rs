use rix::errors::{ErrorPrinter, Errors};
use rix::lexer::Span;

fn sp(start: u32, end: u32) -> Span {
    Span { start, end }
}

#[test]
fn an_error_on_the_same_span_as_the_last_is_dropped() {
    let mut errors = Errors::new();
    errors.add("first".to_string(), sp(1, 2));
    errors.add("second".to_string(), sp(1, 2));
    errors.add("third".to_string(), sp(3, 4));
    errors.add("fourth".to_string(), sp(1, 2));
    let msgs: Vec<&str> = errors.as_slice().iter().map(|e| e.message.as_str()).collect();
    assert_eq!(msgs, vec!["first", "third", "fourth"]);
    assert_eq!(errors.len(), 3);
}

#[test]
fn sorting_orders_by_span_and_keeps_ties_in_order() {
    let mut errors = Errors::new();
    errors.add("c".to_string(), sp(9, 10));
    errors.add("a".to_string(), sp(1, 5));
    errors.add("b".to_string(), sp(1, 3));
    errors.add("d".to_string(), sp(4, 4));
    errors.add("e".to_string(), sp(1, 3));
    errors.sort();
    let msgs: Vec<&str> = errors.as_slice().iter().map(|e| e.message.as_str()).collect();
    assert_eq!(msgs, vec!["b", "e", "a", "d", "c"]);
}

#[test]
fn line_and_column_of_an_offset() {
    let p = ErrorPrinter::new("f.rix", "ab\ncd  \n\nxyz");
    assert_eq!(p.file(), "f.rix");
    assert_eq!(p.line_count(), 4);
    assert_eq!(p.get_line_col(0), (1, 1));
    assert_eq!(p.get_line_col(2), (1, 3));
    assert_eq!(p.get_line_col(3), (2, 1));
    assert_eq!(p.get_line_col(4), (2, 2));
    assert_eq!(p.get_line_col(8), (3, 1));
    assert_eq!(p.get_line_col(9), (4, 1));
    assert_eq!(p.get_line_col(11), (4, 3));
    assert_eq!(p.get_line_str(1), "ab");
    assert_eq!(p.get_line_str(2), "cd");
    assert_eq!(p.get_line_str(3), "");
    assert_eq!(p.get_line_str(4), "xyz");
}

#[test]
fn columns_count_bytes() {
    let p = ErrorPrinter::new("u.rix", "é=1\n");
    assert_eq!(p.get_line_col(2), (1, 3));
    assert_eq!(p.get_line_str(1), "é=1");
}
