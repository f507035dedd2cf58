use mdt::Point;
use mdt::Position;

#[test]
fn advance_counts_columns_and_offsets() {
    let mut p = Point::new(1, 1, 0);
    p.advance("abc");
    assert_eq!(p, Point::new(1, 4, 3));
}

#[test]
fn advance_over_newline_resets_column() {
    let mut p = Point::new(1, 5, 4);
    p.advance("a\nbc");
    assert_eq!(p, Point::new(2, 2, 8));
    p.advance("\n");
    assert_eq!(p, Point::new(3, 0, 9));
}

#[test]
fn advance_counts_characters() {
    let mut p = Point::new(1, 1, 0);
    p.advance("é!");
    assert_eq!(p, Point::new(1, 3, 2));
}

#[test]
fn advance_empty_text_keeps_point() {
    let mut p = Point::new(7, 3, 40);
    p.advance("");
    assert_eq!(p, Point::new(7, 3, 40));
}

#[test]
fn position_constructors() {
    let a = Point::new(1, 2, 3);
    let b = Point::new(4, 5, 6);
    assert_eq!(Position::new(1, 2, 3, 4, 5, 6), Position::from_points(a, b));
    let empty = Position::from_point(a);
    assert_eq!(empty.start, a);
    assert_eq!(empty.end, a);
}

#[test]
fn position_advances_each_bound() {
    let mut p = Position::from_point(Point::new(1, 1, 0));
    p.advance_end("<!--");
    assert_eq!(p, Position::new(1, 1, 0, 1, 5, 4));
    p.advance_start("<!");
    assert_eq!(p, Position::new(1, 3, 2, 1, 5, 4));
}
