use apl::cell::Cell;
use apl::quad_re::quad_re;
use apl::shape::Shape;
use apl::value::ValueP;

fn arg(op: i64, rest: &str) -> ValueP {
    let mut cells = vec![Cell::Int(op)];
    cells.extend(rest.chars().map(|c| Cell::Char(c as u32)));
    let n = cells.len() as i64;
    ValueP::from_parts(Shape::vector(n), cells).unwrap()
}

fn text(v: &ValueP) -> String {
    v.cells()
        .iter()
        .map(|c| match c {
            Cell::Char(u) => char::from_u32(*u).unwrap(),
            other => panic!("expected characters, got {other:?}"),
        })
        .collect()
}

fn ints(v: &ValueP) -> Vec<i64> {
    v.cells()
        .iter()
        .map(|c| match c {
            Cell::Int(i) => *i,
            other => panic!("expected integers, got {other:?}"),
        })
        .collect()
}

#[test]
fn test_quad_re_find() {
    // pattern b in abcb: matches at 1..2 and 3..4
    let r = quad_re(&arg(0, "babcb")).unwrap();
    assert_eq!(ints(&r), vec![1, 2, 3, 4]);
}

#[test]
fn test_quad_re_find_none_is_empty() {
    let r = quad_re(&arg(0, "zabc")).unwrap();
    assert_eq!(r.cells().len(), 0);
}

#[test]
fn test_quad_re_replace() {
    // the text is abc (cells from the third on), the replacement bc (from the fourth on)
    let r = quad_re(&arg(1, "babc")).unwrap();
    assert_eq!(text(&r), "abcc");
}

#[test]
fn test_quad_re_split() {
    let r = quad_re(&arg(2, "babcb")).unwrap();
    assert_eq!(text(&r), "a\nc\n");
}

#[test]
fn test_quad_re_errors() {
    assert!(quad_re(&ValueP::int_vector(&[0, 1])).is_err());
    assert!(quad_re(&arg(3, "babc")).is_err());
    // a lone ( is no pattern
    assert!(quad_re(&arg(0, "(abc")).is_err());
}
