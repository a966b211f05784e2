use apl::cell::{Cell, PointerCellData};
use apl::pick::pick;
use apl::shape::Shape;
use apl::types::ErrorCode;
use apl::value::{ValueInner, ValueP};


fn ints(v: &ValueP) -> Vec<i64> {
    v.cells()
        .iter()
        .map(|c| match c {
            Cell::Int(i) => *i,
            other => panic!("expected ints, got {:?}", other),
        })
        .collect()
}

#[test]
fn test_pick_vector_scalar_index() {
    // 2 ⊃ 10 20 30 → 30
    let b = ValueP::int_vector(&[10, 20, 30]);
    let a = ValueP::scalar_from(Cell::Int(2));
    assert_eq!(ints(&pick(&a, &b).unwrap()), [30]);
}

#[test]
fn test_pick_empty_a_returns_b() {
    let b = ValueP::int_vector(&[10, 20]);
    let a = ValueP::int_vector(&[]);
    assert_eq!(ints(&pick(&a, &b).unwrap()), [10, 20]);
}

#[test]
fn test_pick_matrix_coords_then_vector() {
    // S←2 3⍴'ABCDEF'; with ⎕IO←0 the coordinates (1 2) pick 'F'
    let shape = Shape::matrix(2, 3);
    let s = ValueP::from_parts(
        shape,
        vec![
            Cell::char('A' as u32),
            Cell::char('B' as u32),
            Cell::char('C' as u32),
            Cell::char('D' as u32),
            Cell::char('E' as u32),
            Cell::char('F' as u32),
        ],
    )
    .unwrap();
    // 0-based coords for row 1 col 2 = 'F', then index... it's a scalar
    // so a second Scalar level would RANK ERROR. Use just Coords:
    let a = ValueP::from_parts(
        Shape::vector(1),
        vec![Cell::Pointer(PointerCellData {
            value: std::sync::Arc::new(ValueInner::new(
                Shape::vector(2),
                vec![Cell::Int(1), Cell::Int(2)],
            )),
        })],
    )
    .unwrap();
    let z = pick(&a, &s).unwrap();
    assert_eq!(z.cells(), &[Cell::char('F' as u32)][..]);
}

#[test]
fn test_pick_into_nested() {
    // N ← (10 20)(30 40); (0 1)⊃N should give N[0][1] = 20
    let n = apl::parser::Environment::new();
    drop(n);
    let inner0 = rc_value(vec![10, 20]);
    let inner1 = rc_value(vec![30, 40]);
    let n = ValueP::from_parts(
        Shape::vector(2),
        vec![
            Cell::Pointer(PointerCellData { value: inner0 }),
            Cell::Pointer(PointerCellData { value: inner1 }),
        ],
    )
    .unwrap();
    // A = (⊂0)(⊂1) is written as the flat path [0, 1]:
    // first level: N[0] = (10 20), second level: [1] of it = 20
    let a = ValueP::int_vector(&[0, 1]);
    assert_eq!(ints(&pick(&a, &n).unwrap()), [20]);

    let a = ValueP::int_vector(&[1, 0]);
    assert_eq!(ints(&pick(&a, &n).unwrap()), [30]);
}

#[test]
fn test_pick_index_out_of_range() {
    let b = ValueP::int_vector(&[10, 20]);
    let a = ValueP::scalar_from(Cell::Int(9));
    assert!(pick(&a, &b).is_err());
}

#[test]
fn test_pick_rank_error_on_matrix_a() {
    let b = ValueP::int_vector(&[10, 20]);
    let shape = Shape::matrix(1, 1);
    let a = ValueP::from_parts(shape, vec![Cell::Int(0)]).unwrap();
    assert!(matches!(pick(&a, &b), Err(ErrorCode::RankError)));
}

/// helper: build an Arc<ValueInner> int vector
fn rc_value(vals: Vec<i64>) -> std::sync::Arc<ValueInner> {
    std::sync::Arc::new(ValueInner::new(
        Shape::vector(vals.len() as i64),
        vals.into_iter().map(Cell::Int).collect(),
    ))
}
