use apl::cell::Cell;
use apl::shape::Shape;
use apl::squad::{reverse_first, rotate_first, squad};
use apl::value::ValueP;


#[test]
fn squad_test_squad_vector() {
    let b = ValueP::int_vector(&[10, 20, 30]);
    let a = ValueP::int_vector(&[1]); // 0-based index
    let r = squad(&a, &b).unwrap();
    assert_eq!(r.first_cell().unwrap().get_int_value().unwrap(), 20);
}

#[test]
fn squad_test_squad_matrix() {
    // 2x3 matrix: [[1 2 3] [4 5 6]]
    let b = ValueP::from_parts(
        Shape::matrix(2, 3),
        vec![
            Cell::Int(1),
            Cell::Int(2),
            Cell::Int(3),
            Cell::Int(4),
            Cell::Int(5),
            Cell::Int(6),
        ],
    )
    .unwrap();
    // Index [1, 2] → row 1, col 2 → value 6
    let a = ValueP::int_vector(&[1, 2]);
    let r = squad(&a, &b).unwrap();
    assert_eq!(r.first_cell().unwrap().get_int_value().unwrap(), 6);
    // Index [0, 0] → 1
    let a = ValueP::int_vector(&[0, 0]);
    let r = squad(&a, &b).unwrap();
    assert_eq!(r.first_cell().unwrap().get_int_value().unwrap(), 1);
}

#[test]
fn test_squad_out_of_bounds() {
    let b = ValueP::int_vector(&[10, 20, 30]);
    let a = ValueP::int_vector(&[5]);
    assert!(squad(&a, &b).is_err());
}

#[test]
fn test_reverse_first_matrix() {
    // 2x3: [[1 2 3] [4 5 6]] → [[4 5 6] [1 2 3]]
    let b = ValueP::from_parts(
        Shape::matrix(2, 3),
        vec![
            Cell::Int(1),
            Cell::Int(2),
            Cell::Int(3),
            Cell::Int(4),
            Cell::Int(5),
            Cell::Int(6),
        ],
    )
    .unwrap();
    let r = reverse_first(&b).unwrap();
    let ints: Vec<i64> = r
        .cells()
        .iter()
        .map(|c| c.get_int_value().unwrap())
        .collect();
    assert_eq!(ints, vec![4, 5, 6, 1, 2, 3]);
}

#[test]
fn test_rotate_first_matrix() {
    // 2x3: [[1 2 3] [4 5 6]] → rotate first axis by 1 → [[4 5 6] [1 2 3]]
    let b = ValueP::from_parts(
        Shape::matrix(2, 3),
        vec![
            Cell::Int(1),
            Cell::Int(2),
            Cell::Int(3),
            Cell::Int(4),
            Cell::Int(5),
            Cell::Int(6),
        ],
    )
    .unwrap();
    let a = ValueP::int_vector(&[1]);
    let r = rotate_first(&a, &b).unwrap();
    let ints: Vec<i64> = r
        .cells()
        .iter()
        .map(|c| c.get_int_value().unwrap())
        .collect();
    assert_eq!(ints, vec![4, 5, 6, 1, 2, 3]);
}
