use apl::cell::Cell;
use apl::rank::{rank_dyadic, rank_monadic};
use apl::shape::Shape;
use apl::value::ValueP;


fn ints(v: &ValueP) -> Vec<i64> {
    v.cells()
        .iter()
        .map(|c| c.get_int_value().unwrap())
        .collect()
}

fn mat(rows: i64, cols: i64, vals: &[i64]) -> ValueP {
    ValueP::from_parts(
        Shape::matrix(rows, cols),
        vals.iter().map(|&i| Cell::Int(i)).collect(),
    )
    .unwrap()
}


#[test]
fn test_rank1_reverses_each_row() {
    // (⌽⍤1)2 3⍴⍳6 → 3 2 1 / 6 5 4
    let m = mat(2, 3, &[1, 2, 3, 4, 5, 6]);
    let r = rank_monadic(&m, 1, apl::rotate::reverse).unwrap();
    assert_eq!(ints(&r), vec![3, 2, 1, 6, 5, 4]);
    assert_eq!(r.rank(), 2);
    assert_eq!(r.get_shape_item(0), 2);
    assert_eq!(r.get_shape_item(1), 3);
}

#[test]
fn test_rank_at_or_above_argument_rank_is_one_cell() {
    // (⌽⍤3) on a matrix treats the whole thing as one cell
    let m = mat(2, 3, &[1, 2, 3, 4, 5, 6]);
    let r = rank_monadic(&m, 3, apl::rotate::reverse).unwrap();
    let direct = apl::rotate::reverse(&m).unwrap();
    assert_eq!(ints(&r), ints(&direct));
}

#[test]
fn test_rank1_tally_gives_one_scalar_per_row() {
    // (≢⍤1)2 3⍴⍳6 → 3 3
    let m = mat(2, 3, &[1, 2, 3, 4, 5, 6]);
    let r = rank_monadic(&m, 1, apl::catenate::tally).unwrap();
    assert_eq!(ints(&r), vec![3, 3]);
    assert_eq!(r.rank(), 1);
}

#[test]
fn test_rank2_tally_of_matrix_is_a_scalar() {
    // (≢⍤2)2 3⍴⍳6 → 2 (whole matrix is one cell, empty frame)
    let m = mat(2, 3, &[1, 2, 3, 4, 5, 6]);
    let r = rank_monadic(&m, 2, apl::catenate::tally).unwrap();
    assert_eq!(ints(&r), vec![2]);
    assert_eq!(r.rank(), 0);
}

#[test]
fn test_rank1_on_cube_frames_correctly() {
    // (≢⍤1)2 2 2⍴⍳8 → 2 2 matrix of 2s
    let c = ValueP::from_parts(
        Shape::cube(2, 2, 2),
        (1..=8).map(Cell::Int).collect::<Vec<_>>(),
    )
    .unwrap();
    let r = rank_monadic(&c, 1, apl::catenate::tally).unwrap();
    assert_eq!(ints(&r), vec![2, 2, 2, 2]);
    assert_eq!(r.rank(), 2);
    assert_eq!(r.get_shape_item(0), 2);
    assert_eq!(r.get_shape_item(1), 2);
}

#[test]
fn test_rank1_reverse_on_cube() {
    // (⌽⍤1)2 2 2⍴⍳8 → 2 1 4 3 6 5 8 7
    let c = ValueP::from_parts(
        Shape::cube(2, 2, 2),
        (1..=8).map(Cell::Int).collect::<Vec<_>>(),
    )
    .unwrap();
    let r = rank_monadic(&c, 1, apl::rotate::reverse).unwrap();
    assert_eq!(ints(&r), vec![2, 1, 4, 3, 6, 5, 8, 7]);
    assert_eq!(r.rank(), 3);
}

#[test]
fn test_rank1_on_vector_is_the_whole_vector() {
    // (⌽⍤1)1 2 3 → 3 2 1
    let v = ValueP::int_vector(&[1, 2, 3]);
    let r = rank_monadic(&v, 1, apl::rotate::reverse).unwrap();
    assert_eq!(ints(&r), vec![3, 2, 1]);
}

#[test]
fn test_negative_rank_is_domain_error() {
    let v = ValueP::int_vector(&[1, 2, 3]);
    assert!(rank_monadic(&v, -1, apl::rotate::reverse).is_err());
}

#[test]
fn test_dyadic_rank_pairs_matching_frames() {
    // rows of A catenated with rows of B, per row
    let a = mat(2, 2, &[1, 2, 3, 4]);
    let b = mat(2, 2, &[5, 6, 7, 8]);
    let r = rank_dyadic(&a, &b, 1, 1, apl::catenate::catenate).unwrap();
    // row 0: 1 2 , 5 6 ; row 1: 3 4 , 7 8
    assert_eq!(ints(&r), vec![1, 2, 5, 6, 3, 4, 7, 8]);
    assert_eq!(r.rank(), 2);
    assert_eq!(r.get_shape_item(1), 4);
}

#[test]
fn test_dyadic_rank_with_separate_left_right_ranks() {
    // A←1 2 3, B←4 5 6
    let a = ValueP::int_vector(&[1, 2, 3]);
    let b = ValueP::int_vector(&[4, 5, 6]);

    // f⍤0 0: scalar cells pair up
    let r = rank_dyadic(&a, &b, 0, 0, apl::catenate::catenate).unwrap();
    assert_eq!(ints(&r), vec![1, 4, 2, 5, 3, 6]);
    assert_eq!(r.rank(), 2);
    assert_eq!(r.get_shape_item(0), 3);
    assert_eq!(r.get_shape_item(1), 2);

    // f⍤0 1: each scalar paired with the whole B
    let r = rank_dyadic(&a, &b, 0, 1, apl::catenate::catenate).unwrap();
    assert_eq!(ints(&r), vec![1, 4, 5, 6, 2, 4, 5, 6, 3, 4, 5, 6]);
    assert_eq!(r.get_shape_item(0), 3);
    assert_eq!(r.get_shape_item(1), 4);

    // f⍤1 0: whole A paired with each scalar
    let r = rank_dyadic(&a, &b, 1, 0, apl::catenate::catenate).unwrap();
    assert_eq!(ints(&r), vec![1, 2, 3, 4, 1, 2, 3, 5, 1, 2, 3, 6]);
    assert_eq!(r.get_shape_item(0), 3);
    assert_eq!(r.get_shape_item(1), 4);
}

#[test]
fn test_dyadic_rank_broadcasts_a_single_cell() {
    let a = ValueP::int_vector(&[9, 9]);
    let b = mat(2, 2, &[1, 2, 3, 4]);
    let r = rank_dyadic(&a, &b, 1, 1, apl::catenate::catenate).unwrap();
    assert_eq!(ints(&r), vec![9, 9, 1, 2, 9, 9, 3, 4]);
}

#[test]
fn test_ragged_results_are_length_error() {
    // a function whose result length varies per cell cannot be assembled
    let m = mat(2, 3, &[1, 2, 3, 4, 5, 6]);
    let r = rank_monadic(&m, 1, |c| {
        // return 1 cell for the first row, 2 for the second
        let n = if c.cells()[0].get_int_value()? == 1 {
            1
        } else {
            2
        };
        ValueP::from_parts(Shape::vector(n), vec![Cell::Int(0); n as usize])
    });
    assert!(r.is_err());
}
