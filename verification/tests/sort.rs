use apl::cell::Cell;
use apl::sort::{grade_down, grade_up};
use apl::value::ValueP;


fn ints(v: &ValueP) -> Vec<i64> {
    v.cells()
        .iter()
        .map(|c| match c {
            Cell::Int(i) => *i,
            other => panic!("expected ints, got {:?}", other),
        })
        .collect()
}

#[test]
fn test_grade_up() {
    let b = ValueP::int_vector(&[30, 10, 20]);
    assert_eq!(ints(&grade_up(&b).unwrap()), [1, 2, 0]);
}

#[test]
fn test_grade_down() {
    let b = ValueP::int_vector(&[30, 10, 20]);
    assert_eq!(ints(&grade_down(&b).unwrap()), [0, 2, 1]);
}

#[test]
fn test_grade_up_sorted_roundtrip() {
    let b = ValueP::int_vector(&[5, 1, 4, 1, 3]);
    let g = grade_up(&b).unwrap();
    // apply the grade: B[⍋B] must be sorted
    let cells = b.cells();
    let sorted: Vec<i64> = g
        .cells()
        .iter()
        .map(|c| match c {
            Cell::Int(i) => match &cells[*i as usize] {
                Cell::Int(v) => *v,
                o => panic!("unexpected {:?}", o),
            },
            _ => panic!("expected int"),
        })
        .collect();
    assert_eq!(sorted, [1, 1, 3, 4, 5]);
}

#[test]
fn test_grade_stable_ties() {
    // ties keep left-to-right order: both 1s grade as 1 then 3
    let b = ValueP::int_vector(&[10, 1, 20, 1]);
    assert_eq!(ints(&grade_up(&b).unwrap()), [1, 3, 0, 2]);
}



#[test]
fn test_parser_intercepts_grade_so_io_applies() {
    // Locks the contract above: through the interpreter, ⍋ honors ⎕IO
    // even though the bare library helpers are fixed 0-based.
    let mut env = apl::parser::Environment::new();
    apl::sysvars::init_sysvars(&mut env);
    env.eval_line("B←30 10 20").unwrap();
    assert!(env.eval_line("⎕IO←1").unwrap().is_none());
    let r = eval_line_val(&mut env, "⍋B");
    assert_eq!(r.cells(), &[Cell::Int(2), Cell::Int(3), Cell::Int(1)]);
}

/// helper: evaluate a line that must produce a value
fn eval_line_val(env: &mut apl::parser::Environment, line: &str) -> ValueP {
    env.eval_line(line)
        .expect("eval failed")
        .expect("expected a result")
}
