use apl::cell::Cell;
use apl::parser::Environment;
use apl::quad::{quad_json, quad_rl, quad_ucs};
use apl::security::check_sec;
use apl::sysvars::{get_boxing, get_io, get_pp, init_sysvars, SEC_VAR};
use apl::value::ValueP;

fn ints(v: &ValueP) -> Vec<i64> {
    v.cells().iter().map(|c| c.get_int_value().unwrap()).collect()
}

#[test]
fn law_get_after_set_on_values() {
    let mut env = Environment::new();
    env.set("A", ValueP::int_vector(&[1, 2, 3]));
    env.set("B", ValueP::scalar_from(Cell::Int(7)));
    env.set("A", ValueP::scalar_from(Cell::Int(9)));
    assert_eq!(ints(env.get("A").unwrap()), vec![9]);
    assert_eq!(ints(env.get("B").unwrap()), vec![7]);
    env.erase_var("A");
    assert!(env.get("A").is_none());
    assert_eq!(ints(env.get("B").unwrap()), vec![7]);
}

#[test]
fn law_take_drop_split_on_values() {
    let v = ValueP::int_vector(&[5, 6, 7, 8]);
    for k in 0..=4 {
        let x = ValueP::scalar_from(Cell::Int(k));
        let t = apl::take_drop::take(&x, &v).unwrap();
        let d = apl::take_drop::drop(&x, &v).unwrap();
        let joined = apl::catenate::catenate(&t, &d).unwrap();
        assert_eq!(ints(&joined), vec![5, 6, 7, 8]);
    }
}

#[test]
fn law_ucs_round_trip_on_values() {
    let v = ValueP::char_vector(&['a' as u32, '⍳' as u32, 'Z' as u32]);
    let codes = quad_ucs(&v).unwrap();
    assert_eq!(ints(&codes), vec![97, 9075, 90]);
    let back = quad_ucs(&codes).unwrap();
    assert_eq!(back.cells(), v.cells());
}

#[test]
fn law_rl_read_after_write_on_values() {
    let mut seed: u64 = 1;
    quad_rl(&mut seed, &ValueP::int_vector(&[-5])).unwrap();
    let read = quad_rl(&mut seed, &ValueP::int_vector(&[])).unwrap();
    assert_eq!(ints(&read), vec![-5]);
}

#[test]
fn law_int_text_round_trip_on_values() {
    for n in [0i64, 42, -42, i64::MAX, i64::MIN] {
        let text = quad_json(&ValueP::scalar_from(Cell::Int(n))).unwrap();
        let back = quad_json(&text).unwrap();
        assert_eq!(ints(&back), vec![n]);
    }
}

#[test]
fn law_defaults_read_back_on_values() {
    let mut env = Environment::new();
    init_sysvars(&mut env);
    assert_eq!(get_io(&env).unwrap(), 0);
    assert_eq!(get_pp(&env).unwrap(), 10);
    assert!(get_boxing(&env));
}

#[test]
fn law_levels_cumulative_on_values() {
    let mut env = Environment::new();
    init_sysvars(&mut env);
    for op in ["EXECUTE", "SAVE", "OTHER"] {
        assert!(check_sec(&env, op).is_ok());
    }
    env.set(SEC_VAR, ValueP::scalar_from(Cell::Int(1)));
    assert!(check_sec(&env, "EXECUTE").is_err());
    env.set(SEC_VAR, ValueP::scalar_from(Cell::Int(2)));
    assert!(check_sec(&env, "EXECUTE").is_err());
    assert!(check_sec(&env, "SAVE").is_err());
    assert_eq!(
        check_sec(&env, "SAVE").unwrap_err(),
        "SECURITY ERROR: SAVE is blocked at ⎕SEC=2 (requires ⎕SEC<2)"
    );
}

#[test]
fn law_reverse_twice_on_values() {
    let v = ValueP::int_vector(&[3, 1, 2]);
    let once = apl::rotate::reverse(&v).unwrap();
    let twice = apl::rotate::reverse(&once).unwrap();
    assert_eq!(ints(&twice), vec![3, 1, 2]);
}

#[test]
fn law_pick_after_assign_on_values() {
    let mut env = Environment::new();
    env.eval_line("N←(10 20)(30 40)").unwrap();
    env.eval_line("(1 0⊃N)←5").unwrap();
    let v = env.eval_line("1 0⊃N").unwrap().unwrap();
    assert_eq!(ints(&v), vec![5]);
}

#[test]
fn residue_takes_the_sign_of_the_left_argument() {
    let mut env = Environment::new();
    let v = env.eval_line("3 ¯3 0|7 7 7").unwrap().unwrap();
    assert_eq!(ints(&v), vec![1, -2, 7]);
}

#[test]
fn find_marks_each_start() {
    let mut env = Environment::new();
    let v = env.eval_line("1 1⍷1 1 1 0").unwrap().unwrap();
    assert_eq!(ints(&v), vec![1, 1, 0, 0]);
}

#[test]
fn error_guard_falls_back() {
    let mut env = Environment::new();
    let v = env.eval_line("⎕EA 1 2+1 2 3 ⋄ 7").unwrap().unwrap();
    assert_eq!(ints(&v), vec![7]);
}

#[test]
fn dlx_cover_rows_cover_each_column_once() {
    let shape = apl::shape::Shape::matrix(3, 3);
    let b = ValueP::from_parts(shape, vec![
        Cell::Int(1), Cell::Int(1), Cell::Int(0),
        Cell::Int(0), Cell::Int(1), Cell::Int(1),
        Cell::Int(0), Cell::Int(0), Cell::Int(1),
    ]).unwrap();
    let z = apl::quad::quad_dlx(&b).unwrap();
    assert_eq!(ints(&z), vec![1, 1, 0, 0, 0, 1]);
}

#[test]
fn dlx_without_cover_is_empty() {
    let b = ValueP::from_parts(apl::shape::Shape::matrix(1, 2), vec![Cell::Int(1), Cell::Int(0)]).unwrap();
    let z = apl::quad::quad_dlx(&b).unwrap();
    assert_eq!(z.element_count(), 0);
}

#[test]
fn xml_reads_between_tags() {
    let text: Vec<u32> = "  <a>x y</a> ".chars().map(|c| c as u32).collect();
    let z = apl::quad::quad_xml(&ValueP::char_vector(&text)).unwrap();
    let s: String = z.cells().iter().map(|c| char::from_u32(c.get_char_value().unwrap()).unwrap()).collect();
    assert_eq!(s, "x y");
}

#[test]
fn json_array_with_a_bad_item_is_a_domain_error() {
    let text: Vec<u32> = "[1, x, 3]".chars().map(|c| c as u32).collect();
    assert!(quad_json(&ValueP::char_vector(&text)).is_err());
}

#[test]
fn power_of_integers() {
    let mut env = apl::parser::Environment::new();
    let v = env.eval_line("2*10").unwrap().unwrap();
    assert_eq!(v.first_cell(), Some(&apl::cell::Cell::Int(1024)));
    let v = env.eval_line("¯2*3").unwrap().unwrap();
    assert_eq!(v.first_cell(), Some(&apl::cell::Cell::Int(-8)));
    let v = env.eval_line("0*0").unwrap().unwrap();
    assert_eq!(v.first_cell(), Some(&apl::cell::Cell::Int(1)));
    let v = env.eval_line("¯1*5").unwrap().unwrap();
    assert_eq!(v.first_cell(), Some(&apl::cell::Cell::Int(-1)));
    assert_eq!(env.eval_line("2*64").err(), Some(apl::types::ErrorCode::LimitError));
    assert_eq!(env.eval_line("2*¯1").err(), Some(apl::types::ErrorCode::DomainError));
}

fn int_cells(v: &ValueP) -> Vec<i64> {
    v.cells()
        .iter()
        .map(|c| match c {
            Cell::Int(i) => *i,
            other => panic!("expected integers, got {other:?}"),
        })
        .collect()
}

#[test]
fn test_law_rotate_back() {
    let b = ValueP::int_vector(&[1, 2, 3, 4, 5]);
    let r = apl::rotate::rotate(&ValueP::int_vector(&[2]), &b).unwrap();
    let back = apl::rotate::rotate(&ValueP::int_vector(&[-2]), &r).unwrap();
    assert_eq!(int_cells(&back), vec![1, 2, 3, 4, 5]);
}

#[test]
fn test_law_unique_distinct_first_occurrence() {
    let u = apl::union::unique(&ValueP::int_vector(&[3, 1, 3, 2, 1])).unwrap();
    assert_eq!(int_cells(&u), vec![3, 1, 2]);
}

#[test]
fn test_law_intersection_keeps_order_of_a() {
    let a = ValueP::int_vector(&[5, 1, 4, 1, 2]);
    let b = ValueP::int_vector(&[1, 2, 9]);
    let r = apl::union::intersection(&a, &b).unwrap();
    assert_eq!(int_cells(&r), vec![1, 1, 2]);
}

#[test]
fn test_law_grade_stable_permutation() {
    let g = apl::sort::grade_up(&ValueP::int_vector(&[2, 1, 2, 1])).unwrap();
    assert_eq!(int_cells(&g), vec![1, 3, 0, 2]);
}

#[test]
fn test_law_modified_assignment_keeps_operand_order() {
    let mut env = Environment::new();
    env.eval_line("X←10 20").unwrap();
    let v = env.eval_line("X-←3").unwrap();
    assert!(v.is_none() || int_cells(&v.unwrap()) == vec![7, 17]);
    assert_eq!(int_cells(&env.eval_line("X").unwrap().unwrap()), vec![7, 17]);
}

#[test]
fn law_transpose_twice_on_values() {
    let mut env = Environment::new();
    env.eval_line("M←2 3 4⍴⍳24").unwrap();
    let t = env.eval_line("⍉M").unwrap().unwrap();
    assert_eq!(t.get_shape_item(0), 4);
    assert_eq!(t.get_shape_item(2), 2);
    let back = env.eval_line("⍉⍉M").unwrap().unwrap();
    let m = env.eval_line("M").unwrap().unwrap();
    assert_eq!(ints(&back), ints(&m));
    assert_eq!(back.get_shape_item(0), 2);
}

#[test]
fn law_dyadic_transpose_reversed_on_values() {
    let mut env = Environment::new();
    env.eval_line("M←2 3 4⍴⍳24").unwrap();
    let a = env.eval_line("2 1 0⍉M").unwrap().unwrap();
    let b = env.eval_line("⍉M").unwrap().unwrap();
    assert_eq!(ints(&a), ints(&b));
    assert_eq!(a.get_shape_item(0), 4);
    assert_eq!(a.get_shape_item(1), 3);
    assert_eq!(a.get_shape_item(2), 2);
}

#[test]
fn law_replicate_catenation_on_values() {
    let mut env = Environment::new();
    let whole = env.eval_line("1 2 0 3/5 6 7 8").unwrap().unwrap();
    let parts = env.eval_line("(1 2/5 6),0 3/7 8").unwrap().unwrap();
    assert_eq!(ints(&whole), vec![5, 6, 6, 8, 8, 8]);
    assert_eq!(ints(&whole), ints(&parts));
}
