use apl::cell::Cell;
use apl::parser::Environment;
use apl::value::ValueP;

fn eval_one(env: &mut Environment, line: &str) -> ValueP {
    env.eval_line(line)
        .expect("eval failed")
        .expect("expected a result")
}

fn eval_int(line: &str) -> i64 {
    let mut env = Environment::new();
    let v = eval_one(&mut env, line);
    match v.first_cell().unwrap() {
        Cell::Int(i) => *i,
        other => panic!("expected int scalar, got {:?}", other),
    }
}

/// numeric value of an expression against an existing environment
fn eval_num_in(env: &mut Environment, line: &str) -> f64 {
    let v = eval_one(env, line);
    match v.first_cell().unwrap() {
        Cell::Int(i) => *i as f64,
        other => panic!("expected a number for {line:?}, got {other:?}"),
    }
}

/// all cells of a result as integers, in ravel order
fn ravel_ints(env: &mut Environment, line: &str) -> Vec<i64> {
    eval_one(env, line)
        .cells()
        .iter()
        .map(|c| match c {
            Cell::Int(i) => *i,
            other => panic!("expected numbers for {line:?}, got {other:?}"),
        })
        .collect()
}

fn eval_int_env(env: &mut Environment, line: &str) -> i64 {
    match eval_one(env, line).first_cell().unwrap() {
        Cell::Int(i) => *i,
        other => panic!("expected int scalar, got {:?}", other),
    }
}

#[test]
fn test_right_to_left() {
    // 2×3+4 must be 2×(3+4)=14, not (2×3)+4=10
    assert_eq!(eval_int("2×3+4"), 14);
    // 5-1-2 must be 5-(1-2)=6, not (5-1)-2=2
    assert_eq!(eval_int("5-1-2"), 6);
}

#[test]
fn test_parentheses_override() {
    assert_eq!(eval_int("(2×3)+4"), 10);
}

#[test]
fn test_assignment() {
    let mut env = Environment::new();
    // assignments produce no displayed result...
    assert!(env.eval_line("X←42").unwrap().is_none());
    // ...but bind the name
    assert_eq!(eval_int_env(&mut env, "X"), 42);
    // and the bound name works in later expressions
    assert_eq!(eval_int_env(&mut env, "X+1"), 43);
}

#[test]
fn test_reduce_works() {
    // reduce was implemented: +/⍳5 = 10
    let mut env = Environment::new();
    assert_eq!(eval_int_env(&mut env, "+/⍳5"), 10);
}

#[test]
fn test_monadic_iota_vector() {
    let mut env = Environment::new();
    let v = eval_one(&mut env, "⍳5");
    let cells: Vec<i64> = v
        .cells()
        .iter()
        .map(|c| match c {
            Cell::Int(i) => *i,
            _ => panic!("expected ints"),
        })
        .collect();
    assert_eq!(cells, vec![0, 1, 2, 3, 4]);
}

#[test]
fn test_scalar_extension() {
    let mut env = Environment::new();
    env.eval_line("V←⍳4").unwrap();
    let v = eval_one(&mut env, "100+V");
    let cells: Vec<i64> = v
        .cells()
        .iter()
        .map(|c| match c {
            Cell::Int(i) => *i,
            _ => panic!("expected ints"),
        })
        .collect();
    assert_eq!(cells, vec![100, 101, 102, 103]);
}

#[test]
fn test_syntax_error() {
    let mut env = Environment::new();
    assert!(env.eval_line("2+").is_err());
    assert!(env.eval_line("(2+3").is_err());
    assert!(env.eval_line("$5").is_err());
}

#[test]
fn test_reshape() {
    let mut env = Environment::new();
    env.eval_line("M←2 3⍴⍳6").unwrap();
    let m = env.get("M").expect("M not set");
    assert_eq!(m.rank(), 2);
    assert_eq!(m.element_count(), 6);
    let cells: Vec<i64> = m
        .cells()
        .iter()
        .map(|c| match c {
            Cell::Int(i) => *i,
            _ => panic!("expected ints"),
        })
        .collect();
    assert_eq!(cells, vec![0, 1, 2, 3, 4, 5]);
}

#[test]
fn test_shape_of() {
    let mut env = Environment::new();
    env.eval_line("M←2 3⍴⍳6").unwrap();
    let s = eval_one(&mut env, "⍴M");
    let cells: Vec<i64> = s
        .cells()
        .iter()
        .map(|c| match c {
            Cell::Int(i) => *i,
            _ => panic!("expected ints"),
        })
        .collect();
    assert_eq!(cells, vec![2, 3]);
}

#[test]
fn test_commute_stray_is_syntax_error() {
    let mut env = Environment::new();
    assert!(env.eval_line("⍨5").is_err());
}

#[test]
fn test_nested_literal_strand() {
    let mut env = Environment::new();
    let v = eval_one(&mut env, "(1 2)(3 4 5)");
    assert_eq!(v.element_count(), 2);
    assert!(v.is_vector());
    // each element is a pointer to the enclosed vector
    for c in v.cells() {
        match c {
            Cell::Pointer(p) => {
                assert_eq!(p.value.shape().get_rank(), 1);
            }
            o => panic!("expected pointer, got {:?}", o),
        }
    }
    // disclose both and check contents
    let first = match &v.cells()[0] {
        Cell::Pointer(p) => p.value.clone(),
        _ => panic!(),
    };
    let cells: Vec<i64> = first
        .cells()
        .iter()
        .map(|c| match c {
            Cell::Int(i) => *i,
            _ => panic!("expected ints"),
        })
        .collect();
    assert_eq!(cells, vec![1, 2]);

    let second = match &v.cells()[1] {
        Cell::Pointer(p) => p.value.clone(),
        _ => panic!(),
    };
    let cells: Vec<i64> = second
        .cells()
        .iter()
        .map(|c| match c {
            Cell::Int(i) => *i,
            _ => panic!("expected ints"),
        })
        .collect();
    assert_eq!(cells, vec![3, 4, 5]);
}

#[test]
fn test_nested_literal_mixed_lengths() {
    // (1)(2 3) — a scalar item and a vector item in one nested vector
    let mut env = Environment::new();
    let v = eval_one(&mut env, "(1)(2 3)");
    assert_eq!(v.element_count(), 2);
    let lens: Vec<i64> = v
        .cells()
        .iter()
        .map(|c| match c {
            Cell::Pointer(p) => p.value.element_count(),
            _ => panic!("expected pointers"),
        })
        .collect();
    assert_eq!(lens, vec![1, 2]);
}

#[test]
fn test_nested_literal_with_exprs() {
    // elements can be arbitrary expressions: (2+3)(⍳4)
    let mut env = Environment::new();
    let v = eval_one(&mut env, "(2+3)(⍳4)");
    assert_eq!(v.element_count(), 2);
    let second = match &v.cells()[1] {
        Cell::Pointer(p) => p.value.clone(),
        _ => panic!(),
    };
    assert_eq!(second.element_count(), 4);
}

#[test]
fn test_mixed_reshape() {
    let mut env = Environment::new();
    assert!(env.eval_line("M←2 2⍴1 'a' 2 'b'").is_ok());
    let m = eval_one(&mut env, "M");
    assert_eq!(m.rank(), 2);
    assert_eq!(m.element_count(), 4);
    // pick M[1] — the nested 'a' (0-based ravel index 1)
    let picked = eval_one(&mut env, "⊃M[1]");
    assert_eq!(picked.cells(), &[Cell::Char(97)][..]);
}

#[test]
fn test_numeric_strand_still_flat() {
    // all-number strands must remain FLAT vectors (not nested)
    let mut env = Environment::new();
    let v = eval_one(&mut env, "2 3⍴1 2 3 4 5 6");
    assert_eq!(v.rank(), 2);
    for c in v.cells() {
        assert!(
            matches!(c, Cell::Int(_)),
            "numeric strand must stay flat, got {:?}",
            c
        );
    }
}

#[test]
fn test_each_dyad() {
    let mut env = Environment::new();
    // 1 +¨ ⍳3 → simple scalars (no boxing for simple results)
    let v = eval_one(&mut env, "1+¨⍳3");
    assert_eq!(v.element_count(), 3);
    let expect = [1, 2, 3];
    for (i, e) in expect.iter().enumerate() {
        match &v.cells()[i] {
            Cell::Int(x) => assert_eq!(*x, *e),
            o => panic!("expected int, got {:?}", o),
        }
    }
}

#[test]
fn test_each_dyad_vector_vector() {
    // 10 20 +¨ 1 2 → simple scalars (11) (22)
    let mut env = Environment::new();
    let v = eval_one(&mut env, "10 20+¨1 2");
    assert_eq!(v.element_count(), 2);
    for (i, e) in [11, 22].iter().enumerate() {
        match &v.cells()[i] {
            Cell::Int(x) => assert_eq!(*x, *e),
            o => panic!("expected int, got {:?}", o),
        }
    }
}

#[test]
fn test_each_dyad_length_error() {
    let mut env = Environment::new();
    assert!(env.eval_line("10 20 30+¨1 2").is_err());
}

#[test]
fn test_pick_assignment() {
    let mut env = Environment::new();
    assert!(env.eval_line("N←(10 20)(30 40)").is_ok());
    // (0 1⊃N)←99 replaces N[0][1]
    assert!(env.eval_line("(0 1⊃N)←99").unwrap().is_none());
    // verify: ∊N → 10 99 30 40
    let z = eval_one(&mut env, "∊N");
    assert_eq!(
        z.cells(),
        &[
            Cell::Int(10),
            Cell::Int(99),
            Cell::Int(30),
            Cell::Int(40)
        ][..]
    );
}

#[test]
fn test_pick_assignment_cow_safety() {
    let mut env = Environment::new();
    assert!(env.eval_line("A←(1 2)(3 4)").is_ok());
    assert!(env.eval_line("B←A").unwrap().is_none());
    assert!(env.eval_line("(0 0⊃B)←77").unwrap().is_none());
    // A must be untouched
    let a = eval_one(&mut env, "∊A");
    assert_eq!(
        a.cells(),
        &[
            Cell::Int(1),
            Cell::Int(2),
            Cell::Int(3),
            Cell::Int(4)
        ][..]
    );
    let b = eval_one(&mut env, "∊B");
    assert_eq!(
        b.cells(),
        &[
            Cell::Int(77),
            Cell::Int(2),
            Cell::Int(3),
            Cell::Int(4)
        ][..]
    );
}

#[test]
fn test_quad_io_iota_and_indexing() {
    let mut env = Environment::new();
    apl::sysvars::init_sysvars(&mut env);
    // default ⎕IO=0
    assert_eq!(eval_int_env(&mut env, "⍳3"), 0);
    // switch to 1-based: ⍳3 → 1 2 3 and B[1] reads the FIRST element
    env.eval_line("⎕IO←1").unwrap();
    let v = eval_one(&mut env, "⍳3");
    assert_eq!(
        v.cells(),
        &[
            Cell::Int(1),
            Cell::Int(2),
            Cell::Int(3)
        ][..]
    );
    env.eval_line("B←10 20 30").unwrap();
    assert_eq!(eval_int_env(&mut env, "B[1]"), 10);
    assert_eq!(eval_int_env(&mut env, "B[3]"), 30);
    // back to 0
    env.eval_line("⎕IO←0").unwrap();
    assert_eq!(eval_int_env(&mut env, "B[0]"), 10);
}

#[test]
fn test_quad_io_index_of() {
    // index-of results are ⎕IO-shifted: under ⎕IO=1 the first position
    // is 1 and "not found" is len+1.
    let mut env = Environment::new();
    apl::sysvars::init_sysvars(&mut env);
    env.eval_line("A←10 20 30").unwrap();
    // ⎕IO=0: 20 is at 0-based position 1; 99 not found → len=3
    assert_eq!(eval_int_env(&mut env, "A⍳20"), 1);
    assert_eq!(eval_int_env(&mut env, "A⍳99"), 3);
    // ⎕IO=1: positions shift up
    env.eval_line("⎕IO←1").unwrap();
    assert_eq!(eval_int_env(&mut env, "A⍳20"), 2);
    assert_eq!(eval_int_env(&mut env, "A⍳99"), 4);
    // vector result: shape follows B
    let v = eval_one(&mut env, "A⍳20 30");
    assert_eq!(
        v.cells(),
        &[Cell::Int(2), Cell::Int(3)][..]
    );
}

#[test]
fn test_quad_io_grade() {
    // grade results are ⎕IO-shifted too
    let mut env = Environment::new();
    apl::sysvars::init_sysvars(&mut env);
    env.eval_line("B←30 10 20").unwrap();
    // ⎕IO=0: ⍋B → 1 2 0 (10,20,30)
    assert_eq!(eval_int_env(&mut env, "⍋B"), 1);
    // ⎕IO=1: shifted to 2 3 1
    env.eval_line("⎕IO←1").unwrap();
    let g = eval_one(&mut env, "⍋B");
    assert_eq!(
        g.cells(),
        &[
            Cell::Int(2),
            Cell::Int(3),
            Cell::Int(1)
        ][..]
    );
    // B[⍋B] still sorts correctly under IO=1
    let sorted = eval_one(&mut env, "B[⍋B]");
    assert_eq!(
        sorted.cells(),
        &[
            Cell::Int(10),
            Cell::Int(20),
            Cell::Int(30)
        ][..]
    );
}

#[test]
fn test_dyadic_axis_syntax() {
    let mut env = Environment::new();
    apl::sysvars::init_sysvars(&mut env);
    env.eval_line("M←2 3⍴⍳6").unwrap();
    // 1↑[0]M takes the first ROW (axis 0)
    let z = eval_one(&mut env, "1↑[0]M");
    assert_eq!(z.rank(), 2);
    assert_eq!(
        z.cells(),
        &[
            Cell::Int(0),
            Cell::Int(1),
            Cell::Int(2)
        ][..]
    );
    // 1↓[0]M drops the first ROW
    let d = eval_one(&mut env, "1↓[0]M");
    assert_eq!(
        d.cells(),
        &[
            Cell::Int(3),
            Cell::Int(4),
            Cell::Int(5)
        ][..]
    );
    // axis-1 take keeps all rows, so it equals the per-axis form 2 2↑M.
    // Plain `2↑M` on a matrix is a LENGTH ERROR: the left argument of
    // take/drop needs one count PER AXIS.
    let a = eval_one(&mut env, "2↑[1]M");
    let b = eval_one(&mut env, "2 2↑M");
    assert_eq!(a.cells(), b.cells());
    assert!(env.eval_line("2↑M").is_err());
    // rotate along axis 0 (columns rotate vertically): 1⌽[0]M
    // rows [0 1 2],[3 4 5] → each COLUMN rotates: col0: 0,3→3,0; col1: 1,4→4,1; col2: 2,5→5,2
    let r = eval_one(&mut env, "1⌽[0]M");
    assert_eq!(
        r.cells(),
        &[
            Cell::Int(3),
            Cell::Int(4),
            Cell::Int(5),
            Cell::Int(0),
            Cell::Int(1),
            Cell::Int(2)
        ][..]
    );
}

#[test]
fn test_error_guard() {
    let mut env = Environment::new();
    apl::sysvars::init_sysvars(&mut env);
    // ÷0 gives infinity, not an error, so the guards below fail in other
    // ways: DOMAIN ERROR on bad shapes, VALUE ERROR on undefined names.
    // guard fails (undefined name → VALUE ERROR) → fallback runs
    assert_eq!(eval_int_env(&mut env, "⎕EA NOPE+1 ⋄ 99"), 99);
    // guard succeeds → fallback NOT evaluated (would also fail)
    assert_eq!(eval_int_env(&mut env, "⎕EA 5+5 ⋄ NOPE"), 10);
    // index error: B[99] on a 3-element vector errors; fallback runs
    env.eval_line("B←10 20 30").unwrap();
    assert_eq!(eval_int_env(&mut env, "⎕EA B[99] ⋄ 42"), 42);
    // valid index returns normally
    assert_eq!(eval_int_env(&mut env, "⎕EA B[0] ⋄ 42"), 10);
}

#[test]
fn test_matrix_product() {
    let mut env = Environment::new();
    apl::sysvars::init_sysvars(&mut env);
    // 2x2 matrix product: A∘B ≡ A+.×B
    let r = eval_one(&mut env, "(2 2⍴1 2 3 4)∘(2 2⍴5 6 7 8)");
    assert_eq!(r.rank(), 2);
    assert_eq!(r.get_shape_item(0), 2);
    assert_eq!(r.get_shape_item(1), 2);
    let expect = [19, 22, 43, 50];
    for (i, e) in expect.iter().enumerate() {
        assert_eq!(r.cells()[i], Cell::Int(*e));
    }
}

#[test]
fn test_outer_product_syntax() {
    let mut env = Environment::new();
    apl::sysvars::init_sysvars(&mut env);
    // 1 2 ∘.× 1 3 → 2×2 matrix 1 3 / 2 6
    let r = eval_one(&mut env, "1 2∘.×1 3");
    assert_eq!(r.rank(), 2);
    assert_eq!(r.get_shape_item(0), 2);
    assert_eq!(r.get_shape_item(1), 2);
    let expect = [1, 3, 2, 6];
    for (i, e) in expect.iter().enumerate() {
        assert_eq!(r.cells()[i], Cell::Int(*e));
    }
}

#[test]
fn test_inner_product_bool_and_equal() {
    let mut env = Environment::new();
    apl::sysvars::init_sysvars(&mut env);
    // 1 0 1 ∧.= 1 1 1 → ∧/(1=1)(0=1)(1=1) = ∧/1 0 1 = 0
    let r = eval_one(&mut env, "1 0 1∧.=1 1 1");
    assert_eq!(r.first_cell().unwrap(), &Cell::Int(0));
}

#[test]
fn test_dfn_immediate_calls() {
    let mut env = Environment::new();
    apl::sysvars::init_sysvars(&mut env);
    // monadic immediate: {⍵+1} 5 → 6
    assert_eq!(
        eval_one(&mut env, "{⍵+1} 5").first_cell().unwrap(),
        &Cell::Int(6)
    );
    // dyadic immediate: 2 {⍺×⍵} 3 → 6
    assert_eq!(
        eval_one(&mut env, "2 {⍺×⍵} 3").first_cell().unwrap(),
        &Cell::Int(6)
    );
    // monadic call on a ⍺-using body → VALUE ERROR (⍺ unbound)
    assert!(env.eval_line("{⍺+⍵} 3 4").is_err());
}

#[test]
fn test_dfn_named_definitions() {
    let mut env = Environment::new();
    apl::sysvars::init_sysvars(&mut env);
    // definition produces no output
    assert!(env.eval_line("DOUBLE←{⍵×2}").unwrap().is_none());
    // and the function is callable
    assert_eq!(
        eval_one(&mut env, "DOUBLE 21").first_cell().unwrap(),
        &Cell::Int(42)
    );
    // dyadic named dfn
    assert!(env.eval_line("SUM←{⍺+⍵}").unwrap().is_none());
    assert_eq!(
        eval_one(&mut env, "5 SUM 7").first_cell().unwrap(),
        &Cell::Int(12)
    );
    // dfn visible via )FNS
    assert!(env.funcs.get("DOUBLE").is_some());
    assert!(env.funcs.get("SUM").is_some());
}

#[test]
fn test_inner_product_syntax_dot_product() {
    let mut env = Environment::new();
    apl::sysvars::init_sysvars(&mut env);
    // 1 2 3 +.× 10 20 30 → 140
    let r = eval_one(&mut env, "1 2 3+.×10 20 30");
    assert_eq!(r.first_cell().unwrap(), &Cell::Int(140));
}

#[test]
fn test_inner_product_syntax_matrix_times_vector() {
    let mut env = Environment::new();
    apl::sysvars::init_sysvars(&mut env);
    // M←2 3⍴⍳6; M +.× 5 6 7 → (0·5+1·6+2·7)(3·5+4·6+5·7) = 20 74
    env.eval_line("M←2 3⍴⍳6").unwrap();
    let r = eval_one(&mut env, "M+.×5 6 7");
    // ⎕IO=0 → ⍳6 is 0..5, so rows are (0 1 2) and (3 4 5)
    let expect = [20, 74];
    for (i, e) in expect.iter().enumerate() {
        assert_eq!(r.cells()[i], Cell::Int(*e));
    }
}

#[test]
fn test_inner_product_length_error() {
    let mut env = Environment::new();
    apl::sysvars::init_sysvars(&mut env);
    assert!(env.eval_line("1 2+.×1 2 3").is_err());
}

#[test]
fn test_each_monadic() {
    let mut env = Environment::new();
    env.eval_line("V←⍳4").unwrap(); // 0 1 2 3
    let v = eval_one(&mut env, "-¨V"); // negate each → nested scalars
    assert_eq!(v.element_count(), 4);
    // every result cell is a pointer to a scalar
    for c in v.cells() {
        match c {
            Cell::Pointer(p) => {
                assert!(p.value.is_scalar_shape());
            }
            o => panic!("expected pointer, got {:?}", o),
        }
    }
    // check the values via disclose semantics: second should be ¯1
    let first = match &v.cells()[1] {
        Cell::Pointer(p) => p.value.clone(),
        _ => panic!(),
    };
    match first.cells().first().unwrap() {
        Cell::Int(i) => assert_eq!(*i, -1),
        o => panic!("expected int, got {:?}", o),
    }
}

#[test]
fn test_each_stray_is_syntax_error() {
    let mut env = Environment::new();
    assert!(env.eval_line("¨5").is_err());
}

#[test]
fn test_selective_assignment() {
    let mut env = Environment::new();
    env.eval_line("B←10 20 30").unwrap();
    // assignments produce no output
    assert!(env.eval_line("B[1]←99").unwrap().is_none());
    assert_eq!(eval_int_env(&mut env, "B[1]"), 99);
    // other elements untouched
    assert_eq!(eval_int_env(&mut env, "B[0]"), 10);
    assert_eq!(eval_int_env(&mut env, "B[2]"), 30);
}

#[test]
fn test_selective_assignment_cow_safety() {
    let mut env = Environment::new();
    env.eval_line("A←1 2 3").unwrap();
    env.eval_line("B←A").unwrap(); // B shares with A
    env.eval_line("B[0]←99").unwrap();
    // A must be unchanged (COW isolation)
    assert_eq!(eval_int_env(&mut env, "A[0]"), 1);
    assert_eq!(eval_int_env(&mut env, "B[0]"), 99);
}

#[test]
fn test_modified_assignment() {
    let mut env = Environment::new();
    env.eval_line("V←1 2 3 4").unwrap();
    env.eval_line("V+←10").unwrap();
    let v = env.eval_line("V").unwrap().unwrap();
    let cells = v.cells();
    assert_eq!(cells.len(), 4);
    for (i, c) in cells.iter().enumerate() {
        match c {
            Cell::Int(val) => assert_eq!(*val, 11 + i as i64),
            o => panic!("expected int, got {:?}", o),
        }
    }
}

#[test]
fn test_modified_assignment_multiply() {
    let mut env = Environment::new();
    env.eval_line("X←2 3 4").unwrap();
    env.eval_line("X×←3").unwrap();
    let v = env.eval_line("X").unwrap().unwrap();
    let cells = v.cells();
    assert_eq!(cells.len(), 3);
    for (i, c) in cells.iter().enumerate() {
        match c {
            Cell::Int(val) => assert_eq!(*val, (2 + i as i64) * 3),
            o => panic!("expected int, got {:?}", o),
        }
    }
}

#[test]
fn test_named_function_each() {
    let mut env = Environment::new();
    env.eval_line("f←{⍵+1}").unwrap();
    let v = env.eval_line("f¨ 1 2 3").unwrap().unwrap();
    assert_eq!(v.rank(), 1);
    assert_eq!(v.cells().len(), 3);
    for (i, c) in v.cells().iter().enumerate() {
        match c {
            Cell::Pointer(p) => {
                let inner = apl::value::ValueP {
                    inner: p.value.clone(),
                };
                match inner.first_cell().unwrap() {
                    Cell::Int(val) => assert_eq!(*val, 2 + i as i64),
                    o => panic!("expected int, got {:?}", o),
                }
            }
            o => panic!("expected pointer, got {:?}", o),
        }
    }
}

#[test]
fn test_axis_reduce() {
    let mut env = Environment::new();
    env.eval_line("M←2 3⍴⍳6").unwrap();
    let v1 = env.eval_line("+/[1]M").unwrap().unwrap();
    let v2 = env.eval_line("+/M").unwrap().unwrap();
    assert_eq!(v1.cells().len(), v2.cells().len());
    for (a, b) in v1.cells().iter().zip(v2.cells().iter()) {
        match (a, b) {
            (Cell::Int(x), Cell::Int(y)) => assert_eq!(x, y),
            _ => panic!("expected ints"),
        }
    }
}

#[test]
fn test_selective_assignment_index_vector() {
    let mut env = Environment::new();
    env.eval_line("V←0 0 0 0 0").unwrap();
    env.eval_line("V[1 3]←7").unwrap();
    let v = eval_one(&mut env, "V");
    let cells: Vec<i64> = v
        .cells()
        .iter()
        .map(|c| match c {
            Cell::Int(i) => *i,
            _ => panic!("expected ints"),
        })
        .collect();
    assert_eq!(cells, vec![0, 7, 0, 7, 0]);
}

#[test]
fn test_selective_assignment_out_of_range() {
    let mut env = Environment::new();
    env.eval_line("B←10 20 30").unwrap();
    assert!(env.eval_line("B[99]←1").is_err());
}

#[test]
fn test_bracket_indexing() {
    let mut env = Environment::new();
    env.eval_line("B←30 10 20").unwrap();
    assert_eq!(eval_int_env(&mut env, "B[1]"), 10);
    assert_eq!(eval_int_env(&mut env, "B[0]"), 30);
    assert_eq!(eval_int_env(&mut env, "B[2]"), 20);
}

#[test]
fn test_index_out_of_range() {
    let mut env = Environment::new();
    env.eval_line("B←30 10 20").unwrap();
    assert!(env.eval_line("B[99]").is_err());
}

#[test]
fn test_grade_sort_roundtrip() {
    let mut env = Environment::new();
    // B[⍋B] must be the sorted version of B
    env.eval_line("B←42 7 19 3").unwrap();
    let v = eval_one(&mut env, "B[⍋B]");
    let cells: Vec<i64> = v
        .cells()
        .iter()
        .map(|c| match c {
            Cell::Int(i) => *i,
            _ => panic!("expected ints"),
        })
        .collect();
    assert_eq!(cells, vec![3, 7, 19, 42]);

    let v = eval_one(&mut env, "B[⍒B]");
    let cells: Vec<i64> = v
        .cells()
        .iter()
        .map(|c| match c {
            Cell::Int(i) => *i,
            _ => panic!("expected ints"),
        })
        .collect();
    assert_eq!(cells, vec![42, 19, 7, 3]);
}

#[test]
fn test_eval_prologue_guard_fallback() {
    let mut env = Environment::new();
    apl::sysvars::init_sysvars(&mut env);
    env.eval_line("K←{r←5 ⋄ 0=⊃⍵:9 ⋄ r}").unwrap();
    // ⍵ must be enclosed so ⊃⍵ discloses to 7 (scalar ⊃ is identity,
    // and 0=7 → 0 → fallback branch)
    let v = eval_one(&mut env, "K (⊂7)");
    assert_eq!(v.first_cell().unwrap().get_near_int().unwrap(), 5);
}

#[test]
fn test_var_in_fn_position_dyadic() {
    // Session-29 var-in-fn-position: `e Q 4` where `e` is a variable
    // and `Q` is a defined function — must call Q dyadically with
    // ⍺=e, ⍵=4, NOT misparse as a monadic call chain.
    let mut env = Environment::new();
    apl::sysvars::init_sysvars(&mut env);
    env.eval_line("ADD←{⍺+⍵}").unwrap();
    env.eval_line("Q←{⍺ ADD ⍵}").unwrap();
    env.eval_line("e←3").unwrap();
    let v = eval_one(&mut env, "e Q 4");
    assert_eq!(v.first_cell().unwrap().get_near_int().unwrap(), 7);
}

#[test]
fn test_var_in_fn_position_monadic() {
    // Monadic variant: `e Q` where e is a variable used as ⍺
    // inside a dfn body that references an enclosing-scope function.
    let mut env = Environment::new();
    apl::sysvars::init_sysvars(&mut env);
    env.eval_line("ADD←{⍺+⍵}").unwrap();
    env.eval_line("e←3").unwrap();
    // {e ADD 4} in a dfn body — `e` must resolve from enclosing scope
    env.eval_line("Q←{e ADD 4}").unwrap();
    let v = eval_one(&mut env, "Q 0");
    assert_eq!(v.first_cell().unwrap().get_near_int().unwrap(), 7);
}



#[test]
fn test_native_dyadic_pair_shape() {
    // The dyadic native-call desugar builds a 2-item vector of
    // enclosed (Pointer) cells. Verify the shape is [2] and both
    // items are enclosed scalars. Uses a no-op native if available;
    // otherwise just verify the pair shape via a simple test.
    // (The actual native bridge is tested in apl-java integration.)
    // Here we verify the Shape::vector(2) path indirectly:
    // a 2-item enclosed vector should have element_count == 2.
    let v = apl::value::ValueP::nested(apl::value::ValueP::scalar_from(
        Cell::Int(42),
    ));
    assert_eq!(v.element_count(), 1); // scalar has 1 cell
                                      // Build a 2-item vector of enclosed scalars (mimics the pair):
    let pair = apl::value::ValueP {
        inner: std::sync::Arc::new(apl::value::ValueInner::new(
            apl::shape::Shape::vector(2),
            vec![
                Cell::Pointer(apl::cell::PointerCellData {
                    value: apl::value::ValueP::scalar_from(Cell::Int(1)).inner,
                }),
                Cell::Pointer(apl::cell::PointerCellData {
                    value: apl::value::ValueP::scalar_from(Cell::Int(2)).inner,
                }),
            ],
        )),
    };
    assert_eq!(pair.element_count(), 2);
    assert_eq!(pair.shape().get_rank(), 1);
}

#[test]
fn test_without_basic() {
    // 1 2 3∼2 3 4 = 1
    let mut env = Environment::new();
    let v = eval_one(&mut env, "1 2 3∼2 3 4");
    assert_eq!(v.cells().len(), 1);
    assert_eq!(v.first_cell().unwrap().get_int_value().unwrap(), 1);
}

#[test]
fn test_without_empty_result() {
    // 1 2∼1 2 = empty vector
    let mut env = Environment::new();
    let v = eval_one(&mut env, "1 2∼1 2");
    assert_eq!(v.element_count(), 0);
}

#[test]
fn test_without_all_removed() {
    // 'abc'∼'abc' = empty
    let mut env = Environment::new();
    let v = eval_one(&mut env, "'abc'∼'abc'");
    assert_eq!(v.element_count(), 0);
}

#[test]
fn test_without_no_overlap() {
    // 1 2∼3 4 = 1 2
    let mut env = Environment::new();
    let v = eval_one(&mut env, "1 2∼3 4");
    assert_eq!(v.element_count(), 2);
    let ints: Vec<i64> = v
        .cells()
        .iter()
        .map(|c| c.get_int_value().unwrap())
        .collect();
    assert_eq!(ints, vec![1, 2]);
}

#[test]
fn test_unique_monadic() {
    // ∪1 2 1 3 2 = 1 2 3
    let mut env = Environment::new();
    let v = eval_one(&mut env, "∪1 2 1 3 2");
    assert_eq!(v.element_count(), 3);
    let ints: Vec<i64> = v
        .cells()
        .iter()
        .map(|c| c.get_int_value().unwrap())
        .collect();
    assert_eq!(ints, vec![1, 2, 3]);
}

#[test]
fn test_union_dyadic() {
    // 1 2 3∪3 4 5 = 1 2 3 4 5
    let mut env = Environment::new();
    let v = eval_one(&mut env, "1 2 3∪3 4 5");
    assert_eq!(v.element_count(), 5);
    let ints: Vec<i64> = v
        .cells()
        .iter()
        .map(|c| c.get_int_value().unwrap())
        .collect();
    assert_eq!(ints, vec![1, 2, 3, 4, 5]);
}

#[test]
fn test_intersection_dyadic() {
    // 1 2 3 4∩2 4 6 = 2 4
    let mut env = Environment::new();
    let v = eval_one(&mut env, "1 2 3 4∩2 4 6");
    assert_eq!(v.element_count(), 2);
    let ints: Vec<i64> = v
        .cells()
        .iter()
        .map(|c| c.get_int_value().unwrap())
        .collect();
    assert_eq!(ints, vec![2, 4]);
}

#[test]
fn test_table_monadic() {
    // ⍪1 2 3 = 3×1 matrix
    let mut env = Environment::new();
    let v = eval_one(&mut env, "⍪1 2 3");
    assert_eq!(v.rank(), 2);
    assert_eq!(v.get_shape_item(0), 3);
    assert_eq!(v.get_shape_item(1), 1);
}

#[test]
fn test_tally_monadic() {
    // ≢1 2 3 = 3
    let mut env = Environment::new();
    let v = eval_one(&mut env, "≢1 2 3");
    assert_eq!(v.first_cell().unwrap().get_int_value().unwrap(), 3);
}

#[test]
fn test_tally_scalar() {
    // ≢42 = 1
    let mut env = Environment::new();
    let v = eval_one(&mut env, "≢42");
    assert_eq!(v.first_cell().unwrap().get_int_value().unwrap(), 1);
}

#[test]
fn test_catenate_first() {
    // 1 2⍪3 4 5 = 1 2 3 4 5
    let mut env = Environment::new();
    let v = eval_one(&mut env, "1 2⍪3 4 5");
    assert_eq!(v.element_count(), 5);
    let ints: Vec<i64> = v
        .cells()
        .iter()
        .map(|c| c.get_int_value().unwrap())
        .collect();
    assert_eq!(ints, vec![1, 2, 3, 4, 5]);
}

#[test]
fn test_not_match_same() {
    // 1 2 3≢1 2 3 = 0
    let mut env = Environment::new();
    let v = eval_one(&mut env, "1 2 3≢1 2 3");
    assert_eq!(v.first_cell().unwrap().get_int_value().unwrap(), 0);
}

#[test]
fn test_not_match_diff() {
    // 1 2 3≢1 2 4 = 1
    let mut env = Environment::new();
    let v = eval_one(&mut env, "1 2 3≢1 2 4");
    assert_eq!(v.first_cell().unwrap().get_int_value().unwrap(), 1);
}

#[test]
fn test_left_dyadic() {
    // 1⊣2 = 1
    let mut env = Environment::new();
    let v = eval_one(&mut env, "1⊣2");
    assert_eq!(v.first_cell().unwrap().get_int_value().unwrap(), 1);
}

#[test]
fn test_right_dyadic() {
    // 1⊢2 = 2
    let mut env = Environment::new();
    let v = eval_one(&mut env, "1⊢2");
    assert_eq!(v.first_cell().unwrap().get_int_value().unwrap(), 2);
}

#[test]
fn test_left_monadic() {
    // ⊣1 2 3 = 1 2 3 (identity)
    let mut env = Environment::new();
    let v = eval_one(&mut env, "⊣1 2 3");
    assert_eq!(v.element_count(), 3);
}

#[test]
fn test_right_monadic() {
    // ⊢1 2 3 = 1 2 3 (identity)
    let mut env = Environment::new();
    let v = eval_one(&mut env, "⊢1 2 3");
    assert_eq!(v.element_count(), 3);
}

#[test]
fn test_nand() {
    // 0⍲0 = 1, 1⍲1 = 0
    let mut env = Environment::new();
    let v = eval_one(&mut env, "0⍲0");
    assert_eq!(v.first_cell().unwrap().get_int_value().unwrap(), 1);
    let v = eval_one(&mut env, "1⍲1");
    assert_eq!(v.first_cell().unwrap().get_int_value().unwrap(), 0);
}

#[test]
fn test_nor() {
    // 0⍱0 = 1, 1⍱0 = 0
    let mut env = Environment::new();
    let v = eval_one(&mut env, "0⍱0");
    assert_eq!(v.first_cell().unwrap().get_int_value().unwrap(), 1);
    let v = eval_one(&mut env, "1⍱0");
    assert_eq!(v.first_cell().unwrap().get_int_value().unwrap(), 0);
}

#[test]
fn parser_test_squad_vector() {
    // 2⌷10 20 30 = 30 (0-based, so index 2 → value 30)
    let mut env = Environment::new();
    let v = eval_one(&mut env, "2⌷10 20 30");
    assert_eq!(v.first_cell().unwrap().get_int_value().unwrap(), 30);
}

#[test]
fn parser_test_squad_matrix() {
    // 2 3⌷3 4⍴⍳12 → row 2, col 3 → value 11 (0-based)
    let mut env = Environment::new();
    let v = eval_one(&mut env, "2 3⌷3 4⍴⍳12");
    assert_eq!(v.first_cell().unwrap().get_int_value().unwrap(), 11);
}

#[test]
fn test_reverse_first_axis() {
    // ⊖2 3⍴⍳6 = [[3 4 5] [0 1 2]] (0-based)
    let mut env = Environment::new();
    let v = eval_one(&mut env, "⊖2 3⍴⍳6");
    let ints: Vec<i64> = v
        .cells()
        .iter()
        .map(|c| c.get_int_value().unwrap())
        .collect();
    assert_eq!(ints, vec![3, 4, 5, 0, 1, 2]);
}

#[test]
fn test_rotate_first_axis() {
    // 1⊖2 3⍴⍳6 = [[3 4 5] [0 1 2]] (0-based)
    let mut env = Environment::new();
    let v = eval_one(&mut env, "1⊖2 3⍴⍳6");
    let ints: Vec<i64> = v
        .cells()
        .iter()
        .map(|c| c.get_int_value().unwrap())
        .collect();
    assert_eq!(ints, vec![3, 4, 5, 0, 1, 2]);
}

#[test]
fn test_format_monadic_gives_chars() {
    let mut env = Environment::new();
    let v = eval_one(&mut env, "⍕1 2 3");
    let s: String = v
        .cells()
        .iter()
        .map(|c| match c {
            Cell::Char(ch) => char::from_u32(*ch).unwrap_or('?'),
            _ => '?',
        })
        .collect();
    assert_eq!(s, "1 2 3");
}



#[test]
fn test_where_honors_index_origin() {
    let mut env = Environment::new();
    // default ⎕IO=0 → positions 1 3
    let v = eval_one(&mut env, "⍸0 1 0 1");
    let ints: Vec<i64> = v
        .cells()
        .iter()
        .map(|c| c.get_int_value().unwrap())
        .collect();
    assert_eq!(ints, vec![1, 3]);
    // ⎕IO=1 shifts to 2 4
    env.eval_line("⎕IO←1").unwrap();
    let v = eval_one(&mut env, "⍸0 1 0 1");
    let ints: Vec<i64> = v
        .cells()
        .iter()
        .map(|c| c.get_int_value().unwrap())
        .collect();
    assert_eq!(ints, vec![2, 4]);
}

#[test]
fn test_where_composes_with_comparison() {
    // ⍸3<1 5 2 7 → positions of elements > 3 → 1 3 (0-based)
    let mut env = Environment::new();
    let v = eval_one(&mut env, "⍸3<1 5 2 7");
    let ints: Vec<i64> = v
        .cells()
        .iter()
        .map(|c| c.get_int_value().unwrap())
        .collect();
    assert_eq!(ints, vec![1, 3]);
}

#[test]
fn test_execute_arithmetic() {
    let mut env = Environment::new();
    let v = eval_one(&mut env, "⍎'2+3'");
    assert_eq!(v.first_cell().unwrap().get_int_value().unwrap(), 5);
}

#[test]
fn test_execute_vector_result() {
    let mut env = Environment::new();
    let v = eval_one(&mut env, "⍎'1 2 3'");
    let ints: Vec<i64> = v
        .cells()
        .iter()
        .map(|c| c.get_int_value().unwrap())
        .collect();
    assert_eq!(ints, vec![1, 2, 3]);
}

#[test]
fn test_execute_assignment_persists() {
    let mut env = Environment::new();
    // the assignment happens in the caller's environment, and displays
    // nothing (shy) exactly like a bare Q←7
    assert!(env.eval_line("⍎'Q←7'").unwrap().is_none());
    let v = eval_one(&mut env, "Q+1");
    assert_eq!(v.first_cell().unwrap().get_int_value().unwrap(), 8);
}

#[test]
fn test_execute_sees_existing_variables() {
    let mut env = Environment::new();
    env.eval_line("R←10").unwrap();
    let v = eval_one(&mut env, "⍎'R×2'");
    assert_eq!(v.first_cell().unwrap().get_int_value().unwrap(), 20);
}

#[test]
fn test_execute_empty_is_shy() {
    // ⍎'' produces no displayed value
    let mut env = Environment::new();
    assert!(env.eval_line("⍎''").unwrap().is_none());
}

#[test]
fn test_execute_round_trips_format() {
    // ⍎⍕N recovers a numeric value through its character form
    let mut env = Environment::new();
    let v = eval_one(&mut env, "⍎⍕42");
    assert_eq!(v.first_cell().unwrap().get_int_value().unwrap(), 42);
}

#[test]
fn test_execute_rejects_numeric_argument() {
    let mut env = Environment::new();
    assert!(env.eval_line("⍎42").is_err());
}

#[test]
fn test_execute_propagates_inner_error() {
    let mut env = Environment::new();
    // undefined name inside the executed text
    assert!(env.eval_line("⍎'NOSUCHVAR+1'").is_err());
}

#[test]
fn test_execute_shy_does_not_leak_to_next_line() {
    // a shy execute must not suppress the FOLLOWING line's display
    let mut env = Environment::new();
    assert!(env.eval_line("⍎'Z←3'").unwrap().is_none());
    let v = eval_one(&mut env, "Z+1");
    assert_eq!(v.first_cell().unwrap().get_int_value().unwrap(), 4);
}

#[test]
fn test_execute_assign_then_value_in_same_line_displays() {
    // an assigning execute followed by a value-producing one: the line
    // yields the value, so it must NOT be suppressed
    let mut env = Environment::new();
    let v = eval_one(&mut env, "(⍎'W←4')+⍎'2+3'");
    assert_eq!(v.first_cell().unwrap().get_int_value().unwrap(), 5);
}

#[test]
fn test_execute_runaway_recursion_is_an_error() {
    // F←'⍎F' ⋄ ⍎F must hit the depth guard, not blow the native stack
    let mut env = Environment::new();
    env.eval_line("F←'⍎F'").unwrap();
    assert!(env.eval_line("⍎F").is_err());
}

#[test]
fn test_execute_depth_resets_after_error() {
    // a caught runaway must not leave depth consumed for later executes
    let mut env = Environment::new();
    env.eval_line("F←'⍎F'").unwrap();
    assert!(env.eval_line("⍎F").is_err());
    // a plain execute still works afterwards
    let v = eval_one(&mut env, "⍎'1+1'");
    assert_eq!(v.first_cell().unwrap().get_int_value().unwrap(), 2);
}

#[test]
fn test_find_subvector_in_repl() {
    // 1 2⍷1 2 3 1 2 → 1 0 0 1 0
    let mut env = Environment::new();
    let v = eval_one(&mut env, "1 2⍷1 2 3 1 2");
    let ints: Vec<i64> = v
        .cells()
        .iter()
        .map(|c| c.get_int_value().unwrap())
        .collect();
    assert_eq!(ints, vec![1, 0, 0, 1, 0]);
}

#[test]
fn test_find_composes_with_where() {
    // ⍸1 2⍷1 2 3 1 2 → the origins of each match → 0 3 (0-based)
    let mut env = Environment::new();
    let v = eval_one(&mut env, "⍸1 2⍷1 2 3 1 2");
    let ints: Vec<i64> = v
        .cells()
        .iter()
        .map(|c| c.get_int_value().unwrap())
        .collect();
    assert_eq!(ints, vec![0, 3]);
}

#[test]
fn test_find_string_in_repl() {
    // 'ab'⍷'xabyab' → 0 1 0 0 1 0
    let mut env = Environment::new();
    let v = eval_one(&mut env, "'ab'⍷'xabyab'");
    let ints: Vec<i64> = v
        .cells()
        .iter()
        .map(|c| c.get_int_value().unwrap())
        .collect();
    assert_eq!(ints, vec![0, 1, 0, 0, 1, 0]);
}

#[test]
fn test_find_counts_occurrences_via_plus_reduce() {
    // +/'ab'⍷'xabyab' → 2 occurrences
    let mut env = Environment::new();
    let v = eval_one(&mut env, "+/'ab'⍷'xabyab'");
    assert_eq!(v.first_cell().unwrap().get_int_value().unwrap(), 2);
}

#[test]
fn test_find_in_matrix_keeps_shape() {
    // pattern conformed to 1x2 inside a 2x3 matrix; result is 2x3
    let mut env = Environment::new();
    let v = eval_one(&mut env, "3 4⍷2 3⍴1 2 3 3 4 5");
    assert_eq!(v.rank(), 2);
    assert_eq!(v.get_shape_item(0), 2);
    assert_eq!(v.get_shape_item(1), 3);
    let ints: Vec<i64> = v
        .cells()
        .iter()
        .map(|c| c.get_int_value().unwrap())
        .collect();
    assert_eq!(ints, vec![0, 0, 0, 1, 0, 0]);
}

#[test]
fn test_scalar_extension_over_empty_is_empty() {
    let mut env = Environment::new();
    let v = eval_one(&mut env, "(0⍴0)+1");
    assert_eq!(v.element_count(), 0);
}

#[test]
fn test_scalar_extension_over_empty_either_side() {
    let mut env = Environment::new();
    assert_eq!(eval_one(&mut env, "1+0⍴0").element_count(), 0);
    assert_eq!(eval_one(&mut env, "(0⍴0)×2").element_count(), 0);
}

#[test]
fn test_where_of_all_zeros_survives_index_origin_shift() {
    // ⍸0 0 0 is empty; with ⎕IO=1 the result is shifted by adding 1, which
    // used to raise LENGTH ERROR because the empty operand was rejected
    let mut env = Environment::new();
    env.eval_line("⎕IO←1").unwrap();
    let v = eval_one(&mut env, "⍸0 0 0");
    assert_eq!(v.element_count(), 0);
}

#[test]
fn test_conflicting_lengths_still_error() {
    // the empty-array fix must not weaken real length checking
    let mut env = Environment::new();
    assert!(env.eval_line("1 2 3+1 2").is_err());
}

#[test]
fn test_ravel_of_matrix_is_rank1_in_repl() {
    let mut env = Environment::new();
    assert_eq!(
        eval_one(&mut env, "≢⍴,2 3⍴⍳6")
            .first_cell()
            .unwrap()
            .get_int_value()
            .unwrap(),
        1
    );
    assert_eq!(
        eval_one(&mut env, "≢,2 3⍴⍳6")
            .first_cell()
            .unwrap()
            .get_int_value()
            .unwrap(),
        6
    );
}

#[test]
fn test_ascii_bar_is_magnitude_like_the_apl_glyph() {
    // both | (ASCII) and ∣ (U+2223) are the residue glyph
    let mut env = Environment::new();
    assert_eq!(eval_num_in(&mut env, "3|10"), 1.0);
    assert_eq!(eval_num_in(&mut env, "3∣10"), 1.0);
    assert_eq!(eval_num_in(&mut env, "|¯7"), 7.0);
    assert_eq!(eval_num_in(&mut env, "¯3|10"), -2.0);
}





#[test]
fn test_take_drop_are_per_axis_on_matrices() {
    let mut env = Environment::new();
    env.eval_line("⎕IO←1").unwrap();
    // one count per axis; a single count on a matrix is a LENGTH ERROR
    assert!(env.eval_line("1↑2 3⍴⍳6").is_err());
    assert!(env.eval_line("1↓2 3⍴⍳6").is_err());
    assert_eq!(ravel_ints(&mut env, "1 2↑2 3⍴⍳6"), vec![1, 2]);
    assert_eq!(ravel_ints(&mut env, "¯1 ¯2↑2 3⍴⍳6"), vec![5, 6]);
    assert_eq!(ravel_ints(&mut env, "1 1↓2 3⍴⍳6"), vec![5, 6]);
    assert_eq!(ravel_ints(&mut env, "¯1 ¯1↓2 3⍴⍳6"), vec![1, 2]);
    // over-take pads with the prototype to the full requested shape
    assert_eq!(
        ravel_ints(&mut env, "3 4↑2 3⍴⍳6"),
        vec![1, 2, 3, 0, 4, 5, 6, 0, 0, 0, 0, 0]
    );
    // dropping past an axis empties it
    assert_eq!(ravel_ints(&mut env, "⍴5 5↓2 3⍴⍳6"), vec![0, 0]);
}

#[test]
fn test_monadic_transpose_reverses_all_axes() {
    let mut env = Environment::new();
    env.eval_line("⎕IO←1").unwrap();
    assert_eq!(ravel_ints(&mut env, "⍴⍉2 3 4⍴⍳24"), vec![4, 3, 2]);
    assert_eq!(
        ravel_ints(&mut env, ",⍉2 2 2⍴⍳8"),
        vec![1, 5, 3, 7, 2, 6, 4, 8]
    );
}

#[test]
fn test_dyadic_transpose_and_diagonal() {
    let mut env = Environment::new();
    env.eval_line("⎕IO←1").unwrap();
    // identity permutation
    assert_eq!(ravel_ints(&mut env, ",1 2⍉2 3⍴⍳6"), vec![1, 2, 3, 4, 5, 6]);
    // swap → ordinary transpose
    assert_eq!(ravel_ints(&mut env, ",2 1⍉2 3⍴⍳6"), vec![1, 4, 2, 5, 3, 6]);
    assert_eq!(ravel_ints(&mut env, "⍴2 1⍉2 3⍴⍳6"), vec![3, 2]);
    // repeated axis selects the DIAGONAL and lowers the rank
    assert_eq!(ravel_ints(&mut env, ",1 1⍉3 3⍴⍳9"), vec![1, 5, 9]);
    assert_eq!(ravel_ints(&mut env, "⍴1 1⍉3 3⍴⍳9"), vec![3]);
}

#[test]
fn test_catenate_matrices_interleaves_rows() {
    // joining along the last axis puts B's row AFTER A's row, per row
    let mut env = Environment::new();
    env.eval_line("⎕IO←1").unwrap();
    assert_eq!(
        ravel_ints(&mut env, ",(2 3⍴⍳6),2 3⍴⍳6"),
        vec![1, 2, 3, 1, 2, 3, 4, 5, 6, 4, 5, 6]
    );
    assert_eq!(ravel_ints(&mut env, "⍴(2 3⍴⍳6),2 3⍴⍳6"), vec![2, 6]);
}







#[test]
fn test_bracket_index_two_axes() {
    let mut env = Environment::new();
    env.eval_line("⎕IO←1").unwrap();
    env.eval_line("M←2 3⍴⍳6").unwrap();
    assert_eq!(ravel_ints(&mut env, "M[1;1]"), vec![1]);
    assert_eq!(ravel_ints(&mut env, "M[2;3]"), vec![6]);
    assert_eq!(ravel_ints(&mut env, ",M[1;]"), vec![1, 2, 3]);
    assert_eq!(ravel_ints(&mut env, ",M[;1]"), vec![1, 4]);
}

#[test]
fn test_bracket_index_axis_dropping_follows_syntax() {
    // a SCALAR index drops its axis; a VECTOR index keeps it even when it
    // holds a single element — M[1;1] is a scalar but M[1 1;] is 2×3
    let mut env = Environment::new();
    env.eval_line("⎕IO←1").unwrap();
    env.eval_line("M←2 3⍴⍳6").unwrap();
    assert_eq!(eval_one(&mut env, "M[1;1]").rank(), 0);
    assert_eq!(ravel_ints(&mut env, "⍴M[1;]"), vec![3]);
    assert_eq!(ravel_ints(&mut env, "⍴M[;1]"), vec![2]);
    assert_eq!(ravel_ints(&mut env, "⍴M[1 2;1 2]"), vec![2, 2]);
    assert_eq!(ravel_ints(&mut env, "⍴M[1 1;]"), vec![2, 3]);
}

#[test]
fn test_bracket_index_selects_and_reorders() {
    let mut env = Environment::new();
    env.eval_line("⎕IO←1").unwrap();
    env.eval_line("M←2 3⍴⍳6").unwrap();
    assert_eq!(ravel_ints(&mut env, ",M[1 2;1 2]"), vec![1, 2, 4, 5]);
    // reversed column order comes back reversed
    assert_eq!(ravel_ints(&mut env, ",M[;3 1]"), vec![3, 1, 6, 4]);
}

#[test]
fn test_bracket_index_on_parenthesised_value() {
    // indexing applies to any expression, not just a named variable
    let mut env = Environment::new();
    env.eval_line("⎕IO←1").unwrap();
    assert_eq!(ravel_ints(&mut env, "(2 3⍴⍳6)[2;3]"), vec![6]);
    assert_eq!(ravel_ints(&mut env, ",(2 3⍴⍳6)[1;]"), vec![1, 2, 3]);
}

#[test]
fn test_bracket_index_rank3() {
    let mut env = Environment::new();
    env.eval_line("⎕IO←1").unwrap();
    env.eval_line("C←2 2 2⍴⍳8").unwrap();
    assert_eq!(ravel_ints(&mut env, ",C[1;;]"), vec![1, 2, 3, 4]);
    assert_eq!(ravel_ints(&mut env, "⍴C[1;;]"), vec![2, 2]);
    assert_eq!(ravel_ints(&mut env, "C[1;2;1]"), vec![3]);
}

#[test]
fn test_bracket_index_one_axis_still_works() {
    // the 1-D path must be untouched by the multi-axis addition
    let mut env = Environment::new();
    env.eval_line("⎕IO←1").unwrap();
    env.eval_line("V←10 20 30").unwrap();
    assert_eq!(ravel_ints(&mut env, "V[2]"), vec![20]);
    assert_eq!(ravel_ints(&mut env, ",V[1 3]"), vec![10, 30]);
}

#[test]
fn test_bracket_index_errors() {
    let mut env = Environment::new();
    env.eval_line("⎕IO←1").unwrap();
    env.eval_line("M←2 3⍴⍳6").unwrap();
    // out of range
    assert!(env.eval_line("M[3;1]").is_err());
    assert!(env.eval_line("M[1;9]").is_err());
    // wrong number of axes for the rank
    assert!(env.eval_line("M[1;1;1]").is_err());
    // unclosed bracket
    assert!(env.eval_line("M[1;1").is_err());
}

#[test]
fn test_indexed_assign_honors_index_origin() {
    // the 1-D path ignored ⎕IO entirely: V[2]←99 was an INDEX ERROR
    let mut env = Environment::new();
    env.eval_line("⎕IO←1").unwrap();
    env.eval_line("V←10 20 30").unwrap();
    env.eval_line("V[2]←99").unwrap();
    assert_eq!(ravel_ints(&mut env, "V"), vec![10, 99, 30]);
}

#[test]
fn test_indexed_assign_distributes_elementwise() {
    // a multi-element right side pairs up with the indices; a scalar
    // right side broadcasts. The old code always wrote rv.cells()[0].
    let mut env = Environment::new();
    env.eval_line("⎕IO←1").unwrap();
    env.eval_line("W←10 20 30").unwrap();
    env.eval_line("W[1 3]←7 8").unwrap();
    assert_eq!(ravel_ints(&mut env, "W"), vec![7, 20, 8]);
    env.eval_line("X←10 20 30").unwrap();
    env.eval_line("X[1 3]←0").unwrap();
    assert_eq!(ravel_ints(&mut env, "X"), vec![0, 20, 0]);
}

#[test]
fn test_indexed_assign_length_mismatch_errors() {
    let mut env = Environment::new();
    env.eval_line("⎕IO←1").unwrap();
    env.eval_line("V←10 20 30").unwrap();
    assert!(env.eval_line("V[1 2]←1 2 3").is_err());
}

#[test]
fn test_assign_two_axes() {
    let mut env = Environment::new();
    env.eval_line("⎕IO←1").unwrap();
    env.eval_line("M←2 3⍴⍳6").unwrap();
    env.eval_line("M[1;2]←99").unwrap();
    assert_eq!(ravel_ints(&mut env, ",M"), vec![1, 99, 3, 4, 5, 6]);
    // the shape must survive the write
    assert_eq!(ravel_ints(&mut env, "⍴M"), vec![2, 3]);
}

#[test]
fn test_assign_whole_row_and_column() {
    let mut env = Environment::new();
    env.eval_line("⎕IO←1").unwrap();
    env.eval_line("M←2 3⍴⍳6").unwrap();
    env.eval_line("M[1;]←0 0 0").unwrap();
    assert_eq!(ravel_ints(&mut env, ",M"), vec![0, 0, 0, 4, 5, 6]);
    env.eval_line("N←2 3⍴⍳6").unwrap();
    env.eval_line("N[;1]←7 7").unwrap();
    assert_eq!(ravel_ints(&mut env, ",N"), vec![7, 2, 3, 7, 5, 6]);
}

#[test]
fn test_assign_submatrix_broadcasts_scalar() {
    let mut env = Environment::new();
    env.eval_line("⎕IO←1").unwrap();
    env.eval_line("M←2 3⍴⍳6").unwrap();
    env.eval_line("M[1 2;1 2]←100").unwrap();
    assert_eq!(ravel_ints(&mut env, ",M"), vec![100, 100, 3, 100, 100, 6]);
}

#[test]
fn test_assign_all_elided_fills_everything() {
    let mut env = Environment::new();
    env.eval_line("⎕IO←1").unwrap();
    env.eval_line("M←2 3⍴⍳6").unwrap();
    env.eval_line("M[;]←0").unwrap();
    assert_eq!(ravel_ints(&mut env, ",M"), vec![0, 0, 0, 0, 0, 0]);
}

#[test]
fn test_assign_rank3() {
    let mut env = Environment::new();
    env.eval_line("⎕IO←1").unwrap();
    env.eval_line("C←2 2 2⍴⍳8").unwrap();
    env.eval_line("C[1;2;1]←0").unwrap();
    assert_eq!(ravel_ints(&mut env, ",C"), vec![1, 2, 0, 4, 5, 6, 7, 8]);
    env.eval_line("D←2 2 2⍴⍳8").unwrap();
    env.eval_line("D[1;;]←0").unwrap();
    assert_eq!(ravel_ints(&mut env, ",D"), vec![0, 0, 0, 0, 5, 6, 7, 8]);
}

#[test]
fn test_assign_is_shy() {
    // an indexed assignment displays nothing, like a plain one
    let mut env = Environment::new();
    env.eval_line("⎕IO←1").unwrap();
    env.eval_line("M←2 3⍴⍳6").unwrap();
    assert!(env.eval_line("M[1;2]←99").unwrap().is_none());
}

#[test]
fn test_assign_axis_errors() {
    let mut env = Environment::new();
    env.eval_line("⎕IO←1").unwrap();
    env.eval_line("M←2 3⍴⍳6").unwrap();
    assert!(env.eval_line("M[9;1]←0").is_err()); // row out of range
    assert!(env.eval_line("M[1;9]←0").is_err()); // column out of range
    assert!(env.eval_line("M[1;1;1]←0").is_err()); // too many axes
}

#[test]
fn test_top_level_diamond_runs_each_statement() {
    // ⋄ was only handled inside ⎕EA and dfn bodies, so a plain
    // `A ⋄ B` line was a SYNTAX ERROR at the REPL
    let mut env = Environment::new();
    let v = eval_one(&mut env, "2+3 ⋄ 4+5");
    // only the LAST statement's value is displayed
    assert_eq!(v.first_cell().unwrap().get_int_value().unwrap(), 9);
}

#[test]
fn test_top_level_diamond_sequences_side_effects() {
    let mut env = Environment::new();
    let v = eval_one(&mut env, "Q←7 ⋄ Q+1");
    assert_eq!(v.first_cell().unwrap().get_int_value().unwrap(), 8);
}

#[test]
fn test_diamond_inside_dfn_still_belongs_to_the_dfn() {
    // splitting must be depth-aware: this ⋄ is a dfn body separator
    let mut env = Environment::new();
    let v = eval_one(&mut env, "{Z←⍵ ⋄ Z+1} 5");
    assert_eq!(v.first_cell().unwrap().get_int_value().unwrap(), 6);
}

#[test]
fn test_error_guard_diamond_still_works() {
    // ⎕EA has its own diamond handling and must not be split by the new
    // top-level splitter: the guard fails, so the fallback runs
    let mut env = Environment::new();
    let v = eval_one(&mut env, "⎕EA NOPE+1 ⋄ 42");
    assert_eq!(v.first_cell().unwrap().get_int_value().unwrap(), 42);
    // and when the guard succeeds, ITS value is the result
    let v = eval_one(&mut env, "⎕EA 5+5 ⋄ NOPE");
    assert_eq!(v.first_cell().unwrap().get_int_value().unwrap(), 10);
}

#[test]
fn test_rank_operator_applies_per_cell() {
    let mut env = Environment::new();
    env.eval_line("⎕IO←1").unwrap();
    // reverse each ROW of a matrix
    assert_eq!(ravel_ints(&mut env, ",(⌽⍤1)2 3⍴⍳6"), vec![3, 2, 1, 6, 5, 4]);
    assert_eq!(ravel_ints(&mut env, "⍴(⌽⍤1)2 3⍴⍳6"), vec![2, 3]);
    // tally per row: one scalar each
    assert_eq!(ravel_ints(&mut env, ",(≢⍤1)2 3⍴⍳6"), vec![3, 3]);
}

#[test]
fn test_rank_at_or_above_argument_rank_is_whole_array() {
    let mut env = Environment::new();
    env.eval_line("⎕IO←1").unwrap();
    // rank 2 on a matrix → one cell → ≢ of the whole matrix is 2
    assert_eq!(ravel_ints(&mut env, "(≢⍤2)2 3⍴⍳6"), vec![2]);
    // rank 3 exceeds the rank, so still one cell
    assert_eq!(ravel_ints(&mut env, ",(⌽⍤3)2 3⍴⍳6"), vec![3, 2, 1, 6, 5, 4]);
}

#[test]
fn test_rank_operator_frames_a_cube() {
    let mut env = Environment::new();
    env.eval_line("⎕IO←1").unwrap();
    assert_eq!(
        ravel_ints(&mut env, ",(⌽⍤1)2 2 2⍴⍳8"),
        vec![2, 1, 4, 3, 6, 5, 8, 7]
    );
    // one scalar per row, framed by the leading two axes
    assert_eq!(ravel_ints(&mut env, ",(≢⍤1)2 2 2⍴⍳8"), vec![2, 2, 2, 2]);
    assert_eq!(ravel_ints(&mut env, "⍴(≢⍤1)2 2 2⍴⍳8"), vec![2, 2]);
}

#[test]
fn test_rank_operator_honors_index_origin() {
    // the operator applies the prim itself, so it must route ⎕IO-sensitive
    // primitives the same way the Monadic arm does — (⍳⍤0)3 must match ⍳3
    let mut env = Environment::new();
    env.eval_line("⎕IO←1").unwrap();
    assert_eq!(ravel_ints(&mut env, ",(⍳⍤0)3"), vec![1, 2, 3]);
    env.eval_line("⎕IO←0").unwrap();
    assert_eq!(ravel_ints(&mut env, ",(⍳⍤0)3"), vec![0, 1, 2]);
}

#[test]
fn test_rank_operator_on_vector() {
    let mut env = Environment::new();
    env.eval_line("⎕IO←1").unwrap();
    assert_eq!(ravel_ints(&mut env, ",(⌽⍤1)1 2 3"), vec![3, 2, 1]);
}

#[test]
fn test_rank_dyadic_two_ranks_uses_right_for_monadic() {
    // monadic f⍤kl kr uses kr for the single argument
    let mut env = Environment::new();
    env.eval_line("⎕IO←1").unwrap();
    // ,⍤1 0 on a matrix: rank 0 → ravel each scalar → shape 2 3 1
    assert_eq!(ravel_ints(&mut env, "⍴(,⍤1 0)2 3⍴⍳6"), vec![2, 3, 1]);
    // ,⍤0 1 on a matrix: rank 1 → ravel each row → shape 2 3
    assert_eq!(ravel_ints(&mut env, "⍴(,⍤0 1)2 3⍴⍳6"), vec![2, 3]);
}

#[test]
fn test_rank_dyadic_two_ranks_pair_independently() {
    let mut env = Environment::new();
    env.eval_line("⎕IO←1").unwrap();
    // scalar cells pair up
    assert_eq!(
        ravel_ints(&mut env, ",1 2 3(,⍤0 0)4 5 6"),
        vec![1, 4, 2, 5, 3, 6]
    );
    assert_eq!(ravel_ints(&mut env, "⍴1 2 3(,⍤0 0)4 5 6"), vec![3, 2]);
    // each scalar with the whole B
    assert_eq!(
        ravel_ints(&mut env, ",1 2 3(,⍤0 1)4 5 6"),
        vec![1, 4, 5, 6, 2, 4, 5, 6, 3, 4, 5, 6]
    );
    // whole A with each scalar
    assert_eq!(
        ravel_ints(&mut env, ",1 2 3(,⍤1 0)4 5 6"),
        vec![1, 2, 3, 4, 1, 2, 3, 5, 1, 2, 3, 6]
    );
}

#[test]
fn test_rank_dyadic_parenthesized_lhs() {
    let mut env = Environment::new();
    env.eval_line("⎕IO←1").unwrap();
    assert_eq!(
        ravel_ints(&mut env, ",(2 2⍴1 2 3 4)(,⍤1 1)2 2⍴5 6 7 8"),
        vec![1, 2, 5, 6, 3, 4, 7, 8]
    );
    assert_eq!(
        ravel_ints(&mut env, ",(2 2⍴1 2 3 4)(+⍤1)2 2⍴5 6 7 8"),
        vec![6, 8, 10, 12]
    );
}

#[test]
fn test_selective_assignment_take() {
    let mut env = Environment::new();
    env.eval_line("⎕IO←1").unwrap();
    env.eval_line("V←1 2 3 4 5").unwrap();
    env.eval_line("(2↑V)←9 8").unwrap();
    assert_eq!(ravel_ints(&mut env, "V"), vec![9, 8, 3, 4, 5]);
}

#[test]
fn test_selective_assignment_drop() {
    let mut env = Environment::new();
    env.eval_line("⎕IO←1").unwrap();
    env.eval_line("V←1 2 3 4 5").unwrap();
    env.eval_line("(2↓V)←9 9 9").unwrap();
    assert_eq!(ravel_ints(&mut env, "V"), vec![1, 2, 9, 9, 9]);
}

#[test]
fn test_selective_assignment_rotate() {
    let mut env = Environment::new();
    env.eval_line("⎕IO←1").unwrap();
    env.eval_line("V←1 2 3 4 5").unwrap();
    env.eval_line("(3⌽V)←10 20 30 40 50").unwrap();
    assert_eq!(ravel_ints(&mut env, "V"), vec![30, 40, 50, 10, 20]);
}

#[test]
fn test_selective_assignment_reshape() {
    let mut env = Environment::new();
    env.eval_line("⎕IO←1").unwrap();
    env.eval_line("V←1 2 3 4 5").unwrap();
    env.eval_line("(3⍴V)←99 99 99").unwrap();
    assert_eq!(ravel_ints(&mut env, "V"), vec![99, 99, 99, 4, 5]);
}

#[test]
fn test_selective_assignment_broadcast_scalar() {
    let mut env = Environment::new();
    env.eval_line("⎕IO←1").unwrap();
    env.eval_line("V←1 2 3 4 5").unwrap();
    env.eval_line("(2↑V)←99").unwrap();
    assert_eq!(ravel_ints(&mut env, "V"), vec![99, 99, 3, 4, 5]);
}

#[test]
fn test_selective_assignment_matrix() {
    let mut env = Environment::new();
    env.eval_line("⎕IO←1").unwrap();
    env.eval_line("M←2 3⍴⍳6").unwrap();
    env.eval_line("(2 3↑M)←99").unwrap();
    assert_eq!(ravel_ints(&mut env, ",M"), vec![99, 99, 99, 99, 99, 99]);
}

#[test]
fn test_selective_assignment_extra_rhs_ignored() {
    // RHS has more elements than positions; extras are silently ignored
    let mut env = Environment::new();
    env.eval_line("⎕IO←1").unwrap();
    env.eval_line("V←1 2 3 4 5").unwrap();
    env.eval_line("(4↑V)←10 20 30 40 50 60").unwrap();
    assert_eq!(ravel_ints(&mut env, "V"), vec![10, 20, 30, 40, 5]);
}

















#[test]
fn test_power_op_named_function() {
    // f⍣N — apply named function N times
    let mut env = Environment::new();
    env.eval_line("double←{2×⍵}").unwrap();
    let v = env.eval_line("double⍣3 5").unwrap().unwrap();
    assert_eq!(v.first_cell().unwrap(), &Cell::Int(40)); // 5→10→20→40
}

#[test]
fn test_power_op_named_function_square() {
    // square⍣2 3 → 3²=9, 9²=81
    let mut env = Environment::new();
    env.eval_line("square←{⍵×⍵}").unwrap();
    let v = env.eval_line("square⍣2 3").unwrap().unwrap();
    assert_eq!(v.first_cell().unwrap(), &Cell::Int(81));
}

#[test]
fn test_selective_assignment_squad() {
    let mut env = Environment::new();
    env.eval_line("⎕IO←1").unwrap();
    env.eval_line("M←2 3⍴⍳6").unwrap();
    env.eval_line("(1 2⌷M)←99").unwrap();
    assert_eq!(ravel_ints(&mut env, ",M"), vec![1, 99, 3, 4, 5, 6]);
}

#[test]
fn test_selective_assignment_squad_multiple() {
    let mut env = Environment::new();
    env.eval_line("⎕IO←1").unwrap();
    env.eval_line("M←2 3⍴⍳6").unwrap();
    env.eval_line("(1 2⌷M)←99").unwrap();
    env.eval_line("(2 3⌷M)←88").unwrap();
    assert_eq!(ravel_ints(&mut env, ",M"), vec![1, 99, 3, 4, 5, 88]);
}

#[test]
fn test_selective_assignment_squad_out_of_bounds() {
    let mut env = Environment::new();
    env.eval_line("⎕IO←1").unwrap();
    env.eval_line("M←2 3⍴⍳6").unwrap();
    assert!(env.eval_line("(3 1⌷M)←99").is_err()); // row 3 out of bounds
    assert!(env.eval_line("(1 4⌷M)←99").is_err()); // col 4 out of bounds
}

#[test]
fn test_selective_assignment_table() {
    let mut env = Environment::new();
    env.eval_line("⎕IO←1").unwrap();
    env.eval_line("V←10 20 30").unwrap();
    env.eval_line("(⍪V)←99 88 77").unwrap();
    assert_eq!(ravel_ints(&mut env, "V"), vec![99, 88, 77]);
}

#[test]
fn test_selective_assignment_table_reshape() {
    // ⍪ on a vector makes it a column vector; assignment replaces entirely
    let mut env = Environment::new();
    env.eval_line("⎕IO←1").unwrap();
    env.eval_line("V←10 20 30").unwrap();
    env.eval_line("(⍪V)←99 88 77").unwrap();
    assert_eq!(ravel_ints(&mut env, "V"), vec![99, 88, 77]);
}

#[test]
fn test_zilde_is_empty_numeric_vector() {
    let mut env = Environment::new();
    let v = env.eval_line("⍬").unwrap().unwrap();
    assert_eq!(v.rank(), 1);
    assert_eq!(v.element_count(), 0);
}

#[test]
fn test_zilde_rho() {
    let _env = Environment::new();
    assert_eq!(eval_int("⍴⍬"), 0);
}

#[test]
fn test_zilde_tally() {
    let _env = Environment::new();
    assert_eq!(eval_int("≢⍬"), 0);
}

#[test]
fn test_zilde_equals_empty_numeric() {
    let mut env = Environment::new();
    env.eval_line("⎕IO←1").unwrap();
    assert_eq!(eval_int("⍬≡0⍴0"), 1);
}

#[test]
fn test_power_op_monic_identity() {
    // F⍣0 B = B (identity)
    let mut env = Environment::new();
    env.eval_line("⎕IO←1").unwrap();
    assert_eq!(eval_int("×⍣0 5"), 5);
}

#[test]
fn test_power_op_monic_once() {
    // F⍣1 B = F B
    let mut env = Environment::new();
    env.eval_line("⎕IO←1").unwrap();
    // sign of 5 is 1
    assert_eq!(eval_int("×⍣1 5"), 1);
}

#[test]
fn test_power_op_monic_thrice() {
    // ×⍣3 5 = ×(×(×5)) = ×(×1) = ×1 = 1
    let mut env = Environment::new();
    env.eval_line("⎕IO←1").unwrap();
    assert_eq!(eval_int("×⍣3 5"), 1);
}

#[test]
fn test_power_op_negation() {
    // Test with a monadic primitive: ⌽ reverses a vector
    // ⌽⍣3 1 2 3 = ⌽(⌽(⌽1 2 3)) = ⌽(⌽3 2 1) = ⌽1 2 3 = 3 2 1
    let mut env = Environment::new();
    env.eval_line("⎕IO←1").unwrap();
    let _v = env.eval_line("⌽⍣3 1 2 3").unwrap().unwrap();
    assert_eq!(ravel_ints(&mut env, ",⌽⍣3 1 2 3"), vec![3, 2, 1]);
}















/// the depth of a value, counted as `≡` counts it (a simple scalar is 0)
fn depth_of(v: &ValueP) -> i64 {
    let mut inner = 0;
    for c in v.cells() {
        if let Cell::Pointer(p) = c {
            let d = depth_of(&ValueP { inner: p.value.clone() });
            if d > inner {
                inner = d;
            }
        }
    }
    if v.rank() == 0 && !v.cells().iter().any(|c| matches!(c, Cell::Pointer(_))) {
        0
    } else {
        inner + 1
    }
}

#[test]
fn test_commute_swap() {
    // A F⍨ B = B F A: 10 -⍨ 3 = 3-10 = ¯7
    assert_eq!(eval_int("10 -⍨ 3"), -7);
}

#[test]
fn test_mixed_strand() {
    let mut env = Environment::new();
    let v = eval_one(&mut env, "1 'a' 2");
    assert_eq!(v.element_count(), 3);
    assert_eq!(depth_of(&v), 1);
    assert!(matches!(v.cells()[0], Cell::Int(1)));
    assert!(matches!(v.cells()[1], Cell::Char(97)));
    assert!(matches!(v.cells()[2], Cell::Int(2)));
}

#[test]
fn test_nested_strand_deep() {
    let mut env = Environment::new();
    apl::sysvars::init_sysvars(&mut env);
    let r = eval_one(&mut env, "(1 2)(3 (4 5))");
    assert_eq!(r.element_count(), 2);
    assert_eq!(depth_of(&r), 3);
}

#[test]
fn test_grade_on_matrix_orders_rows() {
    let mut env = Environment::new();
    env.eval_line("⎕IO←1").unwrap();
    assert_eq!(ravel_ints(&mut env, "⍋3 2⍴1 2 0 1 2 2"), vec![2, 1, 3]);
    assert_eq!(ravel_ints(&mut env, "⍒3 2⍴1 2 0 1 2 2"), vec![3, 1, 2]);
}

#[test]
fn test_scan_plus_vector() {
    let mut env = Environment::new();
    assert_eq!(ravel_ints(&mut env, "+\\1 2 3 4"), vec![1, 3, 6, 10]);
}

#[test]
fn test_scan_times_rows_of_matrix() {
    let mut env = Environment::new();
    assert_eq!(ravel_ints(&mut env, "×\\2 3⍴1 2 3 4 5 6"), vec![1, 2, 6, 4, 20, 120]);
}

fn chars(s: &str) -> ValueP {
    ValueP::char_vector(&s.chars().map(|c| c as u32).collect::<Vec<_>>())
}

#[test]
fn test_ns_simple_scoping() {
    let mut env = Environment::new();
    apl::sysvars::init_sysvars(&mut env);
    env.eval_line("X←100").unwrap();
    apl::quad::quad_ns(&mut env, &chars("ns1")).unwrap();
    apl::quad::quad_cs(&mut env, &chars("ns1")).unwrap();
    env.eval_line("X←200").unwrap();
    assert_eq!(eval_int_in(&mut env, "X"), 200);
    // stored qualified by the namespace's name
    assert!(env.get("ns1::X").is_some());
    apl::quad::quad_cs(&mut env, &chars("")).unwrap();
    assert_eq!(eval_int_in(&mut env, "X"), 100);
}

#[test]
fn test_ns_clear_workspace_resets() {
    let mut env = Environment::new();
    apl::sysvars::init_sysvars(&mut env);
    apl::quad::quad_ns(&mut env, &chars("myns")).unwrap();
    apl::quad::quad_cs(&mut env, &chars("myns")).unwrap();
    env.clear_workspace();
    // the namespace is gone: switching to it fails, and the root is current
    assert!(apl::quad::quad_cs(&mut env, &chars("myns")).is_err());
    env.eval_line("Y←1").unwrap();
    assert!(env.get("Y").is_some());
}

fn eval_int_in(env: &mut Environment, line: &str) -> i64 {
    match eval_one(env, line).first_cell().unwrap() {
        Cell::Int(i) => *i,
        other => panic!("expected int scalar, got {other:?}"),
    }
}

#[test]
fn test_encode_vector_builds_column_per_value() {
    let mut env = Environment::new();
    env.eval_line("⎕IO←1").unwrap();
    // 2 2 2⊤5 3 → 3 rows (one per base) × 2 columns (one per value)
    assert_eq!(ravel_ints(&mut env, "⍴2 2 2⊤5 3"), vec![3, 2]);
    assert_eq!(ravel_ints(&mut env, ",2 2 2⊤5 3"), vec![1, 0, 0, 1, 1, 1]);
}

#[test]
fn test_decode_matrix_reduces_each_column() {
    let mut env = Environment::new();
    env.eval_line("⎕IO←1").unwrap();
    // each COLUMN is an independent base-2 number
    assert_eq!(ravel_ints(&mut env, "2⊥2 3⍴1 0 1 1 1 0"), vec![3, 1, 2]);
}

#[test]
fn test_decode_mixed_radix_and_encode_round_trip() {
    let mut env = Environment::new();
    // 1 day 2 hours 3 minutes in minutes
    assert_eq!(ravel_ints(&mut env, "24 60⊥2 3"), vec![123]);
    assert_eq!(ravel_ints(&mut env, "0 24 60⊥1 2 3"), vec![1563]);
    assert_eq!(ravel_ints(&mut env, "0 24 60⊤1563"), vec![1, 2, 3]);
    // a radix 0 keeps what is left; a single radix is a residue
    assert_eq!(ravel_ints(&mut env, "0 10⊤123"), vec![12, 3]);
    assert_eq!(ravel_ints(&mut env, "10⊤123"), vec![3]);
    assert_eq!(ravel_ints(&mut env, "2 2⊤¯1"), vec![1, 1]);
    // a scalar right argument of ⊥ pairs with every radix
    assert_eq!(ravel_ints(&mut env, "2 2 2⊥1"), vec![7]);
}

#[test]
fn test_decode_encode_errors() {
    let mut env = Environment::new();
    assert!(env.eval_line("2 2 2⊥1 0").is_err()); // LENGTH ERROR
    assert!(env.eval_line("2⊥'ab'").is_err()); // DOMAIN ERROR
    assert!(env.eval_line("(2 2⍴2)⊤5").is_err()); // NONCE ERROR
}

#[test]
fn test_execute_white_space_only_is_shy_zero() {
    let mut env = Environment::new();
    for text in [&['\t' as u32][..], &[' ' as u32, '\t' as u32, '\n' as u32][..], &[0x3000u32][..]] {
        let b = ValueP::char_vector(text);
        let v = env.execute_value(&b).unwrap();
        assert!(v.is_scalar());
        assert_eq!(v.cells(), &[Cell::Int(0)][..]);
    }
}

#[test]
fn test_execute_value_assignment_lands_in_workspace() {
    let mut env = Environment::new();
    let b = ValueP::char_vector(&['Q' as u32, '←' as u32, '7' as u32]);
    let v = env.execute_value(&b).unwrap();
    assert!(v.is_scalar());
    assert_eq!(v.cells(), &[Cell::Int(0)][..]);
    assert_eq!(env.get_var("Q").unwrap().cells(), &[Cell::Int(7)][..]);
    // a value-giving text gives its value
    let b = ValueP::char_vector(&['2' as u32, '×' as u32, '3' as u32, '+' as u32, '4' as u32]);
    assert_eq!(env.execute_value(&b).unwrap().cells(), &[Cell::Int(14)][..]);
}

#[test]
fn test_eval_line_one_statement_values() {
    let mut env = Environment::new();
    assert_eq!(env.eval_line("2×3+4").unwrap().unwrap().cells(), &[Cell::Int(14)][..]);
    assert_eq!(env.eval_line("5-1-2").unwrap().unwrap().cells(), &[Cell::Int(6)][..]);
    assert!(env.eval_line("X←5-1-2").unwrap().is_none());
    assert_eq!(env.get_var("X").unwrap().cells(), &[Cell::Int(6)][..]);
    assert!(env.eval_line("1+").is_err());
}
