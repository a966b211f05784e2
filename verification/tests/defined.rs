use apl::cell::Cell;
use apl::functions_def::define_function;
use apl::parser::Environment;
use apl::value::ValueP;
use apl::types::ErrorCode;

fn eval_one(env: &mut Environment, line: &str) -> ValueP {
    env.eval_line(line)
        .expect("eval failed")
        .expect("expected a result")
}

fn eval_int_env(env: &mut Environment, line: &str) -> i64 {
    match eval_one(env, line).first_cell().unwrap() {
        Cell::Int(i) => *i,
        other => panic!("expected int scalar, got {:?}", other),
    }
}

#[test]
fn test_defined_function_call() {
    let mut env = Environment::new();
    define_function(&mut env.funcs, "DOUBLE X", &["X+X".to_string()]).unwrap();
    // monadic call: DOUBLE 21 → 42
    assert_eq!(eval_int_env(&mut env, "DOUBLE 21"), 42);
    // inside expressions
    assert_eq!(eval_int_env(&mut env, "1+DOUBLE 20"), 41);
}

#[test]
fn test_defined_function_dyadic() {
    let mut env = Environment::new();
    define_function(&mut env.funcs, "R←ADD A B", &["R←A+B".to_string()]).unwrap();
    assert_eq!(eval_int_env(&mut env, "3 ADD 4"), 7);
}

#[test]
fn test_defined_function_recursion() {
    let mut env = Environment::new();
    // line 1: →(N≤1)/4, line 2: R←N×FAC N-1, line 3: →0, line 4: R←1
    define_function(
        &mut env.funcs,
        "R←FAC N",
        &[
            "→(N≤1)/4".to_string(),
            "R←N×FAC N-1".to_string(),
            "→0".to_string(),
            "R←1".to_string(),
        ],
    )
    .unwrap();
    for (n, want) in [(0, 1), (1, 1), (3, 6), (5, 120), (6, 720)] {
        let v = eval_one(&mut env, &format!("FAC {}", n));
        assert_eq!(v.first_cell().unwrap().get_int_value().unwrap(), want, "FAC {} wrong", n);
    }
}

#[test]
fn test_local_shadowing_restored() {
    let mut env = Environment::new();
    define_function(
        &mut env.funcs,
        "R←F X",
        ["T←X*2".to_string(), "R←T+1".to_string()].as_slice(),
    )
    .unwrap();
    env.eval_line("T←100").unwrap();
    assert_eq!(eval_int_env(&mut env, "F 4"), 17); // T local = 16, +1
    assert_eq!(eval_int_env(&mut env, "T"), 100); // global T untouched
}

#[test]
fn test_ambivalent_call() {
    let mut env = Environment::new();
    define_function(&mut env.funcs, "HELLO", &["42".to_string()]).unwrap();
    assert_eq!(eval_int_env(&mut env, "HELLO"), 42);
}

#[test]
fn test_control_if() {
    let mut env = Environment::new();
    define_function(
        &mut env.funcs,
        "R←SIGN N",
        &[
            ":If 0≤N".to_string(),
            "R←1".to_string(),
            ":EndIf".to_string(),
            ":If N<0".to_string(),
            "R←¯1".to_string(),
            ":EndIf".to_string(),
        ],
    )
    .unwrap();
    assert_eq!(eval_int_env(&mut env, "SIGN 5"), 1);
    assert_eq!(eval_int_env(&mut env, "SIGN ¯5"), -1);
}

#[test]
fn test_control_while() {
    let mut env = Environment::new();
    define_function(
        &mut env.funcs,
        "R←SUMTO N",
        &[
            "R←0".to_string(),
            "I←1".to_string(),
            ":While I≤N".to_string(),
            "R←R+I".to_string(),
            "I←I+1".to_string(),
            ":EndWhile".to_string(),
        ],
    )
    .unwrap();
    // sum 1..=4 = 10
    assert_eq!(eval_int_env(&mut env, "SUMTO 4"), 10);
    assert_eq!(eval_int_env(&mut env, "SUMTO 0"), 0);
}

#[test]
fn test_control_if_else() {
    let mut env = Environment::new();
    define_function(
        &mut env.funcs,
        "R←CLASSIFY N",
        &[
            ":If N<0".to_string(),
            "R←¯1".to_string(),
            ":Else".to_string(),
            ":If N=0".to_string(),
            "R←0".to_string(),
            ":Else".to_string(),
            "R←1".to_string(),
            ":EndIf".to_string(),
            ":EndIf".to_string(),
        ],
    )
    .unwrap();
    assert_eq!(eval_int_env(&mut env, "CLASSIFY ¯7"), -1);
    assert_eq!(eval_int_env(&mut env, "CLASSIFY 0"), 0);
    assert_eq!(eval_int_env(&mut env, "CLASSIFY 9"), 1);
}

#[test]
fn test_control_repeat_until() {
    let mut env = Environment::new();
    define_function(
        &mut env.funcs,
        "R←COUNT N",
        &[
            "R←0".to_string(),
            "I←1".to_string(),
            ":Repeat".to_string(),
            "R←R+I".to_string(),
            "I←I+1".to_string(),
            ":Until I>N".to_string(),
            ":EndRepeat".to_string(),
        ],
    )
    .unwrap();
    // sum 1..=4 = 10; body runs, then checks :Until I>N
    assert_eq!(eval_int_env(&mut env, "COUNT 4"), 10);
    // N=0: body still runs once (until-check is at the end) → R=1
    assert_eq!(eval_int_env(&mut env, "COUNT 0"), 1);
}

#[test]
fn test_control_leave_in_while() {
    let mut env = Environment::new();
    define_function(
        &mut env.funcs,
        "R←FINDSTOP N",
        &[
            "R←0".to_string(),
            "I←1".to_string(),
            ":While 1".to_string(),
            "R←R+I".to_string(),
            ":If I≥N".to_string(),
            ":Leave".to_string(),
            ":EndIf".to_string(),
            "I←I+1".to_string(),
            ":EndWhile".to_string(),
        ],
    )
    .unwrap();
    // :While 1 loop, left by :Leave when I reaches N: sum 1..=3 = 6
    assert_eq!(eval_int_env(&mut env, "FINDSTOP 3"), 6);
}

#[test]
fn test_control_leave_in_repeat() {
    let mut env = Environment::new();
    define_function(
        &mut env.funcs,
        "R←LEAVECOUNT N",
        &[
            "R←0".to_string(),
            "I←1".to_string(),
            ":Repeat".to_string(),
            "R←R+1".to_string(),
            ":If I≥N".to_string(),
            ":Leave".to_string(),
            ":EndIf".to_string(),
            "I←I+1".to_string(),
            ":EndRepeat".to_string(),
        ],
    )
    .unwrap();
    // no :Until — only :Leave ends it. N passes → R counts N iterations
    assert_eq!(eval_int_env(&mut env, "LEAVECOUNT 5"), 5);
}

#[test]
fn defined_bad_header_is_syntax_error() {
    let mut env = Environment::new();
    assert_eq!(define_function(&mut env.funcs, "R←", &["1".to_string()]), Err(ErrorCode::SyntaxError));
    assert_eq!(define_function(&mut env.funcs, "A B C D", &["1".to_string()]), Err(ErrorCode::SyntaxError));
    assert_eq!(env.funcs.len(), 0);
}

#[test]
fn defined_unclosed_structure_is_syntax_error() {
    let mut env = Environment::new();
    let r = define_function(&mut env.funcs, "R←F N", &[":If N".to_string(), "R←1".to_string()]);
    assert_eq!(r, Err(ErrorCode::SyntaxError));
    let r = define_function(&mut env.funcs, "R←G N", &["R←1".to_string(), ":EndWhile".to_string()]);
    assert_eq!(r, Err(ErrorCode::SyntaxError));
    assert_eq!(env.funcs.len(), 0);
}

#[test]
fn defined_arity_mismatch_is_syntax_error() {
    let mut env = Environment::new();
    define_function(&mut env.funcs, "R←ADD A B", &["R←A+B".to_string()]).unwrap();
    let r = env.call_function("ADD", None, Some(ValueP::scalar_from(Cell::Int(1))));
    assert_eq!(r.err(), Some(ErrorCode::SyntaxError));
    let r = env.call_function("ADD", Some(ValueP::scalar_from(Cell::Int(2))), Some(ValueP::scalar_from(Cell::Int(3))));
    assert_eq!(r.unwrap().first_cell(), Some(&Cell::Int(5)));
    let r = env.call_function("NOPE", None, None);
    assert_eq!(r.err(), Some(ErrorCode::ValueError));
}

#[test]
fn defined_locals_restored_after_call() {
    let mut env = Environment::new();
    define_function(&mut env.funcs, "R←F A B", &["R←A+B".to_string(), "Q←R".to_string()]).unwrap();
    env.eval_line("A←100").unwrap();
    assert_eq!(eval_int_env(&mut env, "1 F 2"), 3);
    assert_eq!(eval_int_env(&mut env, "A"), 100);
    assert!(env.get("B").is_none());
    assert!(env.get("R").is_none());
    assert!(env.get("Q").is_none());
}

#[test]
fn defined_branch_loop_counts() {
    // a loop written with branches: line 2 jumps back to itself
    let mut env = Environment::new();
    define_function(
        &mut env.funcs,
        "R←TRI N",
        &["R←0".to_string(), "R←R+N ⋄ N←N-1".to_string(), "→(N>0)/2".to_string()],
    )
    .unwrap();
    assert_eq!(eval_int_env(&mut env, "TRI 4"), 10);
}

#[test]
fn test_locals_restored_when_the_function_fails() {
    let mut env = Environment::new();
    env.eval_line("N←5").unwrap();
    // the argument N is local; the second line fails inside a :If block
    define_function(
        &mut env.funcs,
        "R←BAD N",
        &[":If N=1".to_string(), "R←N+'a'".to_string(), ":EndIf".to_string()],
    )
    .unwrap();
    assert!(env.eval_line("BAD 1").is_err());
    assert_eq!(eval_int_env(&mut env, "N"), 5);
}

#[test]
fn test_call_direct_function_of_one_line() {
    let mut env = Environment::new();
    assert!(env.eval_line("F←{⍵×2+⍺}").unwrap().is_none());
    let r = env
        .call_function("F", Some(ValueP::scalar_from(Cell::Int(3))), Some(ValueP::scalar_from(Cell::Int(5))))
        .unwrap();
    assert_eq!(r.cells(), &[Cell::Int(25)][..]);
    assert!(env.eval_line("G←{⍵-1}").unwrap().is_none());
    let r = env.call_function("G", None, Some(ValueP::int_vector(&[4, 7]))).unwrap();
    assert_eq!(r.cells(), &[Cell::Int(3), Cell::Int(6)][..]);
    // ⍺ unbound in a monadic call
    assert_eq!(
        env.call_function("F", None, Some(ValueP::scalar_from(Cell::Int(5)))).err(),
        Some(ErrorCode::ValueError)
    );
}
