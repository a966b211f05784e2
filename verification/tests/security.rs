use apl::cell::Cell;
use apl::parser::Environment;
use apl::security::{check_sec, get_sec, SEC_LOCKED, SEC_NORMAL, SEC_RESTRICTED};
use apl::value::ValueP;


#[test]
fn test_get_sec_default() {
    let env = Environment::new();
    assert_eq!(get_sec(&env), SEC_NORMAL);
}

#[test]
fn test_get_sec_after_init() {
    let mut env = Environment::new();
    apl::sysvars::init_sysvars(&mut env);
    assert_eq!(get_sec(&env), SEC_NORMAL);
}

#[test]
fn test_check_sec_normal() {
    let mut env = Environment::new();
    apl::sysvars::init_sysvars(&mut env);

    // At ⎕SEC=0, everything allowed
    assert!(check_sec(&env, "EXECUTE").is_ok());
    assert!(check_sec(&env, "NA").is_ok());
    assert!(check_sec(&env, "LOADSO").is_ok());
    assert!(check_sec(&env, "COPY").is_ok());
    assert!(check_sec(&env, "SAVE").is_ok());
    assert!(check_sec(&env, "LOAD").is_ok());
    assert!(check_sec(&env, "OUT").is_ok());
    assert!(check_sec(&env, "FIO").is_ok());
}

#[test]
fn test_check_sec_restricted() {
    let mut env = Environment::new();
    apl::sysvars::init_sysvars(&mut env);
    env.set(
        apl::sysvars::SEC_VAR,
        ValueP::scalar_from(Cell::Int(SEC_RESTRICTED)),
    );

    // At ⎕SEC=1, ⍎/⎕NA/⎕LOADSO/)COPY/)INP blocked
    assert!(check_sec(&env, "EXECUTE").is_err());
    assert!(check_sec(&env, "NA").is_err());
    assert!(check_sec(&env, "LOADSO").is_err());
    assert!(check_sec(&env, "COPY").is_err());
    assert!(check_sec(&env, "INP").is_err());

    // )SAVE/)LOAD/)OUT/)FIO still allowed
    assert!(check_sec(&env, "SAVE").is_ok());
    assert!(check_sec(&env, "LOAD").is_ok());
    assert!(check_sec(&env, "OUT").is_ok());
    assert!(check_sec(&env, "FIO").is_ok());
}

#[test]
fn test_check_sec_locked() {
    let mut env = Environment::new();
    apl::sysvars::init_sysvars(&mut env);
    env.set(
        apl::sysvars::SEC_VAR,
        ValueP::scalar_from(Cell::Int(SEC_LOCKED)),
    );

    // At ⎕SEC=2, everything blocked
    assert!(check_sec(&env, "EXECUTE").is_err());
    assert!(check_sec(&env, "NA").is_err());
    assert!(check_sec(&env, "LOADSO").is_err());
    assert!(check_sec(&env, "COPY").is_err());
    assert!(check_sec(&env, "SAVE").is_err());
    assert!(check_sec(&env, "LOAD").is_err());
    assert!(check_sec(&env, "OUT").is_err());
    assert!(check_sec(&env, "FIO").is_err());
}

#[test]
fn test_check_sec_unknown_operation() {
    let mut env = Environment::new();
    apl::sysvars::init_sysvars(&mut env);
    env.set(
        apl::sysvars::SEC_VAR,
        ValueP::scalar_from(Cell::Int(SEC_LOCKED)),
    );
    // Unknown operations are always allowed
    assert!(check_sec(&env, "UNKNOWN_OP").is_ok());
}
