use apl::cell::Cell;
use apl::plugins::security::{check_syscmd, get_sec_level, SecurityPlugin};
use apl::security::{SEC_LOCKED, SEC_NORMAL, SEC_RESTRICTED};
use apl::value::ValueP;


#[test]
fn test_security_plugin_info() {
    let plugin = SecurityPlugin;
    let info = plugin.info();
    assert_eq!(info.name, "security");
    assert!(info.description.contains("⎕SEC"));
}









#[test]
fn test_check_syscmd_normal_level() {
    // At level 0, all commands allowed
    assert!(check_syscmd("COPY foo", SEC_NORMAL).is_ok());
    assert!(check_syscmd("SAVE foo", SEC_NORMAL).is_ok());
}

#[test]
fn test_check_syscmd_restricted_blocks_copy() {
    // At level 1, )COPY and )INP are blocked
    assert!(check_syscmd("COPY foo", SEC_RESTRICTED).is_err());
    assert!(check_syscmd("INP foo", SEC_RESTRICTED).is_err());
    // But SAVE is still allowed
    assert!(check_syscmd("SAVE foo", SEC_RESTRICTED).is_ok());
}

#[test]
fn test_check_syscmd_locked_blocks_save() {
    // At level 2, )SAVE and )LOAD are blocked
    assert!(check_syscmd("SAVE foo", SEC_LOCKED).is_err());
    assert!(check_syscmd("LOAD foo", SEC_LOCKED).is_err());
    assert!(check_syscmd("OUT foo", SEC_LOCKED).is_err());
    assert!(check_syscmd("CONTINUE", SEC_LOCKED).is_err());
    // But simple queries are still allowed
    assert!(check_syscmd("VARS", SEC_LOCKED).is_ok());
}

#[test]
fn test_get_sec_level_default() {
    let sysvars: Vec<(String, ValueP)> = Vec::new();
    assert_eq!(get_sec_level(&sysvars), SEC_NORMAL);
}

#[test]
fn test_get_sec_level_with_value() {
    let mut sysvars: Vec<(String, ValueP)> = Vec::new();
    sysvars.push(("⎕SEC".into(), ValueP::scalar_from(Cell::Int(1))));
    assert_eq!(get_sec_level(&sysvars), 1);
}
