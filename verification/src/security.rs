//! Security levels: ⎕SEC 0 allows everything; 1 blocks execute, native
//! functions, loading shared objects, )COPY and )INP; 2 also blocks )SAVE,
//! )LOAD, )OUT and file input and output.

use vstd::prelude::*;
use crate::cell::Cell;
use crate::parser::Environment;
use crate::text::{chars_to_string, decimal, push_decimal, str_chars};
use crate::value::ValueP;

verus! {

/// all operations allowed
pub const SEC_NORMAL: i64 = 0;
/// execute, native functions and workspace copies blocked
pub const SEC_RESTRICTED: i64 = 1;
/// also saving, loading and file access blocked
pub const SEC_LOCKED: i64 = 2;

/// The security level held by the variables: the integer first in ⎕SEC,
/// and 0 when it is unbound or holds something else first.
pub open spec fn sec_of(vars: Map<Seq<char>, ValueP>) -> i64 {
    if vars.dom().contains(crate::sysvars::SEC_VAR@) && vars[crate::sysvars::SEC_VAR@].ravel().len() > 0 {
        match vars[crate::sysvars::SEC_VAR@].ravel()[0] {
            Cell::Int(i) => i,
            _ => SEC_NORMAL,
        }
    } else {
        SEC_NORMAL
    }
}

/// `⎕SEC`, the security level of the workspace.
pub fn get_sec(env: &Environment) -> (r: i64)
    requires
        env.wf(),
    ensures
        r == sec_of(env.vars_view()),
{
    match env.get(crate::sysvars::SEC_VAR) {
        Some(v) => match v.first_cell() {
            Some(Cell::Int(i)) => *i,
            _ => SEC_NORMAL,
        },
        None => SEC_NORMAL,
    }
}

/// The level from which operation `op` is blocked, -1 for one that is
/// never blocked.
pub open spec fn blocked_from(op: Seq<char>) -> i64 {
    if op == "EXECUTE"@ || op == "NA"@ || op == "LOADSO"@ || op == "COPY"@ || op == "INP"@ {
        SEC_RESTRICTED
    } else if op == "SAVE"@ || op == "LOAD"@ || op == "OUT"@ || op == "FIO"@ {
        SEC_LOCKED
    } else {
        -1i64
    }
}

/// The message of a refused operation.
pub open spec fn sec_message(op: Seq<char>, sec: i64, from: i64) -> Seq<char> {
    "SECURITY ERROR: "@ + op + " is blocked at ⎕SEC="@ + decimal(sec as nat)
        + " (requires ⎕SEC<"@ + decimal(from as nat) + ")"@
}

/// Whether two texts are the same.
pub(crate) fn same_text(a: &str, b: &str) -> (r: bool)
    ensures
        r == (a@ == b@),
{
    let x = str_chars(a);
    let y = str_chars(b);
    if x.len() != y.len() {
        return false;
    }
    let mut i: usize = 0;
    while i < x.len()
        invariant
            x@ == a@,
            y@ == b@,
            x@.len() == y@.len(),
            i <= x@.len(),
            forall|k: int| 0 <= k < i ==> x@[k] == y@[k],
        decreases x@.len() - i,
    {
        if x[i] != y[i] {
            assert(x@[i as int] != y@[i as int]);
            return false;
        }
        i += 1;
    }
    assert(x@ =~= y@);
    true
}

/// The level from which `op` is blocked.
fn blocked_level(op: &str) -> (r: i64)
    ensures
        r == blocked_from(op@),
{
    if same_text(op, "EXECUTE") || same_text(op, "NA") || same_text(op, "LOADSO")
        || same_text(op, "COPY") || same_text(op, "INP") {
        SEC_RESTRICTED
    } else if same_text(op, "SAVE") || same_text(op, "LOAD") || same_text(op, "OUT") || same_text(op, "FIO") {
        SEC_LOCKED
    } else {
        -1
    }
}

/// Whether operation `op` is allowed at the security level of the
/// workspace: Ok when it is, and the message that says why not when it is
/// blocked.
pub fn check_sec(env: &Environment, operation: &str) -> (r: Result<(), String>)
    requires
        env.wf(),
    ensures
        ({
            let from = blocked_from(operation@);
            let sec = sec_of(env.vars_view());
            &&& (from >= 0 && sec >= from) ==> (r matches Err(m) && m@ == sec_message(operation@, sec, from))
            &&& !(from >= 0 && sec >= from) ==> r is Ok
        }),
{
    let sec = get_sec(env);
    let from = blocked_level(operation);
    if from >= 0 && sec >= from {
        let mut text = str_chars("SECURITY ERROR: ");
        let op = str_chars(operation);
        let mut k: usize = 0;
        let ghost start = text@;
        while k < op.len()
            invariant
                k <= op@.len(),
                text@ == start + op@.take(k as int),
            decreases op@.len() - k,
        {
            text.push(op[k]);
            proof { assert(text@ =~= start + op@.take(k as int + 1)); }
            k += 1;
        }
        assert(op@.take(op@.len() as int) =~= op@);
        append_str(&mut text, " is blocked at ⎕SEC=");
        push_decimal(&mut text, sec as u64);
        append_str(&mut text, " (requires ⎕SEC<");
        push_decimal(&mut text, from as u64);
        append_str(&mut text, ")");
        proof {
            assert(text@ =~= sec_message(operation@, sec, from));
        }
        Err(chars_to_string(text.as_slice()))
    } else {
        Ok(())
    }
}

/// Append the characters of `s` to `out`.
fn append_str(out: &mut Vec<char>, s: &str)
    ensures
        final(out)@ == old(out)@ + s@,
{
    let c = str_chars(s);
    let mut k: usize = 0;
    while k < c.len()
        invariant
            k <= c@.len(),
            out@ == old(out)@ + c@.take(k as int),
        decreases c@.len() - k,
    {
        out.push(c[k]);
        proof { assert(out@ =~= old(out)@ + c@.take(k as int + 1)); }
        k += 1;
    }
    assert(c@.take(c@.len() as int) =~= c@);
}


/// The levels are cumulative: level 0 blocks nothing, and what a level
/// blocks, every higher level blocks too.
pub proof fn law_levels_cumulative(op: Seq<char>, low: i64, high: i64)
    requires
        low <= high,
    ensures
        !(blocked_from(op) >= 0 && SEC_NORMAL >= blocked_from(op)),
        (blocked_from(op) >= 0 && low >= blocked_from(op)) ==> (blocked_from(op) >= 0 && high >= blocked_from(op)),
        blocked_from(op) == SEC_RESTRICTED ==> SEC_LOCKED >= blocked_from(op),
{
}

} // verus!
