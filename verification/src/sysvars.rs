//! System variables: the index origin, the print precision and whether
//! nested values print boxed. They live in the workspace under names that
//! begin with `⎕`.

use vstd::prelude::*;
use crate::cell::Cell;
use crate::parser::Environment;
use crate::types::{AplResult, ErrorCode};
use crate::value::ValueP;

verus! {

/// the index origin
pub const IO_VAR: &'static str = "⎕IO";
/// the comparison tolerance
pub const CT_VAR: &'static str = "⎕CT";
/// the print precision
pub const PP_VAR: &'static str = "⎕PP";
/// whether nested values print boxed
pub const BOXING_VAR: &'static str = "⎕BOXING";
/// the security level
pub const SEC_VAR: &'static str = "⎕SEC";

/// `v` is the scalar integer `i`.
pub open spec fn is_int_scalar(v: ValueP, i: i64) -> bool {
    v.dims() == Seq::<i64>::empty() && v.ravel() == seq![Cell::Int(i)]
}

/// Every bound system variable among those read here has a first cell.
pub open spec fn sysvars_nonempty(vars: Map<Seq<char>, ValueP>) -> bool {
    &&& vars.dom().contains(IO_VAR@) ==> vars[IO_VAR@].ravel().len() > 0
    &&& vars.dom().contains(PP_VAR@) ==> vars[PP_VAR@].ravel().len() > 0
    &&& vars.dom().contains(BOXING_VAR@) ==> vars[BOXING_VAR@].ravel().len() > 0
}

/// The index origin held by the variables: 0 when ⎕IO is unbound, the
/// integer in its first cell otherwise, and a DOMAIN ERROR when that cell is
/// not an integer or there is none.
pub open spec fn io_of(vars: Map<Seq<char>, ValueP>) -> AplResult<i64> {
    if !vars.dom().contains(IO_VAR@) {
        Ok(0)
    } else if vars[IO_VAR@].ravel().len() == 0 {
        Err(ErrorCode::DomainError)
    } else {
        match vars[IO_VAR@].ravel()[0] {
            Cell::Int(i) => Ok(i),
            _ => Err(ErrorCode::DomainError),
        }
    }
}

/// Whether nested values print boxed: on unless ⎕BOXING holds an integer 0
/// first.
pub open spec fn boxing_of(vars: Map<Seq<char>, ValueP>) -> bool {
    if !vars.dom().contains(BOXING_VAR@) {
        true
    } else {
        match vars[BOXING_VAR@].ravel()[0] {
            Cell::Int(i) => i != 0,
            _ => true,
        }
    }
}

/// The print precision: the integer first in ⎕PP when it lies in 1..20,
/// and 10 otherwise.
pub open spec fn pp_of(vars: Map<Seq<char>, ValueP>) -> usize {
    if !vars.dom().contains(PP_VAR@) {
        10
    } else {
        match vars[PP_VAR@].ravel()[0] {
            Cell::Int(i) => if 1 <= i <= 20 { i as usize } else { 10 },
            _ => 10,
        }
    }
}

/// Bind the system variables to their defaults: ⎕IO 0, ⎕PP 10 and
/// ⎕BOXING 1.
pub fn init_sysvars(env: &mut Environment)
    requires
        old(env).wf(),
    ensures
        final(env).wf(),
        final(env).fn_names() == old(env).fn_names(),
        final(env).vars_view().dom()
            == old(env).vars_view().dom().insert(IO_VAR@).insert(PP_VAR@).insert(BOXING_VAR@),
        is_int_scalar(final(env).vars_view()[IO_VAR@], 0),
        is_int_scalar(final(env).vars_view()[PP_VAR@], 10),
        is_int_scalar(final(env).vars_view()[BOXING_VAR@], 1),
        forall|k: Seq<char>| k != IO_VAR@ && k != PP_VAR@ && k != BOXING_VAR@
            && #[trigger] old(env).vars_view().dom().contains(k)
            ==> final(env).vars_view()[k] == old(env).vars_view()[k],
{
    proof {
        reveal_strlit("⎕IO");
        reveal_strlit("⎕PP");
        reveal_strlit("⎕BOXING");
        assert(IO_VAR@[1] != PP_VAR@[1]);
        assert(IO_VAR@.len() != BOXING_VAR@.len());
        assert(PP_VAR@.len() != BOXING_VAR@.len());
    }
    env.set(IO_VAR, ValueP::scalar_from(Cell::Int(0)));
    env.set(PP_VAR, ValueP::scalar_from(Cell::Int(10)));
    env.set(BOXING_VAR, ValueP::scalar_from(Cell::Int(1)));
}

/// ⎕BOXING: whether nested values print boxed.
pub fn get_boxing(env: &Environment) -> (r: bool)
    requires
        env.wf(),
        env.vars_view().dom().contains(BOXING_VAR@) ==> env.vars_view()[BOXING_VAR@].ravel().len() > 0,
    ensures
        r == boxing_of(env.vars_view()),
{
    match env.get(BOXING_VAR) {
        Some(v) => match v.first_cell() {
            Some(Cell::Int(i)) => *i != 0,
            _ => true,
        },
        None => true,
    }
}

/// ⎕IO, the index origin.
pub fn get_io(env: &Environment) -> (r: AplResult<i64>)
    requires
        env.wf(),
    ensures
        r == io_of(env.vars_view()),
{
    env.get_io()
}

/// ⎕PP, the print precision.
pub fn get_pp(env: &Environment) -> (r: AplResult<usize>)
    requires
        env.wf(),
        env.vars_view().dom().contains(PP_VAR@) ==> env.vars_view()[PP_VAR@].ravel().len() > 0,
    ensures
        r == Ok::<usize, ErrorCode>(pp_of(env.vars_view())),
{
    match env.get(PP_VAR) {
        Some(v) => match v.first_cell() {
            Some(Cell::Int(i)) => {
                if *i < 1 || *i > 20 {
                    Ok(10)
                } else {
                    Ok(*i as usize)
                }
            },
            _ => Ok(10),
        },
        None => Ok(10),
    }
}


/// The defaults that `init_sysvars` binds are what the readers give: index
/// origin 0, print precision 10 and boxed display.
pub proof fn law_defaults_read_back(vars: Map<Seq<char>, ValueP>)
    requires
        is_int_scalar(vars[IO_VAR@], 0),
        is_int_scalar(vars[PP_VAR@], 10),
        is_int_scalar(vars[BOXING_VAR@], 1),
        vars.dom().contains(IO_VAR@),
        vars.dom().contains(PP_VAR@),
        vars.dom().contains(BOXING_VAR@),
    ensures
        io_of(vars) == Ok::<i64, ErrorCode>(0),
        pp_of(vars) == 10,
        boxing_of(vars),
        sysvars_nonempty(vars),
{
}

} // verus!
