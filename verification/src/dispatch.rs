//! Applying a primitive function glyph to values: the monadic and dyadic
//! meaning of each glyph, with the index origin where it matters.

use vstd::prelude::*;
use crate::cell::{Cell, PointerCellData};
use crate::prims::{
    iota_count, map_apply, reduce_outcome, reshape_dims, values_match, MonadicFn,
};
use crate::scalar::{dyadic_outcome, ScalarFn};
use crate::tokenizer::Prim;
use crate::types::{AplResult, ErrorCode};
use crate::value::ValueP;

verus! {

/// The dyadic scalar function of a glyph, if it is one.
pub open spec fn scalar_fn_spec(p: Prim) -> Option<ScalarFn> {
    match p {
        Prim::Add => Some(ScalarFn::Add),
        Prim::Subtract => Some(ScalarFn::Subtract),
        Prim::Multiply => Some(ScalarFn::Multiply),
        Prim::Ceiling => Some(ScalarFn::Maximum),
        Prim::Floor => Some(ScalarFn::Minimum),
        Prim::Equal => Some(ScalarFn::Equal),
        Prim::NotEqual => Some(ScalarFn::NotEqual),
        Prim::Less => Some(ScalarFn::Less),
        Prim::LessEq => Some(ScalarFn::LessEq),
        Prim::Greater => Some(ScalarFn::Greater),
        Prim::GreaterEq => Some(ScalarFn::GreaterEq),
        Prim::And => Some(ScalarFn::And),
        Prim::Or => Some(ScalarFn::Or),
        Prim::Magnitude => Some(ScalarFn::Residue),
        Prim::Power => Some(ScalarFn::Power),
        _ => None,
    }
}

/// The dyadic scalar function of a glyph, if it is one.
pub fn scalar_fn_of(p: Prim) -> (r: Option<ScalarFn>)
    ensures
        r == scalar_fn_spec(p),
{
    match p {
        Prim::Add => Some(ScalarFn::Add),
        Prim::Subtract => Some(ScalarFn::Subtract),
        Prim::Multiply => Some(ScalarFn::Multiply),
        Prim::Ceiling => Some(ScalarFn::Maximum),
        Prim::Floor => Some(ScalarFn::Minimum),
        Prim::Equal => Some(ScalarFn::Equal),
        Prim::NotEqual => Some(ScalarFn::NotEqual),
        Prim::Less => Some(ScalarFn::Less),
        Prim::LessEq => Some(ScalarFn::LessEq),
        Prim::Greater => Some(ScalarFn::Greater),
        Prim::GreaterEq => Some(ScalarFn::GreaterEq),
        Prim::And => Some(ScalarFn::And),
        Prim::Or => Some(ScalarFn::Or),
        Prim::Magnitude => Some(ScalarFn::Residue),
        Prim::Power => Some(ScalarFn::Power),
        _ => None,
    }
}

/// The monadic scalar function of a glyph, if it is one.
pub open spec fn monadic_fn_spec(p: Prim) -> Option<MonadicFn> {
    match p {
        Prim::Add => Some(MonadicFn::Same),
        Prim::Ceiling => Some(MonadicFn::Same),
        Prim::Floor => Some(MonadicFn::Same),
        Prim::Subtract => Some(MonadicFn::Negate),
        Prim::Multiply => Some(MonadicFn::Signum),
        Prim::Magnitude => Some(MonadicFn::Magnitude),
        Prim::Not => Some(MonadicFn::Not),
        _ => None,
    }
}

/// `r` is the result of a value-returning primitive with the stated shape
/// and ravel.
pub open spec fn gives(r: AplResult<ValueP>, d: Seq<i64>, cells: Seq<Cell>) -> bool {
    r matches Ok(v) && v.dims() == d && v.ravel() == cells
}

/// What the monadic application of glyph `p` to B with index origin `io`
/// gives. Glyphs without a monadic meaning here give NONCE ERROR.
pub open spec fn monadic_post(p: Prim, b: ValueP, io: i64, r: AplResult<ValueP>) -> bool {
    if monadic_fn_spec(p) is Some {
        match map_apply(monadic_fn_spec(p)->Some_0, b.ravel()) {
            Err(e) => r == Err::<ValueP, ErrorCode>(e),
            Ok(cells) => gives(r, b.dims(), cells),
        }
    } else {
        match p {
            Prim::Iota => match iota_count(b, io) {
                Err(e) => r == Err::<ValueP, ErrorCode>(e),
                Ok(n) => gives(r, seq![n], Seq::new(n as nat, |i: int| Cell::Int((i + io) as i64))),
            },
            Prim::Rho => gives(r, seq![b.dims().len() as i64], crate::value::int_cells(b.dims())),
            Prim::Comma => gives(r, seq![b.ravel().len() as i64], b.ravel()),
            Prim::Reverse => gives(r, b.dims(), crate::rotate::spec_reverse(b)),
            Prim::Left | Prim::Right => r == Ok::<ValueP, ErrorCode>(b),
            Prim::NotMatch => gives(r, Seq::empty(),
                seq![Cell::Int(if b.dims().len() == 0 { 1 } else { b.dims()[0] })]),
            Prim::Enclose => if b.dims().len() == 0 && !(b.ravel()[0] is Pointer) {
                r == Ok::<ValueP, ErrorCode>(b)
            } else {
                gives(r, Seq::empty(), seq![Cell::Pointer(PointerCellData { value: b.inner })])
            },
            Prim::GradeUp | Prim::GradeDown => if io + crate::sort::grade_items(b) <= i64::MAX + 1
                && crate::sort::grade_items(b) <= usize::MAX {
                r matches Ok(v) && v.dims() == seq![crate::sort::grade_items(b) as i64]
                    && crate::sort::is_grade(b, p == Prim::GradeDown, io, v.ravel())
            } else {
                r == Err::<ValueP, ErrorCode>(ErrorCode::LimitError)
            },
            Prim::Rotate1 => if b.dims().len() <= 1 {
                gives(r, b.dims(), crate::rotate::spec_reverse(b))
            } else {
                gives(r, b.dims(), crate::squad::spec_reverse_first(b))
            },
            Prim::Transpose => if b.dims().len() < 2 {
                r == Ok::<ValueP, ErrorCode>(b)
            } else {
                gives(r, b.dims().reverse(), crate::transpose::transposed(b.ravel(), b.dims(),
                    Seq::new(b.dims().len(), |k: int| b.dims().len() - 1 - k), b.dims().reverse()))
            },
            Prim::Union => if b.dims().len() > 1 {
                r == Err::<ValueP, ErrorCode>(ErrorCode::RankError)
            } else if b.ravel().len() <= 1 {
                r == Ok::<ValueP, ErrorCode>(b)
            } else {
                gives(r, seq![crate::union::dedup(b.ravel()).len() as i64], crate::union::dedup(b.ravel()))
            },
            Prim::Comma1 => gives(r, crate::catenate::table_dims(b.dims()), b.ravel()),
            Prim::Disclose => if b.dims().len() == 0 && b.ravel()[0] is Pointer {
                r matches Ok(v) && *v.inner == *b.ravel()[0]->Pointer_0.value
            } else {
                r == Ok::<ValueP, ErrorCode>(b)
            },
            Prim::Epsilon => if b.flat().len() <= i64::MAX {
                gives(r, seq![b.flat().len() as i64], b.flat())
            } else {
                r == Err::<ValueP, ErrorCode>(ErrorCode::LimitError)
            },
            Prim::Where => call_ensures(crate::prims::where_io, (&b, io), r),
            Prim::Format => call_ensures(crate::format::format_value, (&b,), r),
            _ => r == Err::<ValueP, ErrorCode>(ErrorCode::NonceError),
        }
    }
}

/// What the dyadic application of glyph `p` to A and B gives: for a scalar
/// glyph, match and membership the result itself; for each other glyph,
/// what the contract of the primitive it calls says of it (`call_ensures`);
/// NONCE ERROR for a glyph without a dyadic meaning here.
pub open spec fn dyadic_post(p: Prim, a: ValueP, b: ValueP, io: i64, r: AplResult<ValueP>) -> bool {
    if scalar_fn_spec(p) is Some {
        match dyadic_outcome(scalar_fn_spec(p)->Some_0, a, b) {
            Err(e) => r == Err::<ValueP, ErrorCode>(e),
            Ok((d, cells)) => gives(r, d, cells),
        }
    } else {
        match p {
            Prim::Left => r == Ok::<ValueP, ErrorCode>(a),
            Prim::Right => r == Ok::<ValueP, ErrorCode>(b),
            Prim::Depth => gives(r, Seq::empty(), seq![Cell::Int(if values_match(a, b) { 1 } else { 0 })]),
            Prim::NotMatch => gives(r, Seq::empty(), seq![Cell::Int(if values_match(a, b) { 0 } else { 1 })]),
            Prim::Epsilon => gives(r, a.dims(), Seq::new(a.ravel().len(), |i: int|
                Cell::Int(if crate::union::matches_some(a.ravel()[i], b.ravel()) { 1 } else { 0 }))),
            Prim::Rho => (match reshape_dims(a) {
                Err(e) => r == Err::<ValueP, ErrorCode>(e),
                Ok(d) => r matches Ok(v) && v.dims() == d,
            }) && call_ensures(crate::prims::reshape, (&a, &b), r),
            Prim::Nand | Prim::Nor => match dyadic_outcome(if p == Prim::Nand { ScalarFn::And } else { ScalarFn::Or }, a, b) {
                Err(e) => r == Err::<ValueP, ErrorCode>(e),
                Ok((d, cells)) => match map_apply(MonadicFn::Not, cells) {
                    Err(e) => r == Err::<ValueP, ErrorCode>(e),
                    Ok(c2) => gives(r, d, c2),
                },
            },
            Prim::Comma => call_ensures(crate::catenate::catenate, (&a, &b), r),
            Prim::Comma1 => if a.dims().len() <= 1 && b.dims().len() <= 1 {
                call_ensures(crate::catenate::catenate, (&a, &b), r)
            } else {
                r == Err::<ValueP, ErrorCode>(ErrorCode::NonceError)
            },
            Prim::Take => call_ensures(crate::take_drop::take_checked, (&a, &b), r),
            Prim::Drop => call_ensures(crate::take_drop::drop, (&a, &b), r),
            Prim::Reverse => call_ensures(crate::rotate::rotate, (&a, &b), r),
            Prim::Rotate1 => call_ensures(crate::squad::rotate_first, (&a, &b), r),
            Prim::Transpose => call_ensures(crate::transpose::transpose_dyadic_io, (&a, &b, io), r),
            Prim::Replicate => call_ensures(crate::replicate::replicate, (&a, &b), r),
            Prim::Union => if a.ravel().len() + b.ravel().len() > i64::MAX {
                r == Err::<ValueP, ErrorCode>(ErrorCode::LimitError)
            } else {
                call_ensures(crate::union::union, (&a, &b), r)
            },
            Prim::Inter => call_ensures(crate::union::intersection, (&a, &b), r),
            Prim::Without => call_ensures(crate::prims::without, (&a, &b), r),
            Prim::Iota => call_ensures(crate::prims::index_of, (&a, &b, io), r),
            Prim::Disclose => call_ensures(crate::pick::pick, (&a, &b), r),
            Prim::Squad => call_ensures(crate::squad::squad, (&a, &b), r),
            Prim::Partition => call_ensures(crate::partition::partition, (&a, &b), r),
            Prim::Find => call_ensures(crate::prims::find, (&a, &b), r),
            Prim::Encode => call_ensures(crate::encode::encode, (&a, &b), r),
            Prim::Decode => call_ensures(crate::encode::decode, (&a, &b), r),
            _ => r == Err::<ValueP, ErrorCode>(ErrorCode::NonceError),
        }
    }
}

/// Apply a monadic glyph, without the workspace (execute is handled by the
/// evaluator).
pub fn apply_monadic(p: Prim, b: &ValueP, io: i64) -> (r: AplResult<ValueP>)
    ensures
        monadic_post(p, *b, io, r),
{
    b.lemma_wf();
    match p {
        Prim::Add | Prim::Ceiling | Prim::Floor => crate::prims::scalar_monadic(MonadicFn::Same, b),
        Prim::Subtract => crate::prims::scalar_monadic(MonadicFn::Negate, b),
        Prim::Multiply => crate::prims::scalar_monadic(MonadicFn::Signum, b),
        Prim::Magnitude => crate::prims::scalar_monadic(MonadicFn::Magnitude, b),
        Prim::Not => crate::prims::scalar_monadic(MonadicFn::Not, b),
        Prim::Iota => crate::prims::iota_io(b, io),
        Prim::Rho => crate::prims::shape_of(b),
        Prim::Comma => crate::catenate::ravel(b),
        Prim::Reverse => crate::rotate::reverse(b),
        Prim::Rotate1 => crate::squad::reverse_first(b),
        Prim::Transpose => crate::transpose::transpose(b),
        Prim::NotMatch => crate::catenate::tally(b),
        Prim::Left | Prim::Right => Ok(b.clone()),
        Prim::Union => crate::union::unique(b),
        Prim::Where => crate::prims::where_io(b, io),
        Prim::Disclose => Ok(b.disclose()),
        Prim::Comma1 => crate::catenate::table(b),
        Prim::Epsilon => crate::value::enlist(b),
        Prim::Format => crate::format::format_value(b),
        Prim::Enclose => {
            if b.is_scalar() {
                if !b.cells()[0].is_pointer_cell() {
                    return Ok(b.clone());
                }
            }
            Ok(ValueP::nested(b.clone()))
        },
        Prim::GradeUp | Prim::GradeDown => {
            let n: i64 = if b.rank() == 0 { 1 } else { b.get_shape_item(0) };
            if (io > 0 && n > i64::MAX - io + 1) || (n as u64) > (usize::MAX as u64) {
                return Err(ErrorCode::LimitError);
            }
            crate::sort::grade_io(b, match p { Prim::GradeDown => true, _ => false }, io)
        },
        _ => Err(ErrorCode::NonceError),
    }
}

/// Apply a dyadic glyph.
pub fn apply_dyadic(p: Prim, a: &ValueP, b: &ValueP, io: i64) -> (r: AplResult<ValueP>)
    ensures
        dyadic_post(p, *a, *b, io, r),
{
    a.lemma_wf();
    b.lemma_wf();
    if let Some(f) = scalar_fn_of(p) {
        let r = crate::scalar::scalar_dyadic(f, a, b);
        return r;
    }
    match p {
        Prim::Nand | Prim::Nor => {
            let f = match p { Prim::Nand => ScalarFn::And, _ => ScalarFn::Or };
            match crate::scalar::scalar_dyadic(f, a, b) {
                Ok(v) => crate::prims::scalar_monadic(MonadicFn::Not, &v),
                Err(e) => Err(e),
            }
        },
        Prim::Left => Ok(a.clone()),
        Prim::Right => Ok(b.clone()),
        Prim::Rho => crate::prims::reshape(a, b),
        Prim::Comma => crate::catenate::catenate(a, b),
        Prim::Comma1 => {
            if a.rank() <= 1 && b.rank() <= 1 {
                crate::catenate::catenate(a, b)
            } else {
                Err(ErrorCode::NonceError)
            }
        },
        Prim::Take => crate::take_drop::take_checked(a, b),
        Prim::Drop => crate::take_drop::drop(a, b),
        Prim::Reverse => crate::rotate::rotate(a, b),
        Prim::Rotate1 => crate::squad::rotate_first(a, b),
        Prim::Transpose => crate::transpose::transpose_dyadic_io(a, b, io),
        Prim::Replicate => crate::replicate::replicate(a, b),
        Prim::Union => {
            let n = a.cells().len() as u128 + b.cells().len() as u128;
            if n > i64::MAX as u128 {
                return Err(ErrorCode::LimitError);
            }
            crate::union::union(a, b)
        },
        Prim::Inter => crate::union::intersection(a, b),
        Prim::Without => crate::prims::without(a, b),
        Prim::Iota => crate::prims::index_of(a, b, io),
        Prim::Disclose => crate::pick::pick(a, b),
        Prim::Squad => crate::squad::squad(a, b),
        Prim::Partition => crate::partition::partition(a, b),
        Prim::Depth => crate::prims::match_value(a, b),
        Prim::NotMatch => crate::prims::not_match_value(a, b),
        Prim::Epsilon => crate::prims::member(a, b),
        Prim::Find => crate::prims::find(a, b),
        Prim::Encode => crate::encode::encode(a, b),
        Prim::Decode => crate::encode::decode(a, b),
        _ => Err(ErrorCode::NonceError),
    }
}

} // verus!
