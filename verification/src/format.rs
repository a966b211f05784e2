//! Monadic format `⍕B` for simple values of rank 0 or 1: integers in
//! decimal with a high minus `¯` for negatives, characters as they are, a
//! blank between two items when either is a number.

use vstd::prelude::*;
use crate::cell::Cell;
use crate::shape::Shape;
use crate::types::{AplResult, ErrorCode, Unicode};
use crate::value::ValueP;

verus! {

/// The decimal digits of `n`.
pub open spec fn digits_of(n: nat) -> Seq<Unicode>
    decreases n,
{
    if n < 10 {
        seq![('0' as Unicode + n) as Unicode]
    } else {
        digits_of(n / 10).push(('0' as Unicode + n % 10) as Unicode)
    }
}

/// The text of integer `i`.
pub open spec fn int_text(i: i64) -> Seq<Unicode> {
    if i < 0 { seq!['¯' as Unicode] + digits_of((-(i as int)) as nat) } else { digits_of(i as nat) }
}

/// The text of one simple cell.
pub open spec fn cell_text(c: Cell) -> Seq<Unicode> {
    match c {
        Cell::Int(i) => int_text(i),
        Cell::Char(u) => seq![u],
        Cell::Pointer(_) => Seq::empty(),
    }
}

/// The text of the first `k` cells.
pub open spec fn cells_text(s: Seq<Cell>, k: int) -> Seq<Unicode>
    decreases k,
{
    if k <= 0 {
        Seq::empty()
    } else if k == 1 {
        cell_text(s[0])
    } else {
        let gap = if s[k - 2] is Int || s[k - 1] is Int { seq![' ' as Unicode] } else { Seq::empty() };
        cells_text(s, k - 1) + gap + cell_text(s[k - 1])
    }
}

/// The digits of `n`, appended to `out`.
fn push_digits(out: &mut Vec<Unicode>, n: u64)
    ensures
        final(out)@ == old(out)@ + digits_of(n as nat),
    decreases n,
{
    if n < 10 {
        out.push('0' as Unicode + n as Unicode);
    } else {
        push_digits(out, n / 10);
        out.push('0' as Unicode + (n % 10) as Unicode);
        proof {
            assert(old(out)@ + digits_of((n / 10) as nat) + seq![('0' as Unicode + n % 10) as Unicode]
                =~= old(out)@ + digits_of(n as nat));
        }
    }
}

/// The text of integer `i`, appended to `out`.
fn push_int(out: &mut Vec<Unicode>, i: i64)
    ensures
        final(out)@ == old(out)@ + int_text(i),
{
    if i < 0 {
        out.push('¯' as Unicode);
        let m: u64 = if i == i64::MIN { 0x8000_0000_0000_0000u64 } else { (-i) as u64 };
        assert(m as int == -(i as int));
        let ghost mid = out@;
        push_digits(out, m);
        proof { assert(mid + digits_of(m as nat) =~= old(out)@ + int_text(i)); }
    } else {
        push_digits(out, i as u64);
    }
}

/// The cells are simple: none is nested.
pub open spec fn simple_cells(s: Seq<Cell>) -> bool {
    forall|i: int| 0 <= i < s.len() ==> !((#[trigger] s[i]) is Pointer)
}

/// `⍕B` for a simple value of rank 0 or 1: its text as a character vector.
/// A nested value or one of higher rank is a NONCE ERROR.
pub fn format_value(b: &ValueP) -> (r: AplResult<ValueP>)
    ensures
        (b.dims().len() > 1 || !simple_cells(b.ravel())) ==> r == Err::<ValueP, ErrorCode>(ErrorCode::NonceError),
        (b.dims().len() <= 1 && simple_cells(b.ravel())) ==> ({
            let t = cells_text(b.ravel(), b.ravel().len() as int);
            &&& t.len() <= i64::MAX ==> (r matches Ok(v) && v.dims() == seq![t.len() as i64]
                && v.ravel() == crate::value::char_cells(t))
            &&& t.len() > i64::MAX ==> r == Err::<ValueP, ErrorCode>(ErrorCode::LimitError)
        }),
{
    b.lemma_wf();
    if b.rank() > 1 {
        return Err(ErrorCode::NonceError);
    }
    let cells = b.cells();
    let mut out: Vec<Unicode> = Vec::new();
    let mut i: usize = 0;
    while i < cells.len()
        invariant
            i <= cells@.len(),
            cells@ == b.ravel(),
            forall|k: int| 0 <= k < i ==> !((#[trigger] cells@[k]) is Pointer),
            out@ == cells_text(cells@, i as int),
        decreases cells@.len() - i,
    {
        let c = &cells[i];
        if i > 0 {
            let prev_num = cells[i - 1].is_int_cell();
            if prev_num || c.is_int_cell() {
                out.push(' ' as Unicode);
            }
        }
        let ghost mid = out@;
        match c {
            Cell::Int(v) => { push_int(&mut out, *v); },
            Cell::Char(u) => { out.push(*u); },
            Cell::Pointer(_) => {
                proof { assert(!simple_cells(b.ravel())); }
                return Err(ErrorCode::NonceError);
            },
        }
        proof {
            if i == 0 {
                assert(out@ =~= cells_text(cells@, 1));
            } else {
                assert(out@ =~= cells_text(cells@, i as int + 1));
            }
        }
        i += 1;
    }
    if out.len() as u128 > i64::MAX as u128 {
        return Err(ErrorCode::LimitError);
    }
    Ok(ValueP::char_vector(out.as_slice()))
}

} // verus!
