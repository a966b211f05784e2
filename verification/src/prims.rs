//! Further primitive functions: index generator, shape and reshape, the
//! monadic scalar functions, reduction, where, without, index-of,
//! membership and match.

use vstd::prelude::*;
use crate::cell::Cell;
use crate::scalar::{apply_cells, apply_cells_exec, in_i64, ScalarFn};
use crate::shape::{absprod, nonneg, prod, Shape};
use crate::types::{AplResult, ErrorCode, MAX_RANK};
use crate::union::{find_match_right, matches_some};
use crate::value::{all_ints, cell_match, cells_match, int_vals, proto_cell, proto_ok, ValueP};

verus! {

// ---------------------------------------------------------------------------
// Index generator and shape
// ---------------------------------------------------------------------------

/// The count of `⍳B`, or the error: LENGTH ERROR unless B has one
/// element, DOMAIN ERROR unless it is a nonnegative integer, LIMIT ERROR
/// when the last index would not fit.
pub open spec fn iota_count(b: ValueP, io: i64) -> Result<i64, ErrorCode> {
    if b.ravel().len() != 1 {
        Err(ErrorCode::LengthError)
    } else if !(b.ravel()[0] is Int) || b.ravel()[0]->Int_0 < 0 {
        Err(ErrorCode::DomainError)
    } else if !in_i64(io + b.ravel()[0]->Int_0) {
        Err(ErrorCode::LimitError)
    } else {
        Ok(b.ravel()[0]->Int_0)
    }
}

/// `⍳B` with index origin `io`: the vector `io, io+1, …` of B items.
pub fn iota_io(b: &ValueP, io: i64) -> (r: AplResult<ValueP>)
    ensures
        iota_count(*b, io) matches Err(e) ==> r == Err::<ValueP, ErrorCode>(e),
        iota_count(*b, io) matches Ok(n) ==> (r matches Ok(v) && v.dims() == seq![n]
            && v.ravel() == Seq::new(n as nat, |i: int| Cell::Int((i + io) as i64))),
{
    let cells = b.cells();
    if cells.len() != 1 {
        return Err(ErrorCode::LengthError);
    }
    let n = match &cells[0] {
        Cell::Int(n) => *n,
        _ => { return Err(ErrorCode::DomainError); },
    };
    if n < 0 {
        return Err(ErrorCode::DomainError);
    }
    if io > 0 && n > i64::MAX - io {
        return Err(ErrorCode::LimitError);
    }
    let mut out: Vec<Cell> = Vec::new();
    let mut i: i64 = 0;
    while i < n
        invariant
            0 <= i <= n,
            in_i64(io + n),
            out@ == Seq::new(i as nat, |k: int| Cell::Int((k + io) as i64)),
        decreases n - i,
    {
        out.push(Cell::Int(i + io));
        proof { assert(out@ =~= Seq::new((i + 1) as nat, |k: int| Cell::Int((k + io) as i64))); }
        i += 1;
    }
    ValueP::from_parts(Shape::vector(n), out)
}

/// `⍴B`: the dimensions of B as an integer vector.
pub fn shape_of(b: &ValueP) -> (r: AplResult<ValueP>)
    ensures
        r matches Ok(v) && v.dims() == seq![b.dims().len() as i64]
            && v.ravel() == crate::value::int_cells(b.dims()),
{
    b.lemma_wf();
    let d = b.dim_list();
    Ok(ValueP::int_vector(d.as_slice()))
}

// ---------------------------------------------------------------------------
// Reshape
// ---------------------------------------------------------------------------

/// The dimensions asked for by `A⍴B`, or the error: RANK ERROR for A of
/// rank above 1, DOMAIN ERROR for entries that are not nonnegative
/// integers, LIMIT ERROR for too many axes or too large a shape.
pub open spec fn reshape_dims(a: ValueP) -> Result<Seq<i64>, ErrorCode> {
    if a.spec_rank() > 1 {
        Err(ErrorCode::RankError)
    } else if !all_ints(a.ravel()) || !nonneg(int_vals(a.ravel())) {
        Err(ErrorCode::DomainError)
    } else if a.ravel().len() > MAX_RANK || absprod(int_vals(a.ravel())) > i64::MAX {
        Err(ErrorCode::LimitError)
    } else {
        Ok(int_vals(a.ravel()))
    }
}

/// `A⍴B`: a value of dimensions A whose cells are those of B taken
/// cyclically; an empty B fills with its fill element.
pub fn reshape(a: &ValueP, b: &ValueP) -> (r: AplResult<ValueP>)
    ensures
        reshape_dims(*a) matches Err(e) ==> r == Err::<ValueP, ErrorCode>(e),
        reshape_dims(*a) matches Ok(d) ==> (r matches Ok(v) && v.dims() == d
            && v.ravel().len() == prod(d)
            && (b.ravel().len() > 0 ==> forall|i: int| 0 <= i < prod(d)
                ==> #[trigger] v.ravel()[i] == b.ravel()[i % (b.ravel().len() as int)])
            && (b.ravel().len() == 0 ==> exists|p: Cell| proto_ok(p, b.spec_proto())
                && forall|i: int| 0 <= i < prod(d) ==> #[trigger] v.ravel()[i] == p)),
{
    b.lemma_wf();
    if a.rank() > 1 {
        return Err(ErrorCode::RankError);
    }
    let d = crate::value::int_values(a.cells())?;
    let mut k: usize = 0;
    while k < d.len()
        invariant
            k <= d@.len(),
            d@ == int_vals(a.ravel()),
            a.spec_rank() <= 1,
            all_ints(a.ravel()),
            forall|j: int| 0 <= j < k ==> d@[j] >= 0,
        decreases d@.len() - k,
    {
        if d[k] < 0 {
            proof { assert(!nonneg(d@)); }
            return Err(ErrorCode::DomainError);
        }
        k += 1;
    }
    if d.len() > MAX_RANK || !crate::take_drop::weight_fits(d.as_slice()) {
        return Err(ErrorCode::LimitError);
    }
    proof { crate::take_drop::lemma_prod_le_absprod(d@); }
    let total = crate::take_drop::prod_of(d.as_slice());
    let cells = b.cells();
    let n = cells.len();
    let fill = crate::value::proto_cell(b.inner.proto());
    let mut out: Vec<Cell> = Vec::new();
    let mut i: i64 = 0;
    while i < total
        invariant
            0 <= i <= total,
            total as int == prod(d@),
            n == cells@.len(),
            cells@ == b.ravel(),
            proto_ok(fill, b.spec_proto()),
            out@.len() == i,
            n > 0 ==> forall|j: int| 0 <= j < i ==> #[trigger] out@[j] == cells@[j % (n as int)],
            n == 0 ==> forall|j: int| 0 <= j < i ==> #[trigger] out@[j] == fill,
        decreases total - i,
    {
        if n == 0 {
            out.push(fill.clone());
        } else {
            let idx = (i as u64 % n as u64) as usize;
            proof {
                assert(idx as int == i as int % (n as int));
            }
            out.push(cells[idx].clone());
        }
        i += 1;
    }
    let shape = Shape::from_dims(d.as_slice());
    match shape {
        Ok(s) => {
            proof { use_type_invariant(s); }
            match ValueP::from_parts(s, out) {
                Ok(v) => Ok(v),
                Err(e) => Err(e),
            }
        },
        Err(e) => Err(e),
    }
}

// ---------------------------------------------------------------------------
// Monadic scalar functions
// ---------------------------------------------------------------------------

/// The monadic scalar functions on integers.
#[derive(Clone, Copy, Debug, PartialEq, Eq, Structural)]
pub enum MonadicFn {
    /// `-B`
    Negate,
    /// `|B`
    Magnitude,
    /// `×B`
    Signum,
    /// `~B` on booleans
    Not,
    /// `⌈B`, `⌊B` and `+B`, which leave integers unchanged
    Same,
}

/// The result of a monadic scalar function on one cell: DOMAIN ERROR for a
/// cell that is not an integer (not a boolean for `~`), LIMIT ERROR for a
/// result outside `i64`.
pub open spec fn apply_monadic_cell(f: MonadicFn, x: Cell) -> Result<Cell, ErrorCode> {
    match x {
        Cell::Int(a) => {
            let r: int = match f {
                MonadicFn::Negate => -(a as int),
                MonadicFn::Magnitude => if a < 0 { -(a as int) } else { a as int },
                MonadicFn::Signum => if a < 0 { -1 } else if a > 0 { 1 } else { 0 },
                MonadicFn::Not => 1 - a,
                MonadicFn::Same => a as int,
            };
            if f == MonadicFn::Not && !(a == 0 || a == 1) {
                Err(ErrorCode::DomainError)
            } else if !in_i64(r) {
                Err(ErrorCode::LimitError)
            } else {
                Ok(Cell::Int(r as i64))
            }
        },
        _ => Err(ErrorCode::DomainError),
    }
}

/// Apply `f` to each cell: the first error from the left, or all results.
pub open spec fn map_apply(f: MonadicFn, xs: Seq<Cell>) -> Result<Seq<Cell>, ErrorCode>
    decreases xs.len(),
{
    if xs.len() == 0 {
        Ok(Seq::empty())
    } else {
        match map_apply(f, xs.drop_last()) {
            Err(e) => Err(e),
            Ok(rest) => match apply_monadic_cell(f, xs.last()) {
                Err(e) => Err(e),
                Ok(c) => Ok(rest.push(c)),
            },
        }
    }
}

fn apply_monadic_cell_exec(f: MonadicFn, x: &Cell) -> (r: Result<Cell, ErrorCode>)
    ensures
        r == apply_monadic_cell(f, *x),
{
    match x {
        Cell::Int(a) => {
            let a = *a;
            match f {
                MonadicFn::Negate => if a == i64::MIN { Err(ErrorCode::LimitError) } else { Ok(Cell::Int(-a)) },
                MonadicFn::Magnitude => if a == i64::MIN { Err(ErrorCode::LimitError) }
                    else { Ok(Cell::Int(if a < 0 { -a } else { a })) },
                MonadicFn::Signum => Ok(Cell::Int(if a < 0 { -1 } else if a > 0 { 1 } else { 0 })),
                MonadicFn::Not => if a == 0 || a == 1 { Ok(Cell::Int(1 - a)) } else { Err(ErrorCode::DomainError) },
                MonadicFn::Same => Ok(Cell::Int(a)),
            }
        },
        _ => Err(ErrorCode::DomainError),
    }
}

/// `f B` for a monadic scalar function: each cell mapped, the shape kept.
pub fn scalar_monadic(f: MonadicFn, b: &ValueP) -> (r: AplResult<ValueP>)
    ensures
        map_apply(f, b.ravel()) matches Err(e) ==> r == Err::<ValueP, ErrorCode>(e),
        map_apply(f, b.ravel()) matches Ok(cells) ==> (r matches Ok(v) && v.dims() == b.dims()
            && v.ravel() == cells),
{
    b.lemma_wf();
    let cells = b.cells();
    let mut out: Vec<Cell> = Vec::new();
    let mut i: usize = 0;
    while i < cells.len()
        invariant
            i <= cells@.len(),
            cells@ == b.ravel(),
            map_apply(f, cells@.take(i as int)) == Ok::<Seq<Cell>, ErrorCode>(out@),
        decreases cells@.len() - i,
    {
        proof { assert(cells@.take(i as int + 1).drop_last() =~= cells@.take(i as int)); }
        match apply_monadic_cell_exec(f, &cells[i]) {
            Err(e) => {
                proof { lemma_map_prefix_err(f, cells@, i as int + 1); }
                return Err(e);
            },
            Ok(c) => { out.push(c); },
        }
        i += 1;
    }
    proof {
        assert(cells@.take(i as int) =~= cells@);
        lemma_map_len(f, cells@);
    }
    Ok(ValueP::from_ravel_like(b, out))
}

/// A successful map keeps the length.
proof fn lemma_map_len(f: MonadicFn, xs: Seq<Cell>)
    ensures
        map_apply(f, xs) matches Ok(ys) ==> ys.len() == xs.len(),
    decreases xs.len(),
{
    if xs.len() > 0 {
        lemma_map_len(f, xs.drop_last());
    }
}

/// An error on a prefix is the error of the whole.
proof fn lemma_map_prefix_err(f: MonadicFn, xs: Seq<Cell>, k: int)
    requires
        0 <= k <= xs.len(),
        map_apply(f, xs.take(k)) is Err,
    ensures
        map_apply(f, xs) == map_apply(f, xs.take(k)),
    decreases xs.len() - k,
{
    if k < xs.len() {
        assert(xs.take(k + 1).drop_last() =~= xs.take(k));
        lemma_map_prefix_err(f, xs, k + 1);
    } else {
        assert(xs.take(k) =~= xs);
    }
}

// ---------------------------------------------------------------------------
// Reduction
// ---------------------------------------------------------------------------

/// The identity element of `f` for reducing an empty axis, if it has one.
pub open spec fn identity_of(f: ScalarFn) -> Option<i64> {
    match f {
        ScalarFn::Add | ScalarFn::Subtract | ScalarFn::Or | ScalarFn::NotEqual
            | ScalarFn::Less | ScalarFn::Greater => Some(0),
        ScalarFn::Multiply | ScalarFn::And | ScalarFn::Equal | ScalarFn::LessEq
            | ScalarFn::GreaterEq | ScalarFn::Power => Some(1),
        ScalarFn::Maximum => Some(i64::MIN),
        ScalarFn::Minimum => Some(i64::MAX),
        ScalarFn::Residue => Some(0),
    }
}

/// `f/` of one row: `s[0] f (s[1] f (… f s[n-1]))`, evaluated from the
/// right; the identity element for an empty row.
pub open spec fn fold_row(f: ScalarFn, s: Seq<Cell>) -> Result<Cell, ErrorCode>
    decreases s.len(),
{
    if s.len() == 0 {
        match identity_of(f) {
            Some(x) => Ok(Cell::Int(x)),
            None => Err(ErrorCode::DomainError),
        }
    } else if s.len() == 1 {
        Ok(s[0])
    } else {
        match fold_row(f, s.drop_first()) {
            Err(e) => Err(e),
            Ok(c) => apply_cells(f, s[0], c),
        }
    }
}

/// Reduction applies the function between two cells with the first on
/// the left: `f/a b` is `a f b`.
pub proof fn law_reduce_pair(f: ScalarFn, a: Cell, b: Cell)
    ensures
        fold_row(f, seq![a, b]) == apply_cells(f, a, b),
{
    assert(seq![a, b].drop_first() =~= seq![b]);
    assert(fold_row(f, seq![b]) == Ok::<Cell, ErrorCode>(b));
}

/// The alternating sum `s[0] - s[1] + s[2] - …` of integers.
pub open spec fn alt_sum(s: Seq<i64>) -> int
    decreases s.len(),
{
    if s.len() == 0 { 0 } else { s[0] - alt_sum(s.drop_first()) }
}

/// Reduction runs right to left: `-/` of integers is their alternating sum
/// `s[0] - s[1] + s[2] - …` (so `-/1 2 3` is 2), as long as the sum of each
/// tail stays within `i64`.
pub proof fn law_subtract_reduce(s: Seq<i64>)
    requires
        s.len() > 0,
        forall|k: int| 0 <= k < s.len() ==> crate::scalar::in_i64(#[trigger] alt_sum(s.skip(k))),
    ensures
        fold_row(ScalarFn::Subtract, Seq::new(s.len(), |i: int| Cell::Int(s[i])))
            == Ok::<Cell, ErrorCode>(Cell::Int(alt_sum(s) as i64)),
    decreases s.len(),
{
    let c = Seq::new(s.len(), |i: int| Cell::Int(s[i]));
    assert(s.skip(0) =~= s);
    assert(crate::scalar::in_i64(alt_sum(s.skip(0))));
    if s.len() == 1 {
        assert(s.drop_first() =~= Seq::<i64>::empty());
        assert(alt_sum(s.drop_first()) == 0);
        assert(alt_sum(s) == s[0]);
    } else {
        let t = s.drop_first();
        assert forall|k: int| 0 <= k < t.len() implies crate::scalar::in_i64(#[trigger] alt_sum(t.skip(k))) by {
            assert(t.skip(k) =~= s.skip(k + 1));
        }
        law_subtract_reduce(t);
        assert(c.drop_first() =~= Seq::new(t.len(), |i: int| Cell::Int(t[i])));
        assert(t.skip(0) =~= t);
    }
}

/// `f/` of the first `k` rows of length `n`: the first error, or the results.
pub open spec fn fold_rows(f: ScalarFn, cells: Seq<Cell>, n: int, k: int) -> Result<Seq<Cell>, ErrorCode>
    decreases k,
{
    if k <= 0 {
        Ok(Seq::empty())
    } else {
        match fold_rows(f, cells, n, k - 1) {
            Err(e) => Err(e),
            Ok(rest) => match fold_row(f, cells.subrange((k - 1) * n, (k - 1) * n + n)) {
                Err(e) => Err(e),
                Ok(c) => Ok(rest.push(c)),
            },
        }
    }
}

/// The outcome of `f/B` along the last axis of B of rank 1 or more.
pub open spec fn reduce_outcome(f: ScalarFn, b: ValueP) -> Result<Seq<Cell>, ErrorCode> {
    fold_rows(f, b.ravel(), b.dims().last() as int, prod(b.dims().drop_last()))
}

/// `f/` of the row `s`.
fn fold_row_exec(f: ScalarFn, s: &[Cell]) -> (r: Result<Cell, ErrorCode>)
    ensures
        r == fold_row(f, s@),
{
    let n = s.len();
    if n == 0 {
        return match f {
            ScalarFn::Add | ScalarFn::Subtract | ScalarFn::Or | ScalarFn::NotEqual
                | ScalarFn::Less | ScalarFn::Greater => Ok(Cell::Int(0)),
            ScalarFn::Multiply | ScalarFn::And | ScalarFn::Equal | ScalarFn::LessEq
                | ScalarFn::GreaterEq | ScalarFn::Power => Ok(Cell::Int(1)),
            ScalarFn::Maximum => Ok(Cell::Int(i64::MIN)),
            ScalarFn::Minimum => Ok(Cell::Int(i64::MAX)),
            ScalarFn::Residue => Ok(Cell::Int(0)),
        };
    }
    let mut acc = s[n - 1].clone();
    let mut k: usize = n - 1;
    proof { assert(s@.skip(n as int - 1) =~= seq![s@[n as int - 1]]); }
    while k > 0
        invariant
            0 <= k < n == s@.len(),
            fold_row(f, s@.skip(k as int)) == Ok::<Cell, ErrorCode>(acc),
        decreases k,
    {
        proof { assert(s@.skip(k as int - 1).drop_first() =~= s@.skip(k as int)); }
        match apply_cells_exec(f, &s[k - 1], &acc) {
            Err(e) => {
                proof { lemma_fold_err(f, s@, k as int - 1); }
                return Err(e);
            },
            Ok(c) => { acc = c; },
        }
        k -= 1;
    }
    proof { assert(s@.skip(0) =~= s@); }
    Ok(acc)
}

/// An error folding a suffix is the error of the whole row.
proof fn lemma_fold_err(f: ScalarFn, s: Seq<Cell>, k: int)
    requires
        0 <= k < s.len() - 1,
        fold_row(f, s.skip(k)) is Err,
    ensures
        fold_row(f, s) == fold_row(f, s.skip(k)),
    decreases k,
{
    if k > 0 {
        assert(s.skip(k - 1).drop_first() =~= s.skip(k));
        lemma_fold_err(f, s, k - 1);
    } else {
        assert(s.skip(0) =~= s);
    }
}

/// `f/B`: reduce along the last axis of B with a dyadic scalar function;
/// a scalar is returned unchanged. An empty axis gives the identity
/// element of `f` (`i64::MIN` for `⌈`, `i64::MAX` for `⌊`).
pub fn reduce(f: ScalarFn, b: &ValueP) -> (r: AplResult<ValueP>)
    ensures
        b.dims().len() == 0 ==> r == Ok::<ValueP, ErrorCode>(*b),
        b.dims().len() > 0 ==> (reduce_outcome(f, *b) matches Err(e) ==> r == Err::<ValueP, ErrorCode>(e)),
        b.dims().len() > 0 ==> (reduce_outcome(f, *b) matches Ok(cells) ==> (r matches Ok(v)
            && v.dims() == b.dims().drop_last() && v.ravel() == cells)),
{
    b.lemma_wf();
    let rank = b.rank();
    if rank == 0 {
        return Ok(b.clone());
    }
    let d = b.dim_list();
    let n = d[d.len() - 1];
    let mut lead: Vec<i64> = Vec::new();
    let mut j: usize = 0;
    while j < d.len() - 1
        invariant
            j <= d@.len() - 1,
            d@.len() > 0,
            lead@ == d@.take(j as int),
        decreases d@.len() - 1 - j,
    {
        lead.push(d[j]);
        proof { assert(lead@ =~= d@.take(j as int + 1)); }
        j += 1;
    }
    proof {
        assert(lead@ =~= d@.drop_last());
        assert(d@ =~= lead@.push(n));
        crate::shape::lemma_absprod_push(lead@, n);
        crate::take_drop::lemma_prod_le_absprod(lead@);
        crate::shape::lemma_prod_nonneg(lead@);
    }
    let rows = crate::take_drop::prod_of(lead.as_slice());
    let cells = b.cells();
    let cl = cells.len();
    let mut out: Vec<Cell> = Vec::new();
    let mut i: i64 = 0;
    while i < rows
        invariant
            0 <= i <= rows,
            rows as int == prod(lead@),
            cl == cells@.len(),
            b.dims().len() > 0,
            n >= 0,
            cells@ == b.ravel(),
            cells@.len() == rows * n,
            cells@.len() <= i64::MAX,
            n == b.dims().last(),
            lead@ == b.dims().drop_last(),
            fold_rows(f, cells@, n as int, i as int) == Ok::<Seq<Cell>, ErrorCode>(out@),
        decreases rows - i,
    {
        proof {
            assert(i * n + n <= rows * n) by (nonlinear_arith) requires i + 1 <= rows, n >= 0;
            assert(0 <= i * n) by (nonlinear_arith) requires i >= 0, n >= 0;
        }
        let from = (i * n) as usize;
        let to = from + n as usize;
        let row = crate::rank::slice_cells(cells, from, to);
        proof {
            let k = i as int + 1;
            assert((k - 1) * n == i * n);
            assert(row@ == cells@.subrange((k - 1) * n, (k - 1) * n + n));
        }
        match fold_row_exec(f, row.as_slice()) {
            Err(e) => {
                proof { lemma_rows_err(f, cells@, n as int, i as int + 1, rows as int); }
                return Err(e);
            },
            Ok(c) => { out.push(c); },
        }
        i += 1;
    }
    proof { lemma_rows_len(f, cells@, n as int, rows as int); }
    let shape = Shape::from_dims(lead.as_slice());
    match shape {
        Ok(s) => {
            proof {
                use_type_invariant(s);
                crate::rank::lemma_absprod_drop_last(b.dims());
            }
            match ValueP::from_parts(s, out) {
                Ok(v) => Ok(v),
                Err(e) => Err(e),
            }
        },
        Err(e) => Err(e),
    }
}

/// An error on the first `k` rows is the error of all the rows.
proof fn lemma_rows_err(f: ScalarFn, cells: Seq<Cell>, n: int, k: int, m: int)
    requires
        0 <= k <= m,
        fold_rows(f, cells, n, k) is Err,
    ensures
        fold_rows(f, cells, n, m) == fold_rows(f, cells, n, k),
    decreases m - k,
{
    if k < m {
        lemma_rows_err(f, cells, n, k + 1, m);
    }
}

/// Folding `k` rows gives `k` cells.
proof fn lemma_rows_len(f: ScalarFn, cells: Seq<Cell>, n: int, k: int)
    requires
        k >= 0,
    ensures
        fold_rows(f, cells, n, k) matches Ok(c) ==> c.len() == k,
    decreases k,
{
    if k > 0 {
        lemma_rows_len(f, cells, n, k - 1);
    }
}

// ---------------------------------------------------------------------------
// Searching and comparing
// ---------------------------------------------------------------------------

/// The cells of `a` that match no cell of `b`, in order.
pub open spec fn excluded(a: Seq<Cell>, b: Seq<Cell>) -> Seq<Cell>
    decreases a.len(),
{
    if a.len() == 0 {
        Seq::empty()
    } else {
        let d = excluded(a.drop_last(), b);
        if matches_some(a.last(), b) { d } else { d.push(a.last()) }
    }
}

proof fn lemma_excluded_len(a: Seq<Cell>, b: Seq<Cell>)
    ensures
        excluded(a, b).len() <= a.len(),
    decreases a.len(),
{
    if a.len() > 0 {
        lemma_excluded_len(a.drop_last(), b);
    }
}

/// `A∼B`: the cells of A that match no cell of B, as a vector. A of rank
/// above 1 is a RANK ERROR.
pub fn without(a: &ValueP, b: &ValueP) -> (r: AplResult<ValueP>)
    ensures
        a.spec_rank() > 1 ==> r == Err::<ValueP, ErrorCode>(ErrorCode::RankError),
        a.spec_rank() <= 1 ==> (r matches Ok(v)
            && v.dims() == seq![excluded(a.ravel(), b.ravel()).len() as i64]
            && v.ravel() == excluded(a.ravel(), b.ravel())),
{
    a.lemma_wf();
    if a.rank() > 1 {
        return Err(ErrorCode::RankError);
    }
    let ac = a.cells();
    let bc = b.cells();
    let mut out: Vec<Cell> = Vec::new();
    let mut i: usize = 0;
    while i < ac.len()
        invariant
            i <= ac@.len(),
            out@ == excluded(ac@.take(i as int), bc@),
        decreases ac@.len() - i,
    {
        proof { assert(ac@.take(i as int + 1).drop_last() =~= ac@.take(i as int)); }
        if !find_match_right(bc, &ac[i]) {
            out.push(ac[i].clone());
        }
        i += 1;
    }
    proof {
        assert(ac@.take(i as int) =~= ac@);
        lemma_excluded_len(ac@, bc@);
    }
    let n = out.len() as i64;
    ValueP::from_parts(Shape::vector(n), out)
}

/// The position of the first cell of `a` that `c` matches, or the length
/// of `a`.
pub open spec fn first_match(a: Seq<Cell>, c: Cell) -> int
    decreases a.len(),
{
    if a.len() == 0 {
        0
    } else if cell_match(a[0], c) {
        0
    } else {
        1 + first_match(a.drop_first(), c)
    }
}

/// The position of the first cell of `a` that `c` matches, or its length.
fn first_match_exec(a: &[Cell], c: &Cell) -> (r: usize)
    ensures
        r as int == first_match(a@, *c),
        r <= a@.len(),
{
    let mut j: usize = 0;
    assert(a@.skip(0) =~= a@);
    while j < a.len()
        invariant
            j <= a@.len(),
            first_match(a@, *c) == j + first_match(a@.skip(j as int), *c),
        decreases a@.len() - j,
    {
        proof { assert(a@.skip(j as int).drop_first() =~= a@.skip(j as int + 1)); }
        if cells_match(&a[j], c) {
            return j;
        }
        j += 1;
    }
    proof { assert(a@.skip(j as int) =~= Seq::<Cell>::empty()); }
    j
}

/// `A⍳B` with index origin `io`: for each cell of B, the position in vector
/// A of the first cell matching it, or one past the end when none does.
/// A of rank above 1 is a RANK ERROR; positions past `i64::MAX` a LIMIT
/// ERROR.
pub fn index_of(a: &ValueP, b: &ValueP, io: i64) -> (r: AplResult<ValueP>)
    ensures
        a.spec_rank() > 1 ==> r == Err::<ValueP, ErrorCode>(ErrorCode::RankError),
        a.spec_rank() <= 1 && !in_i64(io + a.ravel().len())
            ==> r == Err::<ValueP, ErrorCode>(ErrorCode::LimitError),
        a.spec_rank() <= 1 && in_i64(io + a.ravel().len()) ==> (r matches Ok(v)
            && v.dims() == b.dims()
            && v.ravel() == Seq::new(b.ravel().len(), |i: int|
                Cell::Int((first_match(a.ravel(), b.ravel()[i]) + io) as i64))),
{
    a.lemma_wf();
    b.lemma_wf();
    if a.rank() > 1 {
        return Err(ErrorCode::RankError);
    }
    let ac = a.cells();
    let bc = b.cells();
    let na = ac.len() as i64;
    if io > 0 && na > i64::MAX - io {
        return Err(ErrorCode::LimitError);
    }
    let mut out: Vec<Cell> = Vec::new();
    let mut i: usize = 0;
    while i < bc.len()
        invariant
            i <= bc@.len(),
            ac@ == a.ravel(), bc@ == b.ravel(),
            na as int == ac@.len(),
            in_i64(io + na),
            out@ == Seq::new(i as nat, |k: int| Cell::Int((first_match(ac@, bc@[k]) + io) as i64)),
        decreases bc@.len() - i,
    {
        let j = first_match_exec(ac, &bc[i]);
        out.push(Cell::Int(j as i64 + io));
        proof {
            assert(out@ =~= Seq::new((i + 1) as nat, |k: int| Cell::Int((first_match(ac@, bc@[k]) + io) as i64)));
        }
        i += 1;
    }
    Ok(ValueP::from_ravel_like(b, out))
}

/// A and B match: the same dimensions and matching cells.
pub open spec fn values_match(a: ValueP, b: ValueP) -> bool {
    &&& a.dims() == b.dims()
    &&& a.ravel().len() == b.ravel().len()
    &&& forall|i: int| 0 <= i < a.ravel().len() ==> #[trigger] cell_match(a.ravel()[i], b.ravel()[i])
}

/// Whether A and B match.
pub fn match_values(a: &ValueP, b: &ValueP) -> (r: bool)
    ensures
        r == values_match(*a, *b),
{
    if !a.shape().same_as(b.shape()) {
        return false;
    }
    let ac = a.cells();
    let bc = b.cells();
    if ac.len() != bc.len() {
        return false;
    }
    let mut i: usize = 0;
    while i < ac.len()
        invariant
            i <= ac@.len() == bc@.len(),
            ac@ == a.ravel(), bc@ == b.ravel(),
            a.dims() == b.dims(),
            forall|k: int| 0 <= k < i ==> #[trigger] cell_match(ac@[k], bc@[k]),
        decreases ac@.len() - i,
    {
        if !cells_match(&ac[i], &bc[i]) {
            return false;
        }
        i += 1;
    }
    true
}

/// `A≡B`: 1 when A and B match, else 0.
pub fn match_value(a: &ValueP, b: &ValueP) -> (r: AplResult<ValueP>)
    ensures
        r matches Ok(v) && v.dims() == Seq::<i64>::empty()
            && v.ravel() == seq![Cell::Int(if values_match(*a, *b) { 1 } else { 0 })],
{
    let m = match_values(a, b);
    Ok(ValueP::scalar_from(Cell::Int(if m { 1 } else { 0 })))
}

/// `A≢B`: 0 when A and B match, else 1.
pub fn not_match_value(a: &ValueP, b: &ValueP) -> (r: AplResult<ValueP>)
    ensures
        r matches Ok(v) && v.dims() == Seq::<i64>::empty()
            && v.ravel() == seq![Cell::Int(if values_match(*a, *b) { 0 } else { 1 })],
{
    let m = match_values(a, b);
    Ok(ValueP::scalar_from(Cell::Int(if m { 0 } else { 1 })))
}

/// `A∊B`: for each cell of A, 1 when it matches some cell of B, else 0.
pub fn member(a: &ValueP, b: &ValueP) -> (r: AplResult<ValueP>)
    ensures
        r matches Ok(v) && v.dims() == a.dims()
            && v.ravel() == Seq::new(a.ravel().len(), |i: int|
                Cell::Int(if matches_some(a.ravel()[i], b.ravel()) { 1 } else { 0 })),
{
    a.lemma_wf();
    let ac = a.cells();
    let bc = b.cells();
    let mut out: Vec<Cell> = Vec::new();
    let mut i: usize = 0;
    while i < ac.len()
        invariant
            i <= ac@.len(),
            ac@ == a.ravel(), bc@ == b.ravel(),
            out@ == Seq::new(i as nat, |k: int| Cell::Int(if matches_some(ac@[k], bc@) { 1 } else { 0 })),
        decreases ac@.len() - i,
    {
        let m = find_match_right(bc, &ac[i]);
        out.push(Cell::Int(if m { 1 } else { 0 }));
        proof {
            assert(out@ =~= Seq::new((i + 1) as nat, |k: int| Cell::Int(if matches_some(ac@[k], bc@) { 1 } else { 0 })));
        }
        i += 1;
    }
    Ok(ValueP::from_ravel_like(a, out))
}

/// The cells `a` occur in `b` starting at position `p`.
pub open spec fn found_at(a: Seq<Cell>, b: Seq<Cell>, p: int) -> bool {
    0 <= p && p + a.len() <= b.len() && forall|k: int| 0 <= k < a.len() ==> cell_match(#[trigger] a[k], b[p + k])
}

/// Whether the cells of `a` occur in `b` starting at position `p`.
fn occurs_at(a: &[Cell], b: &[Cell], p: usize) -> (r: bool)
    ensures
        r == found_at(a@, b@, p as int),
{
    let an = a.len();
    let bn = b.len();
    if an > bn || p > bn - an {
        return false;
    }
    let mut k: usize = 0;
    while k < an
        invariant
            an == a@.len(),
            bn == b@.len(),
            k <= a@.len(),
            p + a@.len() <= b@.len(),
            forall|q: int| 0 <= q < k ==> cell_match(#[trigger] a@[q], b@[p + q]),
        decreases a@.len() - k,
    {
        if !cells_match(&a[k], &b[p + k]) {
            return false;
        }
        k += 1;
    }
    true
}

/// The cell at row `x`, column `y` of the row-major cells `s` of width `w`.
pub open spec fn cell_xy(s: Seq<Cell>, w: int, x: int, y: int) -> Cell {
    s[x * w + y]
}

/// The block `a` of `ar` rows and `ac` columns matches, cell by cell, the
/// matrix `b` of `cols` columns from row `i`, column `j` on.
pub open spec fn block_matches(a: Seq<Cell>, ar: int, ac: int, b: Seq<Cell>, cols: int, i: int, j: int) -> bool {
    forall|x: int, y: int| 0 <= x < ar && 0 <= y < ac
        ==> cell_match(#[trigger] cell_xy(a, ac, x, y), cell_xy(b, cols, i + x, j + y))
}

/// Whether the block `a` of `ar` rows and `ac` columns occurs in the
/// matrix `b` of `cols` columns with its first cell at row `i`, column `j`.
fn block_at(a: &[Cell], ar: usize, ac: usize, b: &[Cell], rows: usize, cols: usize, i: usize, j: usize) -> (r: bool)
    requires
        a@.len() == ar * ac,
        b@.len() == rows * cols,
        i < rows,
        j < cols,
    ensures
        r == (ar <= rows - i && ac <= cols - j && block_matches(a@, ar as int, ac as int, b@, cols as int, i as int, j as int)),
{
    let an = a.len();
    let bn = b.len();
    if ar > rows - i || ac > cols - j {
        return false;
    }
    let mut x: usize = 0;
    while x < ar
        invariant
            an == a@.len(),
            bn == b@.len(),
            x <= ar <= rows - i,
            ac <= cols - j,
            a@.len() == ar * ac,
            b@.len() == rows * cols,
            i < rows, j < cols,
            forall|x2: int, y2: int| 0 <= x2 < x && 0 <= y2 < ac
                ==> cell_match(#[trigger] cell_xy(a@, ac as int, x2, y2), cell_xy(b@, cols as int, i + x2, j + y2)),
        decreases ar - x,
    {
        let mut y: usize = 0;
        while y < ac
            invariant
                an == a@.len(),
                bn == b@.len(),
                y <= ac <= cols - j,
                x < ar <= rows - i,
                a@.len() == ar * ac,
                b@.len() == rows * cols,
                i < rows, j < cols,
                forall|x2: int, y2: int| 0 <= x2 < x && 0 <= y2 < ac
                    ==> cell_match(#[trigger] cell_xy(a@, ac as int, x2, y2), cell_xy(b@, cols as int, i + x2, j + y2)),
                forall|y2: int| 0 <= y2 < y
                    ==> cell_match(#[trigger] cell_xy(a@, ac as int, x as int, y2), cell_xy(b@, cols as int, i + x, j + y2)),
            decreases ac - y,
        {
            proof {
                crate::layout::lemma_rowmajor(x as int, y as int, ac as int, ar as int);
                crate::layout::lemma_rowmajor((i + x) as int, (j + y) as int, cols as int, rows as int);
            }
            if !cells_match(&a[x * ac + y], &b[(i + x) * cols + (j + y)]) {
                proof {
                    assert(!cell_match(cell_xy(a@, ac as int, x as int, y as int), cell_xy(b@, cols as int, i + x, j + y)));
                }
                return false;
            }
            y += 1;
        }
        x += 1;
    }
    true
}

/// `A⍷B`, find: an array of the shape of B with 1 where a copy of A
/// begins and 0 elsewhere. A vector (or scalar) A is found along the rows
/// of a matrix B. Arguments of rank above 2 are a NONCE ERROR.
pub fn find(a: &ValueP, b: &ValueP) -> (r: AplResult<ValueP>)
    ensures
        b.dims().len() <= 1 && a.dims().len() <= 1 ==> (r matches Ok(v) && v.dims() == b.dims()
            && v.ravel() == Seq::new(b.ravel().len(), |p: int|
                Cell::Int(if found_at(a.ravel(), b.ravel(), p) { 1 } else { 0 }))),
        r matches Ok(v) ==> v.dims() == b.dims(),
        b.dims().len() > 2 || a.dims().len() > 2 ==> r == Err::<ValueP, ErrorCode>(ErrorCode::NonceError),
{
    a.lemma_wf();
    b.lemma_wf();
    let ac = a.cells();
    let bc = b.cells();
    let ra = a.rank();
    let rb = b.rank();
    if ra > 2 || rb > 2 {
        return Err(ErrorCode::NonceError);
    }
    let mut out: Vec<Cell> = Vec::new();
    if rb <= 1 && ra <= 1 {
        let mut p: usize = 0;
        while p < bc.len()
            invariant
                p <= bc@.len(),
                ac@ == a.ravel(), bc@ == b.ravel(),
                out@ == Seq::new(p as nat, |q: int| Cell::Int(if found_at(ac@, bc@, q) { 1 } else { 0 })),
            decreases bc@.len() - p,
        {
            let m = occurs_at(ac, bc, p);
            out.push(Cell::Int(if m { 1 } else { 0 }));
            proof {
                assert(out@ =~= Seq::new((p + 1) as nat, |q: int| Cell::Int(if found_at(ac@, bc@, q) { 1 } else { 0 })));
            }
            p += 1;
        }
        return Ok(ValueP::from_ravel_like(b, out));
    }
    if ra > rb {
        let mut p: usize = 0;
        while p < bc.len()
            invariant
                p <= bc@.len(),
                out@.len() == p,
            decreases bc@.len() - p,
        {
            out.push(Cell::Int(0));
            p += 1;
        }
        return Ok(ValueP::from_ravel_like(b, out));
    }
    // B is a matrix and A has rank at most 2
    if bc.len() == 0 {
        return Ok(ValueP::from_ravel_like(b, out));
    }
    let d0 = b.get_shape_item(0);
    let d1 = b.get_shape_item(1);
    let (e0, e1) = if ra == 2 && ac.len() > 0 {
        (a.get_shape_item(0), a.get_shape_item(1))
    } else if ra == 2 {
        (0i64, 0i64)
    } else {
        (1i64, ac.len() as i64)
    };
    proof {
        crate::take_drop::lemma_prod_le_absprod(b.dims());
        crate::take_drop::lemma_prod_le_absprod(a.dims());
        let d = b.dims();
        assert(d.len() == 2);
        let dl = d.drop_last();
        assert(dl.drop_last() =~= Seq::<i64>::empty());
        assert(prod(dl.drop_last()) == 1);
        assert(prod(dl) == prod(dl.drop_last()) * dl.last());
        assert(dl.last() == d[0]);
        assert(prod(dl) == d[0]);
        assert(prod(d) == d[0] * d[1]);
        if ra == 2 {
            let e = a.dims();
            assert(e.len() == 2);
            let el = e.drop_last();
            assert(el.drop_last() =~= Seq::<i64>::empty());
            assert(prod(el.drop_last()) == 1);
            assert(prod(el) == prod(el.drop_last()) * el.last());
            assert(el.last() == e[0]);
            assert(prod(el) == e[0]);
            assert(prod(e) == e[0] * e[1]);
        }
    }
    proof {
        assert(d0 >= 1 && d1 >= 1 && d0 <= bc@.len() && d1 <= bc@.len()) by (nonlinear_arith)
            requires d0 >= 0, d1 >= 0, d0 * d1 == bc@.len(), bc@.len() > 0;
        if ra == 2 && ac@.len() > 0 {
            assert(e0 >= 1 && e1 >= 1 && e0 <= ac@.len() && e1 <= ac@.len()) by (nonlinear_arith)
                requires e0 >= 0, e1 >= 0, e0 * e1 == ac@.len(), ac@.len() > 0;
        }
    }
    let rows = d0 as usize;
    let cols = d1 as usize;
    let ar = e0 as usize;
    let acols = e1 as usize;
    let mut p: usize = 0;
    while p < bc.len()
        invariant
            p <= bc@.len() == rows * cols,
            ac@.len() == ar * acols,
            out@.len() == p,
        decreases bc@.len() - p,
    {
        proof {
            assert(cols > 0) by (nonlinear_arith) requires p < rows * cols, p >= 0, rows >= 0, cols >= 0;
            assert(p / cols < rows) by (nonlinear_arith) requires p < rows * cols, cols > 0;
        }
        let m = block_at(ac, ar, acols, bc, rows, cols, p / cols, p % cols);
        out.push(Cell::Int(if m { 1 } else { 0 }));
        p += 1;
    }
    Ok(ValueP::from_ravel_like(b, out))
}

/// `⍸B` with index origin `io`: each position of vector B repeated as many
/// times as the count there. B of rank above 1 is a RANK ERROR; a count
/// that is not a nonnegative integer a DOMAIN ERROR.
pub fn where_io(b: &ValueP, io: i64) -> (r: AplResult<ValueP>)
    ensures
        b.spec_rank() > 1 ==> r == Err::<ValueP, ErrorCode>(ErrorCode::RankError),
        b.spec_rank() <= 1 && !(all_ints(b.ravel()) && nonneg(int_vals(b.ravel())))
            ==> r == Err::<ValueP, ErrorCode>(ErrorCode::DomainError),
        b.spec_rank() <= 1 && all_ints(b.ravel()) && nonneg(int_vals(b.ravel())) && !in_i64(io + b.ravel().len())
            ==> r == Err::<ValueP, ErrorCode>(ErrorCode::LimitError),
        b.spec_rank() <= 1 && all_ints(b.ravel()) && nonneg(int_vals(b.ravel())) && in_i64(io + b.ravel().len())
            ==> ({
                let w = crate::replicate::repl(int_vals(b.ravel()),
                    Seq::new(b.ravel().len(), |i: int| Cell::Int((i + io) as i64)));
                if w.len() <= i64::MAX {
                    r matches Ok(v) && v.dims() == seq![w.len() as i64] && v.ravel() == w
                } else {
                    r == Err::<ValueP, ErrorCode>(ErrorCode::LimitError)
                }
            }),
{
    b.lemma_wf();
    if b.rank() > 1 {
        return Err(ErrorCode::RankError);
    }
    let counts = crate::value::int_values(b.cells())?;
    let mut k: usize = 0;
    while k < counts.len()
        invariant
            k <= counts@.len(),
            counts@ == int_vals(b.ravel()),
            b.spec_rank() <= 1,
            all_ints(b.ravel()),
            forall|j: int| 0 <= j < k ==> counts@[j] >= 0,
        decreases counts@.len() - k,
    {
        if counts[k] < 0 {
            proof { assert(!nonneg(counts@)); }
            return Err(ErrorCode::DomainError);
        }
        k += 1;
    }
    let n = counts.len() as i64;
    if io > 0 && n > i64::MAX - io {
        return Err(ErrorCode::LimitError);
    }
    let mut idx: Vec<Cell> = Vec::new();
    let mut i: i64 = 0;
    while i < n
        invariant
            0 <= i <= n,
            n as int == b.ravel().len(),
            in_i64(io + n),
            idx@ == Seq::new(i as nat, |j: int| Cell::Int((j + io) as i64)),
        decreases n - i,
    {
        idx.push(Cell::Int(i + io));
        proof { assert(idx@ =~= Seq::new((i + 1) as nat, |j: int| Cell::Int((j + io) as i64))); }
        i += 1;
    }
    let positions = ValueP::from_ravel_like(b, idx);
    let counts_v = ValueP::from_ravel_like(b, crate::value::int_cells_of(counts.as_slice()));
    proof {
        assert(int_vals(counts_v.ravel()) =~= int_vals(b.ravel()));
        assert(positions.ravel() =~= Seq::new(b.ravel().len(), |i: int| Cell::Int((i + io) as i64)));
        if n == 1 {
            assert(Seq::new(positions.ravel().len(), |i: int| counts_v.ravel()[0]->Int_0) =~= int_vals(b.ravel()));
        }
        assert(crate::replicate::replicate_counts(counts_v, positions) == Ok::<Seq<i64>, ErrorCode>(int_vals(b.ravel())));
    }
    crate::replicate::replicate(&counts_v, &positions)
}

} // verus!
