//! The rank operator `⍤`: `(f⍤k)B` applies `f` to each rank-`k` cell of B
//! and reassembles the results. The leading axes of B outside a cell form
//! the frame; the result has the frame followed by the common shape of the
//! results. A rank at or above the rank of B makes B one cell, and the
//! result is `f B`.
//!
//! The dyadic form pairs the cells of A and B: equal frames pair cell by
//! cell, and a side with a single cell pairs it with every cell of the
//! other side.

use vstd::prelude::*;
use crate::cell::Cell;
use crate::shape::{absprod, dims_ok, nonneg, prod, weight, Shape};
use crate::types::{AplResult, ErrorCode, MAX_RANK};
use crate::value::ValueP;

verus! {

/// The frame of `v` for cells of rank `k`: the leading axes outside a cell.
pub open spec fn frame_of(v: ValueP, k: int) -> Seq<i64> {
    if k >= v.dims().len() { Seq::empty() } else { v.dims().take(v.dims().len() - k) }
}

/// The dimensions of a rank-`k` cell of `v`.
pub open spec fn cell_dims_of(v: ValueP, k: int) -> Seq<i64> {
    if k >= v.dims().len() { v.dims() } else { v.dims().skip(v.dims().len() - k) }
}

/// `cells` are the rank-`k` cells of `v` in ravel order: `v` itself when
/// `k` is at least its rank, else one value per position of the frame.
pub open spec fn is_split(v: ValueP, k: int, cells: Seq<ValueP>) -> bool {
    if k >= v.dims().len() {
        cells == seq![v]
    } else {
        let n = prod(cell_dims_of(v, k));
        &&& cells.len() == prod(frame_of(v, k))
        &&& forall|i: int| 0 <= i < cells.len() ==> {
            &&& (#[trigger] cells[i]).dims() == cell_dims_of(v, k)
            &&& cells[i].ravel() == v.ravel().subrange(i * n, i * n + n)
        }
    }
}

/// The ravels of `res`, one after another.
pub open spec fn joined(res: Seq<ValueP>) -> Seq<Cell>
    decreases res.len(),
{
    if res.len() == 0 { Seq::empty() } else { joined(res.drop_last()) + res.last().ravel() }
}

/// Why the results `res` under `frame` cannot be assembled, if they cannot:
/// DOMAIN ERROR for no result, LENGTH ERROR for results of different shapes,
/// LIMIT ERROR for a result of too many axes, or too large a shape.
pub open spec fn assemble_error(frame: Seq<i64>, res: Seq<ValueP>) -> Option<ErrorCode> {
    if res.len() == 0 {
        Some(ErrorCode::DomainError)
    } else if frame.len() == 0 {
        None
    } else if exists|i: int| 0 <= i < res.len() && (#[trigger] res[i]).dims() != res[0].dims() {
        Some(ErrorCode::LengthError)
    } else if frame.len() + res[0].dims().len() > MAX_RANK {
        Some(ErrorCode::LimitError)
    } else if absprod(frame + res[0].dims()) > i64::MAX {
        Some(ErrorCode::LimitError)
    } else {
        None
    }
}

/// `v` assembles the results `res` under `frame`: the only result when the
/// frame is empty, else the frame followed by the common result shape, with
/// the results' ravels one after another.
pub open spec fn assembled(frame: Seq<i64>, res: Seq<ValueP>, v: ValueP) -> bool {
    if frame.len() == 0 {
        v == res[0]
    } else {
        v.dims() == frame + res[0].dims() && v.ravel() == joined(res)
    }
}

/// `r` is what assembling `res` under `frame` gives.
pub open spec fn assemble_outcome(frame: Seq<i64>, res: Seq<ValueP>, r: AplResult<ValueP>) -> bool {
    match assemble_error(frame, res) {
        Some(e) => r == Err::<ValueP, ErrorCode>(e),
        None => r matches Ok(v) && assembled(frame, res, v),
    }
}

proof fn lemma_joined_len(res: Seq<ValueP>, n: int)
    requires
        forall|i: int| 0 <= i < res.len() ==> (#[trigger] res[i]).ravel().len() == n,
    ensures
        joined(res).len() == res.len() * n,
    decreases res.len(),
{
    if res.len() > 0 {
        lemma_joined_len(res.drop_last(), n);
        assert((res.len() - 1) * n + n == res.len() * n) by (nonlinear_arith);
    }
}

/// Split `v` into its frame and its rank-`k` cells.
fn split_cells(v: &ValueP, k: i64) -> (r: (Vec<i64>, Vec<ValueP>))
    requires
        k >= 0,
    ensures
        r.0@ == frame_of(*v, k as int),
        is_split(*v, k as int, r.1@),
{
    v.lemma_wf();
    let rank = v.rank();
    if k >= rank as i64 {
        let mut cells: Vec<ValueP> = Vec::new();
        cells.push(v.clone());
        assert(cells@ =~= seq![*v]);
        return (Vec::new(), cells);
    }
    let dims = v.dim_list();
    let frame_len = (rank as i64 - k) as usize;
    let mut frame: Vec<i64> = Vec::new();
    let mut cell_dims: Vec<i64> = Vec::new();
    let mut j: usize = 0;
    while j < dims.len()
        invariant
            j <= dims@.len(),
            dims@ == v.dims(),
            frame_len <= dims@.len(),
            frame@ == dims@.take(if j < frame_len { j as int } else { frame_len as int }),
            cell_dims@ == (if j < frame_len { Seq::<i64>::empty() } else { dims@.subrange(frame_len as int, j as int) }),
        decreases dims@.len() - j,
    {
        if j < frame_len {
            frame.push(dims[j]);
            proof { assert(frame@ =~= dims@.take(j as int + 1)); }
        } else {
            cell_dims.push(dims[j]);
            proof { assert(cell_dims@ =~= dims@.subrange(frame_len as int, j as int + 1)); }
        }
        j += 1;
    }
    proof {
        assert(cell_dims@ =~= cell_dims_of(*v, k as int));
        assert(frame@ =~= frame_of(*v, k as int));
        let d = v.dims();
        assert(d =~= d.take(frame_len as int) + d.skip(frame_len as int));
        crate::shape::lemma_prod_append(d.take(frame_len as int), d.skip(frame_len as int));
        crate::shape::lemma_absprod_take(d, frame_len as int);
        assert(absprod(d.skip(frame_len as int)) <= absprod(d)) by {
            crate::shape::lemma_absprod_pos(d.take(frame_len as int));
            crate::shape::lemma_absprod_pos(d.skip(frame_len as int));
            let a = absprod(d.take(frame_len as int));
            let b = absprod(d.skip(frame_len as int));
            assert(b <= a * b) by (nonlinear_arith) requires a >= 1, b >= 1;
        }
        crate::take_drop::lemma_prod_le_absprod(frame@);
        crate::take_drop::lemma_prod_le_absprod(cell_dims@);
        crate::shape::lemma_prod_nonneg(frame@);
        crate::shape::lemma_prod_nonneg(cell_dims@);
    }
    let n = crate::take_drop::prod_of(cell_dims.as_slice());
    let count = crate::take_drop::prod_of(frame.as_slice());
    let src = v.cells();
    let sl = src.len();
    let mut cells: Vec<ValueP> = Vec::new();
    let mut i: i64 = 0;
    while i < count
        invariant
            0 <= i <= count,
            sl == src@.len(),
            src@.len() <= i64::MAX,
            count as int == prod(frame@),
            n as int == prod(cell_dims@),
            n >= 0,
            src@ == v.ravel(),
            src@.len() == count * n,
            frame@ == frame_of(*v, k as int),
            cell_dims@ == cell_dims_of(*v, k as int),
            dims_ok(cell_dims@),
            nonneg(cell_dims@),
            k < v.dims().len(),
            cells@.len() == i,
            forall|j: int| 0 <= j < i ==> {
                &&& (#[trigger] cells@[j]).dims() == cell_dims_of(*v, k as int)
                &&& cells@[j].ravel() == v.ravel().subrange(j * n, j * n + n)
            },
        decreases count - i,
    {
        proof {
            assert(i * n + n <= count * n) by (nonlinear_arith) requires i + 1 <= count, n >= 0;
            assert(0 <= i * n) by (nonlinear_arith) requires i >= 0, n >= 0;
        }
        let from = (i * n) as usize;
        let to = from + n as usize;
        let mut slice: Vec<Cell> = Vec::new();
        let mut p: usize = from;
        while p < to
            invariant
                from <= p <= to <= src@.len(),
                slice@ == src@.subrange(from as int, p as int),
            decreases to - p,
        {
            slice.push(src[p].clone());
            proof { assert(slice@ =~= src@.subrange(from as int, p as int + 1)); }
            p += 1;
        }
        let shape = Shape::from_dims(cell_dims.as_slice());
        if let Ok(s) = shape {
            proof { use_type_invariant(s); }
            if let Ok(cell) = ValueP::from_parts(s, slice) {
                cells.push(cell);
            }
        }
        i += 1;
    }
    (frame, cells)
}

/// The cells `src[from..to]`.
pub fn slice_cells(src: &[Cell], from: usize, to: usize) -> (r: Vec<Cell>)
    requires
        from <= to <= src@.len(),
    ensures
        r@ == src@.subrange(from as int, to as int),
{
    let mut out: Vec<Cell> = Vec::new();
    let mut p: usize = from;
    while p < to
        invariant
            from <= p <= to <= src@.len(),
            out@ == src@.subrange(from as int, p as int),
        decreases to - p,
    {
        out.push(src[p].clone());
        proof { assert(out@ =~= src@.subrange(from as int, p as int + 1)); }
        p += 1;
    }
    out
}

/// The leading dimensions weigh no more than all of them.
pub proof fn lemma_absprod_drop_last(d: Seq<i64>)
    requires
        d.len() > 0,
    ensures
        absprod(d.drop_last()) <= absprod(d),
        d.drop_last().len() < d.len(),
{
    crate::shape::lemma_absprod_pos(d.drop_last());
    let a = absprod(d.drop_last());
    let w = weight(d.last());
    assert(a <= a * w) by (nonlinear_arith) requires a >= 1, w >= 1;
}

/// Put the results `res` together under `frame`.
fn assemble(frame: &[i64], res: Vec<ValueP>) -> (r: AplResult<ValueP>)
    requires
        frame@.len() > 0 ==> res@.len() == prod(frame@),
        frame@.len() <= MAX_RANK,
        nonneg(frame@),
    ensures
        assemble_outcome(frame@, res@, r),
{
    if res.len() == 0 {
        return Err(ErrorCode::DomainError);
    }
    if frame.len() == 0 {
        let first = res[0].clone();
        return Ok(first);
    }
    let first = &res[0];
    first.lemma_wf();
    let item_dims = first.dim_list();
    let item_len = first.element_count();
    let mut ravel: Vec<Cell> = Vec::new();
    let mut i: usize = 0;
    while i < res.len()
        invariant
            i <= res@.len(),
            res@.len() > 0,
            frame@.len() > 0,
            *first == res@[0],
            item_dims@ == res@[0].dims(),
            item_len as int == res@[0].ravel().len(),
            item_len as int == prod(item_dims@),
            forall|j: int| 0 <= j < i ==> (#[trigger] res@[j]).dims() == res@[0].dims(),
            forall|j: int| 0 <= j < i ==> (#[trigger] res@[j]).ravel().len() == item_len,
            ravel@ == joined(res@.take(i as int)),
        decreases res@.len() - i,
    {
        let r = &res[i];
        r.lemma_wf();
        if !r.shape().same_as(first.shape()) {
            assert(res@[i as int].dims() != res@[0].dims());
            return Err(ErrorCode::LengthError);
        }
        let cells = r.cells();
        let mut p: usize = 0;
        let ghost before = ravel@;
        while p < cells.len()
            invariant
                p <= cells@.len(),
                ravel@ == before + cells@.take(p as int),
            decreases cells@.len() - p,
        {
            ravel.push(cells[p].clone());
            proof { assert(ravel@ =~= before + cells@.take(p as int + 1)); }
            p += 1;
        }
        proof {
            assert(cells@.take(p as int) =~= cells@);
            assert(res@.take(i as int + 1).drop_last() =~= res@.take(i as int));
        }
        i += 1;
    }
    proof {
        assert(res@.take(i as int) =~= res@);
        assert(!(exists|j: int| 0 <= j < res@.len() && (#[trigger] res@[j]).dims() != res@[0].dims()));
    }
    if frame.len() + item_dims.len() > MAX_RANK {
        return Err(ErrorCode::LimitError);
    }
    let mut out_dims: Vec<i64> = Vec::new();
    let mut j: usize = 0;
    while j < frame.len()
        invariant
            j <= frame@.len(),
            out_dims@ == frame@.take(j as int),
        decreases frame@.len() - j,
    {
        out_dims.push(frame[j]);
        proof { assert(out_dims@ =~= frame@.take(j as int + 1)); }
        j += 1;
    }
    let mut q: usize = 0;
    while q < item_dims.len()
        invariant
            q <= item_dims@.len(),
            j == frame@.len(),
            out_dims@ == frame@.take(j as int) + item_dims@.take(q as int),
        decreases item_dims@.len() - q,
    {
        out_dims.push(item_dims[q]);
        proof { assert(out_dims@ =~= frame@.take(j as int) + item_dims@.take(q as int + 1)); }
        q += 1;
    }
    proof {
        assert(frame@.take(j as int) =~= frame@);
        assert(item_dims@.take(q as int) =~= item_dims@);
    }
    if !crate::take_drop::weight_fits(out_dims.as_slice()) {
        return Err(ErrorCode::LimitError);
    }
    proof {
        crate::shape::lemma_prod_append(frame@, item_dims@);
        lemma_joined_len(res@, item_len as int);
        assert(out_dims@ == frame@ + res@[0].dims());
    }
    let shape = Shape::from_dims(out_dims.as_slice());
    match shape {
        Ok(s) => {
            proof { use_type_invariant(s); }
            match ValueP::from_parts(s, ravel) {
                Ok(v) => Ok(v),
                Err(e) => Err(e),
            }
        },
        Err(e) => Err(e),
    }
}

/// Results `res` of calling `f` on the first `res.len()` of `cells`, all
/// successful.
pub open spec fn called<F: Fn(&ValueP) -> AplResult<ValueP>>(f: F, cells: Seq<ValueP>, res: Seq<ValueP>) -> bool {
    &&& res.len() <= cells.len()
    &&& forall|j: int| 0 <= j < res.len() ==> call_ensures(f, (&cells[j],), Ok::<ValueP, ErrorCode>(#[trigger] res[j]))
}

/// `r` is what applying `f` to each of `cells` in order and assembling the
/// results under `frame` can give: the error of the first failing call, or
/// the assembly of all the results.
pub open spec fn rank_outcome<F: Fn(&ValueP) -> AplResult<ValueP>>(f: F, frame: Seq<i64>, cells: Seq<ValueP>, r: AplResult<ValueP>) -> bool {
    ||| exists|res: Seq<ValueP>| #![trigger called(f, cells, res)]
        called(f, cells, res) && res.len() < cells.len()
            && call_ensures(f, (&cells[res.len() as int],), r) && r is Err
    ||| exists|res: Seq<ValueP>| #![trigger called(f, cells, res)]
        called(f, cells, res) && res.len() == cells.len() && assemble_outcome(frame, res, r)
}

/// Apply `f` to each of `cells` in order and assemble the results under
/// `frame`; the first failing call ends the work with its error.
fn apply_each<F: Fn(&ValueP) -> AplResult<ValueP>>(f: &F, frame: &[i64], cells: &[ValueP]) -> (r: AplResult<ValueP>)
    requires
        forall|v: ValueP| call_requires(*f, (&v,)),
        frame@.len() <= MAX_RANK,
        frame@.len() > 0 ==> cells@.len() == prod(frame@),
        nonneg(frame@),
    ensures
        rank_outcome(*f, frame@, cells@, r),
{
    let mut results: Vec<ValueP> = Vec::new();
    let mut i: usize = 0;
    while i < cells.len()
        invariant
            i <= cells@.len(),
            results@.len() == i,
            called(*f, cells@, results@),
            forall|v: ValueP| call_requires(*f, (&v,)),
        decreases cells@.len() - i,
    {
        let out = f(&cells[i]);
        let ghost prev = results@;
        match out {
            Ok(v) => {
                results.push(v);
                proof {
                    assert forall|j: int| 0 <= j < results@.len() implies call_ensures(*f, (&cells@[j],), Ok::<ValueP, ErrorCode>(#[trigger] results@[j])) by {
                        if j < i {
                            assert(results@[j] == prev[j]);
                        }
                    }
                }
            },
            Err(e) => {
                proof {
                    assert(called(*f, cells@, results@));
                }
                return Err(e);
            },
        }
        i += 1;
    }
    proof { assert(called(*f, cells@, results@)); }
    assemble(frame, results)
}

/// `(f⍤k)B`: apply `f` to each rank-`k` cell of B and assemble the results
/// under the frame. A negative rank is a DOMAIN ERROR; results of different
/// shapes are a LENGTH ERROR; a call of `f` that fails ends the work with
/// its error.
pub fn rank_monadic<F: Fn(&ValueP) -> AplResult<ValueP>>(b: &ValueP, k: i64, f: F) -> (r: AplResult<ValueP>)
    requires
        forall|v: ValueP| call_requires(f, (&v,)),
    ensures
        k < 0 ==> r == Err::<ValueP, ErrorCode>(ErrorCode::DomainError),
        k >= 0 ==> exists|cells: Seq<ValueP>| #[trigger] is_split(*b, k as int, cells)
            && rank_outcome(f, frame_of(*b, k as int), cells, r),
{
    if k < 0 {
        return Err(ErrorCode::DomainError);
    }
    b.lemma_wf();
    let (frame, cells) = split_cells(b, k);
    proof {
        crate::shape::lemma_prod_nonneg(frame@);
        if frame@.len() == 0 {
            assert(cells@.len() == 1);
        }
    }
    let r = apply_each(&f, frame.as_slice(), cells.as_slice());
    assert(is_split(*b, k as int, cells@));
    r
}

/// The cell of a side paired with position `i`: its only cell when it has
/// one, else its cell `i`.
pub open spec fn paired(cells: Seq<ValueP>, i: int) -> ValueP {
    if cells.len() == 1 { cells[0] } else { cells[i] }
}

/// Results `res` of calling `f` on the first `res.len()` pairs.
pub open spec fn called2<F: Fn(&ValueP, &ValueP) -> AplResult<ValueP>>(f: F, ac: Seq<ValueP>, bc: Seq<ValueP>, res: Seq<ValueP>) -> bool {
    forall|j: int| 0 <= j < res.len() ==>
        call_ensures(f, (&paired(ac, j), &paired(bc, j)), Ok::<ValueP, ErrorCode>(#[trigger] res[j]))
}

/// `r` is what applying `f` to the first `n` pairs of cells in order and
/// assembling the results under `frame` can give.
pub open spec fn rank_outcome2<F: Fn(&ValueP, &ValueP) -> AplResult<ValueP>>(
    f: F, frame: Seq<i64>, ac: Seq<ValueP>, bc: Seq<ValueP>, n: int, r: AplResult<ValueP>) -> bool {
    ||| exists|res: Seq<ValueP>| #![trigger called2(f, ac, bc, res)]
        called2(f, ac, bc, res) && res.len() < n
            && call_ensures(f, (&paired(ac, res.len() as int), &paired(bc, res.len() as int)), r) && r is Err
    ||| exists|res: Seq<ValueP>| #![trigger called2(f, ac, bc, res)]
        called2(f, ac, bc, res) && res.len() == n && assemble_outcome(frame, res, r)
}

/// The frame of `A(f⍤kl kr)B` and the number of pairs, given the frames
/// and cells of both sides; `None` when the frames differ and neither side
/// has a single cell.
pub open spec fn pairing(af: Seq<i64>, bf: Seq<i64>, ac: Seq<ValueP>, bc: Seq<ValueP>) -> Option<(Seq<i64>, int)> {
    if af == bf {
        Some((af, ac.len() as int))
    } else if ac.len() == 1 {
        Some((bf, bc.len() as int))
    } else if bc.len() == 1 {
        Some((af, ac.len() as int))
    } else {
        None
    }
}

/// The dimensions `a` and `b` are the same.
pub fn same_dims(a: &[i64], b: &[i64]) -> (r: bool)
    ensures
        r == (a@ == b@),
{
    if a.len() != b.len() {
        return false;
    }
    let mut i: usize = 0;
    while i < a.len()
        invariant
            i <= a@.len() == b@.len(),
            forall|j: int| 0 <= j < i ==> a@[j] == b@[j],
        decreases a@.len() - i,
    {
        if a[i] != b[i] {
            return false;
        }
        i += 1;
    }
    assert(a@ =~= b@);
    true
}

/// `A(f⍤kl kr)B`: pair the rank-`kl` cells of A with the rank-`kr` cells of
/// B, apply `f` to each pair and assemble the results. Equal frames pair
/// cell by cell; a side with a single cell pairs it with every cell of the
/// other. A negative rank is a DOMAIN ERROR; different frames with several
/// cells on both sides are a RANK ERROR.
pub fn rank_dyadic<F: Fn(&ValueP, &ValueP) -> AplResult<ValueP>>(a: &ValueP, b: &ValueP, kl: i64, kr: i64, f: F) -> (r: AplResult<ValueP>)
    requires
        forall|x: ValueP, y: ValueP| call_requires(f, (&x, &y)),
    ensures
        (kl < 0 || kr < 0) ==> r == Err::<ValueP, ErrorCode>(ErrorCode::DomainError),
        (kl >= 0 && kr >= 0) ==> exists|ac: Seq<ValueP>, bc: Seq<ValueP>|
            #![trigger is_split(*a, kl as int, ac), is_split(*b, kr as int, bc)]
            is_split(*a, kl as int, ac) && is_split(*b, kr as int, bc)
            && match pairing(frame_of(*a, kl as int), frame_of(*b, kr as int), ac, bc) {
                None => r == Err::<ValueP, ErrorCode>(ErrorCode::RankError),
                Some(p) => rank_outcome2(f, p.0, ac, bc, p.1, r),
            },
{
    if kl < 0 || kr < 0 {
        return Err(ErrorCode::DomainError);
    }
    a.lemma_wf();
    b.lemma_wf();
    let (a_frame, a_cells) = split_cells(a, kl);
    let (b_frame, b_cells) = split_cells(b, kr);
    let ghost ac = a_cells@;
    let ghost bc = b_cells@;
    proof {
        crate::shape::lemma_prod_nonneg(a_frame@);
        crate::shape::lemma_prod_nonneg(b_frame@);
        assert(ac.len() == prod(a_frame@));
        assert(bc.len() == prod(b_frame@));
    }
    let same = same_dims(a_frame.as_slice(), b_frame.as_slice());
    let (frame, n) = if same {
        (a_frame, a_cells.len())
    } else if a_cells.len() == 1 {
        (b_frame, b_cells.len())
    } else if b_cells.len() == 1 {
        (a_frame, a_cells.len())
    } else {
        return Err(ErrorCode::RankError);
    };
    proof {
        assert(pairing(frame_of(*a, kl as int), frame_of(*b, kr as int), ac, bc) == Some((frame@, n as int)));
        crate::shape::lemma_prod_nonneg(frame@);
    }
    let mut results: Vec<ValueP> = Vec::new();
    let mut i: usize = 0;
    while i < n
        invariant
            i <= n,
            results@.len() == i,
            a_cells@ == ac,
            b_cells@ == bc,
            ac.len() == 1 || n <= ac.len(),
            bc.len() == 1 || n <= bc.len(),
            called2(f, ac, bc, results@),
            forall|x: ValueP, y: ValueP| call_requires(f, (&x, &y)),
            kl >= 0 && kr >= 0,
            is_split(*a, kl as int, ac),
            is_split(*b, kr as int, bc),
            pairing(frame_of(*a, kl as int), frame_of(*b, kr as int), ac, bc) == Some((frame@, n as int)),
        decreases n - i,
    {
        let av = if a_cells.len() == 1 { &a_cells[0] } else { &a_cells[i] };
        let bv = if b_cells.len() == 1 { &b_cells[0] } else { &b_cells[i] };
        assert(*av == paired(ac, i as int));
        assert(*bv == paired(bc, i as int));
        let out = f(av, bv);
        let ghost prev = results@;
        match out {
            Ok(v) => {
                results.push(v);
                proof {
                    assert forall|j: int| 0 <= j < results@.len() implies
                        call_ensures(f, (&paired(ac, j), &paired(bc, j)), Ok::<ValueP, ErrorCode>(#[trigger] results@[j])) by {
                        if j < i {
                            assert(results@[j] == prev[j]);
                        }
                    }
                }
            },
            Err(e) => {
                proof {
                    assert(called2(f, ac, bc, results@));
                    assert(rank_outcome2(f, frame@, ac, bc, n as int, Err::<ValueP, ErrorCode>(e)));
                }
                return Err(e);
            },
        }
        i += 1;
    }
    proof {
        assert(called2(f, ac, bc, results@));
        assert(frame@.len() <= MAX_RANK);
    }
    let r = assemble(frame.as_slice(), results);
    proof {
        assert(rank_outcome2(f, frame@, ac, bc, n as int, r));
    }
    r
}

} // verus!
