//! Dyadic pick `A⊃B`: follow a path of indices into nested B, and the
//! selective pick assignment `(A⊃B)←V`.

use vstd::prelude::*;
use std::sync::Arc;
use crate::cell::{share, Cell, PointerCellData};
use crate::shape::{dims_ok, nonneg, prod, Shape};
use crate::squad::{in_bounds, lemma_offset_bounds, ravel_offset};
use crate::types::{AplResult, ErrorCode};
use crate::value::{all_ints, int_vals, ValueInner, ValueP};

verus! {

/// One level of a pick path.
pub enum Level {
    /// a single index into a vector level
    Scalar(i64),
    /// a full coordinate tuple for a multi-dimensional level
    Coords(Seq<i64>),
}

/// The path of `A⊃B`: one level per element of A, a nested element giving
/// coordinates; DOMAIN ERROR for a non-integer.
pub open spec fn pick_levels_of(a: Seq<Cell>) -> Result<Seq<Level>, ErrorCode>
    decreases a.len(),
{
    if a.len() == 0 {
        Ok(Seq::empty())
    } else {
        match pick_levels_of(a.drop_last()) {
            Err(e) => Err(e),
            Ok(ls) => match a.last() {
                Cell::Int(i) => Ok(ls.push(Level::Scalar(i))),
                Cell::Char(_) => Err(ErrorCode::DomainError),
                Cell::Pointer(p) => if all_ints((*p.value).ravel_view()) {
                    Ok(ls.push(Level::Coords(int_vals((*p.value).ravel_view()))))
                } else {
                    Err(ErrorCode::DomainError)
                },
            },
        }
    }
}

/// The ravel position that one level selects in a value of dimensions `d`.
pub open spec fn level_offset(l: Level, d: Seq<i64>) -> Result<int, ErrorCode> {
    match l {
        Level::Scalar(i) => if d.len() != 1 {
            Err(ErrorCode::RankError)
        } else if i < 0 || i >= d[0] {
            Err(ErrorCode::IndexError)
        } else {
            Ok(i as int)
        },
        Level::Coords(c) => if c.len() != d.len() {
            Err(ErrorCode::RankError)
        } else if !in_bounds(c, d) {
            Err(ErrorCode::IndexError)
        } else {
            Ok(ravel_offset(c, d))
        },
    }
}

/// The dimensions and ravel of the value a cell stands for: the nested
/// value of a pointer cell, or a scalar holding the cell.
pub open spec fn cell_value(c: Cell) -> (Seq<i64>, Seq<Cell>) {
    match c {
        Cell::Pointer(p) => ((*p.value).shape_view()@, (*p.value).ravel_view()),
        _ => (Seq::empty(), seq![c]),
    }
}

/// The dimensions and ravel reached by following `levels` from a value.
pub open spec fn spec_pick(levels: Seq<Level>, d: Seq<i64>, r: Seq<Cell>) -> Result<(Seq<i64>, Seq<Cell>), ErrorCode>
    decreases levels.len(),
{
    if levels.len() == 0 {
        Ok((d, r))
    } else {
        match level_offset(levels[0], d) {
            Err(e) => Err(e),
            Ok(off) => {
                let (d2, r2) = cell_value(r[off]);
                spec_pick(levels.drop_first(), d2, r2)
            },
        }
    }
}

/// The outcome of `A⊃B`.
pub open spec fn pick_outcome(a: ValueP, b: ValueP) -> Result<(Seq<i64>, Seq<Cell>), ErrorCode> {
    if a.dims().len() > 1 {
        Err(ErrorCode::RankError)
    } else {
        match pick_levels_of(a.ravel()) {
            Err(e) => Err(e),
            Ok(ls) => spec_pick(ls, b.dims(), b.ravel()),
        }
    }
}

/// The exec form of one level.
enum LevelIndex {
    Scalar(i64),
    Coords(Vec<i64>),
}

spec fn level_view(l: LevelIndex) -> Level {
    match l {
        LevelIndex::Scalar(i) => Level::Scalar(i),
        LevelIndex::Coords(v) => Level::Coords(v@),
    }
}

/// `A⊃B`. An empty A gives B itself; the final cell is disclosed.
pub fn pick(a: &ValueP, b: &ValueP) -> (r: AplResult<ValueP>)
    ensures
        pick_outcome(*a, *b) matches Err(e) ==> r == Err::<ValueP, ErrorCode>(e),
        pick_outcome(*a, *b) matches Ok((d, cells)) ==> (r matches Ok(z) && z.dims() == d && z.ravel() == cells),
{
    if a.rank() > 1 {
        return Err(ErrorCode::RankError);
    }
    let ac = a.cells();
    let mut levels: Vec<LevelIndex> = Vec::new();
    let ghost mut gl: Seq<Level> = Seq::empty();
    let mut i: usize = 0;
    while i < ac.len()
        invariant
            i <= ac@.len(),
            ac@ == a.ravel(),
            a.dims().len() <= 1,
            pick_levels_of(ac@.take(i as int)) == Ok::<Seq<Level>, ErrorCode>(gl),
            levels@.len() == i,
            gl.len() == i,
            forall|j: int| 0 <= j < i ==> level_view(#[trigger] levels@[j]) == gl[j],
        decreases ac@.len() - i,
    {
        proof {
            assert(ac@.take(i as int + 1).drop_last() =~= ac@.take(i as int));
            assert(ac@.take(i as int + 1).last() == ac@[i as int]);
        }
        match &ac[i] {
            Cell::Pointer(p) => {
                let coords = match crate::value::int_values(p.value.cells()) {
                    Ok(v) => v,
                    Err(e) => {
                        proof { lemma_levels_err_stays(ac@, i as int + 1); }
                        return Err(e);
                    }
                };
                levels.push(LevelIndex::Coords(coords));
                proof { gl = gl.push(Level::Coords(coords@)); }
            }
            Cell::Int(v) => {
                levels.push(LevelIndex::Scalar(*v));
                proof { gl = gl.push(Level::Scalar(*v)); }
            }
            Cell::Char(_) => {
                proof { lemma_levels_err_stays(ac@, i as int + 1); }
                return Err(ErrorCode::DomainError);
            }
        }
        i += 1;
    }
    assert(ac@.take(i as int) =~= ac@);
    assert(Seq::new((levels@.len() - 0) as nat, |j: int| level_view(levels@[0 + j])) =~= gl);
    pick_levels(levels.as_slice(), 0, b)
}

/// Once the path fails to convert, it fails with the same error.
proof fn lemma_levels_err_stays(a: Seq<Cell>, k: int)
    requires
        0 <= k <= a.len(),
        pick_levels_of(a.take(k)) is Err,
    ensures
        pick_levels_of(a) == pick_levels_of(a.take(k)),
    decreases a.len(),
{
    if k == a.len() {
        assert(a.take(k) =~= a);
    } else {
        assert(a.drop_last().take(k) =~= a.take(k));
        lemma_levels_err_stays(a.drop_last(), k);
    }
}

/// The ravel position that one level selects in `b`.
fn level_offset_exec(l: &LevelIndex, b: &ValueInner) -> (r: AplResult<usize>)
    ensures
        r matches Ok(off) ==> level_offset(level_view(*l), b.shape_view()@) == Ok::<int, ErrorCode>(off as int)
            && off < b.ravel_view().len(),
        r matches Err(e) ==> level_offset(level_view(*l), b.shape_view()@) == Err::<int, ErrorCode>(e),
{
    proof { use_type_invariant(b); }
    let sh = b.shape();
    proof { use_type_invariant(sh); }
    let rank = sh.get_rank();
    let count = b.element_count();
    let total = b.cells().len();
    match l {
        LevelIndex::Scalar(idx) => {
            if rank != 1 {
                return Err(ErrorCode::RankError);
            }
            let n = sh.get_shape_item(0);
            if *idx < 0 || *idx >= n {
                return Err(ErrorCode::IndexError);
            }
            proof {
                let d = sh@;
                assert(d =~= seq![d[0]]);
                crate::shape::lemma_prod_small(d[0], 0, 0);
            }
            Ok(*idx as usize)
        }
        LevelIndex::Coords(coords) => {
            let ghost d = sh@;
            if coords.len() != rank as usize {
                return Err(ErrorCode::RankError);
            }
            let mut i: usize = 0;
            while i < coords.len()
                invariant
                    i <= coords@.len(),
                    coords@.len() == d.len(),
                    d == sh@,
                    d == b.shape_view()@,
                    level_view(*l) == Level::Coords(coords@),
                    d.len() <= 8,
                    forall|j: int| 0 <= j < i ==> 0 <= #[trigger] coords@[j] < d[j],
                decreases coords@.len() - i,
            {
                let len = sh.get_shape_item(i as i16);
                if coords[i] < 0 || coords[i] >= len {
                    assert(!in_bounds(coords@, d));
                    return Err(ErrorCode::IndexError);
                }
                i += 1;
            }
            assert(in_bounds(coords@, d));
            proof {
                assert forall|t: int| 0 <= t < d.len() implies d[t] > 0 by {
                    assert(0 <= coords@[t] < d[t]);
                }
                crate::shape::lemma_prod_pos(d);
            }
            let mut off: i64 = 0;
            let mut k: usize = 0;
            while k < coords.len()
                invariant
                    k <= coords@.len(),
                    coords@.len() == d.len(),
                    d == sh@,
                    d.len() <= 8,
                    nonneg(d),
                    in_bounds(coords@, d),
                    prod(d) >= 1,
                    prod(d) <= i64::MAX,
                    off >= 0,
                    off as int == ravel_offset(coords@.take(k as int), d.take(k as int)),
                decreases coords@.len() - k,
            {
                proof {
                    let ik = coords@.take(k as int + 1);
                    let dk = d.take(k as int + 1);
                    assert(ik.drop_last() =~= coords@.take(k as int));
                    assert(dk.drop_last() =~= d.take(k as int));
                    assert(in_bounds(ik, dk));
                    lemma_offset_bounds(ik, dk);
                    assert(d =~= dk + d.skip(k as int + 1));
                    crate::shape::lemma_prod_append(dk, d.skip(k as int + 1));
                    assert(nonneg(dk));
                    crate::shape::lemma_prod_nonneg(dk);
                    let sk = d.skip(k as int + 1);
                    assert forall|t: int| 0 <= t < sk.len() implies sk[t] > 0 by {
                        assert(sk[t] == d[k + 1 + t]);
                        assert(0 <= coords@[k + 1 + t] < d[k + 1 + t]);
                    }
                    crate::shape::lemma_prod_pos(sk);
                    let p1 = prod(dk);
                    let p2 = prod(sk);
                    assert(p1 <= p1 * p2) by (nonlinear_arith) requires p1 >= 0, p2 >= 1;
                    assert(ravel_offset(ik, dk) == off * d[k as int] + coords@[k as int]);
                    assert(0 <= coords@[k as int] < d[k as int]);
                    assert(prod(d) == p1 * p2);
                }
                off = off * sh.get_shape_item(k as i16) + coords[k];
                k += 1;
            }
            assert(coords@.take(k as int) =~= coords@ && d.take(k as int) =~= d);
            proof { lemma_offset_bounds(coords@, d); }
            Ok(off as usize)
        }
    }
}

/// Follow `levels[from..]` into `b`, disclosing the final cell.
fn pick_levels(levels: &[LevelIndex], from: usize, b: &ValueP) -> (r: AplResult<ValueP>)
    requires
        from <= levels@.len(),
    ensures
        ({
            let ls = Seq::new((levels@.len() - from) as nat, |j: int| level_view(levels@[from + j]));
            &&& spec_pick(ls, b.dims(), b.ravel()) matches Err(e) ==> r == Err::<ValueP, ErrorCode>(e)
            &&& spec_pick(ls, b.dims(), b.ravel()) matches Ok((d, cells)) ==> (r matches Ok(z) && z.dims() == d && z.ravel() == cells)
        }),
    decreases levels@.len() - from,
{
    let ghost ls = Seq::new((levels@.len() - from) as nat, |j: int| level_view(levels@[from + j]));
    if from == levels.len() {
        return Ok(b.clone());
    }
    let off = match level_offset_exec(&levels[from], &b.inner) {
        Ok(o) => o,
        Err(e) => { return Err(e); }
    };
    let cell = &b.inner.cells()[off];
    let next = match cell {
        Cell::Pointer(p) => ValueP { inner: share(&p.value) },
        other => ValueP::scalar_from(other.clone()),
    };
    let ghost rest = Seq::new((levels@.len() - (from + 1)) as nat, |j: int| level_view(levels@[from + 1 + j]));
    assert(ls.drop_first() =~= rest);
    pick_levels(levels, from + 1, &next)
}

/// The errors of `(A⊃B)←V` for the path `levels` into a value with the
/// given ravel: INDEX ERROR for an empty path or an index outside the
/// ravel, RANK ERROR where the path continues into a simple cell.
pub open spec fn assign_error(levels: Seq<i64>, r: Seq<Cell>) -> Option<ErrorCode>
    decreases levels.len(),
{
    if levels.len() == 0 {
        Some(ErrorCode::IndexError)
    } else if levels[0] < 0 || levels[0] >= r.len() {
        Some(ErrorCode::IndexError)
    } else if levels.len() == 1 {
        None
    } else {
        match r[levels[0] as int] {
            Cell::Pointer(p) => assign_error(levels.drop_first(), (*p.value).ravel_view()),
            _ => Some(ErrorCode::RankError),
        }
    }
}

/// `new` is `old` with the cell at the end of `levels` replaced by `v`,
/// every value on the way keeping its shape and prototype.
pub open spec fn assigned(old: ValueInner, new: ValueInner, levels: Seq<i64>, v: Cell) -> bool
    decreases levels.len(),
{
    &&& levels.len() > 0
    &&& new.shape_view() == old.shape_view()
    &&& new.proto_view() == old.proto_view()
    &&& 0 <= levels[0] < old.ravel_view().len()
    &&& new.ravel_view().len() == old.ravel_view().len()
    &&& forall|i: int| 0 <= i < old.ravel_view().len() && i != levels[0] ==> new.ravel_view()[i] == old.ravel_view()[i]
    &&& if levels.len() == 1 {
        new.ravel_view()[levels[0] as int] == v
    } else {
        &&& old.ravel_view()[levels[0] as int] is Pointer
        &&& new.ravel_view()[levels[0] as int] is Pointer
        &&& assigned(*old.ravel_view()[levels[0] as int]->Pointer_0.value,
            *new.ravel_view()[levels[0] as int]->Pointer_0.value, levels.drop_first(), v)
    }
}

/// Selective pick assignment `(A⊃B)←V`: replace the cell at the end of
/// the path `levels` (a flat list of indices, one per nesting level) by `v`.
pub fn pick_assign(b: &mut ValueP, levels: &[i64], value: &Cell) -> (r: AplResult<()>)
    ensures
        assign_error(levels@, old(b).ravel()) matches Some(e) ==> r == Err::<(), ErrorCode>(e)
            && *final(b) == *old(b),
        assign_error(levels@, old(b).ravel()) is None ==> r is Ok
            && assigned(*old(b).inner, *final(b).inner, levels@, *value),
{
    assert(levels@.skip(0) =~= levels@);
    pick_assign_from(b, levels, 0, value)
}

fn pick_assign_from(b: &mut ValueP, levels: &[i64], from: usize, value: &Cell) -> (r: AplResult<()>)
    requires
        from <= levels@.len(),
    ensures
        assign_error(levels@.skip(from as int), old(b).ravel()) matches Some(e) ==> r == Err::<(), ErrorCode>(e)
            && *final(b) == *old(b),
        assign_error(levels@.skip(from as int), old(b).ravel()) is None ==> r is Ok
            && assigned(*old(b).inner, *final(b).inner, levels@.skip(from as int), *value),
    decreases levels@.len() - from,
{
    let ghost ls = levels@.skip(from as int);
    if from == levels.len() {
        return Err(ErrorCode::IndexError);
    }
    let idx = levels[from];
    assert(ls[0] == idx);
    let cells = b.cells();
    if idx < 0 || idx as u64 >= cells.len() as u64 {
        return Err(ErrorCode::IndexError);
    }
    let i = idx as usize;
    if from + 1 == levels.len() {
        let mut inner = (*b.inner).clone();
        inner.set_cell(i, value.clone());
        b.inner = Arc::new(inner);
        return Ok(());
    }
    let mut nested = match &cells[i] {
        Cell::Pointer(p) => ValueP { inner: share(&p.value) },
        _ => { return Err(ErrorCode::RankError); }
    };
    assert(levels@.skip(from as int + 1) =~= ls.drop_first());
    match pick_assign_from(&mut nested, levels, from + 1, value) {
        Ok(()) => {}
        Err(e) => { return Err(e); }
    }
    let mut inner = (*b.inner).clone();
    inner.set_cell(i, Cell::Pointer(PointerCellData { value: nested.inner }));
    b.inner = Arc::new(inner);
    Ok(())
}

/// Every value along the path is a vector that holds one cell per element,
/// and the path continues through nested cells.
pub open spec fn vector_path(v: ValueInner, levels: Seq<i64>) -> bool
    decreases levels.len(),
{
    &&& levels.len() > 0
    &&& v.shape_view()@.len() == 1
    &&& v.ravel_view().len() == v.shape_view()@[0]
    &&& (levels.len() > 1 ==> 0 <= levels[0] < v.ravel_view().len()
        && v.ravel_view()[levels[0] as int] is Pointer
        && vector_path(*v.ravel_view()[levels[0] as int]->Pointer_0.value, levels.drop_first()))
}

/// A path of single indices, one per nesting level.
pub open spec fn scalar_levels(levels: Seq<i64>) -> Seq<Level> {
    levels.map_values(|i: i64| Level::Scalar(i))
}

/// What a pick assignment writes, pick reads back: after `(A⊃B)←V` along a
/// path of single indices through vectors, picking along the same path
/// gives the value that `V` stands for.
pub proof fn law_pick_after_assign(old: ValueInner, new: ValueInner, levels: Seq<i64>, v: Cell)
    requires
        assigned(old, new, levels, v),
        vector_path(old, levels),
    ensures
        spec_pick(scalar_levels(levels), new.shape_view()@, new.ravel_view())
            == Ok::<(Seq<i64>, Seq<Cell>), ErrorCode>(cell_value(v)),
    decreases levels.len(),
{
    let ls = scalar_levels(levels);
    assert(ls[0] == Level::Scalar(levels[0]));
    assert(ls.drop_first() =~= scalar_levels(levels.drop_first()));
    if levels.len() == 1 {
        assert(ls.drop_first() =~= Seq::<Level>::empty());
        let cv = cell_value(v);
        assert(spec_pick(ls.drop_first(), cv.0, cv.1) == Ok::<(Seq<i64>, Seq<Cell>), ErrorCode>(cv));
    } else {
        let old2 = *old.ravel_view()[levels[0] as int]->Pointer_0.value;
        let new2 = *new.ravel_view()[levels[0] as int]->Pointer_0.value;
        law_pick_after_assign(old2, new2, levels.drop_first(), v);
    }
}

} // verus!
