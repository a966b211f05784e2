//! Set functions on vectors: unique `∪B`, union `A∪B` and intersection
//! `A∩B`. Elements are compared by match; the order of first occurrence
//! is kept.

use vstd::prelude::*;
use crate::cell::Cell;
use crate::shape::Shape;
use crate::types::{AplResult, ErrorCode};
use crate::value::{cell_match, cells_match, ValueP};

verus! {

/// Some cell of `s` matches `c`.
pub open spec fn has_match(s: Seq<Cell>, c: Cell) -> bool {
    exists|j: int| 0 <= j < s.len() && #[trigger] cell_match(s[j], c)
}

/// `c` matches some cell of `s`.
pub open spec fn matches_some(c: Cell, s: Seq<Cell>) -> bool {
    exists|j: int| 0 <= j < s.len() && #[trigger] cell_match(c, s[j])
}

/// The cells of `s` without those that match an earlier one.
pub open spec fn dedup(s: Seq<Cell>) -> Seq<Cell>
    decreases s.len(),
{
    if s.len() == 0 {
        Seq::empty()
    } else {
        let d = dedup(s.drop_last());
        if has_match(d, s.last()) { d } else { d.push(s.last()) }
    }
}

/// The cells of `a` that match some cell of `b`, in order.
pub open spec fn common(a: Seq<Cell>, b: Seq<Cell>) -> Seq<Cell>
    decreases a.len(),
{
    if a.len() == 0 {
        Seq::empty()
    } else {
        let d = common(a.drop_last(), b);
        if matches_some(a.last(), b) { d.push(a.last()) } else { d }
    }
}

/// `∪B` holds no two matching cells, each cell comes from B, and the cells
/// keep their order of first occurrence: a cell that matches none before
/// it in B appears, after those before it.
pub proof fn law_unique_distinct(s: Seq<Cell>)
    ensures
        forall|i: int, j: int| 0 <= i < j < dedup(s).len() ==> !cell_match(#[trigger] dedup(s)[i], #[trigger] dedup(s)[j]),
        forall|i: int| #![trigger dedup(s)[i]] 0 <= i < dedup(s).len()
            ==> exists|k: int| #![trigger s[k]] 0 <= k < s.len() && s[k] == dedup(s)[i],
    decreases s.len(),
{
    if s.len() > 0 {
        law_unique_distinct(s.drop_last());
        let d = dedup(s.drop_last());
        assert forall|i: int| #![trigger dedup(s)[i]] 0 <= i < dedup(s).len()
            implies exists|k: int| #![trigger s[k]] 0 <= k < s.len() && s[k] == dedup(s)[i] by {
            if i < d.len() {
                assert(d[i] == dedup(s.drop_last())[i]);
                let k = choose|k: int| 0 <= k < s.drop_last().len() && s.drop_last()[k] == d[i];
                assert(s[k] == dedup(s)[i]);
            } else {
                assert(s[s.len() - 1] == dedup(s)[i]);
            }
        }
        if !has_match(d, s.last()) {
            assert forall|i: int, j: int| 0 <= i < j < dedup(s).len() implies !cell_match(#[trigger] dedup(s)[i], #[trigger] dedup(s)[j]) by {
                if j == d.len() {
                    assert(dedup(s)[i] == d[i]);
                    assert(!cell_match(d[i], s.last()));
                }
            }
        }
    }
}

/// `A∩B` holds the cells of A, in order, that match some cell of B: each
/// of its cells matches a cell of B and comes from A, and a cell of A that
/// matches one of B is kept.
pub proof fn law_intersection(a: Seq<Cell>, b: Seq<Cell>)
    ensures
        forall|i: int| 0 <= i < common(a, b).len() ==> matches_some(#[trigger] common(a, b)[i], b),
        forall|i: int| #![trigger common(a, b)[i]] 0 <= i < common(a, b).len()
            ==> exists|k: int| #![trigger a[k]] 0 <= k < a.len() && a[k] == common(a, b)[i],
        common(a, b).len() <= a.len(),
        forall|k: int| 0 <= k < a.len() && #[trigger] matches_some(a[k], b) ==> common(a, b).contains(a[k]),
    decreases a.len(),
{
    lemma_common_len(a, b);
    if a.len() > 0 {
        law_intersection(a.drop_last(), b);
        let d = common(a.drop_last(), b);
        assert forall|i: int| 0 <= i < common(a, b).len() implies matches_some(#[trigger] common(a, b)[i], b) by {
            if i < d.len() { assert(common(a, b)[i] == d[i]); }
        }
        assert forall|i: int| #![trigger common(a, b)[i]] 0 <= i < common(a, b).len()
            implies exists|k: int| #![trigger a[k]] 0 <= k < a.len() && a[k] == common(a, b)[i] by {
            if i < d.len() {
                assert(d[i] == common(a.drop_last(), b)[i]);
                let k = choose|k: int| 0 <= k < a.drop_last().len() && a.drop_last()[k] == d[i];
                assert(a[k] == common(a, b)[i]);
            } else {
                assert(a[a.len() - 1] == common(a, b)[i]);
            }
        }
        assert forall|k: int| 0 <= k < a.len() && #[trigger] matches_some(a[k], b) implies common(a, b).contains(a[k]) by {
            if k < a.len() - 1 {
                assert(a.drop_last()[k] == a[k]);
                assert(matches_some(a.drop_last()[k], b));
                let i = choose|i: int| 0 <= i < d.len() && d[i] == a[k];
                assert(common(a, b)[i] == a[k]);
            } else {
                assert(common(a, b)[common(a, b).len() - 1] == a[k]);
            }
        }
    }
}

proof fn lemma_dedup_len(s: Seq<Cell>)
    ensures
        dedup(s).len() <= s.len(),
    decreases s.len(),
{
    if s.len() > 0 {
        lemma_dedup_len(s.drop_last());
    }
}

proof fn lemma_common_len(a: Seq<Cell>, b: Seq<Cell>)
    ensures
        common(a, b).len() <= a.len(),
    decreases a.len(),
{
    if a.len() > 0 {
        lemma_common_len(a.drop_last(), b);
    }
}

/// Whether some cell of `s` matches `c`, with `s`'s cells on the left.
fn find_match(s: &[Cell], c: &Cell) -> (r: bool)
    ensures
        r == has_match(s@, *c),
{
    let mut j: usize = 0;
    while j < s.len()
        invariant
            j <= s@.len(),
            forall|k: int| 0 <= k < j ==> !#[trigger] cell_match(s@[k], *c),
        decreases s@.len() - j,
    {
        if cells_match(&s[j], c) {
            return true;
        }
        j += 1;
    }
    false
}

/// Whether `c` matches some cell of `s`, with `c` on the left.
pub fn find_match_right(s: &[Cell], c: &Cell) -> (r: bool)
    ensures
        r == matches_some(*c, s@),
{
    let mut j: usize = 0;
    while j < s.len()
        invariant
            j <= s@.len(),
            forall|k: int| 0 <= k < j ==> !#[trigger] cell_match(*c, s@[k]),
        decreases s@.len() - j,
    {
        if cells_match(c, &s[j]) {
            return true;
        }
        j += 1;
    }
    false
}

/// The cells of `s` without repetitions.
fn dedup_cells(s: &[Cell]) -> (r: Vec<Cell>)
    ensures
        r@ == dedup(s@),
{
    let mut out: Vec<Cell> = Vec::new();
    let mut i: usize = 0;
    while i < s.len()
        invariant
            i <= s@.len(),
            out@ == dedup(s@.take(i as int)),
        decreases s@.len() - i,
    {
        proof {
            assert(s@.take(i as int + 1).drop_last() =~= s@.take(i as int));
        }
        let dup = find_match(out.as_slice(), &s[i]);
        if !dup {
            out.push(s[i].clone());
        }
        i += 1;
    }
    assert(s@.take(i as int) =~= s@);
    out
}

/// `∪B`: the cells of vector `B` without those that match an earlier one.
/// A value of rank above 1 is a RANK ERROR; a value of at most one element
/// is returned unchanged.
pub fn unique(b: &ValueP) -> (r: AplResult<ValueP>)
    ensures
        b.spec_rank() > 1 ==> r == Err::<ValueP, ErrorCode>(ErrorCode::RankError),
        b.spec_rank() <= 1 && b.ravel().len() <= 1 ==> r == Ok::<ValueP, ErrorCode>(*b),
        b.spec_rank() <= 1 && b.ravel().len() > 1 ==> (r matches Ok(v)
            && v.dims() == seq![dedup(b.ravel()).len() as i64]
            && v.ravel() == dedup(b.ravel())),
{
    b.lemma_wf();
    if b.rank() > 1 {
        return Err(ErrorCode::RankError);
    }
    let cells = b.cells();
    if cells.len() <= 1 {
        return Ok(b.clone());
    }
    let out = dedup_cells(cells);
    proof { lemma_dedup_len(b.ravel()); }
    let n = out.len() as i64;
    ValueP::from_parts(Shape::vector(n), out)
}

/// `A∪B`: the cells of `A` followed by those of `B`, without repetitions.
/// Either argument of rank above 1 is a RANK ERROR.
pub fn union(a: &ValueP, b: &ValueP) -> (r: AplResult<ValueP>)
    requires
        a.ravel().len() + b.ravel().len() <= i64::MAX,
    ensures
        (a.spec_rank() > 1 || b.spec_rank() > 1) ==> r == Err::<ValueP, ErrorCode>(ErrorCode::RankError),
        a.spec_rank() <= 1 && b.spec_rank() <= 1 && a.ravel().len() + b.ravel().len() <= 1
            ==> (r matches Ok(v) && v.dims() == seq![(a.ravel() + b.ravel()).len() as i64]
                && v.ravel() == a.ravel() + b.ravel()),
        a.spec_rank() <= 1 && b.spec_rank() <= 1 && a.ravel().len() + b.ravel().len() > 1
            ==> (r matches Ok(v) && v.dims() == seq![dedup(a.ravel() + b.ravel()).len() as i64]
                && v.ravel() == dedup(a.ravel() + b.ravel())),
{
    a.lemma_wf();
    b.lemma_wf();
    if a.rank() > 1 || b.rank() > 1 {
        return Err(ErrorCode::RankError);
    }
    let ac = a.cells();
    let bc = b.cells();
    let mut combined: Vec<Cell> = Vec::new();
    let mut i: usize = 0;
    while i < ac.len()
        invariant
            i <= ac@.len(),
            combined@ == ac@.take(i as int),
        decreases ac@.len() - i,
    {
        combined.push(ac[i].clone());
        proof { assert(combined@ =~= ac@.take(i as int + 1)); }
        i += 1;
    }
    let mut j: usize = 0;
    while j < bc.len()
        invariant
            j <= bc@.len(),
            i == ac@.len(),
            combined@ == ac@ + bc@.take(j as int),
        decreases bc@.len() - j,
    {
        combined.push(bc[j].clone());
        proof { assert(combined@ =~= ac@ + bc@.take(j as int + 1)); }
        j += 1;
    }
    proof {
        assert(ac@.take(i as int) =~= ac@);
        assert(bc@.take(j as int) =~= bc@);
    }
    let n = combined.len() as i64;
    let temp = ValueP::from_parts(Shape::vector(n), combined)?;
    unique(&temp)
}

/// `A∩B`: the cells of `A` that match some cell of `B`, in the order of
/// `A`. Either argument of rank above 1 is a RANK ERROR.
pub fn intersection(a: &ValueP, b: &ValueP) -> (r: AplResult<ValueP>)
    ensures
        (a.spec_rank() > 1 || b.spec_rank() > 1) ==> r == Err::<ValueP, ErrorCode>(ErrorCode::RankError),
        a.spec_rank() <= 1 && b.spec_rank() <= 1 ==> (r matches Ok(v)
            && v.dims() == seq![common(a.ravel(), b.ravel()).len() as i64]
            && v.ravel() == common(a.ravel(), b.ravel())),
{
    a.lemma_wf();
    b.lemma_wf();
    if a.rank() > 1 || b.rank() > 1 {
        return Err(ErrorCode::RankError);
    }
    let ac = a.cells();
    let bc = b.cells();
    let mut out: Vec<Cell> = Vec::new();
    let mut i: usize = 0;
    while i < ac.len()
        invariant
            i <= ac@.len(),
            out@ == common(ac@.take(i as int), bc@),
        decreases ac@.len() - i,
    {
        proof {
            assert(ac@.take(i as int + 1).drop_last() =~= ac@.take(i as int));
        }
        let found = find_match_right(bc, &ac[i]);
        if found {
            out.push(ac[i].clone());
        }
        i += 1;
    }
    assert(ac@.take(i as int) =~= ac@);
    proof { lemma_common_len(ac@, bc@); }
    let n = out.len() as i64;
    ValueP::from_parts(Shape::vector(n), out)
}

} // verus!

