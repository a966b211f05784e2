//! Dyadic replicate `A/B`: each element of B repeated A[i] times (a single
//! A extends to all of B; a negative count acts as 0).

use vstd::prelude::*;
use crate::cell::Cell;
use crate::shape::Shape;
use crate::types::{AplResult, ErrorCode};
use crate::value::{all_ints, fill, int_vals, ValueP};

verus! {

/// The cells of `A/B` for the given counts: each cell repeated its count
/// of times, in order.
pub open spec fn repl(counts: Seq<i64>, cells: Seq<Cell>) -> Seq<Cell>
    decreases cells.len(),
{
    if cells.len() == 0 || counts.len() == 0 {
        Seq::empty()
    } else {
        let k = counts.last();
        repl(counts.drop_last(), cells.drop_last())
            + fill(if k > 0 { k as nat } else { 0 }, cells.last())
    }
}

/// Replicating a catenation: replicating the cells `s1` by the counts `c1`
/// and the cells `s2` by the counts `c2`, one after the other, is
/// replicating `s1,s2` by `c1,c2` (each cell having its count).
pub proof fn law_replicate_catenation(c1: Seq<i64>, s1: Seq<Cell>, c2: Seq<i64>, s2: Seq<Cell>)
    requires
        c1.len() == s1.len(),
        c2.len() == s2.len(),
    ensures
        repl(c1 + c2, s1 + s2) == repl(c1, s1) + repl(c2, s2),
    decreases s2.len(),
{
    if s2.len() == 0 {
        assert(c1 + c2 =~= c1);
        assert(s1 + s2 =~= s1);
        assert(repl(c1, s1) + repl(c2, s2) =~= repl(c1, s1));
    } else {
        assert((c1 + c2).drop_last() =~= c1 + c2.drop_last());
        assert((s1 + s2).drop_last() =~= s1 + s2.drop_last());
        law_replicate_catenation(c1, s1, c2.drop_last(), s2.drop_last());
        let k = c2.last();
        let f = fill(if k > 0 { k as nat } else { 0 }, s2.last());
        assert(repl(c1 + c2, s1 + s2) == repl(c1 + c2.drop_last(), s1 + s2.drop_last()) + f);
        assert(repl(c2, s2) == repl(c2.drop_last(), s2.drop_last()) + f);
        assert(repl(c1, s1) + repl(c2.drop_last(), s2.drop_last()) + f
            =~= repl(c1, s1) + (repl(c2.drop_last(), s2.drop_last()) + f));
    }
}

/// The counts of `A/B`, or the error.
pub open spec fn replicate_counts(a: ValueP, b: ValueP) -> Result<Seq<i64>, ErrorCode> {
    let ac = a.ravel().len();
    let bc = b.ravel().len();
    if ac != 1 && ac != bc {
        Err(ErrorCode::LengthError)
    } else if ac == 1 {
        match a.ravel()[0] {
            Cell::Int(k) => Ok(Seq::new(bc, |i: int| k)),
            _ => Err(ErrorCode::DomainError),
        }
    } else if !all_ints(a.ravel()) {
        Err(ErrorCode::DomainError)
    } else {
        Ok(int_vals(a.ravel()))
    }
}

/// `A/B`. A result longer than `i64::MAX` elements is a LIMIT ERROR.
pub fn replicate(a: &ValueP, b: &ValueP) -> (r: AplResult<ValueP>)
    ensures
        replicate_counts(*a, *b) matches Err(e) ==> r == Err::<ValueP, ErrorCode>(e),
        replicate_counts(*a, *b) matches Ok(c) ==> (
            if repl(c, b.ravel()).len() <= i64::MAX {
                r matches Ok(z) && z.dims() == seq![repl(c, b.ravel()).len() as i64]
                    && z.ravel() == repl(c, b.ravel())
            } else {
                r == Err::<ValueP, ErrorCode>(ErrorCode::LimitError)
            }),
{
    let ac = a.cells();
    let bc = b.cells();
    if ac.len() != 1 && ac.len() != bc.len() {
        return Err(ErrorCode::LengthError);
    }
    let counts: Vec<i64>;
    if ac.len() == 1 {
        let k = match ac[0].get_near_int() {
            Ok(k) => k,
            Err(e) => { return Err(e); }
        };
        let mut cs: Vec<i64> = Vec::new();
        let mut i: usize = 0;
        while i < bc.len()
            invariant
                i <= bc@.len(),
                cs@ == Seq::new(i as nat, |j: int| k),
            decreases bc@.len() - i,
        {
            cs.push(k);
            proof { assert(cs@ =~= Seq::new((i + 1) as nat, |j: int| k)); }
            i += 1;
        }
        counts = cs;
    } else {
        counts = match crate::value::int_values(ac) {
            Ok(v) => v,
            Err(e) => { return Err(e); }
        };
    }
    let ghost c = replicate_counts(*a, *b)->Ok_0;
    assert(replicate_counts(*a, *b) is Ok);
    assert(counts@ =~= c);
    let mut out: Vec<Cell> = Vec::new();
    let mut i: usize = 0;
    while i < bc.len()
        invariant
            i <= bc@.len(),
            counts@ == c,
            c.len() == bc@.len(),
            bc@ == b.ravel(),
            replicate_counts(*a, *b) == Ok::<Seq<i64>, ErrorCode>(c),
            out@ == repl(c.take(i as int), bc@.take(i as int)),
            out@.len() <= i64::MAX,
        decreases bc@.len() - i,
    {
        let k = counts[i];
        let mut m: i64 = 0;
        let ghost before = out@;
        while m < k
            invariant
                0 <= m,
                m <= k || k < 0,
                k < 0 ==> m == 0,
                i < bc@.len(),
                counts@ == c,
                c.len() == bc@.len(),
                k == c[i as int],
                bc@ == b.ravel(),
                replicate_counts(*a, *b) == Ok::<Seq<i64>, ErrorCode>(c),
                before == repl(c.take(i as int), bc@.take(i as int)),
                out@ == before + fill(m as nat, bc@[i as int]),
                out@.len() <= i64::MAX,
            decreases k - m,
        {
            if out.len() as u64 >= 0x7fff_ffff_ffff_ffffu64 {
                proof { lemma_repl_grows(c, bc@, i as int); }
                assert(repl(c, b.ravel()).len() > i64::MAX) by {
                    assert(bc@ == b.ravel());
                }
                return Err(ErrorCode::LimitError);
            }
            out.push(bc[i].clone());
            proof { assert(out@ =~= before + fill((m + 1) as nat, bc@[i as int])); }
            m += 1;
        }
        proof {
            assert(c.take(i as int + 1).drop_last() =~= c.take(i as int));
            assert(bc@.take(i as int + 1).drop_last() =~= bc@.take(i as int));
            assert(fill(m as nat, bc@[i as int]) =~= fill(if k > 0 { k as nat } else { 0 }, bc@[i as int]));
        }
        i += 1;
    }
    assert(c.take(i as int) =~= c && bc@.take(i as int) =~= bc@);
    let n = out.len() as i64;
    Ok(ValueP::from_parts_with_proto(Shape::vector(n), out, Cell::Int(0)))
}

/// The result for a prefix is a prefix of the whole result.
proof fn lemma_repl_grows(c: Seq<i64>, cells: Seq<Cell>, i: int)
    requires
        0 <= i < cells.len(),
        c.len() == cells.len(),
    ensures
        repl(c.take(i), cells.take(i)).len() + (if c[i] > 0 { c[i] as int } else { 0 })
            <= repl(c, cells).len(),
    decreases cells.len() - i,
{
    if i + 1 == cells.len() {
        assert(c.drop_last() =~= c.take(i));
        assert(cells.drop_last() =~= cells.take(i));
    } else {
        lemma_repl_grows(c.drop_last(), cells.drop_last(), i);
        assert(c.drop_last().take(i) =~= c.take(i));
        assert(cells.drop_last().take(i) =~= cells.take(i));
    }
}

} // verus!
