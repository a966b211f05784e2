//! Take `X↑B` and drop `X↓B`, with one count per axis, and their axis
//! forms `X↑[a]B` and `X↓[a]B` with one count for the named axis.
//!
//! A positive count selects from the front of its axis, a negative one from
//! the end. Over-taking pads with B's fill element (0, blank, or an
//! enclosed fill); dropping at least a whole axis leaves it empty.
//!
//! Both functions are specified axis by axis: the result is the
//! concatenation of its major cells, each of which is the same function
//! applied to one major cell of B with the remaining counts.

use vstd::prelude::*;
use crate::cell::Cell;
use crate::shape::{absprod, nonneg, prod, weight, Shape};
use crate::types::{AplResult, ErrorCode};
use crate::value::{all_ints, fill, int_vals, proto_cell, proto_ok, ValueP};

verus! {

// ---------------------------------------------------------------------------
// Specification
// ---------------------------------------------------------------------------

/// The magnitude of a count.
pub open spec fn mag(k: i64) -> int {
    if k < 0 { -(k as int) } else { k as int }
}

/// The magnitudes of the counts, as dimensions.
pub open spec fn abs_dims(c: Seq<i64>) -> Seq<i64> {
    Seq::new(c.len(), |k: int| mag(c[k]) as i64)
}

/// The dimensions of B as take and drop see them: a scalar is a
/// one-element vector.
pub open spec fn eff_dims(b: ValueP) -> Seq<i64> {
    if b.dims().len() == 0 { seq![1i64] } else { b.dims() }
}

/// The position along an axis of length `n` that row `i` of a take by
/// count `k` reads.
pub open spec fn take_off(n: i64, k: i64, i: int) -> int {
    if k >= 0 { i } else { n + k + i }
}

/// `c↑` of the array with ravel `cells` and dimensions `d`, padding with `p`.
pub open spec fn take_spec(cells: Seq<Cell>, d: Seq<i64>, c: Seq<i64>, p: Cell) -> Seq<Cell>
    decreases c.len(), 2nat, 0nat,
{
    if c.len() == 0 {
        cells
    } else {
        take_rows(cells, d, c, p, mag(c[0]) as nat)
    }
}

/// The first `i` major cells of `c↑` of that array.
pub open spec fn take_rows(cells: Seq<Cell>, d: Seq<i64>, c: Seq<i64>, p: Cell, i: nat) -> Seq<Cell>
    decreases c.len(), 1nat, i,
{
    if i == 0 || c.len() == 0 {
        Seq::empty()
    } else {
        take_rows(cells, d, c, p, (i - 1) as nat) + take_row(cells, d, c, p, i - 1)
    }
}

/// Major cell `i` of `c↑` of that array: the rest of the take applied to
/// the major cell it reads, or all fill where it reads past the axis.
pub open spec fn take_row(cells: Seq<Cell>, d: Seq<i64>, c: Seq<i64>, p: Cell, i: int) -> Seq<Cell>
    decreases c.len(), 0nat, 0nat,
{
    if c.len() == 0 || d.len() == 0 {
        Seq::empty()
    } else {
        let off = take_off(d[0], c[0], i);
        let inner = prod(d.drop_first());
        if 0 <= off < d[0] {
            take_spec(cells.subrange(off * inner, off * inner + inner), d.drop_first(), c.drop_first(), p)
        } else {
            fill(prod(abs_dims(c.drop_first())) as nat, p)
        }
    }
}

/// The length of an axis of length `n` after dropping `k`.
pub open spec fn keep_len(n: i64, k: i64) -> int {
    if n - mag(k) > 0 { n - mag(k) } else { 0 }
}

/// The first position along an axis kept by a drop of `k`.
pub open spec fn drop_start(k: i64) -> int {
    if k > 0 { k as int } else { 0 }
}

/// The dimensions of `c↓` of an array with dimensions `d`.
pub open spec fn drop_dims(d: Seq<i64>, c: Seq<i64>) -> Seq<i64> {
    Seq::new(c.len(), |k: int| keep_len(d[k], c[k]) as i64)
}

/// `c↓` of the array with ravel `cells` and dimensions `d`.
pub open spec fn drop_spec(cells: Seq<Cell>, d: Seq<i64>, c: Seq<i64>) -> Seq<Cell>
    decreases c.len(), 2nat, 0nat,
{
    if c.len() == 0 || d.len() == 0 {
        cells
    } else {
        drop_rows(cells, d, c, keep_len(d[0], c[0]) as nat)
    }
}

/// The first `i` major cells of `c↓` of that array.
pub open spec fn drop_rows(cells: Seq<Cell>, d: Seq<i64>, c: Seq<i64>, i: nat) -> Seq<Cell>
    decreases c.len(), 1nat, i,
{
    if i == 0 || c.len() == 0 {
        Seq::empty()
    } else {
        drop_rows(cells, d, c, (i - 1) as nat) + drop_row(cells, d, c, i - 1)
    }
}

/// Major cell `i` of `c↓` of that array.
pub open spec fn drop_row(cells: Seq<Cell>, d: Seq<i64>, c: Seq<i64>, i: int) -> Seq<Cell>
    decreases c.len(), 0nat, 0nat,
{
    if c.len() == 0 || d.len() == 0 {
        Seq::empty()
    } else {
        let off = i + drop_start(c[0]);
        let inner = prod(d.drop_first());
        drop_spec(cells.subrange(off * inner, off * inner + inner), d.drop_first(), c.drop_first())
    }
}

/// The counts of `X↑B` and `X↓B`, one per axis of B, or the error: RANK
/// ERROR for X of rank above 1, DOMAIN ERROR for a count that is not an
/// integer, LENGTH ERROR unless there is one count per axis.
pub open spec fn axis_counts_spec(x: ValueP, b: ValueP) -> Result<Seq<i64>, ErrorCode> {
    if x.spec_rank() > 1 {
        Err(ErrorCode::RankError)
    } else if !all_ints(x.ravel()) {
        Err(ErrorCode::DomainError)
    } else if x.ravel().len() != eff_dims(b).len() {
        Err(ErrorCode::LengthError)
    } else {
        Ok(int_vals(x.ravel()))
    }
}

/// The single count of an axis form, or the error: LENGTH ERROR unless X
/// has one element, DOMAIN ERROR unless it is an integer.
pub open spec fn single_int_spec(x: ValueP) -> Result<i64, ErrorCode> {
    if x.ravel().len() != 1 {
        Err(ErrorCode::LengthError)
    } else if x.ravel()[0] is Int {
        Ok(x.ravel()[0]->Int_0)
    } else {
        Err(ErrorCode::DomainError)
    }
}

// ---------------------------------------------------------------------------
// Arithmetic on dimensions
// ---------------------------------------------------------------------------

proof fn lemma_prod_single(x: i64)
    ensures
        prod(seq![x]) == x,
        absprod(seq![x]) == weight(x),
{
    reveal_with_fuel(prod, 2);
    reveal_with_fuel(absprod, 2);
    assert(seq![x].drop_last() =~= Seq::<i64>::empty());
}

/// The product splits off the first dimension.
proof fn lemma_prod_first(s: Seq<i64>)
    requires
        s.len() > 0,
    ensures
        prod(s) == s[0] * prod(s.drop_first()),
        absprod(s) == weight(s[0]) * absprod(s.drop_first()),
{
    assert(seq![s[0]] + s.drop_first() =~= s);
    crate::shape::lemma_prod_append(seq![s[0]], s.drop_first());
    lemma_prod_single(s[0]);
}

/// A run of dimensions weighs no more than all of them.
proof fn lemma_absprod_sub(s: Seq<i64>, i: int, j: int)
    requires
        0 <= i <= j <= s.len(),
    ensures
        1 <= absprod(s.subrange(i, j)) <= absprod(s),
{
    let a = s.subrange(0, i);
    let m = s.subrange(i, j);
    let z = s.subrange(j, s.len() as int);
    assert(a + m + z =~= s);
    crate::shape::lemma_prod_append(a + m, z);
    crate::shape::lemma_prod_append(a, m);
    crate::shape::lemma_absprod_pos(a);
    crate::shape::lemma_absprod_pos(m);
    crate::shape::lemma_absprod_pos(z);
    let x = absprod(a);
    let y = absprod(m);
    let w = absprod(z);
    assert(y <= x * y * w) by (nonlinear_arith) requires x >= 1, y >= 1, w >= 1;
}

/// Nonnegative dimensions have a product between 0 and their weight.
pub proof fn lemma_prod_le_absprod(s: Seq<i64>)
    requires
        nonneg(s),
    ensures
        0 <= prod(s) <= absprod(s),
    decreases s.len(),
{
    if s.len() > 0 {
        lemma_prod_le_absprod(s.drop_last());
        let a = prod(s.drop_last());
        let b = absprod(s.drop_last());
        let x = s.last();
        let w = weight(x);
        assert(0 <= a * x <= b * w) by (nonlinear_arith)
            requires 0 <= a <= b, 0 <= x <= w;
    }
}

/// One count weighs no more than all of them.
proof fn lemma_weight_le(c: Seq<i64>, k: int)
    requires
        0 <= k < c.len(),
    ensures
        weight(c[k]) <= absprod(c),
{
    lemma_absprod_sub(c, k, k + 1);
    assert(c.subrange(k, k + 1) =~= seq![c[k]]);
    lemma_prod_single(c[k]);
}

/// Magnitudes weigh as much as the counts.
proof fn lemma_abs_dims(c: Seq<i64>)
    requires
        absprod(c) <= i64::MAX,
    ensures
        absprod(abs_dims(c)) == absprod(c),
        nonneg(abs_dims(c)),
        forall|k: int| 0 <= k < c.len() ==> (#[trigger] abs_dims(c)[k]) as int == mag(c[k]),
    decreases c.len(),
{
    assert forall|k: int| 0 <= k < c.len() implies (#[trigger] abs_dims(c)[k]) as int == mag(c[k]) by {
        lemma_weight_le(c, k);
    }
    if c.len() > 0 {
        crate::shape::lemma_absprod_pos(c.drop_last());
        assert(absprod(c.drop_last()) <= absprod(c)) by {
            let a = absprod(c.drop_last());
            let w = weight(c.last());
            assert(a <= a * w) by (nonlinear_arith) requires a >= 1, w >= 1;
        }
        lemma_abs_dims(c.drop_last());
        assert(abs_dims(c).drop_last() =~= abs_dims(c.drop_last()));
    }
}

/// The product of `d[k..]`.
fn suffix_prod(d: &[i64], k: usize) -> (r: i64)
    requires
        k <= d@.len(),
        nonneg(d@),
        absprod(d@) <= i64::MAX,
    ensures
        r as int == prod(d@.skip(k as int)),
        0 <= r,
{
    let mut acc: i64 = 1;
    let mut j: usize = k;
    while j < d.len()
        invariant
            k <= j <= d@.len(),
            nonneg(d@),
            absprod(d@) <= i64::MAX,
            acc as int == prod(d@.subrange(k as int, j as int)),
        decreases d@.len() - j,
    {
        proof {
            assert(d@.subrange(k as int, j as int + 1).drop_last() =~= d@.subrange(k as int, j as int));
            lemma_absprod_sub(d@, k as int, j as int + 1);
            lemma_prod_le_absprod(d@.subrange(k as int, j as int + 1));
        }
        acc = acc * d[j];
        j += 1;
    }
    proof {
        assert(d@.subrange(k as int, j as int) =~= d@.skip(k as int));
        lemma_prod_le_absprod(d@.skip(k as int));
    }
    acc
}

/// The product of `d`.
pub fn prod_of(d: &[i64]) -> (r: i64)
    requires
        nonneg(d@),
        absprod(d@) <= i64::MAX,
    ensures
        r as int == prod(d@),
        0 <= r,
{
    let r = suffix_prod(d, 0);
    assert(d@.skip(0) =~= d@);
    r
}

/// The product of `d[k..]`.
pub fn suffix_prod_of(d: &[i64], k: usize) -> (r: i64)
    requires
        k <= d@.len(),
        nonneg(d@),
        absprod(d@) <= i64::MAX,
    ensures
        r as int == prod(d@.skip(k as int)),
        0 <= r,
{
    suffix_prod(d, k)
}

/// A matrix of the first dimension by the product of the others is a
/// legal shape with the same number of elements.
pub proof fn lemma_table_weight(d: Seq<i64>)
    requires
        d.len() >= 2,
        nonneg(d),
        absprod(d) <= i64::MAX,
    ensures
        absprod(seq![d[0], prod(d.drop_first()) as i64]) <= i64::MAX,
        prod(seq![d[0], prod(d.drop_first()) as i64]) == prod(d),
        nonneg(seq![d[0], prod(d.drop_first()) as i64]),
{
    lemma_prod_first(d);
    let rest = d.drop_first();
    lemma_absprod_sub(d, 1, d.len() as int);
    assert(d.subrange(1, d.len() as int) =~= rest);
    crate::shape::lemma_prod_nonneg(rest);
    lemma_prod_le_absprod(rest);
    let p = prod(rest);
    let t = seq![d[0], p as i64];
    assert(t.drop_last() =~= seq![d[0]]);
    lemma_prod_single(d[0]);
    crate::shape::lemma_absprod_push(seq![d[0]], p as i64);
    assert(seq![d[0]].push(p as i64) =~= t);
    let w0 = weight(d[0]);
    let wr = absprod(rest);
    crate::shape::lemma_absprod_pos(rest);
    assert(weight(p as i64) <= wr);
    assert(w0 * weight(p as i64) <= w0 * wr) by (nonlinear_arith)
        requires weight(p as i64) <= wr, w0 >= 1;
}

/// `X↑B`, with a LIMIT ERROR in place of a result too large for a shape.
pub fn take_checked(x: &ValueP, b: &ValueP) -> (r: AplResult<ValueP>)
    ensures
        axis_counts_spec(*x, *b) matches Err(e) ==> r == Err::<ValueP, ErrorCode>(e),
        axis_counts_spec(*x, *b) matches Ok(c) ==> (absprod(c) > i64::MAX
            ==> r == Err::<ValueP, ErrorCode>(ErrorCode::LimitError)),
        axis_counts_spec(*x, *b) matches Ok(c) ==> (absprod(c) <= i64::MAX ==> (r matches Ok(v)
            && v.dims() == abs_dims(c)
            && exists|p: Cell| proto_ok(p, b.spec_proto())
                && v.ravel() == take_spec(b.ravel(), eff_dims(*b), c, p))),
{
    let counts = axis_counts(x, b)?;
    if !weight_fits(counts.as_slice()) {
        return Err(ErrorCode::LimitError);
    }
    take(x, b)
}

/// Whether the dimensions `d` weigh no more than `i64::MAX`.
pub fn weight_fits(d: &[i64]) -> (r: bool)
    ensures
        r == (absprod(d@) <= i64::MAX),
{
    let mut acc: i64 = 1;
    let mut j: usize = 0;
    while j < d.len()
        invariant
            j <= d@.len(),
            acc as int == absprod(d@.take(j as int)),
            1 <= acc,
        decreases d@.len() - j,
    {
        let x = d[j];
        let w: i64 = if x == 0 { 1 } else if x == i64::MIN { 0 } else if x < 0 { -x } else { x };
        proof {
            assert(d@.take(j as int + 1).drop_last() =~= d@.take(j as int));
        }
        if w == 0 {
            proof {
                lemma_absprod_sub(d@, 0, j as int + 1);
                assert(d@.subrange(0, j as int + 1) =~= d@.take(j as int + 1));
                crate::shape::lemma_absprod_pos(d@.take(j as int));
                let a = absprod(d@.take(j as int));
                assert(a * weight(x) >= weight(x)) by (nonlinear_arith) requires a >= 1, weight(x) >= 1;
            }
            return false;
        }
        match acc.checked_mul(w) {
            Some(v) => {
                assert(v >= 1) by (nonlinear_arith) requires v == acc * w, acc >= 1, w >= 1;
                acc = v;
            },
            None => {
                proof {
                    lemma_absprod_sub(d@, 0, j as int + 1);
                    assert(d@.subrange(0, j as int + 1) =~= d@.take(j as int + 1));
                }
                return false;
            },
        }
        j += 1;
    }
    assert(d@.take(j as int) =~= d@);
    true
}

/// The magnitudes of the counts.
fn abs_counts(c: &[i64]) -> (r: Vec<i64>)
    requires
        absprod(c@) <= i64::MAX,
    ensures
        r@ == abs_dims(c@),
{
    proof { lemma_abs_dims(c@); }
    let mut out: Vec<i64> = Vec::new();
    let mut i: usize = 0;
    while i < c.len()
        invariant
            i <= c@.len(),
            absprod(c@) <= i64::MAX,
            forall|k: int| 0 <= k < c@.len() ==> (#[trigger] abs_dims(c@)[k]) as int == mag(c@[k]),
            out@ == abs_dims(c@).take(i as int),
        decreases c@.len() - i,
    {
        let k = c[i];
        assert(abs_dims(c@)[i as int] as int == mag(k));
        let m: i64 = if k < 0 { -k } else { k };
        out.push(m);
        proof { assert(out@ =~= abs_dims(c@).take(i as int + 1)); }
        i += 1;
    }
    assert(abs_dims(c@).take(i as int) =~= abs_dims(c@));
    out
}

/// The dimensions of B with a scalar seen as a one-element vector.
fn shape_dims(b: &ValueP) -> (r: Vec<i64>)
    ensures
        r@ == eff_dims(*b),
{
    let rank = b.rank();
    let mut out: Vec<i64> = Vec::new();
    if rank == 0 {
        out.push(1);
        assert(out@ =~= seq![1i64]);
        return out;
    }
    let mut i: u32 = 0;
    while i < rank
        invariant
            i <= rank,
            rank as int == b.dims().len(),
            rank <= 8,
            out@ == b.dims().take(i as int),
        decreases rank - i,
    {
        out.push(b.get_shape_item(i as i16));
        proof { assert(out@ =~= b.dims().take(i as int + 1)); }
        i += 1;
    }
    assert(b.dims().take(i as int) =~= b.dims());
    out
}

/// `n` copies of `p` appended to `out`.
fn push_fill(out: &mut Vec<Cell>, n: i64, p: &Cell)
    requires
        n >= 0,
    ensures
        final(out)@ == old(out)@ + fill(n as nat, *p),
{
    let ghost start = out@;
    let mut j: i64 = 0;
    while j < n
        invariant
            0 <= j <= n,
            out@ == start + fill(j as nat, *p),
        decreases n - j,
    {
        out.push(p.clone());
        proof { assert(out@ =~= start + fill(j as nat + 1, *p)); }
        j += 1;
    }
}

// ---------------------------------------------------------------------------
// Take
// ---------------------------------------------------------------------------

/// Append `c[ax..]↑` of the block of `cells` that starts at `base` and has
/// the dimensions `d[ax..]`.
fn take_block(cells: &[Cell], base: usize, d: &[i64], c: &[i64], ad: &[i64], ax: usize, p: &Cell, out: &mut Vec<Cell>)
    requires
        d@.len() == c@.len(),
        ad@ == abs_dims(c@),
        ax <= d@.len(),
        nonneg(d@),
        absprod(d@) <= i64::MAX,
        absprod(c@) <= i64::MAX,
        base + prod(d@.skip(ax as int)) <= cells@.len(),
        cells@.len() <= i64::MAX,
    ensures
        final(out)@ == old(out)@ + take_spec(
            cells@.subrange(base as int, base + prod(d@.skip(ax as int))),
            d@.skip(ax as int), c@.skip(ax as int), *p),
        final(out)@.len() == old(out)@.len() + prod(ad@.skip(ax as int)),
    decreases d@.len() - ax,
{
    let ghost start = out@;
    let ghost dd = d@.skip(ax as int);
    let ghost cc = c@.skip(ax as int);
    let ghost sub = cells@.subrange(base as int, base + prod(dd));
    proof {
        lemma_abs_dims(c@);
        crate::shape::lemma_prod_nonneg(dd);
    }
    if ax == d.len() {
        proof {
            assert(dd =~= Seq::<i64>::empty());
            assert(cc =~= Seq::<i64>::empty());
            assert(ad@.skip(ax as int) =~= Seq::<i64>::empty());
            assert(sub =~= seq![cells@[base as int]]);
        }
        out.push(cells[base].clone());
        return;
    }
    let cl = cells.len();
    let dl = d.len();
    let n = d[ax];
    let k = c[ax];
    let inner = suffix_prod(d, ax + 1);
    let rowlen = suffix_prod(ad, ax + 1);
    proof {
        lemma_prod_first(dd);
        lemma_prod_first(ad@.skip(ax as int));
        assert(dd.drop_first() =~= d@.skip(ax as int + 1));
        assert(cc.drop_first() =~= c@.skip(ax as int + 1));
        assert(ad@.skip(ax as int).drop_first() =~= ad@.skip(ax as int + 1));
        assert(abs_dims(cc.drop_first()) =~= ad@.skip(ax as int + 1));
        assert(weight(k) <= absprod(c@)) by {
            lemma_absprod_sub(c@, ax as int, ax as int + 1);
            assert(c@.subrange(ax as int, ax as int + 1) =~= seq![k]);
            lemma_prod_single(k);
        }
    }
    let w: i64 = if k < 0 { -k } else { k };
    let mut i: i64 = 0;
    while i < w
        invariant
            0 <= i <= w,
            w as int == mag(k),
            d@.len() == c@.len(),
            ad@ == abs_dims(c@),
            ax < d@.len(),
            nonneg(d@),
            absprod(d@) <= i64::MAX,
            absprod(c@) <= i64::MAX,
            n == d@[ax as int],
            k == c@[ax as int],
            dd == d@.skip(ax as int),
            cc == c@.skip(ax as int),
            dd[0] == n,
            cc[0] == k,
            dd.drop_first() == d@.skip(ax as int + 1),
            cc.drop_first() == c@.skip(ax as int + 1),
            abs_dims(cc.drop_first()) == ad@.skip(ax as int + 1),
            inner as int == prod(d@.skip(ax as int + 1)),
            rowlen as int == prod(ad@.skip(ax as int + 1)),
            prod(dd) == n * inner,
            0 <= inner,
            0 <= rowlen,
            base + prod(dd) <= cells@.len(),
            cells@.len() <= i64::MAX,
            cl == cells@.len(),
            dl == d@.len(),
            sub == cells@.subrange(base as int, base + prod(dd)),
            out@ == start + take_rows(sub, dd, cc, *p, i as nat),
            out@.len() == start.len() + i * rowlen,
        decreases w - i,
    {
        let off: i64 = if k >= 0 { i } else { n + k + i };
        assert(off as int == take_off(n, k, i as int));
        let ghost before = out@;
        if 0 <= off && off < n {
            proof {
                if inner > 0 {
                    assert(off * inner + inner <= n * inner) by (nonlinear_arith)
                        requires off + 1 <= n, inner > 0;
                } else {
                    assert(off * inner == 0) by (nonlinear_arith) requires inner == 0;
                }
                assert(0 <= off * inner) by (nonlinear_arith) requires off >= 0, inner >= 0;
                assert(sub.subrange(off * inner, off * inner + inner)
                    =~= cells@.subrange(base + off * inner, base + off * inner + inner));
            }
            assert(off * inner + inner <= prod(dd));
            assert(base + off * inner + inner <= cells@.len());
            let b2 = base + (off * inner) as usize;
            take_block(cells, b2, d, c, ad, ax + 1, p, out);
        } else {
            push_fill(out, rowlen, p);
        }
        proof {
            assert(take_row(sub, dd, cc, *p, i as int) == out@.subrange(before.len() as int, out@.len() as int));
            assert(out@ =~= before + take_row(sub, dd, cc, *p, i as int));
            assert((i + 1) * rowlen == i * rowlen + rowlen) by (nonlinear_arith);
        }
        i += 1;
    }
    proof {
        assert(prod(ad@.skip(ax as int)) == w * rowlen);
    }
}

/// The fill element of B.
fn prototype(b: &ValueP) -> (r: Cell)
    ensures
        proto_ok(r, b.spec_proto()),
{
    proto_cell(b.inner.proto())
}

/// The counts of `X↑B` or `X↓B`.
fn axis_counts(x: &ValueP, b: &ValueP) -> (r: AplResult<Vec<i64>>)
    ensures
        axis_counts_spec(*x, *b) matches Err(e) ==> r == Err::<Vec<i64>, ErrorCode>(e),
        axis_counts_spec(*x, *b) matches Ok(c) ==> (r matches Ok(v) && v@ == c),
{
    if x.rank() > 1 {
        return Err(ErrorCode::RankError);
    }
    let counts = crate::value::int_values(x.cells())?;
    let rank = b.rank();
    let want: usize = if rank == 0 { 1 } else { rank as usize };
    if counts.len() != want {
        return Err(ErrorCode::LengthError);
    }
    Ok(counts)
}

/// The single count of an axis form.
fn single_int(x: &ValueP) -> (r: AplResult<i64>)
    ensures
        r == single_int_spec(*x),
{
    if x.element_count() != 1 {
        return Err(ErrorCode::LengthError);
    }
    match x.first_cell() {
        Some(Cell::Int(v)) => Ok(*v),
        _ => Err(ErrorCode::DomainError),
    }
}

/// `c↑B` for counts `c`, one per axis of `d`, the dimensions of B.
fn take_counts(b: &ValueP, d: &[i64], c: &[i64]) -> (r: AplResult<ValueP>)
    requires
        d@ == eff_dims(*b),
        c@.len() == d@.len(),
        absprod(c@) <= i64::MAX,
    ensures
        r matches Ok(v) && v.dims() == abs_dims(c@)
            && exists|p: Cell| proto_ok(p, b.spec_proto())
                && v.ravel() == take_spec(b.ravel(), d@, c@, p),
{
    b.lemma_wf();
    proof {
        if b.dims().len() == 0 {
            assert(absprod(seq![1i64]) == 1) by { lemma_prod_single(1); }
            lemma_prod_single(1);
        }
        assert(d@.skip(0) =~= d@);
        assert(c@.skip(0) =~= c@);
    }
    let ad = abs_counts(c);
    let p = prototype(b);
    let cells = b.cells();
    let mut out: Vec<Cell> = Vec::new();
    proof {
        assert(b.ravel().subrange(0, prod(d@)) =~= b.ravel());
        lemma_abs_dims(c@);
        assert(ad@.skip(0) =~= ad@);
    }
    take_block(cells, 0, d, c, ad.as_slice(), 0, &p, &mut out);
    assert(out@ =~= take_spec(b.ravel(), d@, c@, p));
    let shape = Shape::from_dims(ad.as_slice());
    match shape {
        Ok(s) => {
            proof { use_type_invariant(s); }
            let v = ValueP::from_parts(s, out);
            match v {
                Ok(v) => Ok(v),
                Err(e) => Err(e),
            }
        },
        Err(e) => Err(e),
    }
}

/// `X↑B`: one count per axis of B (a scalar B has one axis). The result has
/// the magnitudes of the counts as its dimensions; each count selects from
/// the front of its axis when positive and from the end when negative, and
/// positions past the end of B hold B's fill element.
pub fn take(x: &ValueP, b: &ValueP) -> (r: AplResult<ValueP>)
    requires
        axis_counts_spec(*x, *b) matches Ok(c) ==> absprod(c) <= i64::MAX,
    ensures
        axis_counts_spec(*x, *b) matches Err(e) ==> r == Err::<ValueP, ErrorCode>(e),
        axis_counts_spec(*x, *b) matches Ok(c) ==> (r matches Ok(v)
            && v.dims() == abs_dims(c)
            && exists|p: Cell| proto_ok(p, b.spec_proto())
                && v.ravel() == take_spec(b.ravel(), eff_dims(*b), c, p)),
{
    let counts = axis_counts(x, b)?;
    let d = shape_dims(b);
    take_counts(b, d.as_slice(), counts.as_slice())
}

/// `X↑[a]B`: take `X` items along axis `a` (counting from 0) and all of
/// every other axis. An axis outside B is a RANK ERROR.
pub fn take_axis(x: &ValueP, b: &ValueP, axis: i64) -> (r: AplResult<ValueP>)
    requires
        single_int_spec(*x) matches Ok(k) ==> (0 <= axis < b.spec_rank()
            ==> absprod(b.dims().update(axis as int, k)) <= i64::MAX),
    ensures
        single_int_spec(*x) matches Err(e) ==> r == Err::<ValueP, ErrorCode>(e),
        single_int_spec(*x) is Ok && !(0 <= axis < b.spec_rank())
            ==> r == Err::<ValueP, ErrorCode>(ErrorCode::RankError),
        single_int_spec(*x) matches Ok(k) ==> (0 <= axis < b.spec_rank() ==> (r matches Ok(v)
            && v.dims() == b.dims().update(axis as int, mag(k) as i64)
            && exists|p: Cell| proto_ok(p, b.spec_proto())
                && v.ravel() == take_spec(b.ravel(), b.dims(), b.dims().update(axis as int, k), p))),
{
    b.lemma_wf();
    let count = single_int(x)?;
    let rank = b.rank();
    if axis < 0 || axis >= rank as i64 {
        return Err(ErrorCode::RankError);
    }
    let d = shape_dims(b);
    let mut c = shape_dims(b);
    c.set(axis as usize, count);
    proof {
        lemma_abs_dims(c@);
        assert(abs_dims(c@) =~= b.dims().update(axis as int, mag(count) as i64)) by {
            assert forall|j: int| 0 <= j < c@.len() implies abs_dims(c@)[j] == b.dims().update(axis as int, mag(count) as i64)[j] by {
                if j != axis {
                    assert(b.dims()[j] >= 0);
                }
            }
        }
    }
    take_counts(b, d.as_slice(), c.as_slice())
}

// ---------------------------------------------------------------------------
// Drop
// ---------------------------------------------------------------------------

/// The kept length and starting position of an axis of length `n` dropped by `k`.
fn keep_and_start(n: i64, k: i64) -> (r: (i64, i64))
    requires
        n >= 0,
    ensures
        r.0 as int == keep_len(n, k),
        r.1 as int == drop_start(k),
{
    let keep: i64 = if k >= 0 {
        if k >= n { 0 } else { n - k }
    } else {
        if k <= -n { 0 } else { n + k }
    };
    let start: i64 = if k > 0 { k } else { 0 };
    (keep, start)
}

/// Append `c[ax..]↓` of the block of `cells` that starts at `base` and has
/// the dimensions `d[ax..]`.
fn drop_block(cells: &[Cell], base: usize, d: &[i64], c: &[i64], ax: usize, out: &mut Vec<Cell>)
    requires
        d@.len() == c@.len(),
        ax <= d@.len(),
        nonneg(d@),
        absprod(d@) <= i64::MAX,
        base + prod(d@.skip(ax as int)) <= cells@.len(),
        cells@.len() <= i64::MAX,
    ensures
        final(out)@ == old(out)@ + drop_spec(
            cells@.subrange(base as int, base + prod(d@.skip(ax as int))),
            d@.skip(ax as int), c@.skip(ax as int)),
        final(out)@.len() == old(out)@.len() + prod(drop_dims(d@, c@).skip(ax as int)),
    decreases d@.len() - ax,
{
    let ghost start = out@;
    let ghost dd = d@.skip(ax as int);
    let ghost cc = c@.skip(ax as int);
    let ghost kd = drop_dims(d@, c@);
    let ghost sub = cells@.subrange(base as int, base + prod(dd));
    proof { crate::shape::lemma_prod_nonneg(dd); }
    if ax == d.len() {
        proof {
            assert(dd =~= Seq::<i64>::empty());
            assert(cc =~= Seq::<i64>::empty());
            assert(kd.skip(ax as int) =~= Seq::<i64>::empty());
            assert(sub =~= seq![cells@[base as int]]);
        }
        out.push(cells[base].clone());
        return;
    }
    let cl = cells.len();
    let dl = d.len();
    let n = d[ax];
    let k = c[ax];
    let inner = suffix_prod(d, ax + 1);
    let (keep, first) = keep_and_start(n, k);
    let ghost rowlen = prod(kd.skip(ax as int + 1));
    proof {
        lemma_prod_first(dd);
        lemma_prod_first(kd.skip(ax as int));
        assert(dd.drop_first() =~= d@.skip(ax as int + 1));
        assert(cc.drop_first() =~= c@.skip(ax as int + 1));
        assert(kd.skip(ax as int).drop_first() =~= kd.skip(ax as int + 1));
        assert(forall|j: int| 0 <= j < kd.len() ==> (#[trigger] kd[j]) >= 0);
        crate::shape::lemma_prod_nonneg(kd.skip(ax as int + 1));
    }
    let mut i: i64 = 0;
    while i < keep
        invariant
            0 <= i <= keep,
            keep as int == keep_len(n, k),
            first as int == drop_start(k),
            d@.len() == c@.len(),
            ax < d@.len(),
            nonneg(d@),
            absprod(d@) <= i64::MAX,
            n == d@[ax as int],
            k == c@[ax as int],
            kd == drop_dims(d@, c@),
            dd == d@.skip(ax as int),
            cc == c@.skip(ax as int),
            dd[0] == n,
            cc[0] == k,
            dd.drop_first() == d@.skip(ax as int + 1),
            cc.drop_first() == c@.skip(ax as int + 1),
            inner as int == prod(d@.skip(ax as int + 1)),
            rowlen == prod(kd.skip(ax as int + 1)),
            rowlen >= 0,
            prod(dd) == n * inner,
            0 <= inner,
            base + prod(dd) <= cells@.len(),
            cells@.len() <= i64::MAX,
            cl == cells@.len(),
            dl == d@.len(),
            sub == cells@.subrange(base as int, base + prod(dd)),
            out@ == start + drop_rows(sub, dd, cc, i as nat),
            out@.len() == start.len() + i * rowlen,
        decreases keep - i,
    {
        let off: i64 = i + first;
        let ghost before = out@;
        proof {
            if inner > 0 {
                assert(off * inner + inner <= n * inner) by (nonlinear_arith)
                    requires off + 1 <= n, inner > 0;
            } else {
                assert(off * inner == 0) by (nonlinear_arith) requires inner == 0;
            }
            assert(0 <= off * inner) by (nonlinear_arith) requires off >= 0, inner >= 0;
            assert(sub.subrange(off * inner, off * inner + inner)
                =~= cells@.subrange(base + off * inner, base + off * inner + inner));
        }
        assert(off * inner + inner <= prod(dd));
        assert(base + off * inner + inner <= cells@.len());
        let b2 = base + (off * inner) as usize;
        drop_block(cells, b2, d, c, ax + 1, out);
        proof {
            assert(out@ =~= before + drop_row(sub, dd, cc, i as int));
            assert((i + 1) * rowlen == i * rowlen + rowlen) by (nonlinear_arith);
        }
        i += 1;
    }
}

/// `c↓B` for counts `c`, one per axis of `d`, the dimensions of B.
fn drop_counts(b: &ValueP, d: &[i64], c: &[i64]) -> (r: AplResult<ValueP>)
    requires
        d@ == eff_dims(*b),
        c@.len() == d@.len(),
    ensures
        r matches Ok(v) && v.dims() == drop_dims(d@, c@)
            && v.ravel() == drop_spec(b.ravel(), d@, c@),
{
    b.lemma_wf();
    proof {
        if b.dims().len() == 0 {
            lemma_prod_single(1);
        }
        assert(d@.skip(0) =~= d@);
        assert(c@.skip(0) =~= c@);
        assert(drop_dims(d@, c@).skip(0) =~= drop_dims(d@, c@));
        assert(b.ravel().subrange(0, prod(d@)) =~= b.ravel());
    }
    let cells = b.cells();
    let mut out: Vec<Cell> = Vec::new();
    drop_block(cells, 0, d, c, 0, &mut out);
    assert(out@ =~= drop_spec(b.ravel(), d@, c@));
    let mut kd: Vec<i64> = Vec::new();
    let mut j: usize = 0;
    while j < d.len()
        invariant
            j <= d@.len(),
            c@.len() == d@.len(),
            nonneg(d@),
            kd@ == drop_dims(d@, c@).take(j as int),
        decreases d@.len() - j,
    {
        let (keep, first) = keep_and_start(d[j], c[j]);
        kd.push(keep);
        proof { assert(kd@ =~= drop_dims(d@, c@).take(j as int + 1)); }
        j += 1;
    }
    proof {
        assert(kd@ =~= drop_dims(d@, c@));
        lemma_absprod_mono(kd@, d@);
    }
    let shape = Shape::from_dims(kd.as_slice());
    match shape {
        Ok(s) => {
            proof { use_type_invariant(s); }
            let v = ValueP::from_parts(s, out);
            match v {
                Ok(v) => Ok(v),
                Err(e) => Err(e),
            }
        },
        Err(e) => Err(e),
    }
}

/// Dimensions no longer than others, axis by axis, weigh no more.
proof fn lemma_absprod_mono(a: Seq<i64>, b: Seq<i64>)
    requires
        a.len() == b.len(),
        forall|k: int| 0 <= k < a.len() ==> 0 <= #[trigger] a[k] <= b[k],
    ensures
        absprod(a) <= absprod(b),
    decreases a.len(),
{
    if a.len() > 0 {
        lemma_absprod_mono(a.drop_last(), b.drop_last());
        crate::shape::lemma_absprod_pos(a.drop_last());
        let x = absprod(a.drop_last());
        let y = absprod(b.drop_last());
        let wa = weight(a.last());
        let wb = weight(b.last());
        assert(x * wa <= y * wb) by (nonlinear_arith)
            requires 1 <= x <= y, 1 <= wa <= wb;
    }
}

/// `X↓B`: one count per axis of B (a scalar B has one axis). A positive
/// count removes items from the front of its axis, a negative one from the
/// end; dropping at least the whole axis leaves it empty.
pub fn drop(x: &ValueP, b: &ValueP) -> (r: AplResult<ValueP>)
    ensures
        axis_counts_spec(*x, *b) matches Err(e) ==> r == Err::<ValueP, ErrorCode>(e),
        axis_counts_spec(*x, *b) matches Ok(c) ==> (r matches Ok(v)
            && v.dims() == drop_dims(eff_dims(*b), c)
            && v.ravel() == drop_spec(b.ravel(), eff_dims(*b), c)),
{
    let counts = axis_counts(x, b)?;
    let d = shape_dims(b);
    drop_counts(b, d.as_slice(), counts.as_slice())
}

/// `X↓[a]B`: drop `X` items along axis `a` (counting from 0), keeping all
/// of every other axis. An axis outside B is a RANK ERROR.
pub fn drop_axis(x: &ValueP, b: &ValueP, axis: i64) -> (r: AplResult<ValueP>)
    ensures
        single_int_spec(*x) matches Err(e) ==> r == Err::<ValueP, ErrorCode>(e),
        single_int_spec(*x) is Ok && !(0 <= axis < b.spec_rank())
            ==> r == Err::<ValueP, ErrorCode>(ErrorCode::RankError),
        single_int_spec(*x) matches Ok(k) ==> (0 <= axis < b.spec_rank() ==> (r matches Ok(v)
            && v.dims() == b.dims().update(axis as int, keep_len(b.dims()[axis as int], k) as i64)
            && v.ravel() == drop_spec(b.ravel(), b.dims(),
                Seq::new(b.dims().len(), |j: int| if j == axis { k } else { 0i64 })))),
{
    b.lemma_wf();
    let count = single_int(x)?;
    let rank = b.rank();
    if axis < 0 || axis >= rank as i64 {
        return Err(ErrorCode::RankError);
    }
    let d = shape_dims(b);
    let mut c: Vec<i64> = Vec::new();
    let mut j: u32 = 0;
    while j < rank
        invariant
            j <= rank,
            rank as int == b.dims().len(),
            0 <= axis < rank,
            c@ == Seq::new(b.dims().len(), |i: int| if i == axis { count } else { 0i64 }).take(j as int),
        decreases rank - j,
    {
        if j as i64 == axis { c.push(count); } else { c.push(0); }
        proof {
            assert(c@ =~= Seq::new(b.dims().len(), |i: int| if i == axis { count } else { 0i64 }).take(j as int + 1));
        }
        j += 1;
    }
    proof {
        let cs = Seq::new(b.dims().len(), |i: int| if i == axis { count } else { 0i64 });
        assert(c@ =~= cs);
        assert(drop_dims(d@, c@) =~= b.dims().update(axis as int, keep_len(b.dims()[axis as int], count) as i64));
    }
    drop_counts(b, d.as_slice(), c.as_slice())
}


/// The first `i` items taken from a vector of `len` items by a count `k`
/// with `i <= k <= len` are its first `i` items.
proof fn lemma_take_rows_vector(cells: Seq<Cell>, k: i64, p: Cell, i: nat)
    requires
        0 <= i <= k <= cells.len() <= i64::MAX,
    ensures
        take_rows(cells, seq![cells.len() as i64], seq![k], p, i) == cells.take(i as int),
    decreases i,
{
    let d = seq![cells.len() as i64];
    let c = seq![k];
    if i > 0 {
        lemma_take_rows_vector(cells, k, p, (i - 1) as nat);
        let j = i - 1;
        assert(d.drop_first() =~= Seq::<i64>::empty());
        assert(c.drop_first() =~= Seq::<i64>::empty());
        assert(prod(d.drop_first()) == 1);
        assert(take_row(cells, d, c, p, j) == cells.subrange(j, j + 1));
        assert(cells.take(i as int) =~= cells.take(j) + cells.subrange(j, j + 1));
    }
}

/// The first `i` items kept of a vector of `len` items by a drop of `k`
/// with `0 <= k` and `k + i <= len` are its items from `k` on.
proof fn lemma_drop_rows_vector(cells: Seq<Cell>, k: i64, i: nat)
    requires
        0 <= k,
        k + i <= cells.len() <= i64::MAX,
    ensures
        drop_rows(cells, seq![cells.len() as i64], seq![k], i) == cells.subrange(k as int, k + i),
    decreases i,
{
    let d = seq![cells.len() as i64];
    let c = seq![k];
    if i > 0 {
        lemma_drop_rows_vector(cells, k, (i - 1) as nat);
        let j = i - 1;
        assert(d.drop_first() =~= Seq::<i64>::empty());
        assert(c.drop_first() =~= Seq::<i64>::empty());
        assert(prod(d.drop_first()) == 1);
        assert(drop_row(cells, d, c, j) == cells.subrange(k + j, k + j + 1));
        assert(cells.subrange(k as int, k + i) =~= cells.subrange(k as int, k + j) + cells.subrange(k + j, k + j + 1));
    }
}

/// `(K↑V),K↓V` is V: for a vector of `len` items and a count `K` from 0 to
/// `len`, the items that take keeps followed by those that drop keeps are
/// the vector again.
pub proof fn law_take_drop_split(cells: Seq<Cell>, k: i64, p: Cell)
    requires
        0 <= k <= cells.len() <= i64::MAX,
    ensures
        take_spec(cells, seq![cells.len() as i64], seq![k], p)
            + drop_spec(cells, seq![cells.len() as i64], seq![k]) == cells,
{
    lemma_take_rows_vector(cells, k, p, k as nat);
    lemma_drop_rows_vector(cells, k, (cells.len() - k) as nat);
    assert(cells.take(k as int) + cells.subrange(k as int, cells.len() as int) =~= cells);
}

} // verus!
