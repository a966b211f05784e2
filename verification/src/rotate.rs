//! Rotate `A⌽B` and reverse `⌽B` along the last axis, and rotate along a
//! given axis `A⌽[a]B`.

use vstd::prelude::*;
use crate::cell::Cell;
use crate::layout::{gather, gathered, lemma_rowmajor, lemma_rowmajor3};
use crate::shape::{absprod, lemma_absprod_take, lemma_prod_around, lemma_prod_bounded, lemma_prod_nonneg, nonneg, prod};
use crate::types::{AplResult, ErrorCode};
use crate::value::ValueP;

verus! {

/// The length of the last axis (1 for a scalar).
pub open spec fn last_axis_len(d: Seq<i64>) -> int {
    if d.len() == 0 { 1 } else { d.last() as int }
}

/// The number of rows: the product of all but the last axis (1 for a scalar).
pub open spec fn rows_of(d: Seq<i64>) -> int {
    if d.len() == 0 { 1 } else { prod(d.drop_last()) }
}

/// The source position of result position `i` when rows of length `n`
/// are reversed.
pub open spec fn reverse_index(i: int, n: int) -> int {
    (i / n) * n + (n - 1 - i % n)
}

/// The ravel of `⌽B`.
pub open spec fn spec_reverse(b: ValueP) -> Seq<Cell> {
    Seq::new(b.ravel().len(), |i: int| b.ravel()[reverse_index(i, last_axis_len(b.dims()))])
}

/// The source position of result position `i` when rows of length `n`
/// are rotated left by `shift`.
pub open spec fn rotate_index(i: int, n: int, shift: int) -> int {
    (i / n) * n + (shift + i % n) % n
}

/// Rotating back undoes a rotation: rotating the rows of `c` (rows of
/// `n` cells) by the amounts `sh` and then by their negatives gives `c`.
pub proof fn law_rotate_back(c: Seq<Cell>, n: int, sh: Seq<int>)
    requires
        n > 0,
        c.len() == sh.len() * n,
    ensures
        ({
            let r1 = Seq::new(c.len(), |i: int| c[rotate_index(i, n, sh[i / n])]);
            Seq::new(r1.len(), |i: int| r1[rotate_index(i, n, -sh[i / n])]) == c
        }),
{
    let r1 = Seq::new(c.len(), |i: int| c[rotate_index(i, n, sh[i / n])]);
    let r2 = Seq::new(r1.len(), |i: int| r1[rotate_index(i, n, -sh[i / n])]);
    assert forall|i: int| 0 <= i < c.len() implies r2[i] == c[i] by {
        let q = i / n;
        let m = i % n;
        let s = sh[q];
        vstd::arithmetic::div_mod::lemma_fundamental_div_mod(i, n);
        let j = rotate_index(i, n, -s);
        let jm = (-s + m) % n;
        vstd::arithmetic::div_mod::lemma_mod_bound(-s + m, n);
        assert(0 <= q < sh.len()) by {
            vstd::arithmetic::div_mod::lemma_div_pos_is_pos(i, n);
            vstd::arithmetic::div_mod::lemma_div_is_ordered(i, c.len() as int - 1, n);
            vstd::arithmetic::mul::lemma_mul_is_commutative(sh.len() as int, n);
            vstd::arithmetic::div_mod::lemma_div_by_multiple(sh.len() as int, n);
            vstd::arithmetic::div_mod::lemma_div_is_ordered(c.len() as int - 1, c.len() as int, n);
            assert(i / n < sh.len()) by (nonlinear_arith)
                requires i < sh.len() * n, n > 0, i == n * (i / n) + i % n, 0 <= i % n;
        }
        assert(j == q * n + jm);
        assert(0 <= j < c.len()) by (nonlinear_arith)
            requires j == q * n + jm, 0 <= jm < n, 0 <= q < sh.len(), c.len() == sh.len() * n;
        vstd::arithmetic::div_mod::lemma_fundamental_div_mod_converse(j, n, q, jm);
        assert(j / n == q && j % n == jm);
        vstd::arithmetic::div_mod::lemma_add_mod_noop(s, -s + m, n);
        vstd::arithmetic::div_mod::lemma_mod_twice(s, n);
        vstd::arithmetic::div_mod::lemma_small_mod(m as nat, n as nat);
        vstd::arithmetic::div_mod::lemma_add_mod_noop(s, jm, n);
        vstd::arithmetic::div_mod::lemma_mod_twice(jm, n);
        assert((s + jm) % n == (s % n + jm % n) % n);
        assert((s + (-s + m)) % n == (s % n + (-s + m) % n) % n);
        assert(s + (-s + m) == m);
        assert(m % n == m);
        assert((s % n + jm) % n == m);
        vstd::arithmetic::div_mod::lemma_small_mod(jm as nat, n as nat);
        assert(jm % n == jm);
        assert((s + jm) % n == m);
        assert(rotate_index(j, n, s) == i);
        assert(r2[i] == r1[j]);
    }
    assert(r2 =~= c);
}

/// The rotation amount of every row of `A⌽B`, or the error.
pub open spec fn rotate_shifts(a: ValueP, b: ValueP) -> Result<Seq<int>, ErrorCode> {
    let outer = rows_of(b.dims());
    if a.ravel().len() == 1 {
        match a.ravel()[0] {
            Cell::Int(s) => Ok(Seq::new(outer as nat, |r: int| s as int)),
            _ => Err(ErrorCode::DomainError),
        }
    } else if a.dims().len() != (if b.dims().len() == 0 { 0 } else { b.dims().len() - 1 })
        || a.ravel().len() != outer {
        Err(ErrorCode::RankError)
    } else if !crate::value::all_ints(a.ravel()) {
        Err(ErrorCode::DomainError)
    } else {
        Ok(Seq::new(outer as nat, |r: int| a.ravel()[r]->Int_0 as int))
    }
}

/// The ravel of `A⌽B` for the given per-row rotation amounts.
pub open spec fn spec_rotate(b: ValueP, shifts: Seq<int>) -> Seq<Cell> {
    let n = last_axis_len(b.dims());
    Seq::new(b.ravel().len(), |i: int| b.ravel()[rotate_index(i, n, shifts[i / n])])
}

/// `shift` modulo `n`, as a position within a row.
pub fn norm_shift(shift: i64, n: usize) -> (r: usize)
    requires
        n > 0,
    ensures
        r as int == (shift as int) % (n as int),
        r < n,
{
    if shift >= 0 {
        let r = ((shift as u64) % (n as u64)) as usize;
        proof {
            vstd::arithmetic::div_mod::lemma_mod_bound(shift as int, n as int);
        }
        r
    } else {
        let m: u64 = (-(shift + 1)) as u64;
        let t = (m % (n as u64)) as usize;
        let r = n - 1 - t;
        proof {
            let q = (m as int) / (n as int);
            vstd::arithmetic::div_mod::lemma_fundamental_div_mod(m as int, n as int);
            vstd::arithmetic::div_mod::lemma_mod_bound(m as int, n as int);
            assert(shift as int == (-q - 1) * (n as int) + r) by (nonlinear_arith)
                requires m as int == (n as int) * q + t, m as int == -(shift as int + 1), r == n - 1 - t;
            vstd::arithmetic::div_mod::lemma_fundamental_div_mod_converse(shift as int, n as int, -q - 1, r as int);
        }
        r
    }
}

/// The position `(sm + k) mod n` for positions within a row.
pub fn wrap_add(sm: usize, k: usize, n: usize) -> (r: usize)
    requires
        sm < n,
        k < n,
    ensures
        r as int == (sm + k) % (n as int),
        r < n,
{
    if sm >= n - k {
        let r = sm - (n - k);
        proof { vstd::arithmetic::div_mod::lemma_fundamental_div_mod_converse(sm + k, n as int, 1, r as int); }
        r
    } else {
        let r = sm + k;
        proof { vstd::arithmetic::div_mod::lemma_fundamental_div_mod_converse(sm + k, n as int, 0, r as int); }
        r
    }
}

/// The last-axis length and the number of rows of a non-empty `b`.
fn rows_and_len(b: &ValueP) -> (r: (usize, usize))
    requires
        b.ravel().len() > 0,
    ensures
        r.0 as int == rows_of(b.dims()),
        r.1 as int == last_axis_len(b.dims()),
        r.0 * r.1 == b.ravel().len(),
        r.0 > 0,
        r.1 > 0,
{
    b.lemma_wf();
    let c = b.cells();
    let clen = c.len();
    let rank = b.rank();
    let outer = b.shape().get_rows();
    let n = b.shape().get_cols();
    proof {
        if rank > 0 {
            let d = b.dims();
            assert(nonneg(d.drop_last()));
            lemma_prod_nonneg(d.drop_last());
            assert(prod(d) == prod(d.drop_last()) * d.last());
            let p = prod(d.drop_last());
            let l = d.last() as int;
            assert(l >= 0);
            assert(p > 0 && l > 0 && p <= p * l && l <= p * l) by (nonlinear_arith)
                requires p >= 0, l >= 0, p * l > 0;
        }
    }
    (outer as usize, n as usize)
}

/// `⌽B` — reverse along the last axis (scalars unchanged).
pub fn reverse(b: &ValueP) -> (r: AplResult<ValueP>)
    ensures
        r matches Ok(z) && z.dims() == b.dims() && z.ravel() == spec_reverse(*b),
{
    b.lemma_wf();
    let cells = b.cells();
    if cells.len() == 0 {
        let out: Vec<Cell> = Vec::new();
        assert(out@ =~= spec_reverse(*b));
        return Ok(ValueP::from_ravel_like(b, out));
    }
    let (outer, n) = rows_and_len(b);
    let total = cells.len();
    let mut idx: Vec<usize> = Vec::new();
    let mut row: usize = 0;
    while row < outer
        invariant
            row <= outer,
            n > 0,
            cells@.len() <= usize::MAX,
            outer * n == cells@.len(),
            n as int == last_axis_len(b.dims()),
            idx@.len() == row * n,
            forall|j: int| 0 <= j < idx@.len() ==> idx@[j] as int == reverse_index(j, n as int),
            forall|j: int| 0 <= j < idx@.len() ==> idx@[j] < cells@.len(),
        decreases outer - row,
    {
        let mut k: usize = 0;
        while k < n
            invariant
                row < outer,
                k <= n,
                cells@.len() <= usize::MAX,
                outer * n == cells@.len(),
                idx@.len() == row * n + k,
                forall|j: int| 0 <= j < idx@.len() ==> idx@[j] as int == reverse_index(j, n as int),
                forall|j: int| 0 <= j < idx@.len() ==> idx@[j] < cells@.len(),
            decreases n - k,
        {
            proof {
                lemma_rowmajor(row as int, k as int, n as int, outer as int);
                lemma_rowmajor(row as int, n - 1 - k, n as int, outer as int);
            }
            idx.push(row * n + (n - 1 - k));
            k += 1;
        }
        proof { assert((row + 1) * n == row * n + n) by (nonlinear_arith); }
        row += 1;
    }
    let out = gather(cells, idx.as_slice());
    assert(out@ =~= spec_reverse(*b));
    Ok(ValueP::from_ravel_like(b, out))
}

/// `A⌽B` — rotate along the last axis: a single-element A rotates every
/// row by the same amount, an A with one element per row (the shape of B
/// without its last axis) gives per-row amounts. Positive amounts rotate
/// left.
pub fn rotate(a: &ValueP, b: &ValueP) -> (r: AplResult<ValueP>)
    ensures
        rotate_shifts(*a, *b) matches Err(e) ==> r == Err::<ValueP, ErrorCode>(e),
        rotate_shifts(*a, *b) matches Ok(sh) ==> (r matches Ok(z) && z.dims() == b.dims()
            && z.ravel() == spec_rotate(*b, sh)),
{
    a.lemma_wf();
    b.lemma_wf();
    let rank = b.rank();
    let ac = a.cells();
    let rows = b.shape().get_rows();
    // the rotation amount of every row: one for all, or one per row
    let global: Option<i64>;
    let mut per_row: Vec<i64> = Vec::new();
    if ac.len() == 1 {
        match ac[0].get_int_value() {
            Ok(g) => { global = Some(g); }
            Err(e) => { return Err(e); }
        }
    } else {
        let want_rank = if rank == 0 { 0 } else { rank - 1 };
        if a.rank() != want_rank || ac.len() as i128 != rows as i128 {
            return Err(ErrorCode::RankError);
        }
        per_row = match crate::value::int_values(ac) {
            Ok(v) => v,
            Err(e) => { return Err(e); }
        };
        global = None;
    }
    let ghost sh = rotate_shifts(*a, *b)->Ok_0;
    assert(rotate_shifts(*a, *b) is Ok);
    let cells = b.cells();
    if cells.len() == 0 {
        let out: Vec<Cell> = Vec::new();
        assert(out@ =~= spec_rotate(*b, sh));
        return Ok(ValueP::from_ravel_like(b, out));
    }
    let (outer, n) = rows_and_len(b);
    let total = cells.len();
    assert(sh.len() == outer);
    assert(global is None ==> per_row@.len() == outer);
    assert(forall|j: int| 0 <= j < outer ==> sh[j] == (match global { Some(g) => g as int, None => per_row@[j] as int }));
    let mut idx: Vec<usize> = Vec::new();
    let mut row: usize = 0;
    while row < outer
        invariant
            row <= outer,
            n > 0,
            cells@.len() <= usize::MAX,
            outer * n == cells@.len(),
            n as int == last_axis_len(b.dims()),
            global is None ==> per_row@.len() == outer,
            sh.len() == outer,
            forall|j: int| 0 <= j < outer ==> sh[j] == (match global { Some(g) => g as int, None => per_row@[j] as int }),
            idx@.len() == row * n,
            forall|j: int| 0 <= j < idx@.len() ==> idx@[j] as int == rotate_index(j, n as int, sh[j / (n as int)]),
            forall|j: int| 0 <= j < idx@.len() ==> idx@[j] < cells@.len(),
        decreases outer - row,
    {
        let shift = match global { Some(g) => g, None => per_row[row] };
        let sm = norm_shift(shift, n);
        let mut k: usize = 0;
        while k < n
            invariant
                row < outer,
                k <= n,
                sm < n,
                sm as int == sh[row as int] % (n as int),
                cells@.len() <= usize::MAX,
                outer * n == cells@.len(),
                idx@.len() == row * n + k,
                forall|j: int| 0 <= j < idx@.len() ==> idx@[j] as int == rotate_index(j, n as int, sh[j / (n as int)]),
                forall|j: int| 0 <= j < idx@.len() ==> idx@[j] < cells@.len(),
            decreases n - k,
        {
            proof { lemma_rowmajor(row as int, k as int, n as int, outer as int); }
            let src = wrap_add(sm, k, n);
            proof {
                vstd::arithmetic::div_mod::lemma_add_mod_noop(sh[row as int], k as int, n as int);
                vstd::arithmetic::div_mod::lemma_small_mod(k as nat, n as nat);
                lemma_rowmajor(row as int, src as int, n as int, outer as int);
            }
            idx.push(row * n + src);
            k += 1;
        }
        proof { assert((row + 1) * n == row * n + n) by (nonlinear_arith); }
        row += 1;
    }
    let out = gather(cells, idx.as_slice());
    assert(out@ =~= spec_rotate(*b, sh));
    Ok(ValueP::from_ravel_like(b, out))
}

/// The lengths around axis `axis`: the product of the axes before it, its
/// length, and the product of the axes after it.
pub open spec fn around(d: Seq<i64>, axis: int) -> (int, int, int) {
    (prod(d.take(axis)), d[axis] as int, prod(d.skip(axis + 1)))
}

/// The line (within the lines along `axis`) that result position `i` is on.
pub open spec fn line_of(i: int, n: int, post: int) -> int {
    (i / post / n) * post + i % post
}

/// The source position of result position `i` of `A⌽[a]B` when its line
/// is rotated left by `shift`, as `A⌽B` rotates its rows.
pub open spec fn rotate_axis_index(i: int, n: int, post: int, shift: int) -> int {
    ((i / post / n) * n + (shift + (i / post) % n) % n) * post + i % post
}

/// The per-line amounts of `A⌽[a]B`: the single element of A for every
/// line, or the elements of A taken cyclically; DOMAIN ERROR for a
/// non-integer.
pub open spec fn rotate_axis_amounts(a: ValueP) -> Result<Seq<int>, ErrorCode> {
    if a.ravel().len() == 1 {
        match a.ravel()[0] {
            Cell::Int(s) => Ok(seq![s as int]),
            _ => Err(ErrorCode::DomainError),
        }
    } else if !crate::value::all_ints(a.ravel()) {
        Err(ErrorCode::DomainError)
    } else {
        Ok(Seq::new(a.ravel().len(), |r: int| a.ravel()[r]->Int_0 as int))
    }
}

/// The ravel of `A⌽[a]B` for the given cyclic amounts.
pub open spec fn spec_rotate_axis(b: ValueP, axis: int, amounts: Seq<int>) -> Seq<Cell> {
    let (pre, n, post) = around(b.dims(), axis);
    Seq::new(b.ravel().len(), |i: int| b.ravel()[rotate_axis_index(i, n, post,
        amounts[line_of(i, n, post) % (amounts.len() as int)])])
}

/// `A⌽[a]B` — rotate along axis `a` (0-based). A single-element A rotates
/// every line by that amount; otherwise the elements of A are used line
/// after line, cyclically. As with `A⌽B`, a positive amount moves elements
/// towards lower indices along the axis: `1⌽[0]1 2 3` is `2 3 1`.
pub fn rotate_axis(a: &ValueP, b: &ValueP, axis: i64) -> (r: AplResult<ValueP>)
    requires
        0 <= axis < b.dims().len() ==> a.ravel().len() > 0,
        0 <= axis < b.dims().len() ==> (b.ravel().len() > 0 || b.dims()[axis as int] == 0),
    ensures
        !(0 <= axis < b.dims().len()) ==> r == Err::<ValueP, ErrorCode>(ErrorCode::RankError),
        0 <= axis < b.dims().len() ==> (rotate_axis_amounts(*a) matches Err(e)
            ==> r == Err::<ValueP, ErrorCode>(e)),
        0 <= axis < b.dims().len() ==> (rotate_axis_amounts(*a) matches Ok(am)
            ==> (r matches Ok(z) && z.dims() == b.dims() && z.ravel() == spec_rotate_axis(*b, axis as int, am))),
{
    a.lemma_wf();
    b.lemma_wf();
    let rank = b.rank();
    if axis < 0 || axis >= rank as i64 {
        return Err(ErrorCode::RankError);
    }
    let ghost d = b.dims();
    let ax = axis as usize;
    proof {
        lemma_prod_around(d, axis as int);
        assert(nonneg(d.take(axis as int)));
        assert(nonneg(d.skip(axis as int + 1)));
        lemma_prod_nonneg(d.take(axis as int));
        lemma_prod_nonneg(d.skip(axis as int + 1));
        lemma_prod_bounded(d.take(axis as int));
        lemma_prod_bounded(d.skip(axis as int + 1));
    }
    let n = b.get_shape_item(axis as i16);
    let pre = prod_range(b, 0, ax);
    let post = prod_range(b, ax + 1, rank as usize);
    assert(d.subrange(0, axis as int) =~= d.take(axis as int));
    assert(d.subrange(axis as int + 1, rank as int) =~= d.skip(axis as int + 1));
    // the amount for each line
    let ac = a.cells();
    let mut amounts: Vec<i64> = Vec::new();
    if ac.len() == 1 {
        match ac[0].get_int_value() {
            Ok(g) => { amounts.push(g); }
            Err(e) => { return Err(e); }
        }
    } else {
        amounts = match crate::value::int_values(ac) {
            Ok(v) => v,
            Err(e) => { return Err(e); }
        };
    }
    let ghost am = rotate_axis_amounts(*a)->Ok_0;
    assert(rotate_axis_amounts(*a) is Ok);
    assert(am.len() == amounts@.len() && am.len() > 0);
    assert(forall|j: int| 0 <= j < am.len() ==> am[j] == amounts@[j] as int);
    let cells = b.cells();
    let total = cells.len();
    proof {
        assert(total == pre * n * post);
    }
    let mut idx: Vec<usize> = Vec::new();
    if total > 0 {
        let pre_u = pre as usize;
        let n_u = n as usize;
        let post_u = post as usize;
        proof {
            assert(pre > 0 && n > 0 && post > 0) by (nonlinear_arith)
                requires pre >= 0, n >= 0, post >= 0, pre * n * post > 0;
            assert(pre <= pre * n * post && n <= pre * n * post && post <= pre * n * post
                && pre * post <= pre * n * post) by (nonlinear_arith)
                requires pre >= 1, n >= 1, post >= 1;
        }
        let mut p: usize = 0;
        while p < pre_u
            invariant
                p <= pre_u,
                pre_u == pre, n_u == n, post_u == post,
                n_u > 0, post_u > 0,
                total == pre_u * n_u * post_u,
                total == cells@.len(),
                amounts@.len() == am.len(), am.len() > 0,
                forall|j: int| 0 <= j < am.len() ==> am[j] == amounts@[j] as int,
                idx@.len() == p * n_u * post_u,
                forall|j: int| 0 <= j < idx@.len() ==> idx@[j] as int == rotate_axis_index(j, n_u as int, post_u as int,
                    am[line_of(j, n_u as int, post_u as int) % (am.len() as int)]),
                forall|j: int| 0 <= j < idx@.len() ==> idx@[j] < cells@.len(),
            decreases pre_u - p,
        {
            let mut k: usize = 0;
            while k < n_u
                invariant
                    p < pre_u, k <= n_u,
                    pre_u == pre, n_u == n, post_u == post,
                    n_u > 0, post_u > 0,
                    total == pre_u * n_u * post_u,
                    total == cells@.len(),
                    amounts@.len() == am.len(), am.len() > 0,
                    forall|j: int| 0 <= j < am.len() ==> am[j] == amounts@[j] as int,
                    idx@.len() == (p * n_u + k) * post_u,
                    forall|j: int| 0 <= j < idx@.len() ==> idx@[j] as int == rotate_axis_index(j, n_u as int, post_u as int,
                        am[line_of(j, n_u as int, post_u as int) % (am.len() as int)]),
                    forall|j: int| 0 <= j < idx@.len() ==> idx@[j] < cells@.len(),
                decreases n_u - k,
            {
                let mut s: usize = 0;
                while s < post_u
                    invariant
                        p < pre_u, k < n_u, s <= post_u,
                        pre_u == pre, n_u == n, post_u == post,
                        n_u > 0, post_u > 0,
                        total == pre_u * n_u * post_u,
                        total == cells@.len(),
                        amounts@.len() == am.len(), am.len() > 0,
                        forall|j: int| 0 <= j < am.len() ==> am[j] == amounts@[j] as int,
                        idx@.len() == (p * n_u + k) * post_u + s,
                        forall|j: int| 0 <= j < idx@.len() ==> idx@[j] as int == rotate_axis_index(j, n_u as int, post_u as int,
                            am[line_of(j, n_u as int, post_u as int) % (am.len() as int)]),
                        forall|j: int| 0 <= j < idx@.len() ==> idx@[j] < cells@.len(),
                    decreases post_u - s,
                {
                    proof {
                        lemma_rowmajor3(p as int, k as int, s as int, pre_u as int, n_u as int, post_u as int);
                        lemma_rowmajor(p as int, s as int, post_u as int, pre_u as int);
                        assert(pre_u * post_u <= pre_u * n_u * post_u) by (nonlinear_arith)
                            requires pre_u >= 1, n_u >= 1, post_u >= 1;
                    }
                    let line = p * post_u + s;
                    let li = line % amounts.len();
                    let shift = amounts[li];
                    // (k + shift) mod n
                    let sm = norm_shift(shift, n_u);
                    let src_k = wrap_add(sm, k, n_u);
                    proof {
                        let sh = shift as int;
                        let nn = n_u as int;
                        vstd::arithmetic::div_mod::lemma_small_mod(k as nat, n_u as nat);
                        vstd::arithmetic::div_mod::lemma_add_mod_noop(sh, k as int, nn);
                        assert(src_k as int == (k as int + sh) % nn);
                        lemma_rowmajor3(p as int, src_k as int, s as int, pre_u as int, n_u as int, post_u as int);
                        vstd::arithmetic::div_mod::lemma_mod_bound(line as int, am.len() as int);
                    }
                    idx.push((p * n_u + src_k) * post_u + s);
                    s += 1;
                }
                proof { assert((p * n_u + k + 1) * post_u == (p * n_u + k) * post_u + post_u) by (nonlinear_arith); }
                k += 1;
            }
            proof { assert((p + 1) * n_u * post_u == p * n_u * post_u + n_u * post_u) by (nonlinear_arith);
                    assert((p * n_u + n_u) * post_u == p * n_u * post_u + n_u * post_u) by (nonlinear_arith); }
            p += 1;
        }
    }
    proof {
        if total == 0 { assert(idx@.len() == 0); }
        else { assert(idx@.len() == pre * n * post) by (nonlinear_arith) requires idx@.len() == (pre as int) * (n as int) * (post as int); }
    }
    let out = gather(cells, idx.as_slice());
    assert(out@ =~= spec_rotate_axis(*b, axis as int, am));
    Ok(ValueP::from_ravel_like(b, out))
}

/// The product of the dimensions `from..to` of `b`.
pub fn prod_range(b: &ValueP, from: usize, to: usize) -> (p: i64)
    requires
        from <= to <= b.dims().len(),
    ensures
        p as int == prod(b.dims().subrange(from as int, to as int)),
        p >= 0,
{
    b.lemma_wf();
    let ghost d = b.dims();
    proof {
        assert(d.subrange(from as int, to as int) =~= d.take(to as int).skip(from as int));
        lemma_absprod_take(d, to as int);
        assert(d.take(to as int) =~= d.take(from as int) + d.subrange(from as int, to as int));
        crate::shape::lemma_prod_append(d.take(from as int), d.subrange(from as int, to as int));
        crate::shape::lemma_absprod_pos(d.take(from as int));
        crate::shape::lemma_absprod_pos(d.subrange(from as int, to as int));
        let x = absprod(d.take(from as int));
        let y = absprod(d.subrange(from as int, to as int));
        assert(y <= x * y) by (nonlinear_arith) requires x >= 1, y >= 1;
    }
    let mut p: i64 = 1;
    let mut i: usize = from;
    while i < to
        invariant
            from <= i <= to <= d.len(),
            d.len() <= 8,
            d == b.dims(),
            nonneg(d),
            absprod(d.subrange(from as int, to as int)) <= i64::MAX,
            p as int == prod(d.subrange(from as int, i as int)),
            p >= 0,
        decreases to - i,
    {
        proof {
            let s = d.subrange(from as int, to as int);
            assert(d.subrange(from as int, i as int + 1) =~= d.subrange(from as int, i as int).push(d[i as int]));
            assert(d.subrange(from as int, i as int + 1) =~= s.take(i - from + 1));
            lemma_absprod_take(s, i - from + 1);
            lemma_prod_bounded(d.subrange(from as int, i as int + 1));
            crate::shape::lemma_absprod_push(d.subrange(from as int, i as int), d[i as int]);
            assert(nonneg(d.subrange(from as int, i as int + 1)));
            lemma_prod_nonneg(d.subrange(from as int, i as int + 1));
        }
        p = p * b.get_shape_item(i as i16);
        i += 1;
    }
    p
}

/// Reversing twice gives back the value: if `z1` is `⌽B` and `z2` is `⌽z1`,
/// then `z2` has the shape and the ravel of `B`.
pub proof fn law_reverse_twice(b: ValueP, z1: ValueP, z2: ValueP)
    requires
        b.ravel().len() == prod(b.dims()),
        nonneg(b.dims()),
        z1.dims() == b.dims(),
        z1.ravel() == spec_reverse(b),
        z2.dims() == z1.dims(),
        z2.ravel() == spec_reverse(z1),
    ensures
        z2.dims() == b.dims(),
        z2.ravel() == b.ravel(),
{
    let n = last_axis_len(b.dims());
    assert forall|i: int| 0 <= i < b.ravel().len() implies z2.ravel()[i] == b.ravel()[i] by {
        lemma_reverse_index(i, n, b);
    }
    assert(z2.ravel() =~= b.ravel());
}

proof fn lemma_reverse_index(i: int, n: int, b: ValueP)
    requires
        0 <= i < b.ravel().len(),
        n == last_axis_len(b.dims()),
        b.ravel().len() == prod(b.dims()),
        nonneg(b.dims()),
    ensures
        0 <= reverse_index(i, n) < b.ravel().len(),
        reverse_index(reverse_index(i, n), n) == i,
{
    let d = b.dims();
    let outer = rows_of(d);
    if d.len() > 0 {
        assert(prod(d) == prod(d.drop_last()) * d.last());
    }
    assert(outer * n == b.ravel().len());
    assert(n > 0) by (nonlinear_arith) requires outer * n > 0, n >= 0 || d.len() == 0, n == (if d.len() == 0 { 1 } else { n });
    let q = i / n;
    let m = i % n;
    vstd::arithmetic::div_mod::lemma_fundamental_div_mod(i, n);
    vstd::arithmetic::div_mod::lemma_mod_bound(i, n);
    assert(0 <= q < outer) by (nonlinear_arith) requires i == n * q + m, 0 <= m < n, 0 <= i < outer * n;
    lemma_rowmajor(q, n - 1 - m, n, outer);
    lemma_rowmajor(q, m, n, outer);
}

} // verus!
