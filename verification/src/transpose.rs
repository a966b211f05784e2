//! Transpose: monadic `⍉B` reverses the order of all axes; dyadic `A⍉B`
//! sends axis `k` of B to axis `A[k]` of the result. Repeated entries of A
//! select a diagonal: those axes of B are walked together, and the result
//! axis is as long as the shortest of them.

use vstd::prelude::*;
use crate::cell::Cell;
use crate::shape::{absprod, nonneg, prod, weight, Shape};
use crate::types::{AplResult, ErrorCode};
use crate::value::{all_ints, int_vals, ValueP};

verus! {

// ---------------------------------------------------------------------------
// Row-major positions
// ---------------------------------------------------------------------------

/// The row-major subscripts of ravel position `idx` in an array of
/// dimensions `d` (the last axis varies fastest).
pub open spec fn decode(idx: int, d: Seq<i64>) -> Seq<int>
    decreases d.len(),
{
    if d.len() == 0 {
        Seq::empty()
    } else {
        decode(idx / (d.last() as int), d.drop_last()).push(idx % (d.last() as int))
    }
}

/// The row-major ravel position of subscripts `s` in an array of dimensions `d`.
pub open spec fn encode(s: Seq<int>, d: Seq<i64>) -> int
    decreases d.len(),
{
    if d.len() == 0 || s.len() == 0 {
        0
    } else {
        encode(s.drop_last(), d.drop_last()) * d.last() + s.last()
    }
}

/// The subscripts in B of result subscripts `s`: axis `k` of B takes the
/// subscript of result axis `target[k]`.
pub open spec fn source_subs(s: Seq<int>, target: Seq<int>) -> Seq<int> {
    Seq::new(target.len(), |k: int| s[target[k]])
}

/// The ravel of the transpose of B (dimensions `d`, ravel `cells`) onto
/// result dimensions `od`, axis `k` of B going to result axis `target[k]`.
pub open spec fn transposed(cells: Seq<Cell>, d: Seq<i64>, target: Seq<int>, od: Seq<i64>) -> Seq<Cell> {
    Seq::new(prod(od) as nat, |idx: int| cells[encode(source_subs(decode(idx, od), target), d)])
}

/// The length of result axis `t`: the shortest of the first `n` axes of B
/// sent to it (`i64::MAX` when none is).
pub open spec fn axis_min(target: Seq<int>, d: Seq<i64>, t: int, n: int) -> i64
    decreases n,
{
    if n <= 0 {
        i64::MAX
    } else {
        let m = axis_min(target, d, t, n - 1);
        if target[n - 1] == t && d[n - 1] < m { d[n - 1] } else { m }
    }
}

/// Some of the first `n` axes of B is sent to result axis `t`.
pub open spec fn axis_seen(target: Seq<int>, t: int, n: int) -> bool {
    exists|b: int| 0 <= b < n && target[b] == t
}

/// The dimensions of the result of sending B's axes to `target`.
pub open spec fn target_dims(target: Seq<int>, d: Seq<i64>, out_rank: int) -> Seq<i64> {
    Seq::new(out_rank as nat, |t: int| axis_min(target, d, t, d.len() as int))
}

/// The result axes of `A⍉B` for B of rank `rank`, index origin `io`, or the
/// error: RANK ERROR for A of rank above 1, DOMAIN ERROR for an entry that
/// is not an integer, LENGTH ERROR unless A has one entry per axis of B,
/// DOMAIN ERROR for an entry outside the axes of B.
pub open spec fn transpose_targets(a: ValueP, rank: int, io: i64) -> Result<Seq<int>, ErrorCode> {
    if a.spec_rank() > 1 {
        Err(ErrorCode::RankError)
    } else if !all_ints(a.ravel()) {
        Err(ErrorCode::DomainError)
    } else if a.ravel().len() != rank {
        Err(ErrorCode::LengthError)
    } else if exists|k: int| 0 <= k < rank && !(0 <= #[trigger] int_vals(a.ravel())[k] - io < rank) {
        Err(ErrorCode::DomainError)
    } else {
        Ok(Seq::new(rank as nat, |k: int| int_vals(a.ravel())[k] - io))
    }
}

/// The number of result axes: one more than the largest target.
pub open spec fn out_rank_of(target: Seq<int>) -> int
    decreases target.len(),
{
    if target.len() == 0 {
        0
    } else {
        let r = out_rank_of(target.drop_last());
        if target.last() + 1 > r { target.last() + 1 } else { r }
    }
}

/// Every result axis below `r` receives some axis of B.
pub open spec fn no_gaps(target: Seq<int>, r: int) -> bool {
    forall|t: int| 0 <= t < r ==> #[trigger] axis_seen(target, t, target.len() as int)
}

// ---------------------------------------------------------------------------
// Lemmas
// ---------------------------------------------------------------------------

proof fn lemma_div_lt(x: int, p: int, q: int)
    requires
        0 <= x < p * q,
        q > 0,
    ensures
        0 <= x / q < p,
        0 <= x % q < q,
{
    vstd::arithmetic::div_mod::lemma_fundamental_div_mod(x, q);
    let a = x / q;
    let r = x % q;
    assert(0 <= r < q) by {
        vstd::arithmetic::div_mod::lemma_mod_bound(x, q);
    }
    assert(0 <= a < p) by (nonlinear_arith)
        requires x == q * a + r, 0 <= r < q, 0 <= x < p * q, q > 0;
}

/// There is one subscript per axis.
proof fn lemma_decode_len(idx: int, d: Seq<i64>)
    ensures
        decode(idx, d).len() == d.len(),
    decreases d.len(),
{
    if d.len() > 0 {
        lemma_decode_len(idx / (d.last() as int), d.drop_last());
    }
}

/// Positive dimensions have a positive product.
proof fn lemma_positive_prod(d: Seq<i64>)
    requires
        forall|k: int| 0 <= k < d.len() ==> d[k] > 0,
    ensures
        prod(d) >= 1,
    decreases d.len(),
{
    if d.len() > 0 {
        lemma_positive_prod(d.drop_last());
        let a = prod(d.drop_last());
        let x = d.last();
        assert(a * x >= 1) by (nonlinear_arith) requires a >= 1, x >= 1;
    }
}

/// The subscripts of a position lie within their axes.
proof fn lemma_decode_bounds(idx: int, d: Seq<i64>)
    requires
        0 <= idx < prod(d),
        forall|k: int| 0 <= k < d.len() ==> d[k] > 0,
    ensures
        decode(idx, d).len() == d.len(),
        forall|k: int| 0 <= k < d.len() ==> 0 <= #[trigger] decode(idx, d)[k] < d[k],
    decreases d.len(),
{
    if d.len() > 0 {
        let q = d.last() as int;
        lemma_div_lt(idx, prod(d.drop_last()), q);
        lemma_decode_bounds(idx / q, d.drop_last());
    }
}

/// Subscripts within their axes give a position within the array.
proof fn lemma_encode_bounds(s: Seq<int>, d: Seq<i64>)
    requires
        s.len() == d.len(),
        forall|k: int| 0 <= k < d.len() ==> 0 <= #[trigger] s[k] < d[k],
    ensures
        0 <= encode(s, d) < prod(d),
    decreases d.len(),
{
    if d.len() > 0 {
        lemma_encode_bounds(s.drop_last(), d.drop_last());
        let e = encode(s.drop_last(), d.drop_last());
        let p = prod(d.drop_last());
        let x = d.last() as int;
        let l = s.last();
        assert(0 <= e * x + l < p * x) by (nonlinear_arith)
            requires 0 <= e < p, 0 <= l < x;
    }
}

/// A result axis is no longer than any axis of B sent to it.
proof fn lemma_axis_min_le(target: Seq<int>, d: Seq<i64>, t: int, n: int, b: int)
    requires
        0 <= b < n <= target.len(),
        n <= d.len(),
        target[b] == t,
    ensures
        axis_min(target, d, t, n) <= d[b],
    decreases n,
{
    if b < n - 1 {
        lemma_axis_min_le(target, d, t, n - 1, b);
    }
}

/// A result axis that receives an axis of B is as long as one of them.
proof fn lemma_axis_min_is_one(target: Seq<int>, d: Seq<i64>, t: int, n: int)
    requires
        0 <= n <= target.len(),
        n <= d.len(),
        axis_seen(target, t, n),
    ensures
        exists|b: int| 0 <= b < n && target[b] == t && #[trigger] d[b] == axis_min(target, d, t, n),
    decreases n,
{
    if axis_seen(target, t, n - 1) {
        lemma_axis_min_is_one(target, d, t, n - 1);
        let b = choose|b: int| 0 <= b < n - 1 && target[b] == t && #[trigger] d[b] == axis_min(target, d, t, n - 1);
        if target[n - 1] == t && d[n - 1] < axis_min(target, d, t, n - 1) {
            assert(d[n - 1] == axis_min(target, d, t, n));
        } else {
            assert(d[b] == axis_min(target, d, t, n));
        }
    } else {
        assert(target[n - 1] == t);
        assert(axis_min(target, d, t, n - 1) == i64::MAX) by {
            lemma_axis_min_unseen(target, d, t, n - 1);
        }
        assert(d[n - 1] == axis_min(target, d, t, n));
    }
}

proof fn lemma_axis_min_unseen(target: Seq<int>, d: Seq<i64>, t: int, n: int)
    requires
        0 <= n <= target.len(),
        !axis_seen(target, t, n),
    ensures
        axis_min(target, d, t, n) == i64::MAX,
    decreases n,
{
    if n > 0 {
        assert(!axis_seen(target, t, n - 1)) by {
            if axis_seen(target, t, n - 1) {
                let b = choose|b: int| 0 <= b < n - 1 && target[b] == t;
                assert(0 <= b < n && target[b] == t);
            }
        }
        lemma_axis_min_unseen(target, d, t, n - 1);
        assert(target[n - 1] != t);
    }
}

/// The lengths of the result axes seen so far, 0 for the others.
pub open spec fn partial_dims(target: Seq<int>, d: Seq<i64>, r: int, n: int) -> Seq<i64> {
    Seq::new(r as nat, |t: int| if axis_seen(target, t, n) { axis_min(target, d, t, n) } else { 0i64 })
}

/// The result axes weigh no more than the axes of B sent to them.
proof fn lemma_target_weight(target: Seq<int>, d: Seq<i64>, r: int, n: int)
    requires
        0 <= n <= target.len() == d.len(),
        r >= 0,
        nonneg(d),
        forall|k: int| 0 <= k < target.len() ==> 0 <= #[trigger] target[k] < r,
    ensures
        absprod(partial_dims(target, d, r, n)) <= absprod(d.take(n)),
    decreases n,
{
    if n == 0 {
        assert(partial_dims(target, d, r, 0) =~= Seq::new(r as nat, |t: int| 0i64));
        lemma_absprod_zeros(r);
        assert(d.take(0) =~= Seq::<i64>::empty());
    } else {
        lemma_target_weight(target, d, r, n - 1);
        let g = partial_dims(target, d, r, n - 1);
        let h = partial_dims(target, d, r, n);
        let t = target[n - 1];
        let x = d[n - 1];
        assert forall|u: int| 0 <= u < r && u != t implies h[u] == g[u] by {
            assert(axis_seen(target, u, n) == axis_seen(target, u, n - 1)) by {
                if axis_seen(target, u, n) {
                    let b = choose|b: int| 0 <= b < n && target[b] == u;
                    assert(b != n - 1);
                }
            }
        }
        assert(axis_seen(target, t, n)) by { assert(0 <= n - 1 < n && target[n - 1] == t); }
        assert(h =~= g.update(t, h[t]));
        crate::shape::lemma_prod_update(g, t, h[t]);
        assert(weight(h[t]) <= weight(g[t]) * weight(x)) by {
            if axis_seen(target, t, n - 1) {
                lemma_axis_min_is_one(target, d, t, n - 1);
                let b = choose|b: int| 0 <= b < n - 1 && target[b] == t
                    && #[trigger] d[b] == axis_min(target, d, t, n - 1);
                assert(d[b] >= 0);
                assert(g[t] == axis_min(target, d, t, n - 1));
                assert(0 <= h[t] <= g[t]);
                crate::shape::lemma_absprod_pos(seq![x]);
                assert(weight(h[t]) <= weight(g[t]));
                assert(weight(g[t]) <= weight(g[t]) * weight(x)) by (nonlinear_arith)
                    requires weight(g[t]) >= 1, weight(x) >= 1;
            } else {
                lemma_axis_min_unseen(target, d, t, n - 1);
                assert(h[t] == x);
                assert(g[t] == 0);
            }
        }
        assert(d.take(n).drop_last() =~= d.take(n - 1));
        crate::shape::lemma_absprod_pos(g);
        let ag = absprod(g);
        let ah = absprod(h);
        let wg = weight(g[t]);
        let wh = weight(h[t]);
        let wx = weight(x);
        let at = absprod(d.take(n - 1));
        crate::shape::lemma_absprod_pos(seq![x]);
        assert(wx >= 1);
        assert(absprod(d.take(n)) == at * wx);
        assert(ah * wg == ag * wh);
        assert(ag * wh <= ag * (wg * wx)) by (nonlinear_arith) requires ag >= 0, wh <= wg * wx;
        assert(ag * (wg * wx) <= at * (wg * wx)) by (nonlinear_arith) requires ag <= at, wg >= 1, wx >= 1;
        assert(ah * wg <= (at * wx) * wg) by (nonlinear_arith)
            requires ah * wg <= at * (wg * wx);
        assert(ah <= at * wx) by (nonlinear_arith)
            requires ah * wg <= (at * wx) * wg, wg >= 1;
    }
}

proof fn lemma_absprod_zeros(r: int)
    requires
        r >= 0,
    ensures
        absprod(Seq::new(r as nat, |t: int| 0i64)) == 1,
    decreases r,
{
    if r > 0 {
        lemma_absprod_zeros(r - 1);
        assert(Seq::new(r as nat, |t: int| 0i64).drop_last() =~= Seq::new((r - 1) as nat, |t: int| 0i64));
    }
}

// ---------------------------------------------------------------------------
// Execution
// ---------------------------------------------------------------------------

/// The subscripts of ravel position `idx` in an array of dimensions `d`.
fn decode_exec(idx: i64, d: &[i64]) -> (r: Vec<i64>)
    requires
        0 <= idx < prod(d@),
        forall|k: int| 0 <= k < d@.len() ==> d@[k] > 0,
    ensures
        r@.len() == d@.len(),
        forall|k: int| 0 <= k < d@.len() ==> #[trigger] r@[k] as int == decode(idx as int, d@)[k],
{
    let n = d.len();
    let mut coords: Vec<i64> = Vec::new();
    let mut j: usize = 0;
    while j < n
        invariant
            j <= n,
            coords@.len() == j,
        decreases n - j,
    {
        coords.push(0);
        j += 1;
    }
    proof {
        assert(d@.take(n as int) =~= d@);
        lemma_decode_len(idx as int, d@);
        assert(decode(idx as int, d@).take(n as int) =~= decode(idx as int, d@));
    }
    let mut rem: i64 = idx;
    let mut ax: usize = n;
    while ax > 0
        invariant
            ax <= n,
            n == d@.len(),
            coords@.len() == n,
            forall|k: int| 0 <= k < d@.len() ==> d@[k] > 0,
            0 <= rem < prod(d@.take(ax as int)),
            decode(idx as int, d@).take(ax as int) == decode(rem as int, d@.take(ax as int)),
            decode(idx as int, d@).len() == n,
            forall|k: int| ax <= k < n ==> #[trigger] coords@[k] as int == decode(idx as int, d@)[k],
        decreases ax,
    {
        let q = d[ax - 1];
        let ghost tk = d@.take(ax as int);
        proof {
            assert(tk.drop_last() =~= d@.take(ax as int - 1));
            assert(tk.last() == q);
            lemma_div_lt(rem as int, prod(d@.take(ax as int - 1)), q as int);
            assert(decode(rem as int, tk) == decode(rem as int / q as int, d@.take(ax as int - 1)).push(rem as int % q as int));
            assert(decode(idx as int, d@).take(ax as int - 1) =~= decode(idx as int, d@).take(ax as int).drop_last());
            assert(decode(idx as int, d@).take(ax as int)[ax as int - 1] == decode(idx as int, d@)[ax as int - 1]);
            assert(decode(idx as int, d@)[ax as int - 1] == rem as int % q as int);
        }
        coords.set(ax - 1, rem % q);
        rem = rem / q;
        ax -= 1;
    }
    coords
}

/// The ravel of the transpose of B (dimensions `d`) onto result dimensions
/// `od`, axis `k` of B going to result axis `target[k]`.
fn transpose_cells(cells: &[Cell], d: &[i64], target: &[usize], od: &[i64]) -> (r: Vec<Cell>)
    requires
        cells@.len() == prod(d@),
        target@.len() == d@.len(),
        forall|k: int| 0 <= k < target@.len() ==> #[trigger] target@[k] < od@.len(),
        forall|k: int| 0 <= k < target@.len() ==> od@[target@[k] as int] <= #[trigger] d@[k],
        nonneg(od@),
        prod(od@) <= i64::MAX,
    ensures
        r@ == transposed(cells@, d@, Seq::new(target@.len(), |k: int| target@[k] as int), od@),
{
    let ghost tg = Seq::new(target@.len(), |k: int| target@[k] as int);
    let cl = cells.len();
    let mut all_pos = true;
    let mut j: usize = 0;
    proof { crate::shape::lemma_prod_nonneg(od@); }
    while j < od.len()
        invariant
            j <= od@.len(),
            nonneg(od@),
            all_pos ==> (forall|k: int| 0 <= k < j ==> od@[k] > 0),
            !all_pos ==> exists|k: int| 0 <= k < j && od@[k] == 0,
        decreases od@.len() - j,
    {
        if od[j] == 0 { all_pos = false; }
        j += 1;
    }
    let mut out: Vec<Cell> = Vec::new();
    if !all_pos {
        proof {
            let k = choose|k: int| 0 <= k < od@.len() && od@[k] == 0;
            lemma_prod_zero(od@, k);
            assert(out@ =~= transposed(cells@, d@, tg, od@));
        }
        return out;
    }
    let total: i64 = prod_exec(od);
    assert forall|k: int| 0 <= k < d@.len() implies d@[k] > 0 by {
        assert(od@[target@[k] as int] <= d@[k]);
    }
    let mut idx: i64 = 0;
    while idx < total
        invariant
            0 <= idx <= total,
            total as int == prod(od@),
            cells@.len() == prod(d@),
            target@.len() == d@.len(),
            tg == Seq::new(target@.len(), |k: int| target@[k] as int),
            forall|k: int| 0 <= k < target@.len() ==> #[trigger] target@[k] < od@.len(),
            forall|k: int| 0 <= k < target@.len() ==> od@[target@[k] as int] <= #[trigger] d@[k],
            forall|k: int| 0 <= k < od@.len() ==> od@[k] > 0,
            forall|k: int| 0 <= k < d@.len() ==> d@[k] > 0,
            cl == cells@.len(),
            out@ == transposed(cells@, d@, tg, od@).take(idx as int),
        decreases total - idx,
    {
        let coords = decode_exec(idx, od);
        proof { lemma_decode_bounds(idx as int, od@); }
        let mut src: usize = 0;
        let mut b: usize = 0;
        proof { assert(d@.take(0) =~= Seq::<i64>::empty()); }
        let ghost subs = source_subs(decode(idx as int, od@), tg);
        while b < target.len()
            invariant
                b <= target@.len() == d@.len(),
                coords@.len() == od@.len(),
                forall|k: int| 0 <= k < od@.len() ==> #[trigger] coords@[k] as int == decode(idx as int, od@)[k],
                forall|k: int| 0 <= k < od@.len() ==> 0 <= #[trigger] decode(idx as int, od@)[k] < od@[k],
                forall|k: int| 0 <= k < target@.len() ==> #[trigger] target@[k] < od@.len(),
                forall|k: int| 0 <= k < target@.len() ==> od@[target@[k] as int] <= #[trigger] d@[k],
                subs == source_subs(decode(idx as int, od@), tg),
                tg == Seq::new(target@.len(), |k: int| target@[k] as int),
                cells@.len() == prod(d@),
                forall|k: int| 0 <= k < d@.len() ==> d@[k] > 0,
                nonneg(d@),
                cl == cells@.len(),
                src as int == encode(subs.take(b as int), d@.take(b as int)),
                0 <= src < prod(d@.take(b as int)),
            decreases target@.len() - b,
        {
            let t = target[b];
            let cb = coords[t];
            proof {
                assert(subs.take(b as int + 1).drop_last() =~= subs.take(b as int));
                assert(d@.take(b as int + 1).drop_last() =~= d@.take(b as int));
                assert(subs[b as int] == cb as int);
                assert(subs.take(b as int + 1).last() == cb as int);
                assert(prod(d@.take(b as int + 1)) == prod(d@.take(b as int)) * d@[b as int]);
                assert(0 <= cb < d@[b as int]);
                crate::shape::lemma_prod_nonneg(d@.take(b as int));
                let p = prod(d@.take(b as int));
                let x = d@[b as int] as int;
                assert(0 <= src * x + cb < p * x) by (nonlinear_arith)
                    requires 0 <= src < p, 0 <= cb < x;
                assert(d@.take(b as int + 1).last() == d@[b as int]);
                assert(p * x <= cells@.len()) by {
                    crate::layout::lemma_prod_split_last(d@.take(b as int + 1));
                    lemma_prod_prefix_le(d@, b as int + 1);
                }
            }
            proof {
                lemma_positive_prod(d@.take(b as int));
                let p = prod(d@.take(b as int));
                let x = d@[b as int] as int;
                assert(x <= p * x) by (nonlinear_arith) requires p >= 1, x >= 1;
            }
            let xb: usize = d[b] as usize;
            src = src * xb + cb as usize;
            b += 1;
        }
        proof {
            assert(subs.take(b as int) =~= subs);
            assert(d@.take(b as int) =~= d@);
            lemma_encode_bounds(subs, d@);
        }
        out.push(cells[src].clone());
        proof {
            assert(out@ =~= transposed(cells@, d@, tg, od@).take(idx as int + 1));
        }
        idx += 1;
    }
    proof { assert(transposed(cells@, d@, tg, od@).take(idx as int) =~= transposed(cells@, d@, tg, od@)); }
    out
}

/// A zero dimension makes the product zero.
proof fn lemma_prod_zero(d: Seq<i64>, k: int)
    requires
        0 <= k < d.len(),
        d[k] == 0,
    ensures
        prod(d) == 0,
    decreases d.len(),
{
    if k < d.len() - 1 {
        lemma_prod_zero(d.drop_last(), k);
    }
}

/// The product of a prefix of nonzero dimensions divides into the whole.
proof fn lemma_prod_prefix_le(d: Seq<i64>, n: int)
    requires
        0 <= n <= d.len(),
        nonneg(d),
        forall|k: int| n <= k < d.len() ==> d[k] > 0,
    ensures
        prod(d.take(n)) <= prod(d),
    decreases d.len() - n,
{
    if n == d.len() {
        assert(d.take(n) =~= d);
    } else {
        lemma_prod_prefix_le(d, n + 1);
        assert(d.take(n + 1).drop_last() =~= d.take(n));
        assert(d.take(n + 1).last() == d[n]);
        assert(prod(d.take(n + 1)) == prod(d.take(n)) * d[n]);
        crate::shape::lemma_prod_nonneg(d.take(n));
        let p = prod(d.take(n));
        let x = d[n] as int;
        assert(p <= p * x) by (nonlinear_arith) requires p >= 0, x >= 1;
    }
}

/// The product of nonnegative dimensions whose weight fits an `i64`.
fn prod_exec(d: &[i64]) -> (r: i64)
    requires
        nonneg(d@),
        prod(d@) <= i64::MAX,
        forall|k: int| 0 <= k < d@.len() ==> d@[k] > 0,
    ensures
        r as int == prod(d@),
{
    let mut acc: i64 = 1;
    let mut j: usize = 0;
    while j < d.len()
        invariant
            j <= d@.len(),
            nonneg(d@),
            prod(d@) <= i64::MAX,
            forall|k: int| 0 <= k < d@.len() ==> d@[k] > 0,
            acc as int == prod(d@.take(j as int)),
        decreases d@.len() - j,
    {
        proof {
            assert(d@.take(j as int + 1).drop_last() =~= d@.take(j as int));
            lemma_prod_prefix_le(d@, j as int + 1);
            crate::shape::lemma_prod_nonneg(d@.take(j as int + 1));
        }
        acc = acc * d[j];
        j += 1;
    }
    proof { assert(d@.take(j as int) =~= d@); }
    acc
}

/// Send the axes of B to `target` (one result axis per entry, each below
/// `out_rank`, every result axis receiving one or more of them).
fn transpose_to(b: &ValueP, d: &[i64], target: &[usize], out_rank: usize) -> (r: AplResult<ValueP>)
    requires
        d@ == b.dims(),
        target@.len() == d@.len(),
        forall|k: int| 0 <= k < target@.len() ==> #[trigger] target@[k] < out_rank,
        no_gaps(Seq::new(target@.len(), |k: int| target@[k] as int), out_rank as int),
    ensures
        r matches Ok(v)
            && v.dims() == target_dims(Seq::new(target@.len(), |k: int| target@[k] as int), d@, out_rank as int)
            && v.ravel() == transposed(b.ravel(), d@, Seq::new(target@.len(), |k: int| target@[k] as int), v.dims()),
{
    b.lemma_wf();
    let ghost tg = Seq::new(target@.len(), |k: int| target@[k] as int);
    let n = d.len();
    let mut od: Vec<i64> = Vec::new();
    let mut t: usize = 0;
    while t < out_rank
        invariant
            t <= out_rank,
            od@.len() == t,
            forall|u: int| 0 <= u < t ==> od@[u] == i64::MAX,
        decreases out_rank - t,
    {
        od.push(i64::MAX);
        t += 1;
    }
    let mut k: usize = 0;
    while k < n
        invariant
            k <= n == d@.len() == target@.len(),
            tg == Seq::new(target@.len(), |j: int| target@[j] as int),
            forall|j: int| 0 <= j < target@.len() ==> #[trigger] target@[j] < out_rank,
            od@.len() == out_rank,
            forall|u: int| 0 <= u < out_rank ==> #[trigger] od@[u] == axis_min(tg, d@, u, k as int),
        decreases n - k,
    {
        let tk = target[k];
        if d[k] < od[tk] {
            od.set(tk, d[k]);
        }
        proof {
            assert forall|u: int| 0 <= u < out_rank implies #[trigger] od@[u] == axis_min(tg, d@, u, k as int + 1) by {
                assert(tg[k as int] == tk as int);
            }
        }
        k += 1;
    }
    proof {
        let r = out_rank as int;
        assert(od@ =~= target_dims(tg, d@, r));
        assert forall|j: int| 0 <= j < tg.len() implies 0 <= #[trigger] tg[j] < r by {
            assert(target@[j] < out_rank);
        }
        lemma_target_weight(tg, d@, r, n as int);
        assert(partial_dims(tg, d@, r, n as int) =~= od@) by {
            assert forall|u: int| 0 <= u < r implies partial_dims(tg, d@, r, n as int)[u] == od@[u] by {
                assert(axis_seen(tg, u, tg.len() as int));
            }
        }
        assert(d@.take(n as int) =~= d@);
        assert forall|u: int| 0 <= u < r implies od@[u] >= 0 by {
            assert(axis_seen(tg, u, tg.len() as int));
            lemma_axis_min_is_one(tg, d@, u, n as int);
        }
        assert forall|j: int| 0 <= j < target@.len() implies od@[target@[j] as int] <= #[trigger] d@[j] by {
            lemma_axis_min_le(tg, d@, target@[j] as int, n as int, j);
        }
        assert(out_rank <= 8) by {
            lemma_out_rank_le(tg, r);
        }
        crate::take_drop::lemma_prod_le_absprod(od@);
    }
    let out = transpose_cells(b.cells(), d, target, od.as_slice());
    let shape = Shape::from_dims(od.as_slice());
    match shape {
        Ok(s) => {
            proof { use_type_invariant(s); }
            let v = ValueP::from_parts(s, out);
            match v {
                Ok(v) => Ok(v),
                Err(e) => Err(e),
            }
        },
        Err(e) => Err(e),
    }
}

/// Result axes without gaps number at most the axes of B.
proof fn lemma_out_rank_le(tg: Seq<int>, r: int)
    requires
        no_gaps(tg, r),
        tg.len() <= 8,
        r >= 0,
    ensures
        r <= 8,
{
    let f = Seq::new(r as nat, |t: int| choose|b: int| 0 <= b < tg.len() && tg[b] == t);
    assert forall|t: int| 0 <= t < r implies 0 <= #[trigger] f[t] < tg.len() && tg[f[t]] == t by {
        assert(axis_seen(tg, t, tg.len() as int));
    }
    lemma_injective_bound(f, r, tg.len() as int, tg);
}

/// A map from `0..r` into `0..n` that some sequence inverts makes `r <= n`.
proof fn lemma_injective_bound(f: Seq<int>, r: int, n: int, tg: Seq<int>)
    requires
        r >= 0,
        f.len() == r,
        0 <= n <= tg.len(),
        forall|t: int| 0 <= t < r ==> 0 <= #[trigger] f[t] < n && tg[f[t]] == t,
    ensures
        r <= n,
    decreases n,
{
    if r > n {
        if n == 0 {
            let x = f[0];
            assert(0 <= x < n);
        } else {
            // drop the position `n - 1` and whatever result axis uses it
            let s = tg[n - 1];
            if 0 <= s < r {
                let g = Seq::new((r - 1) as nat, |t: int| if t < s { f[t] } else { f[t + 1] });
                let tg2 = Seq::new(tg.len(), |i: int| if tg[i] > s { tg[i] - 1 } else { tg[i] });
                assert forall|t: int| 0 <= t < r - 1 implies 0 <= #[trigger] g[t] < n - 1 && tg2[g[t]] == t by {
                    if t < s {
                        assert(tg[f[t]] == t);
                        assert(f[t] != n - 1);
                    } else {
                        assert(tg[f[t + 1]] == t + 1);
                        assert(f[t + 1] != n - 1);
                    }
                }
                lemma_injective_bound(g, r - 1, n - 1, tg2);
            } else {
                assert forall|t: int| 0 <= t < r implies 0 <= #[trigger] f[t] < n - 1 && tg[f[t]] == t by {
                    assert(f[t] != n - 1);
                }
                lemma_injective_bound(f, r, n - 1, tg);
            }
        }
    }
}

/// `⍉B`: the axes of B in reverse order. A value of rank below 2 is
/// returned unchanged; for a matrix this is the familiar transpose.
pub fn transpose(b: &ValueP) -> (r: AplResult<ValueP>)
    ensures
        b.spec_rank() < 2 ==> r == Ok::<ValueP, ErrorCode>(*b),
        b.spec_rank() >= 2 ==> (r matches Ok(v)
            && v.dims() == b.dims().reverse()
            && v.ravel() == transposed(b.ravel(), b.dims(), reversed_axes(b.dims().len() as int), b.dims().reverse())),
{
    b.lemma_wf();
    let rank = b.rank() as usize;
    if rank < 2 {
        return Ok(b.clone());
    }
    let d = b.dim_list();
    let mut target: Vec<usize> = Vec::new();
    let mut k: usize = 0;
    while k < rank
        invariant
            k <= rank,
            target@.len() == k,
            forall|j: int| 0 <= j < k ==> #[trigger] target@[j] == rank - 1 - j,
        decreases rank - k,
    {
        target.push(rank - 1 - k);
        k += 1;
    }
    let ghost tg = Seq::new(target@.len(), |j: int| target@[j] as int);
    proof {
        assert forall|t: int| 0 <= t < rank implies #[trigger] axis_seen(tg, t, tg.len() as int) by {
            assert(tg[rank - 1 - t] == t);
        }
        assert forall|t: int| 0 <= t < rank implies #[trigger] axis_min(tg, d@, t, rank as int) == d@[rank - 1 - t] by {
            lemma_axis_min_perm(tg, d@, t, rank as int, rank as int);
        }
        assert(target_dims(tg, d@, rank as int) =~= b.dims().reverse());
        assert(tg =~= Seq::new(b.dims().len(), |j: int| b.dims().len() - 1 - j));
    }
    transpose_to(b, d.as_slice(), target.as_slice(), rank)
}

/// With B's axes reversed, result axis `t` is B's axis `rank - 1 - t`.
proof fn lemma_axis_min_perm(tg: Seq<int>, d: Seq<i64>, t: int, n: int, rank: int)
    requires
        0 <= n <= rank == tg.len() == d.len(),
        0 <= t < rank,
        forall|j: int| 0 <= j < rank ==> #[trigger] tg[j] == rank - 1 - j,
    ensures
        axis_min(tg, d, t, n) == (if rank - 1 - t < n { d[rank - 1 - t] } else { i64::MAX }),
    decreases n,
{
    if n > 0 {
        lemma_axis_min_perm(tg, d, t, n - 1, rank);
        assert(tg[n - 1] == rank - 1 - (n - 1));
    }
}

/// `A⍉B` with index origin `io`: axis `k` of B becomes axis `A[k]` of the
/// result; where several axes of B go to one result axis, the result takes
/// their diagonal, as long as the shortest of them. Entries of A must name
/// every result axis from the origin up to the largest, or DOMAIN ERROR.
pub fn transpose_dyadic_io(a: &ValueP, b: &ValueP, io: i64) -> (r: AplResult<ValueP>)
    ensures
        transpose_targets(*a, b.spec_rank(), io) matches Err(e) ==> r == Err::<ValueP, ErrorCode>(e),
        transpose_targets(*a, b.spec_rank(), io) matches Ok(tg) ==> (
            if !no_gaps(tg, out_rank_of(tg)) {
                r == Err::<ValueP, ErrorCode>(ErrorCode::DomainError)
            } else {
                r matches Ok(v)
                    && v.dims() == target_dims(tg, b.dims(), out_rank_of(tg))
                    && v.ravel() == transposed(b.ravel(), b.dims(), tg, v.dims())
            }),
{
    b.lemma_wf();
    let rank_b = b.rank() as usize;
    if a.rank() > 1 {
        return Err(ErrorCode::RankError);
    }
    let raw = crate::value::int_values(a.cells())?;
    if raw.len() != rank_b {
        return Err(ErrorCode::LengthError);
    }
    let mut target: Vec<usize> = Vec::new();
    let mut out_rank: usize = 0;
    let mut k: usize = 0;
    while k < rank_b
        invariant
            k <= rank_b <= 8,
            rank_b as int == b.spec_rank(),
            a.spec_rank() <= 1,
            all_ints(a.ravel()),
            raw@.len() == rank_b,
            raw@ == int_vals(a.ravel()),
            target@.len() == k,
            forall|j: int| 0 <= j < k ==> #[trigger] target@[j] as int == raw@[j] - io,
            forall|j: int| 0 <= j < k ==> 0 <= #[trigger] raw@[j] - io < rank_b,
            out_rank as int == out_rank_of(Seq::new(k as nat, |j: int| target@[j] as int)),
        decreases rank_b - k,
    {
        let z: i128 = raw[k] as i128 - io as i128;
        if z < 0 || z >= rank_b as i128 {
            proof {
                assert(!(0 <= int_vals(a.ravel())[k as int] - io < rank_b));
            }
            return Err(ErrorCode::DomainError);
        }
        let zt = z as usize;
        let ghost old_rank = out_rank as int;
        let ghost old_t = Seq::new(k as nat, |j: int| target@[j] as int);
        target.push(zt);
        if zt + 1 > out_rank {
            out_rank = zt + 1;
        }
        proof {
            let s_new = Seq::new(k as nat + 1, |j: int| target@[j] as int);
            assert(s_new.drop_last() =~= old_t);
            assert(s_new.last() == zt as int);
            assert(out_rank_of(s_new) == (if zt as int + 1 > old_rank { zt as int + 1 } else { old_rank }));
        }
        k += 1;
    }
    let ghost tg = Seq::new(target@.len(), |j: int| target@[j] as int);
    proof {
        assert(tg =~= Seq::new(rank_b as nat, |j: int| int_vals(a.ravel())[j] - io));
        lemma_out_rank_bound(tg);
        assert forall|j: int| 0 <= j < rank_b implies 0 <= #[trigger] int_vals(a.ravel())[j] - io < rank_b by {
            assert(raw@[j] == int_vals(a.ravel())[j]);
        }
        assert(transpose_targets(*a, b.spec_rank(), io) == Ok::<Seq<int>, ErrorCode>(tg));
        assert(Seq::new(k as nat, |j: int| target@[j] as int) =~= tg);
        assert forall|i: int| 0 <= i < target@.len() implies #[trigger] target@[i] < out_rank by {
            assert(tg[i] == target@[i] as int);
        }
    }
    let mut seen: Vec<bool> = Vec::new();
    let mut t: usize = 0;
    while t < out_rank
        invariant
            t <= out_rank,
            seen@.len() == t,
            forall|u: int| 0 <= u < t ==> !seen@[u],
        decreases out_rank - t,
    {
        seen.push(false);
        t += 1;
    }
    let mut j: usize = 0;
    while j < rank_b
        invariant
            j <= rank_b == target@.len(),
            tg == Seq::new(target@.len(), |i: int| target@[i] as int),
            out_rank as int == out_rank_of(tg),
            seen@.len() == out_rank,
            forall|i: int| 0 <= i < target@.len() ==> #[trigger] target@[i] < out_rank,
            forall|u: int| 0 <= u < out_rank ==> (#[trigger] seen@[u] <==> axis_seen(tg, u, j as int)),
        decreases rank_b - j,
    {
        let tj = target[j];
        seen.set(tj, true);
        proof {
            assert forall|u: int| 0 <= u < out_rank implies (#[trigger] seen@[u] <==> axis_seen(tg, u, j as int + 1)) by {
                if axis_seen(tg, u, j as int + 1) && u != tj {
                    let i = choose|i: int| 0 <= i < j + 1 && tg[i] == u;
                    assert(i != j);
                }
                if u == tj {
                    assert(tg[j as int] == u);
                }
            }
        }
        j += 1;
    }
    let mut u: usize = 0;
    while u < out_rank
        invariant
            u <= out_rank,
            seen@.len() == out_rank,
            j == rank_b == tg.len(),
            out_rank as int == out_rank_of(tg),
            transpose_targets(*a, b.spec_rank(), io) == Ok::<Seq<int>, ErrorCode>(tg),
            forall|w: int| 0 <= w < out_rank ==> (#[trigger] seen@[w] <==> axis_seen(tg, w, j as int)),
            forall|w: int| 0 <= w < u ==> #[trigger] axis_seen(tg, w, tg.len() as int),
        decreases out_rank - u,
    {
        if !seen[u] {
            assert(!no_gaps(tg, out_rank_of(tg)));
            return Err(ErrorCode::DomainError);
        }
        u += 1;
    }
    let d = b.dim_list();
    transpose_to(b, d.as_slice(), target.as_slice(), out_rank)
}

/// Every target lies below the result rank.
proof fn lemma_out_rank_bound(tg: Seq<int>)
    ensures
        forall|j: int| 0 <= j < tg.len() ==> #[trigger] tg[j] < out_rank_of(tg),
        out_rank_of(tg) >= 0,
    decreases tg.len(),
{
    if tg.len() > 0 {
        lemma_out_rank_bound(tg.drop_last());
        assert forall|j: int| 0 <= j < tg.len() implies #[trigger] tg[j] < out_rank_of(tg) by {
            if j < tg.len() - 1 {
                assert(tg.drop_last()[j] == tg[j]);
            }
        }
    }
}

/// `A⍉B` with index origin 0.
pub fn transpose_dyadic(a: &ValueP, b: &ValueP) -> (r: AplResult<ValueP>)
    ensures
        transpose_targets(*a, b.spec_rank(), 0) matches Err(e) ==> r == Err::<ValueP, ErrorCode>(e),
        transpose_targets(*a, b.spec_rank(), 0) matches Ok(tg) ==> (
            if !no_gaps(tg, out_rank_of(tg)) {
                r == Err::<ValueP, ErrorCode>(ErrorCode::DomainError)
            } else {
                r matches Ok(v)
                    && v.dims() == target_dims(tg, b.dims(), out_rank_of(tg))
                    && v.ravel() == transposed(b.ravel(), b.dims(), tg, v.dims())
            }),
{
    transpose_dyadic_io(a, b, 0)
}


/// Decoding a position and encoding its subscripts gives the position back.
proof fn lemma_encode_decode(idx: int, d: Seq<i64>)
    requires
        0 <= idx < prod(d),
        forall|k: int| 0 <= k < d.len() ==> d[k] > 0,
    ensures
        encode(decode(idx, d), d) == idx,
    decreases d.len(),
{
    if d.len() > 0 {
        let q = d.last() as int;
        lemma_div_lt(idx, prod(d.drop_last()), q);
        lemma_encode_decode(idx / q, d.drop_last());
        lemma_decode_len(idx / q, d.drop_last());
        let s = decode(idx, d);
        assert(s.drop_last() =~= decode(idx / q, d.drop_last()));
        vstd::arithmetic::div_mod::lemma_fundamental_div_mod(idx, q);
        assert(encode(s, d) == (idx / q) * q + idx % q) by (nonlinear_arith)
            requires encode(s, d) == encode(s.drop_last(), d.drop_last()) * q + s.last(),
                encode(s.drop_last(), d.drop_last()) == idx / q, s.last() == idx % q;
    } else {
        reveal_with_fuel(prod, 1);
    }
}

/// Encoding subscripts within their axes and decoding the position gives
/// the subscripts back.
proof fn lemma_decode_encode(s: Seq<int>, d: Seq<i64>)
    requires
        s.len() == d.len(),
        forall|k: int| 0 <= k < d.len() ==> 0 <= #[trigger] s[k] < d[k],
    ensures
        decode(encode(s, d), d) == s,
    decreases d.len(),
{
    if d.len() > 0 {
        let q = d.last() as int;
        let e = encode(s.drop_last(), d.drop_last());
        lemma_decode_encode(s.drop_last(), d.drop_last());
        lemma_encode_bounds(s.drop_last(), d.drop_last());
        vstd::arithmetic::div_mod::lemma_fundamental_div_mod_converse(e * q + s.last(), q, e, s.last());
        assert(decode(encode(s, d), d) =~= decode(e, d.drop_last()).push(s.last()));
        assert(s =~= s.drop_last().push(s.last()));
    } else {
        assert(s =~= Seq::<int>::empty());
    }
}

/// The product of dimensions in reverse order is their product.
proof fn lemma_prod_reverse(d: Seq<i64>)
    ensures
        prod(d.reverse()) == prod(d),
    decreases d.len(),
{
    if d.len() > 0 {
        lemma_prod_reverse(d.drop_last());
        assert(d.reverse() =~= seq![d.last()] + d.drop_last().reverse());
        crate::shape::lemma_prod_append(seq![d.last()], d.drop_last().reverse());
        reveal_with_fuel(prod, 2);
        assert(seq![d.last()].drop_last() =~= Seq::<i64>::empty());
        let a = prod(d.drop_last());
        let x = d.last() as int;
        assert(x * a == a * x) by (nonlinear_arith);
    } else {
        assert(d.reverse() =~= d);
    }
}

/// Non-negative dimensions with a nonzero product are all positive.
proof fn lemma_prod_positive_dims(d: Seq<i64>)
    requires
        nonneg(d),
        prod(d) != 0,
    ensures
        forall|k: int| 0 <= k < d.len() ==> d[k] > 0,
    decreases d.len(),
{
    if d.len() > 0 {
        let a = prod(d.drop_last());
        let x = d.last() as int;
        assert(a != 0 && x != 0) by (nonlinear_arith) requires a * x != 0;
        lemma_prod_positive_dims(d.drop_last());
        assert forall|k: int| 0 <= k < d.len() implies d[k] > 0 by {
            if k < d.len() - 1 {
                assert(d.drop_last()[k] == d[k]);
            }
        }
    }
}

/// The axes of an array of rank `n` reversed: axis `k` goes to `n - 1 - k`.
pub open spec fn reversed_axes(n: int) -> Seq<int> {
    Seq::new(n as nat, |k: int| n - 1 - k)
}

/// Transposing twice gives the array back: reversing the axes of B and
/// then those of the result restores B's dimensions and ravel.
pub proof fn law_transpose_twice(c: Seq<Cell>, d: Seq<i64>)
    requires
        nonneg(d),
        c.len() == prod(d),
    ensures
        ({
            let n = d.len() as int;
            let t1 = transposed(c, d, reversed_axes(n), d.reverse());
            transposed(t1, d.reverse(), reversed_axes(n), d.reverse().reverse()) == c
                && d.reverse().reverse() == d
        }),
{
    let n = d.len() as int;
    let rd = d.reverse();
    assert(rd.reverse() =~= d);
    let ax = reversed_axes(n);
    let t1 = transposed(c, d, ax, rd);
    let t2 = transposed(t1, rd, ax, d);
    lemma_prod_reverse(d);
    assert(t2.len() == c.len());
    if prod(d) != 0 {
        lemma_prod_positive_dims(d);
        assert forall|k: int| 0 <= k < rd.len() implies rd[k] > 0 by {
            assert(rd[k] == d[n - 1 - k]);
        }
        assert forall|i: int| 0 <= i < c.len() implies t2[i] == c[i] by {
            let s = decode(i, d);
            lemma_decode_bounds(i, d);
            let s2 = source_subs(s, ax);
            assert(s2.len() == n);
            assert forall|k: int| 0 <= k < rd.len() implies 0 <= #[trigger] s2[k] < rd[k] by {
                assert(s2[k] == s[n - 1 - k]);
                assert(rd[k] == d[n - 1 - k]);
            }
            let j = encode(s2, rd);
            lemma_encode_bounds(s2, rd);
            lemma_decode_encode(s2, rd);
            assert(t2[i] == t1[j]);
            let s3 = source_subs(decode(j, rd), ax);
            assert(s3 =~= s) by {
                assert forall|k: int| 0 <= k < n implies s3[k] == s[k] by {
                    assert(s3[k] == s2[n - 1 - k]);
                    assert(s2[n - 1 - k] == s[n - 1 - (n - 1 - k)]);
                }
            }
            assert(t1[j] == c[encode(s3, d)]);
            lemma_encode_decode(i, d);
        }
    }
    assert(t2 =~= c);
}

/// Every prefix of the reversed axes reaches the top axis.
proof fn lemma_out_rank_reversed(n: int, m: int)
    requires
        1 <= m <= n,
    ensures
        out_rank_of(reversed_axes(n).take(m)) == n,
    decreases m,
{
    let s = reversed_axes(n).take(m);
    assert(s.last() == n - 1 - (m - 1));
    if m == 1 {
        assert(s.drop_last() =~= Seq::<int>::empty());
        assert(out_rank_of(s.drop_last()) == 0);
    } else {
        assert(s.drop_last() =~= reversed_axes(n).take(m - 1));
        lemma_out_rank_reversed(n, m - 1);
    }
}

/// With the axes reversed, result axis `t` is as long as axis `n - 1 - t`
/// of B, once that axis is among the first `m`.
proof fn lemma_axis_min_reversed(d: Seq<i64>, t: int, m: int)
    requires
        0 <= t < d.len(),
        0 <= m <= d.len(),
    ensures
        axis_min(reversed_axes(d.len() as int), d, t, m)
            == if d.len() - 1 - t < m { d[d.len() - 1 - t] } else { i64::MAX },
    decreases m,
{
    if m > 0 {
        lemma_axis_min_reversed(d, t, m - 1);
    }
}

/// `A⍉B` with A naming the axes of B in reverse order is `⍉B`: every
/// result axis is reached, and the result has the dimensions of B reversed
/// (so the ravels, both `transposed` with the same axes, agree too).
pub proof fn law_dyadic_transpose_reversed(d: Seq<i64>)
    ensures
        out_rank_of(reversed_axes(d.len() as int)) == d.len(),
        no_gaps(reversed_axes(d.len() as int), d.len() as int),
        target_dims(reversed_axes(d.len() as int), d, d.len() as int) == d.reverse(),
{
    let n = d.len() as int;
    let tg = reversed_axes(n);
    if n > 0 {
        lemma_out_rank_reversed(n, n);
        assert(tg.take(n) =~= tg);
    }
    assert forall|t: int| 0 <= t < n implies #[trigger] axis_seen(tg, t, tg.len() as int) by {
        assert(tg[n - 1 - t] == t);
    }
    assert forall|t: int| 0 <= t < n implies target_dims(tg, d, n)[t] == d.reverse()[t] by {
        lemma_axis_min_reversed(d, t, n);
    }
    assert(target_dims(tg, d, n) =~= d.reverse());
}

} // verus!
