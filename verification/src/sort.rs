//! Grade up `⍋` and grade down `⍒`: the permutation of indices that sorts
//! the major cells of B (its items, the rows of a matrix) ascending or
//! descending, comparing cell by cell. Ties keep their left-to-right order.

use vstd::prelude::*;
use crate::cell::{cell_lt, Cell, CompResult};
use crate::types::AplResult;
use crate::value::ValueP;

verus! {

/// Cells `a` and `b` sort as equal.
pub open spec fn cell_tie(a: Cell, b: Cell) -> bool {
    !cell_lt(a, b) && !cell_lt(b, a)
}

/// How item `i` of `c` (items of `w` cells each) compares with item `j`,
/// from cell `k` on: -1 before, 0 equal, 1 after, cell by cell.
pub open spec fn item_order(c: Seq<Cell>, w: int, i: int, j: int, k: int) -> int
    decreases w - k,
{
    if k >= w {
        0
    } else if cell_lt(c[i * w + k], c[j * w + k]) {
        -1
    } else if cell_lt(c[j * w + k], c[i * w + k]) {
        1
    } else {
        item_order(c, w, i, j, k + 1)
    }
}

/// Index `i` comes before index `j` in the grade of the items of `c`
/// (`w` cells each): its item sorts first (last when descending), and on a
/// tie the smaller index comes first.
pub open spec fn precedes(c: Seq<Cell>, w: int, desc: bool, i: int, j: int) -> bool {
    let d = item_order(c, w, i, j, 0);
    if desc {
        d > 0 || (d == 0 && i < j)
    } else {
        d < 0 || (d == 0 && i < j)
    }
}

/// `g` lists each of the `m` items of `c` once, in grade order.
pub open spec fn sorted_perm(c: Seq<Cell>, w: int, m: int, desc: bool, g: Seq<int>) -> bool {
    &&& g.len() == m
    &&& forall|p: int| 0 <= p < g.len() ==> 0 <= #[trigger] g[p] < m
    &&& forall|p: int, q: int| 0 <= p < q < g.len() ==> precedes(c, w, desc, #[trigger] g[p], #[trigger] g[q])
}

/// The number of major cells B is graded by: its rows (items along the
/// first axis), or 1 for a scalar.
pub open spec fn grade_items(b: ValueP) -> int {
    if b.dims().len() == 0 { 1 } else { b.dims()[0] as int }
}

/// The number of cells in each major cell of B.
pub open spec fn grade_width(b: ValueP) -> int {
    if grade_items(b) > 0 { (b.ravel().len() as int) / grade_items(b) } else { 0 }
}

/// `out` is the grade of the major cells of B with index origin `io`:
/// integer cells whose values less `io` list each major cell once, in
/// grade order.
pub open spec fn is_grade(b: ValueP, desc: bool, io: i64, out: Seq<Cell>) -> bool {
    &&& forall|p: int| 0 <= p < out.len() ==> (#[trigger] out[p]) is Int
    &&& sorted_perm(b.ravel(), grade_width(b), grade_items(b), desc,
        Seq::new(out.len(), |p: int| out[p]->Int_0 - io))
}

/// Item comparison is antisymmetric and transitive.
proof fn lemma_item_order(c: Seq<Cell>, w: int, i: int, j: int, l: int, k: int)
    ensures
        item_order(c, w, i, j, k) == -item_order(c, w, j, i, k),
        -1 <= item_order(c, w, i, j, k) <= 1,
        item_order(c, w, i, j, k) <= 0 && item_order(c, w, j, l, k) <= 0 ==> item_order(c, w, i, l, k) <= 0,
        item_order(c, w, i, j, k) < 0 && item_order(c, w, j, l, k) <= 0 ==> item_order(c, w, i, l, k) < 0,
        item_order(c, w, i, j, k) <= 0 && item_order(c, w, j, l, k) < 0 ==> item_order(c, w, i, l, k) < 0,
        item_order(c, w, i, i, k) == 0,
    decreases w - k,
{
    if k < w {
        lemma_item_order(c, w, i, j, l, k + 1);
    }
}

/// The grade order is a strict total order on indices.
proof fn lemma_precedes_order(c: Seq<Cell>, w: int, desc: bool)
    ensures
        forall|i: int, j: int| i != j ==> (precedes(c, w, desc, i, j) != precedes(c, w, desc, j, i)),
        forall|i: int, j: int, k: int| #![trigger precedes(c, w, desc, i, j), precedes(c, w, desc, j, k)]
            precedes(c, w, desc, i, j) && precedes(c, w, desc, j, k) ==> precedes(c, w, desc, i, k),
        forall|i: int| !precedes(c, w, desc, i, i),
{
    assert forall|i: int, j: int| i != j implies (precedes(c, w, desc, i, j) != precedes(c, w, desc, j, i)) by {
        lemma_item_order(c, w, i, j, i, 0);
    }
    assert forall|i: int, j: int, k: int| #![trigger precedes(c, w, desc, i, j), precedes(c, w, desc, j, k)]
        precedes(c, w, desc, i, j) && precedes(c, w, desc, j, k) implies precedes(c, w, desc, i, k) by {
        lemma_item_order(c, w, i, j, k, 0);
        lemma_item_order(c, w, k, j, i, 0);
        lemma_item_order(c, w, i, k, j, 0);
        lemma_item_order(c, w, j, i, k, 0);
        lemma_item_order(c, w, k, i, j, 0);
        lemma_item_order(c, w, j, k, i, 0);
    }
    assert forall|i: int| !precedes(c, w, desc, i, i) by {
        lemma_item_order(c, w, i, i, i, 0);
    }
}

/// A grade is a stable permutation: it lists every one of the `m` items
/// exactly once, and items that compare equal keep their order.
pub proof fn law_grade_permutation(c: Seq<Cell>, w: int, m: int, desc: bool, g: Seq<int>)
    requires
        sorted_perm(c, w, m, desc, g),
    ensures
        g.no_duplicates(),
        forall|k: int| 0 <= k < m ==> g.contains(k),
        forall|p: int, q: int| 0 <= p < q < g.len() && item_order(c, w, g[p], g[q], 0) == 0
            ==> #[trigger] g[p] < #[trigger] g[q],
{
    lemma_precedes_order(c, w, desc);
    assert forall|p: int, q: int| 0 <= p < g.len() && 0 <= q < g.len() && p != q implies g[p] != g[q] by {
        if p < q {
            assert(precedes(c, w, desc, g[p], g[q]));
        } else {
            assert(precedes(c, w, desc, g[q], g[p]));
        }
    }
    assert(g.no_duplicates());
    g.unique_seq_to_set();
    vstd::set_lib::lemma_int_range(0, m);
    let r = vstd::set_lib::set_int_range(0, m);
    assert(g.to_set().subset_of(r));
    vstd::set_lib::lemma_subset_equality(g.to_set(), r);
    assert forall|k: int| 0 <= k < m implies g.contains(k) by {
        assert(r.contains(k));
        assert(g.to_set().contains(k));
    }
    assert forall|p: int, q: int| 0 <= p < q < g.len() && item_order(c, w, g[p], g[q], 0) == 0
        implies #[trigger] g[p] < #[trigger] g[q] by {
        assert(precedes(c, w, desc, g[p], g[q]));
    }
}

/// Index `i` comes before index `j` in the grade of the items of `cells`.
fn precedes_exec(cells: &[Cell], w: usize, m: usize, desc: bool, i: usize, j: usize) -> (r: bool)
    requires
        i < m,
        j < m,
        m * w <= cells@.len(),
    ensures
        r == precedes(cells@, w as int, desc, i as int, j as int),
{
    proof {
        assert(i * w + w <= m * w && j * w + w <= m * w) by (nonlinear_arith)
            requires i < m, j < m;
    }
    let len = cells.len();
    let mut k: usize = 0;
    let mut d: i8 = 0;
    while k < w && d == 0
        invariant
            len == cells@.len(),
            k <= w,
            i < m, j < m,
            i * w + w <= cells@.len(),
            j * w + w <= cells@.len(),
            -1 <= d <= 1,
            d == 0 ==> item_order(cells@, w as int, i as int, j as int, 0) == item_order(cells@, w as int, i as int, j as int, k as int),
            d != 0 ==> item_order(cells@, w as int, i as int, j as int, 0) == d,
        decreases w - k,
    {
        proof {
            assert(cells@.len() <= usize::MAX);
            assert(0 <= i * w) by (nonlinear_arith) requires i >= 0, w >= 0;
            assert(0 <= j * w) by (nonlinear_arith) requires j >= 0, w >= 0;
        }
        let x = i * w + k;
        let y = j * w + k;
        match cells[x].compare(&cells[y]) {
            CompResult::Lt => { d = -1; },
            CompResult::Gt => { d = 1; },
            CompResult::Eq => {},
        }
        k += 1;
    }
    if desc {
        d > 0 || (d == 0 && i < j)
    } else {
        d < 0 || (d == 0 && i < j)
    }
}

/// The grade of the `m` items of `cells` (`w` cells each) as a vector of
/// indices (insertion sort).
fn grade_indices(cells: &[Cell], w: usize, m: usize, desc: bool) -> (g: Vec<usize>)
    requires
        m * w <= cells@.len(),
    ensures
        sorted_perm(cells@, w as int, m as int, desc, Seq::new(g@.len(), |p: int| g@[p] as int)),
{
    proof { lemma_precedes_order(cells@, w as int, desc); }
    let ghost c = cells@;
    let ghost wi = w as int;
    let n = m;
    let mut g: Vec<usize> = Vec::new();
    let mut k: usize = 0;
    while k < n
        invariant
            k <= n,
            n == m,
            m * w <= cells@.len(),
            c == cells@, wi == w as int,
            g@.len() == k,
            forall|p: int| 0 <= p < k ==> #[trigger] g@[p] < k,
            forall|p: int, q: int| 0 <= p < q < k
                ==> precedes(c, wi, desc, #[trigger] g@[p] as int, #[trigger] g@[q] as int),
            forall|i: int, j: int| i != j ==> (precedes(c, wi, desc, i, j) != precedes(c, wi, desc, j, i)),
            forall|i: int, j: int, l: int| #![trigger precedes(c, wi, desc, i, j), precedes(c, wi, desc, j, l)]
                precedes(c, wi, desc, i, j) && precedes(c, wi, desc, j, l)
                ==> precedes(c, wi, desc, i, l),
        decreases n - k,
    {
        let mut pos: usize = 0;
        while pos < g.len() && precedes_exec(cells, w, m, desc, g[pos], k)
            invariant
                pos <= g@.len(),
                k < n,
                n == m,
                m * w <= cells@.len(),
                c == cells@, wi == w as int,
                g@.len() == k,
                forall|p: int| 0 <= p < k ==> #[trigger] g@[p] < k,
                forall|p: int| 0 <= p < pos ==> precedes(c, wi, desc, #[trigger] g@[p] as int, k as int),
            decreases g@.len() - pos,
        {
            pos += 1;
        }
        proof {
            if pos < g@.len() {
                assert(!precedes(c, wi, desc, g@[pos as int] as int, k as int));
                assert(precedes(c, wi, desc, k as int, g@[pos as int] as int));
                assert forall|q: int| pos <= q < k implies precedes(c, wi, desc, k as int, #[trigger] g@[q] as int) by {
                    if q > pos {
                        assert(precedes(c, wi, desc, g@[pos as int] as int, g@[q] as int));
                    }
                }
            }
        }
        let ghost old_g = g@;
        g.insert(pos, k);
        proof {
            assert forall|p: int| 0 <= p < k + 1 implies #[trigger] g@[p] < k + 1 by {
                if p < pos { assert(g@[p] == old_g[p]); }
                else if p > pos { assert(g@[p] == old_g[p - 1]); }
            }
            assert forall|p: int, q: int| 0 <= p < q < k + 1
                implies precedes(c, wi, desc, #[trigger] g@[p] as int, #[trigger] g@[q] as int) by {
                if q < pos {
                    assert(g@[p] == old_g[p] && g@[q] == old_g[q]);
                } else if q == pos {
                    assert(g@[p] == old_g[p]);
                } else if p < pos {
                    assert(g@[p] == old_g[p] && g@[q] == old_g[q - 1]);
                } else if p == pos {
                    assert(g@[q] == old_g[q - 1]);
                } else {
                    assert(g@[p] == old_g[p - 1] && g@[q] == old_g[q - 1]);
                }
            }
        }
        k += 1;
    }
    g
}

/// The grade of B with index origin `io`, ascending or descending: the
/// major cells of B (its rows, for a matrix) in order, compared cell by
/// cell; ties keep their order.
pub fn grade_io(b: &ValueP, descending: bool, io: i64) -> (r: AplResult<ValueP>)
    requires
        io + grade_items(*b) <= i64::MAX + 1,
        grade_items(*b) <= usize::MAX,
    ensures
        r matches Ok(v) && v.dims() == seq![grade_items(*b) as i64]
            && is_grade(*b, descending, io, v.ravel()),
{
    b.lemma_wf();
    let cells = b.cells();
    let m: usize = if b.rank() == 0 { 1 } else {
        let d = b.get_shape_item(0);
        d as usize
    };
    let w: usize = if m > 0 { cells.len() / m } else { 0 };
    proof {
        if m > 0 {
            vstd::arithmetic::div_mod::lemma_fundamental_div_mod(cells@.len() as int, m as int);
            assert(m * w <= cells@.len()) by (nonlinear_arith)
                requires w == cells@.len() as int / m as int, m > 0,
                    cells@.len() as int == m * (cells@.len() as int / m as int) + cells@.len() as int % m as int,
                    cells@.len() as int % m as int >= 0;
        }
    }
    let g = grade_indices(cells, w, m, descending);
    let ghost gs = Seq::new(g@.len(), |p: int| g@[p] as int);
    let mut out: Vec<i64> = Vec::new();
    let mut p: usize = 0;
    while p < g.len()
        invariant
            p <= g@.len(),
            g@.len() == m,
            m == grade_items(*b),
            gs == Seq::new(g@.len(), |q: int| g@[q] as int),
            sorted_perm(cells@, w as int, m as int, descending, gs),
            io + m <= i64::MAX + 1,
            out@.len() == p,
            forall|q: int| 0 <= q < p ==> #[trigger] out@[q] == g@[q] as int + io,
        decreases g@.len() - p,
    {
        assert(gs[p as int] < m);
        let x: i64 = g[p] as i64 + io;
        out.push(x);
        p += 1;
    }
    let v = ValueP::int_vector(out.as_slice());
    proof {
        assert(Seq::new(v.ravel().len(), |q: int| v.ravel()[q]->Int_0 - io) =~= gs);
    }
    Ok(v)
}

/// `⍋B`: the ascending grade of B, counting from 0.
pub fn grade_up(b: &ValueP) -> (r: AplResult<ValueP>)
    requires
        grade_items(*b) <= usize::MAX,
    ensures
        r matches Ok(v) && v.dims() == seq![grade_items(*b) as i64]
            && is_grade(*b, false, 0, v.ravel()),
{
    b.lemma_wf();
    grade_io(b, false, 0)
}

/// `⍒B`: the descending grade of B, counting from 0.
pub fn grade_down(b: &ValueP) -> (r: AplResult<ValueP>)
    requires
        grade_items(*b) <= usize::MAX,
    ensures
        r matches Ok(v) && v.dims() == seq![grade_items(*b) as i64]
            && is_grade(*b, true, 0, v.ravel()),
{
    b.lemma_wf();
    grade_io(b, true, 0)
}

/// Grading characters one per item: the grade up lists them in
/// non-decreasing code-point order, the grade down in non-increasing order.
pub proof fn law_grade_chars(c: Seq<Cell>, m: int, desc: bool, g: Seq<int>)
    requires
        sorted_perm(c, 1, m, desc, g),
        c.len() == m,
        forall|i: int| 0 <= i < m ==> (#[trigger] c[i]) is Char,
    ensures
        forall|p: int, q: int| 0 <= p < q < g.len() ==> (if desc {
            c[g[q]]->Char_0 <= c[g[p]]->Char_0
        } else {
            #[trigger] c[g[p]]->Char_0 <= #[trigger] c[g[q]]->Char_0
        }),
{
    assert forall|p: int, q: int| 0 <= p < q < g.len() implies (if desc {
        c[g[q]]->Char_0 <= c[g[p]]->Char_0
    } else {
        #[trigger] c[g[p]]->Char_0 <= #[trigger] c[g[q]]->Char_0
    }) by {
        let i = g[p];
        let j = g[q];
        assert(precedes(c, 1, desc, i, j));
        assert(i * 1 + 0 == i && j * 1 + 0 == j);
        assert(item_order(c, 1, i, j, 1) == 0);
        let a = c[i];
        let b = c[j];
        assert(a is Char && b is Char);
        crate::cell::law_cell_order(0, 0, a->Char_0, b->Char_0, a);
        crate::cell::law_cell_order(0, 0, b->Char_0, a->Char_0, a);
    }
}

} // verus!
