//! Decode and encode on integers: `A⊥B` reads the columns of B as numbers
//! written in the mixed radix A, and `A⊤B` writes each element of B as
//! digits in that radix, one row per radix.

use vstd::prelude::*;
use crate::cell::Cell;
use crate::scalar::{in_i64, residue};
use crate::shape::{absprod, dims_ok, prod, weight, Shape};
use crate::types::{AplResult, ErrorCode, MAX_RANK};
use crate::value::{all_ints, ValueP};

verus! {

/// The number that the first `n` digits `d` stand for in the radices `a`:
/// each digit in turn is added to the number so far times its radix.
pub open spec fn horner(a: Seq<int>, d: Seq<int>, n: nat) -> int
    decreases n,
{
    if n == 0 {
        0
    } else {
        horner(a, d, (n - 1) as nat) * a[n - 1] + d[n - 1]
    }
}

/// Every step of `horner(a, d, n)` stays within `i64`.
pub open spec fn horner_fits(a: Seq<int>, d: Seq<int>, n: nat) -> bool
    decreases n,
{
    n == 0 || ({
        let p = horner(a, d, (n - 1) as nat) * a[n - 1];
        horner_fits(a, d, (n - 1) as nat) && in_i64(p) && in_i64(p + d[n - 1])
    })
}

/// The steps that fit up to `n` fit up to any `k <= n`.
proof fn lemma_fits_prefix(a: Seq<int>, d: Seq<int>, n: nat, k: nat)
    requires
        k <= n,
        horner_fits(a, d, n),
    ensures
        horner_fits(a, d, k),
    decreases n,
{
    if k < n {
        lemma_fits_prefix(a, d, (n - 1) as nat, k);
    }
}

/// The integer an integer cell holds (0 for any other cell).
pub open spec fn int_of(c: Cell) -> int {
    match c {
        Cell::Int(k) => k as int,
        _ => 0,
    }
}

/// The length of the first axis of B, a scalar counting as 1.
pub open spec fn lead(b: ValueP) -> int {
    if b.dims().len() == 0 { 1 } else { b.dims()[0] as int }
}

/// The number of elements in each major cell of B (1 for a scalar).
pub open spec fn decode_cols(b: ValueP) -> int {
    if b.dims().len() == 0 { 1 } else { prod(b.dims().drop_first()) }
}

/// The dimensions of `A⊥B`: those of B without the first.
pub open spec fn decode_dims(b: ValueP) -> Seq<i64> {
    if b.dims().len() == 0 { Seq::empty() } else { b.dims().drop_first() }
}

/// How many radices and digits `A⊥B` pairs up, with `na` radices and a
/// first axis of length `nb`: a single one on either side is repeated;
/// otherwise the two must agree.
pub open spec fn decode_len(na: int, nb: int) -> Option<int> {
    if na == 1 {
        Some(nb)
    } else if nb == 1 || na == nb {
        Some(na)
    } else {
        None
    }
}

/// The `n` radices of `A⊥B`.
pub open spec fn decode_radices(a: ValueP, n: int) -> Seq<int> {
    Seq::new(n as nat, |i: int| int_of(if a.ravel().len() == 1 { a.ravel()[0] } else { a.ravel()[i] }))
}

/// The `n` digits of column `j` of B in `A⊥B`.
pub open spec fn decode_digits(b: ValueP, n: int, j: int) -> Seq<int> {
    Seq::new(n as nat, |i: int| int_of(b.ravel()[(if lead(b) == 1 { 0 } else { i }) * decode_cols(b) + j]))
}

/// The product of the dimensions after the first.
fn tail_dims(b: &ValueP) -> (r: Vec<i64>)
    requires
        b.dims().len() > 0,
    ensures
        r@ == b.dims().drop_first(),
{
    let rank = b.rank();
    let mut out: Vec<i64> = Vec::new();
    let mut i: u32 = 1;
    while i < rank
        invariant
            1 <= i <= rank,
            rank as int == b.dims().len(),
            rank <= 8,
            out@ == b.dims().subrange(1, i as int),
        decreases rank - i,
    {
        out.push(b.get_shape_item(i as i16));
        proof { assert(out@ =~= b.dims().subrange(1, i as int + 1)); }
        i += 1;
    }
    assert(out@ =~= b.dims().drop_first());
    out
}

/// The dimensions split into the first and the rest.
proof fn lemma_split_first(d: Seq<i64>)
    requires
        d.len() > 0,
    ensures
        prod(d) == d[0] * prod(d.drop_first()),
        absprod(d.drop_first()) <= absprod(d),
{
    assert(d =~= seq![d[0]] + d.drop_first());
    crate::shape::lemma_prod_append(seq![d[0]], d.drop_first());
    reveal_with_fuel(prod, 2);
    reveal_with_fuel(absprod, 2);
    assert(seq![d[0]].drop_last() =~= Seq::<i64>::empty());
    crate::shape::lemma_absprod_pos(d.drop_first());
    let w = weight(d[0]);
    let t = absprod(d.drop_first());
    assert(t <= w * t) by (nonlinear_arith) requires w >= 1, t >= 1;
}

/// `A⊥B` on integers: each column of B along its first axis, read as a
/// number in the radices A (Horner's rule). A single radix, or a first axis
/// of length 1, is repeated to the other's length; lengths that differ
/// otherwise are a LENGTH ERROR. A of rank above 1 is a NONCE ERROR, a
/// cell that is not an integer a DOMAIN ERROR, and a number that leaves
/// `i64` on the way a LIMIT ERROR.
pub fn decode(a: &ValueP, b: &ValueP) -> (r: AplResult<ValueP>)
    ensures
        a.dims().len() > 1 ==> r == Err::<ValueP, ErrorCode>(ErrorCode::NonceError),
        a.dims().len() <= 1 && decode_len(a.ravel().len() as int, lead(*b)) is None
            ==> r == Err::<ValueP, ErrorCode>(ErrorCode::LengthError),
        a.dims().len() <= 1 && decode_len(a.ravel().len() as int, lead(*b)) is Some
            && !(all_ints(a.ravel()) && all_ints(b.ravel()))
            ==> r == Err::<ValueP, ErrorCode>(ErrorCode::DomainError),
        a.dims().len() <= 1 && all_ints(a.ravel()) && all_ints(b.ravel())
            ==> (decode_len(a.ravel().len() as int, lead(*b)) matches Some(n) ==> {
                let rad = decode_radices(*a, n);
                let cols = decode_cols(*b);
                if forall|j: int| 0 <= j < cols ==> #[trigger] horner_fits(rad, decode_digits(*b, n, j), n as nat) {
                    r matches Ok(v) && v.dims() == decode_dims(*b)
                        && v.ravel() == Seq::new(cols as nat, |j: int| Cell::Int(horner(rad, decode_digits(*b, n, j), n as nat) as i64))
                } else {
                    r == Err::<ValueP, ErrorCode>(ErrorCode::LimitError)
                }
            }),
{
    a.lemma_wf();
    b.lemma_wf();
    if a.rank() > 1 {
        return Err(ErrorCode::NonceError);
    }
    let acells = a.cells();
    let bcells = b.cells();
    let na: i64 = acells.len() as i64;
    let nb: i64 = if b.rank() == 0 { 1 } else { b.get_shape_item(0) };
    let n: i64 = if na == 1 {
        nb
    } else if nb == 1 || na == nb {
        na
    } else {
        return Err(ErrorCode::LengthError);
    };
    let av = crate::value::int_values(acells)?;
    let bv = crate::value::int_values(bcells)?;
    let ghost d = b.dims();
    let cols: i64 = if b.rank() == 0 {
        1
    } else {
        let t = tail_dims(b);
        proof { lemma_split_first(d); }
        crate::take_drop::suffix_prod_of(t.as_slice(), 0)
    };
    proof {
        if d.len() == 0 {
            assert(prod(d) == 1);
        } else {
            lemma_split_first(d);
            assert(d.drop_first().skip(0) =~= d.drop_first());
            crate::shape::lemma_prod_nonneg(d.drop_first());
        }
        assert(bv@.len() == nb * cols) by {
            if d.len() > 0 {
                assert(prod(d) == d[0] * prod(d.drop_first()));
            }
        }
    }
    assert(nb >= 0) by {
        if d.len() > 0 { assert(d[0] >= 0); }
    }
    let ghost rad = decode_radices(*a, n as int);
    let mut out: Vec<Cell> = Vec::new();
    let mut j: i64 = 0;
    while j < cols
        invariant
            0 <= j <= cols,
            n >= 0,
            a.dims().len() <= 1,
            all_ints(a.ravel()),
            all_ints(b.ravel()),
            b.ravel().len() <= i64::MAX,
            cols == decode_cols(*b),
            n as int == decode_len(na as int, lead(*b))->Some_0,
            decode_len(na as int, lead(*b)) is Some,
            na as int == a.ravel().len(),
            nb as int == lead(*b),
            av@.len() == a.ravel().len(),
            bv@.len() == b.ravel().len(),
            bv@.len() == nb * cols,
            forall|k: int| 0 <= k < av@.len() ==> av@[k] as int == int_of(#[trigger] a.ravel()[k]),
            forall|k: int| 0 <= k < bv@.len() ==> bv@[k] as int == int_of(#[trigger] b.ravel()[k]),
            rad == decode_radices(*a, n as int),
            out@.len() == j,
            forall|q: int| 0 <= q < j ==> horner_fits(rad, decode_digits(*b, n as int, q), n as nat),
            forall|q: int| 0 <= q < j ==> #[trigger] out@[q]
                == Cell::Int(horner(rad, decode_digits(*b, n as int, q), n as nat) as i64),
        decreases cols - j,
    {
        let ghost dig = decode_digits(*b, n as int, j as int);
        let mut acc: i64 = 0;
        let mut i: i64 = 0;
        while i < n
            invariant
                0 <= i <= n,
                0 <= j < cols,
                a.dims().len() <= 1,
                all_ints(a.ravel()),
                all_ints(b.ravel()),
                b.ravel().len() <= i64::MAX,
                n as int == decode_len(na as int, lead(*b))->Some_0,
                decode_len(na as int, lead(*b)) is Some,
                na as int == a.ravel().len(),
                nb as int == lead(*b),
                av@.len() == a.ravel().len(),
                bv@.len() == b.ravel().len(),
                bv@.len() == nb * cols,
                forall|k: int| 0 <= k < av@.len() ==> av@[k] as int == int_of(#[trigger] a.ravel()[k]),
                forall|k: int| 0 <= k < bv@.len() ==> bv@[k] as int == int_of(#[trigger] b.ravel()[k]),
                cols == decode_cols(*b),
                rad == decode_radices(*a, n as int),
                dig == decode_digits(*b, n as int, j as int),
                acc as int == horner(rad, dig, i as nat),
                horner_fits(rad, dig, i as nat),
            decreases n - i,
        {
            let ri: i64 = if na == 1 { av[0] } else { av[i as usize] };
            let row: i64 = if nb == 1 { 0 } else { i };
            assert(0 <= row < nb) by {
                if nb != 1 && na != 1 { assert(na == nb); }
            }
            proof {
                crate::layout::lemma_rowmajor(row as int, j as int, cols as int, nb as int);
            }
            let di: i64 = bv[(row * cols + j) as usize];
            assert(ri as int == rad[i as int]);
            assert(di as int == dig[i as int]);
            match acc.checked_mul(ri) {
                None => {
                    proof { lemma_not_fits(rad, dig, n as nat, i as nat); }
                    return Err(ErrorCode::LimitError);
                },
                Some(p) => match p.checked_add(di) {
                    None => {
                        proof { lemma_not_fits(rad, dig, n as nat, i as nat); }
                        return Err(ErrorCode::LimitError);
                    },
                    Some(s) => { acc = s; },
                },
            }
            i += 1;
        }
        out.push(Cell::Int(acc));
        j += 1;
    }
    let shape = if b.rank() == 0 {
        Shape::scalar()
    } else {
        let t = tail_dims(b);
        proof { lemma_split_first(d); }
        match Shape::from_dims(t.as_slice()) {
            Ok(s) => s,
            Err(e) => { return Err(e); },
        }
    };
    proof {
        use_type_invariant(shape);
        crate::shape::lemma_prod_nonneg(shape@);
        assert(out@ =~= Seq::new(cols as nat, |q: int| Cell::Int(horner(rad, decode_digits(*b, n as int, q), n as nat) as i64)));
    }
    match ValueP::from_parts(shape, out) {
        Ok(v) => Ok(v),
        Err(e) => Err(e),
    }
}

/// A step that leaves `i64` at `i < n` leaves the whole run unfit.
proof fn lemma_not_fits(a: Seq<int>, d: Seq<int>, n: nat, i: nat)
    requires
        i < n,
        horner_fits(a, d, i),
        !horner_fits(a, d, i + 1),
    ensures
        !horner_fits(a, d, n),
{
    if horner_fits(a, d, n) {
        lemma_fits_prefix(a, d, n, i + 1);
    }
}


/// The digits of `x` in the radices `a`, one per radix: the last radix is
/// taken first, its residue is the last digit and the quotient what is left
/// for the radices before it. A radix 0 takes all that is left.
pub open spec fn enc_digits(a: Seq<int>, x: int) -> Seq<int>
    decreases a.len(),
{
    if a.len() == 0 {
        Seq::empty()
    } else {
        let rd = a.last();
        let dg = residue(rd, x);
        let q = if rd == 0 { 0 } else { (x - dg) / rd };
        enc_digits(a.drop_last(), q).push(dg)
    }
}

/// Every quotient on the way of `enc_digits(a, x)` stays within `i64`.
pub open spec fn enc_fits(a: Seq<int>, x: int) -> bool
    decreases a.len(),
{
    a.len() == 0 || ({
        let rd = a.last();
        let q = if rd == 0 { 0 } else { (x - residue(rd, x)) / rd };
        in_i64(q) && enc_fits(a.drop_last(), q)
    })
}

/// The radices of `A⊤B`: the integers of A.
pub open spec fn enc_radices(a: ValueP) -> Seq<int> {
    Seq::new(a.ravel().len(), |i: int| int_of(a.ravel()[i]))
}

/// The dimensions of `A⊤B`: those of A, then those of B.
pub open spec fn encode_dims(a: ValueP, b: ValueP) -> Seq<i64> {
    a.dims() + b.dims()
}

/// The digits of one integer, computed from the last radix back.
fn digits_of(av: &Vec<i64>, x0: i64) -> (r: Option<Vec<i64>>)
    ensures
        ({
            let rad = Seq::new(av@.len(), |i: int| av@[i] as int);
            &&& r is Some <==> enc_fits(rad, x0 as int)
            &&& r matches Some(d) ==> d@.len() == av@.len()
                && forall|k: int| 0 <= k < av@.len() ==> #[trigger] d@[k] as int == enc_digits(rad, x0 as int)[k]
        }),
{
    let ghost rad = Seq::new(av@.len(), |i: int| av@[i] as int);
    let m = av.len();
    let mut digs: Vec<i64> = Vec::new();
    let mut z: usize = 0;
    while z < m
        invariant
            z <= m == av@.len(),
            digs@.len() == z,
        decreases m - z,
    {
        digs.push(0);
        z += 1;
    }
    let mut x: i64 = x0;
    let mut k: usize = m;
    proof {
        assert(rad.take(m as int) =~= rad);
        assert(enc_digits(rad, x0 as int) + digs@.subrange(m as int, m as int).map_values(|v: i64| v as int)
            =~= enc_digits(rad, x0 as int));
    }
    while k > 0
        invariant
            k <= m == av@.len(),
            digs@.len() == m,
            rad == Seq::new(av@.len(), |i: int| av@[i] as int),
            enc_fits(rad, x0 as int) == enc_fits(rad.take(k as int), x as int),
            enc_fits(rad.take(k as int), x as int) ==> enc_digits(rad, x0 as int)
                == enc_digits(rad.take(k as int), x as int) + digs@.subrange(k as int, m as int).map_values(|v: i64| v as int),
        decreases k,
    {
        let ghost pre = rad.take(k as int);
        proof {
            assert(pre.drop_last() =~= rad.take(k - 1));
            assert(pre.last() == av@[k - 1] as int);
        }
        let rd = av[k - 1];
        let dg = crate::scalar::residue_exec(rd, x);
        let q: i64 = if rd == 0 {
            0
        } else {
            let t: i128 = x as i128 - dg as i128;
            match t.checked_div_euclid(rd as i128) {
                Some(q128) => {
                    if q128 < i64::MIN as i128 || q128 > i64::MAX as i128 {
                        return None;
                    }
                    q128 as i64
                },
                None => { return None; },
            }
        };
        let ghost old_digs = digs@;
        digs.set(k - 1, dg);
        proof {
            assert(digs@.subrange(k - 1, m as int).map_values(|v: i64| v as int)
                =~= seq![dg as int] + old_digs.subrange(k as int, m as int).map_values(|v: i64| v as int));
            if enc_fits(pre, x as int) {
                assert(enc_digits(pre, x as int) == enc_digits(rad.take(k - 1), q as int).push(dg as int));
                assert(enc_digits(rad.take(k - 1), q as int).push(dg as int)
                    + old_digs.subrange(k as int, m as int).map_values(|v: i64| v as int)
                    =~= enc_digits(rad.take(k - 1), q as int)
                    + digs@.subrange(k - 1, m as int).map_values(|v: i64| v as int));
            }
        }
        x = q;
        k -= 1;
    }
    proof {
        assert(rad.take(0) =~= Seq::<int>::empty());
        assert(digs@.subrange(0, m as int) =~= digs@);
        assert(rad.take(m as int) =~= rad);
    }
    Some(digs)
}

/// `A⊤B` on integers: each element of B written as digits in the radices
/// A, the digits of B's element `j` standing at `j` in each of the result's
/// rows, one row per radix (its dimensions those of A, then those of B). A
/// of rank above 1 is a NONCE ERROR, a cell that is not an integer a DOMAIN
/// ERROR, and a result too large, or a quotient that leaves `i64`, a LIMIT
/// ERROR.
pub fn encode(a: &ValueP, b: &ValueP) -> (r: AplResult<ValueP>)
    ensures
        a.dims().len() > 1 ==> r == Err::<ValueP, ErrorCode>(ErrorCode::NonceError),
        a.dims().len() <= 1 && !(all_ints(a.ravel()) && all_ints(b.ravel()))
            ==> r == Err::<ValueP, ErrorCode>(ErrorCode::DomainError),
        a.dims().len() <= 1 && all_ints(a.ravel()) && all_ints(b.ravel()) && !dims_ok(encode_dims(*a, *b))
            ==> r == Err::<ValueP, ErrorCode>(ErrorCode::LimitError),
        a.dims().len() <= 1 && all_ints(a.ravel()) && all_ints(b.ravel()) && dims_ok(encode_dims(*a, *b)) ==> ({
            let m = a.ravel().len() as int;
            let nb = b.ravel().len() as int;
            let rad = enc_radices(*a);
            if forall|j: int| 0 <= j < nb ==> #[trigger] enc_fits(rad, int_of(b.ravel()[j])) {
                r matches Ok(v) && v.dims() == encode_dims(*a, *b) && v.ravel().len() == m * nb
                    && forall|k: int, j: int| 0 <= k < m && 0 <= j < nb ==>
                        #[trigger] v.ravel()[k * nb + j] == Cell::Int(enc_digits(rad, int_of(b.ravel()[j]))[k] as i64)
            } else {
                r == Err::<ValueP, ErrorCode>(ErrorCode::LimitError)
            }
        }),
{
    a.lemma_wf();
    b.lemma_wf();
    if a.rank() > 1 {
        return Err(ErrorCode::NonceError);
    }
    let av = crate::value::int_values(a.cells())?;
    let bv = crate::value::int_values(b.cells())?;
    let ghost rad = enc_radices(*a);
    proof {
        assert(Seq::new(av@.len(), |i: int| av@[i] as int) =~= rad);
    }
    // the dimensions of the result, and their size bound
    let mut dims: Vec<i64> = Vec::new();
    if a.rank() == 1 {
        dims.push(a.get_shape_item(0));
    }
    let brank = b.rank();
    let mut i: u32 = 0;
    while i < brank
        invariant
            i <= brank,
            brank as int == b.dims().len(),
            brank <= 8,
            dims@ == a.dims() + b.dims().take(i as int),
        decreases brank - i,
    {
        dims.push(b.get_shape_item(i as i16));
        proof { assert(dims@ =~= a.dims() + b.dims().take(i as int + 1)); }
        i += 1;
    }
    proof { assert(b.dims().take(brank as int) =~= b.dims()); }
    if dims.len() > MAX_RANK {
        return Err(ErrorCode::LimitError);
    }
    let mut bound: i64 = 1;
    let mut p: usize = 0;
    while p < dims.len()
        invariant
            p <= dims@.len(),
            a.dims().len() <= 1,
            all_ints(a.ravel()),
            all_ints(b.ravel()),
            dims@ == encode_dims(*a, *b),
            bound as int == absprod(dims@.take(p as int)),
        decreases dims@.len() - p,
    {
        let d = dims[p];
        let w: i64 = if d == 0 { 1 } else if d < 0 {
            if d == i64::MIN {
                proof { lemma_too_big(dims@, p as int); }
                return Err(ErrorCode::LimitError);
            }
            -d
        } else { d };
        proof {
            assert(dims@.take(p as int + 1).drop_last() =~= dims@.take(p as int));
            assert(w as int == weight(d));
        }
        match bound.checked_mul(w) {
            Some(nbd) => { bound = nbd; },
            None => {
                proof {
                    crate::shape::lemma_absprod_take(dims@, p as int + 1);
                }
                return Err(ErrorCode::LimitError);
            },
        }
        p += 1;
    }
    proof { assert(dims@.take(dims@.len() as int) =~= dims@); }
    assert(dims_ok(encode_dims(*a, *b)));
    let m = av.len();
    let nb = bv.len();
    // the digits of each element of B
    let mut cols: Vec<Vec<i64>> = Vec::new();
    let mut j: usize = 0;
    while j < nb
        invariant
            j <= nb == bv@.len() == b.ravel().len(),
            a.dims().len() <= 1,
            all_ints(a.ravel()),
            all_ints(b.ravel()),
            dims_ok(encode_dims(*a, *b)),
            m == av@.len() == a.ravel().len(),
            rad == Seq::new(av@.len(), |i: int| av@[i] as int),
            rad == enc_radices(*a),
            forall|q: int| 0 <= q < nb ==> bv@[q] as int == int_of(#[trigger] b.ravel()[q]),
            cols@.len() == j,
            forall|q: int| 0 <= q < j ==> enc_fits(rad, int_of(#[trigger] b.ravel()[q])),
            forall|q: int| 0 <= q < j ==> (#[trigger] cols@[q])@.len() == m,
            forall|q: int, k: int| 0 <= q < j && 0 <= k < m ==>
                #[trigger] cols@[q]@[k] as int == enc_digits(rad, int_of(b.ravel()[q]))[k],
        decreases nb - j,
    {
        match digits_of(&av, bv[j]) {
            Some(dg) => { cols.push(dg); },
            None => {
                assert(bv@[j as int] as int == int_of(b.ravel()[j as int]));
                assert(!enc_fits(rad, int_of(b.ravel()[j as int])));
                assert(!(forall|q: int| 0 <= q < b.ravel().len() ==> #[trigger] enc_fits(enc_radices(*a), int_of(b.ravel()[q]))));
                return Err(ErrorCode::LimitError);
            },
        }
        j += 1;
    }
    // row k of the result holds digit k of every element
    let mut out: Vec<Cell> = Vec::new();
    let mut k: usize = 0;
    proof {
        crate::shape::lemma_prod_append(a.dims(), b.dims());
        if a.dims().len() == 1 {
            reveal_with_fuel(prod, 2);
            assert(a.dims().drop_last() =~= Seq::<i64>::empty());
        } else {
            assert(a.dims() =~= Seq::<i64>::empty());
        }
        assert(prod(a.dims()) == m);
        assert(m * nb <= i64::MAX) by {
            crate::shape::lemma_prod_bounded(dims@);
        }
    }
    while k < m
        invariant
            k <= m == av@.len() == a.ravel().len(),
            nb == b.ravel().len(),
            rad == enc_radices(*a),
            m * nb <= i64::MAX,
            cols@.len() == nb,
            forall|q: int| 0 <= q < nb ==> (#[trigger] cols@[q])@.len() == m,
            forall|q: int, t: int| 0 <= q < nb && 0 <= t < m ==>
                #[trigger] cols@[q]@[t] as int == enc_digits(rad, int_of(b.ravel()[q]))[t],
            out@.len() == k * nb,
            forall|t: int, q: int| 0 <= t < k && 0 <= q < nb ==>
                #[trigger] out@[t * nb + q] == Cell::Int(enc_digits(rad, int_of(b.ravel()[q]))[t] as i64),
        decreases m - k,
    {
        let mut q: usize = 0;
        while q < nb
            invariant
                k < m,
                q <= nb == b.ravel().len(),
                m * nb <= i64::MAX,
                cols@.len() == nb,
                forall|q2: int| 0 <= q2 < nb ==> (#[trigger] cols@[q2])@.len() == m,
                forall|q2: int, t: int| 0 <= q2 < nb && 0 <= t < m ==>
                    #[trigger] cols@[q2]@[t] as int == enc_digits(rad, int_of(b.ravel()[q2]))[t],
                out@.len() == k * nb + q,
                forall|t: int, q2: int| 0 <= t < k && 0 <= q2 < nb ==>
                    #[trigger] out@[t * nb + q2] == Cell::Int(enc_digits(rad, int_of(b.ravel()[q2]))[t] as i64),
                forall|q2: int| 0 <= q2 < q ==>
                    #[trigger] out@[k * nb + q2] == Cell::Int(enc_digits(rad, int_of(b.ravel()[q2]))[k as int] as i64),
            decreases nb - q,
        {
            proof { crate::layout::lemma_rowmajor(k as int, q as int, nb as int, m as int); }
            let ghost before = out@;
            out.push(Cell::Int(cols[q][k]));
            proof {
                assert forall|t: int, q2: int| 0 <= t < k && 0 <= q2 < nb implies
                    #[trigger] out@[t * nb + q2] == Cell::Int(enc_digits(rad, int_of(b.ravel()[q2]))[t] as i64) by {
                    crate::layout::lemma_rowmajor(t, q2, nb as int, k as int);
                    assert(out@[t * nb + q2] == before[t * nb + q2]);
                }
            }
            q += 1;
        }
        proof {
            assert forall|t: int, q2: int| 0 <= t < k + 1 && 0 <= q2 < nb implies
                #[trigger] out@[t * nb + q2] == Cell::Int(enc_digits(rad, int_of(b.ravel()[q2]))[t] as i64) by {
                if t == k {
                } else {
                    crate::layout::lemma_rowmajor(t, q2, nb as int, k as int);
                }
            }
            assert((k + 1) * nb == k * nb + nb) by (nonlinear_arith);
        }
        k += 1;
    }
    let shape = match Shape::from_dims(dims.as_slice()) {
        Ok(s) => s,
        Err(e) => { return Err(e); },
    };
    proof {
        use_type_invariant(shape);
        crate::shape::lemma_prod_nonneg(shape@);
        assert(crate::shape::nonneg(shape@));
    }
    match ValueP::from_parts(shape, out) {
        Ok(v) => Ok(v),
        Err(e) => Err(e),
    }
}

/// A dimension of `i64::MIN` puts the weight product past `i64`.
proof fn lemma_too_big(d: Seq<i64>, p: int)
    requires
        0 <= p < d.len(),
        d[p] == i64::MIN,
    ensures
        absprod(d) > i64::MAX,
{
    crate::shape::lemma_absprod_take(d, p + 1);
    assert(d.take(p + 1).drop_last() =~= d.take(p));
    crate::shape::lemma_absprod_pos(d.take(p));
    let a0 = absprod(d.take(p));
    assert(a0 * weight(d[p]) >= weight(d[p])) by (nonlinear_arith) requires a0 >= 1, weight(d[p]) >= 1;
}

} // verus!
