//! Scalar (element-wise) functions with scalar extension.

use vstd::prelude::*;
use crate::cell::Cell;
use crate::shape::{prod, Shape};
use crate::types::{AplResult, ErrorCode};
use crate::value::{ValueInner, ValueP};

verus! {

/// The dyadic scalar functions.
#[derive(Clone, Copy, Debug, PartialEq, Eq, Structural)]
pub enum ScalarFn {
    Add,
    Subtract,
    Multiply,
    Maximum,
    Minimum,
    Equal,
    NotEqual,
    Less,
    LessEq,
    Greater,
    GreaterEq,
    And,
    Or,
    Residue,
    Power,
}

pub open spec fn in_i64(x: int) -> bool {
    i64::MIN <= x <= i64::MAX
}

pub open spec fn bool_int(b: bool) -> i64 {
    if b { 1 } else { 0 }
}

/// The result of applying `f` to two cells: an integer cell, or the error.
/// Arithmetic needs integers (DOMAIN ERROR otherwise) and a result within
/// `i64` (LIMIT ERROR otherwise); `=` and `≠` also compare characters;
/// `∧` and `∨` need booleans.
pub open spec fn apply_cells(f: ScalarFn, x: Cell, y: Cell) -> Result<Cell, ErrorCode> {
    match f {
        ScalarFn::Equal => match (x, y) {
            (Cell::Int(a), Cell::Int(b)) => Ok(Cell::Int(bool_int(a == b))),
            (Cell::Char(a), Cell::Char(b)) => Ok(Cell::Int(bool_int(a == b))),
            (Cell::Int(_), Cell::Char(_)) => Ok(Cell::Int(0)),
            (Cell::Char(_), Cell::Int(_)) => Ok(Cell::Int(0)),
            _ => Err(ErrorCode::DomainError),
        },
        ScalarFn::NotEqual => match (x, y) {
            (Cell::Int(a), Cell::Int(b)) => Ok(Cell::Int(bool_int(a != b))),
            (Cell::Char(a), Cell::Char(b)) => Ok(Cell::Int(bool_int(a != b))),
            (Cell::Int(_), Cell::Char(_)) => Ok(Cell::Int(1)),
            (Cell::Char(_), Cell::Int(_)) => Ok(Cell::Int(1)),
            _ => Err(ErrorCode::DomainError),
        },
        _ => match (x, y) {
            (Cell::Int(a), Cell::Int(b)) => apply_ints(f, a, b),
            _ => Err(ErrorCode::DomainError),
        },
    }
}

/// `a|b`, the residue: `b` modulo `a` with the sign of `a`; `b` itself when
/// `a` is 0.
pub open spec fn residue(a: int, b: int) -> int {
    if a == 0 {
        b
    } else if a > 0 {
        b % a
    } else if b % (-a) == 0 {
        0
    } else {
        b % (-a) + a
    }
}

/// `a` raised to the power `n`.
pub open spec fn ipow(a: int, n: nat) -> int
    decreases n,
{
    if n == 0 {
        1
    } else {
        a * ipow(a, (n - 1) as nat)
    }
}

/// The result of applying `f` to two integers.
pub open spec fn apply_ints(f: ScalarFn, a: i64, b: i64) -> Result<Cell, ErrorCode> {
    let r: int = match f {
        ScalarFn::Add => a + b,
        ScalarFn::Subtract => a - b,
        ScalarFn::Multiply => a * b,
        ScalarFn::Maximum => if a >= b { a as int } else { b as int },
        ScalarFn::Minimum => if a <= b { a as int } else { b as int },
        ScalarFn::Less => bool_int(a < b) as int,
        ScalarFn::LessEq => bool_int(a <= b) as int,
        ScalarFn::Greater => bool_int(a > b) as int,
        ScalarFn::GreaterEq => bool_int(a >= b) as int,
        ScalarFn::Equal => bool_int(a == b) as int,
        ScalarFn::NotEqual => bool_int(a != b) as int,
        ScalarFn::And => bool_int(a == 1 && b == 1) as int,
        ScalarFn::Or => bool_int(a == 1 || b == 1) as int,
        ScalarFn::Residue => residue(a as int, b as int),
        ScalarFn::Power => if b >= 0 { ipow(a as int, b as nat) } else { 0 },
    };
    if (f == ScalarFn::And || f == ScalarFn::Or) && !((a == 0 || a == 1) && (b == 0 || b == 1)) {
        Err(ErrorCode::DomainError)
    } else if f == ScalarFn::Power && b < 0 {
        Err(ErrorCode::DomainError)
    } else if !in_i64(r) {
        Err(ErrorCode::LimitError)
    } else {
        Ok(Cell::Int(r as i64))
    }
}

/// Apply `f` pairwise: the first error met from the left, or all results.
pub open spec fn zip_apply(f: ScalarFn, xs: Seq<Cell>, ys: Seq<Cell>) -> Result<Seq<Cell>, ErrorCode>
    decreases xs.len(),
{
    if xs.len() == 0 || ys.len() == 0 {
        Ok(Seq::empty())
    } else {
        match apply_cells(f, xs[0], ys[0]) {
            Err(e) => Err(e),
            Ok(c) => match zip_apply(f, xs.drop_first(), ys.drop_first()) {
                Err(e) => Err(e),
                Ok(rest) => Ok(seq![c] + rest),
            },
        }
    }
}

/// How the arguments of a dyadic scalar function conform: equal shapes, or
/// one side has a single element and extends to the other's shape.
pub open spec fn conform(a: ValueP, b: ValueP) -> Result<Seq<i64>, ErrorCode> {
    if a.dims() == b.dims() {
        Ok(a.dims())
    } else if a.ravel().len() == 1 {
        Ok(b.dims())
    } else if b.ravel().len() == 1 {
        Ok(a.dims())
    } else if a.dims().len() != b.dims().len() {
        Err(ErrorCode::RankError)
    } else {
        Err(ErrorCode::LengthError)
    }
}

/// The left operand, extended to `n` elements where it has one.
pub open spec fn extend(v: ValueP, n: nat) -> Seq<Cell> {
    if v.ravel().len() == 1 && n != 1 { Seq::new(n, |i: int| v.ravel()[0]) } else { v.ravel() }
}

/// The outcome of `A f B`: the conformed shape and the pairwise results.
pub open spec fn dyadic_outcome(f: ScalarFn, a: ValueP, b: ValueP) -> Result<(Seq<i64>, Seq<Cell>), ErrorCode> {
    match conform(a, b) {
        Err(e) => Err(e),
        Ok(d) => {
            let n = if a.dims() == b.dims() { a.ravel().len() } else if a.ravel().len() == 1 { b.ravel().len() } else { a.ravel().len() };
            match zip_apply(f, extend(a, n), extend(b, n)) {
                Err(e) => Err(e),
                Ok(cells) => Ok((d, cells)),
            }
        },
    }
}

/// `A f B` succeeds.
pub open spec fn dyadic_ok(f: ScalarFn, a: ValueP, b: ValueP) -> bool {
    dyadic_outcome(f, a, b) is Ok
}

/// `z` is the result of `A f B`.
pub open spec fn dyadic_result(f: ScalarFn, a: ValueP, b: ValueP, z: ValueP) -> bool {
    dyadic_outcome(f, a, b) matches Ok((d, cells)) && z.dims() == d && z.ravel() == cells
}

/// `a|b` on machine integers.
pub(crate) fn residue_exec(a: i64, b: i64) -> (r: i64)
    ensures
        r == residue(a as int, b as int),
{
    if a == 0 {
        return b;
    }
    let ax: u64 = if a < 0 { (-(a as i128)) as u64 } else { a as u64 };
    let m: u64 = if b >= 0 {
        (b as u64) % ax
    } else {
        let nb: u64 = (-(b as i128)) as u64;
        let t = nb % ax;
        proof {
            let q = (nb as int) / (ax as int);
            vstd::arithmetic::div_mod::lemma_fundamental_div_mod(nb as int, ax as int);
            if t == 0 {
                assert(b as int == (-q) * (ax as int) + 0) by (nonlinear_arith)
                    requires nb as int == (ax as int) * q + 0, b as int == -(nb as int);
                vstd::arithmetic::div_mod::lemma_fundamental_div_mod_converse(b as int, ax as int, -q, 0);
            } else {
                assert(b as int == (-q - 1) * (ax as int) + ((ax as int) - (t as int))) by (nonlinear_arith)
                    requires nb as int == (ax as int) * q + (t as int), b as int == -(nb as int);
                vstd::arithmetic::div_mod::lemma_fundamental_div_mod_converse(b as int, ax as int, -q - 1, (ax as int) - (t as int));
            }
        }
        if t == 0 { 0 } else { ax - t }
    };
    proof {
        assert(m as int == (b as int) % (ax as int));
        assert(m < ax);
    }
    if a > 0 {
        m as i64
    } else if m == 0 {
        0
    } else {
        (m as i128 + a as i128) as i64
    }
}

/// `-1` raised to the power `n` is 1 or -1 as `n` is even or odd.
proof fn lemma_pow_neg_one(n: nat)
    ensures
        ipow(-1, n) == (if n % 2 == 0 { 1int } else { -1int }),
    decreases n,
{
    if n > 0 {
        lemma_pow_neg_one((n - 1) as nat);
    }
}

/// `0` and `1` raised to a power.
proof fn lemma_pow_small(a: int, n: nat)
    requires
        a == 0 || a == 1,
    ensures
        ipow(a, n) == (if a == 1 || n == 0 { 1int } else { 0int }),
    decreases n,
{
    if n > 0 {
        lemma_pow_small(a, (n - 1) as nat);
    }
}

/// Powers of a number other than 0 do not shrink in size.
proof fn lemma_pow_abs_mono(a: int, j: nat, m: nat)
    requires
        j <= m,
        a >= 1 || a <= -1,
    ensures
        ipow(a, m) >= ipow(a, j) || ipow(a, m) <= -ipow(a, j),
        ipow(a, m) <= ipow(a, j) || ipow(a, m) >= -ipow(a, j),
        (ipow(a, j) >= 0 ==> (ipow(a, m) >= ipow(a, j) || ipow(a, m) <= -ipow(a, j))),
        (ipow(a, j) < 0 ==> (ipow(a, m) <= ipow(a, j) || ipow(a, m) >= -ipow(a, j))),
    decreases m - j,
{
    if j < m {
        lemma_pow_abs_mono(a, j, (m - 1) as nat);
        let p = ipow(a, (m - 1) as nat);
        assert(ipow(a, m) == a * p);
        assert(a >= 1 && p >= 0 ==> a * p >= p) by (nonlinear_arith);
        assert(a >= 1 && p < 0 ==> a * p <= p) by (nonlinear_arith);
        assert(a <= -1 && p >= 0 ==> a * p <= -p) by (nonlinear_arith);
        assert(a <= -1 && p < 0 ==> a * p >= -p) by (nonlinear_arith);
    }
}

/// `a*b` for integers and a natural power `b`: None when the power leaves
/// the range of `i64`.
fn power_exec(a: i64, b: i64) -> (r: Option<i64>)
    requires
        b >= 0,
    ensures
        r matches Some(v) ==> v == ipow(a as int, b as nat),
        r is None ==> !in_i64(ipow(a as int, b as nat)),
{
    if a == 0 || a == 1 {
        proof { lemma_pow_small(a as int, b as nat); }
        return Some(if a == 1 || b == 0 { 1 } else { 0 });
    }
    if a == -1 {
        proof { lemma_pow_neg_one(b as nat); }
        return Some(if b % 2 == 0 { 1 } else { -1 });
    }
    let mut acc: i128 = 1;
    let mut k: i64 = 0;
    while k < b
        invariant
            0 <= k <= b,
            a >= 2 || a <= -2,
            acc == ipow(a as int, k as nat),
            in_i64(acc as int),
        decreases b - k,
    {
        let wide: i128 = a as i128;
        assert(-0x8000_0000_0000_0000 <= wide <= 0x7fff_ffff_ffff_ffff);
        assert(wide * acc <= 0x4000_0000_0000_0000_0000_0000_0000_0000
            && wide * acc >= -0x4000_0000_0000_0000_0000_0000_0000_0000) by (nonlinear_arith)
            requires
                -0x8000_0000_0000_0000 <= wide <= 0x7fff_ffff_ffff_ffff,
                -0x8000_0000_0000_0000 <= acc <= 0x7fff_ffff_ffff_ffff;
        let next: i128 = wide * acc;
        assert(next == ipow(a as int, (k + 1) as nat));
        if next > 0x7fff_ffff_ffff_ffff || next < -0x8000_0000_0000_0000 {
            proof {
                if b > k + 1 {
                    lemma_pow_abs_mono(a as int, (k + 1) as nat, b as nat);
                    let x = next as int;
                    let y = ipow(a as int, b as nat);
                    lemma_pow_abs_mono(a as int, (k + 1) as nat, (k + 2) as nat);
                    let z = ipow(a as int, (k + 2) as nat);
                    assert(z == (a as int) * x);
                    let aa = a as int;
                    assert(z > 0xffff_ffff_ffff_ffff || z < -0xffff_ffff_ffff_ffff) by (nonlinear_arith)
                        requires
                            z == aa * x,
                            aa >= 2 || aa <= -2,
                            x > 0x7fff_ffff_ffff_ffff || x < -0x8000_0000_0000_0000;
                    lemma_pow_abs_mono(a as int, (k + 2) as nat, b as nat);
                }
            }
            return None;
        }
        acc = next;
        k += 1;
    }
    Some(acc as i64)
}

fn apply_ints_exec(f: ScalarFn, a: i64, b: i64) -> (r: Result<Cell, ErrorCode>)
    ensures
        r == apply_ints(f, a, b),
{
    match f {
        ScalarFn::And | ScalarFn::Or => {
            if !((a == 0 || a == 1) && (b == 0 || b == 1)) {
                return Err(ErrorCode::DomainError);
            }
        }
        ScalarFn::Power => {
            if b < 0 {
                return Err(ErrorCode::DomainError);
            }
        }
        _ => {}
    }
    let r: Option<i64> = match f {
        ScalarFn::Add => a.checked_add(b),
        ScalarFn::Subtract => a.checked_sub(b),
        ScalarFn::Multiply => a.checked_mul(b),
        ScalarFn::Maximum => Some(if a >= b { a } else { b }),
        ScalarFn::Minimum => Some(if a <= b { a } else { b }),
        ScalarFn::Less => Some(if a < b { 1 } else { 0 }),
        ScalarFn::LessEq => Some(if a <= b { 1 } else { 0 }),
        ScalarFn::Greater => Some(if a > b { 1 } else { 0 }),
        ScalarFn::GreaterEq => Some(if a >= b { 1 } else { 0 }),
        ScalarFn::Equal => Some(if a == b { 1 } else { 0 }),
        ScalarFn::NotEqual => Some(if a != b { 1 } else { 0 }),
        ScalarFn::And => Some(if a == 1 && b == 1 { 1 } else { 0 }),
        ScalarFn::Or => Some(if a == 1 || b == 1 { 1 } else { 0 }),
        ScalarFn::Residue => Some(residue_exec(a, b)),
        ScalarFn::Power => power_exec(a, b),
    };
    match r {
        None => Err(ErrorCode::LimitError),
        Some(v) => Ok(Cell::Int(v)),
    }
}

/// Apply a dyadic scalar function to two cells.
pub fn apply_cells_exec(f: ScalarFn, x: &Cell, y: &Cell) -> (r: Result<Cell, ErrorCode>)
    ensures
        r == apply_cells(f, *x, *y),
{
    match f {
        ScalarFn::Equal | ScalarFn::NotEqual => {
            let same: bool = match (x, y) {
                (Cell::Int(a), Cell::Int(b)) => *a == *b,
                (Cell::Char(a), Cell::Char(b)) => *a == *b,
                (Cell::Int(_), Cell::Char(_)) => false,
                (Cell::Char(_), Cell::Int(_)) => false,
                _ => { return Err(ErrorCode::DomainError); }
            };
            let eq = match f { ScalarFn::Equal => true, _ => false };
            Ok(Cell::Int(if same == eq { 1 } else { 0 }))
        }
        _ => match (x, y) {
            (Cell::Int(a), Cell::Int(b)) => apply_ints_exec(f, *a, *b),
            _ => Err(ErrorCode::DomainError),
        },
    }
}

proof fn lemma_zip_step(f: ScalarFn, xs: Seq<Cell>, ys: Seq<Cell>, k: int)
    requires
        0 <= k < xs.len(),
        xs.len() == ys.len(),
        zip_apply(f, xs.take(k), ys.take(k)) is Ok,
    ensures
        zip_apply(f, xs.take(k + 1), ys.take(k + 1)) == (match apply_cells(f, xs[k], ys[k]) {
            Err(e) => Err(e),
            Ok(c) => Ok(zip_apply(f, xs.take(k), ys.take(k))->Ok_0.push(c)),
        }),
    decreases k,
{
    let xk = xs.take(k + 1);
    let yk = ys.take(k + 1);
    if k == 0 {
        assert(xk.drop_first() =~= Seq::<Cell>::empty());
        assert(yk.drop_first() =~= Seq::<Cell>::empty());
        assert(zip_apply(f, xs.take(0), ys.take(0)) == Ok::<Seq<Cell>, ErrorCode>(Seq::<Cell>::empty()));
        assert(zip_apply(f, xk.drop_first(), yk.drop_first()) == Ok::<Seq<Cell>, ErrorCode>(Seq::<Cell>::empty()));
        match apply_cells(f, xs[0], ys[0]) {
            Err(e) => {},
            Ok(c) => { assert(seq![c] + Seq::<Cell>::empty() =~= Seq::<Cell>::empty().push(c)); },
        }
    } else {
        let xd = xs.drop_first();
        let yd = ys.drop_first();
        assert(xk.drop_first() =~= xd.take(k));
        assert(yk.drop_first() =~= yd.take(k));
        assert(xs.take(k).drop_first() =~= xd.take(k - 1));
        assert(ys.take(k).drop_first() =~= yd.take(k - 1));
        assert(xk[0] == xs[0] && yk[0] == ys[0]);
        assert(xs.take(k)[0] == xs[0] && ys.take(k)[0] == ys[0]);
        assert(zip_apply(f, xk.drop_first(), yk.drop_first()) == zip_apply(f, xd.take(k), yd.take(k)));
        assert(zip_apply(f, xs.take(k).drop_first(), ys.take(k).drop_first()) == zip_apply(f, xd.take(k - 1), yd.take(k - 1)));
        match apply_cells(f, xs[0], ys[0]) {
            Err(e) => {},
            Ok(c0) => {
                assert(zip_apply(f, xd.take(k - 1), yd.take(k - 1)) is Ok);
                lemma_zip_step(f, xd, yd, k - 1);
                assert(xd[k - 1] == xs[k] && yd[k - 1] == ys[k]);
                match apply_cells(f, xs[k], ys[k]) {
                    Err(e) => {},
                    Ok(c) => {
                        let rest = zip_apply(f, xd.take(k - 1), yd.take(k - 1))->Ok_0;
                        assert(seq![c0] + rest.push(c) =~= (seq![c0] + rest).push(c));
                    },
                }
            },
        }
    }
}

/// `A f B` with scalar extension, on simple values.
pub fn scalar_dyadic(f: ScalarFn, a: &ValueP, b: &ValueP) -> (r: AplResult<ValueP>)
    ensures
        r matches Ok(z) ==> dyadic_result(f, *a, *b, z),
        r matches Err(e) ==> dyadic_outcome(f, *a, *b) == Err::<(Seq<i64>, Seq<Cell>), ErrorCode>(e),
        dyadic_ok(f, *a, *b) ==> r is Ok,
{
    a.lemma_wf();
    b.lemma_wf();
    let ac = a.cells();
    let bc = b.cells();
    let same = a.shape().same_as(b.shape());
    let shape: Shape;
    let n: usize;
    if same {
        shape = *a.shape();
        n = ac.len();
    } else if ac.len() == 1 {
        shape = *b.shape();
        n = bc.len();
    } else if bc.len() == 1 {
        shape = *a.shape();
        n = ac.len();
    } else if a.rank() != b.rank() {
        return Err(ErrorCode::RankError);
    } else {
        return Err(ErrorCode::LengthError);
    }
    proof { use_type_invariant(shape); }
    let ghost nn: nat = if a.dims() == b.dims() { a.ravel().len() } else if a.ravel().len() == 1 { b.ravel().len() } else { a.ravel().len() };
    assert(nn == n);
    assert(conform(*a, *b) is Ok);
    let ghost xs = extend(*a, n as nat);
    let ghost ys = extend(*b, n as nat);
    assert(xs.len() == n && ys.len() == n);
    let mut out: Vec<Cell> = Vec::new();
    let mut i: usize = 0;
    while i < n
        invariant
            i <= n,
            xs.len() == n,
            ys.len() == n,
            xs == extend(*a, n as nat),
            ys == extend(*b, n as nat),
            ac@ == a.ravel(),
            bc@ == b.ravel(),
            n == ac@.len() || ac@.len() == 1,
            n == bc@.len() || bc@.len() == 1,
            zip_apply(f, xs.take(i as int), ys.take(i as int)) == Ok::<Seq<Cell>, ErrorCode>(out@),
            conform(*a, *b) is Ok,
            n == (if a.dims() == b.dims() { a.ravel().len() } else if a.ravel().len() == 1 { b.ravel().len() } else { a.ravel().len() }),
        decreases n - i,
    {
        let x = if ac.len() == 1 { &ac[0] } else { &ac[i] };
        let y = if bc.len() == 1 { &bc[0] } else { &bc[i] };
        assert(*x == xs[i as int]);
        assert(*y == ys[i as int]);
        proof { lemma_zip_step(f, xs, ys, i as int); }
        let c = apply_cells_exec(f, x, y);
        match c {
            Err(e) => {
                proof {
                    lemma_zip_error_stays(f, xs, ys, i as int + 1);
                    assert(zip_apply(f, xs, ys) == Err::<Seq<Cell>, ErrorCode>(e));
                    assert(dyadic_outcome(f, *a, *b) == Err::<(Seq<i64>, Seq<Cell>), ErrorCode>(e));
                }
                assert(xs.take(n as int) =~= xs && ys.take(n as int) =~= ys);
                return Err(e);
            }
            Ok(c) => {
                out.push(c);
            }
        }
        i += 1;
    }
    assert(xs.take(n as int) =~= xs && ys.take(n as int) =~= ys);
    proof { lemma_zip_len(f, xs, ys); }
    Ok(ValueP::from_parts_with_proto(shape, out, Cell::Int(0)))
}

/// A successful pairwise application has one result per pair.
proof fn lemma_zip_len(f: ScalarFn, xs: Seq<Cell>, ys: Seq<Cell>)
    requires
        xs.len() == ys.len(),
        zip_apply(f, xs, ys) is Ok,
    ensures
        zip_apply(f, xs, ys)->Ok_0.len() == xs.len(),
    decreases xs.len(),
{
    if xs.len() > 0 {
        lemma_zip_len(f, xs.drop_first(), ys.drop_first());
    }
}

/// Once a prefix fails, every longer prefix fails with the same error.
proof fn lemma_zip_error_stays(f: ScalarFn, xs: Seq<Cell>, ys: Seq<Cell>, k: int)
    requires
        0 <= k <= xs.len(),
        xs.len() == ys.len(),
        zip_apply(f, xs.take(k), ys.take(k)) is Err,
    ensures
        zip_apply(f, xs, ys) == zip_apply(f, xs.take(k), ys.take(k)),
    decreases xs.len(),
{
    if k == xs.len() {
        assert(xs.take(k) =~= xs && ys.take(k) =~= ys);
    } else {
        assert(k > 0) by {
            assert(xs.take(0).len() == 0);
        }
        assert(xs.take(k)[0] == xs[0] && ys.take(k)[0] == ys[0]);
        match apply_cells(f, xs[0], ys[0]) {
            Err(e) => {},
            Ok(c) => {
                assert(xs.take(k).drop_first() =~= xs.drop_first().take(k - 1));
                assert(ys.take(k).drop_first() =~= ys.drop_first().take(k - 1));
                lemma_zip_error_stays(f, xs.drop_first(), ys.drop_first(), k - 1);
            },
        }
    }
}

} // verus!
