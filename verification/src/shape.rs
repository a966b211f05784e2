//! Shape: rank, dimensions and volume of an APL value.

use vstd::prelude::*;
use crate::types::{ErrorCode, SAxis, ShapeItem, URank, MAX_RANK};

verus! {

/// The product of a sequence of dimensions.
pub open spec fn prod(s: Seq<i64>) -> int
    decreases s.len(),
{
    if s.len() == 0 {
        1
    } else {
        prod(s.drop_last()) * s.last()
    }
}

/// The weight of one dimension for the size bound: its magnitude, at least 1.
pub open spec fn weight(d: i64) -> int {
    if d == 0 {
        1
    } else if d < 0 {
        -(d as int)
    } else {
        d as int
    }
}

/// The product of the weights of a sequence of dimensions. It bounds the
/// magnitude of the product of every selection of the dimensions.
pub open spec fn absprod(s: Seq<i64>) -> int
    decreases s.len(),
{
    if s.len() == 0 {
        1
    } else {
        absprod(s.drop_last()) * weight(s.last())
    }
}

/// A sequence of dimensions that a shape can hold: at most `MAX_RANK` of
/// them, with the product of their weights within `i64`.
pub open spec fn dims_ok(s: Seq<i64>) -> bool {
    s.len() <= MAX_RANK && absprod(s) <= i64::MAX
}

pub proof fn lemma_absprod_pos(s: Seq<i64>)
    ensures
        absprod(s) >= 1,
    decreases s.len(),
{
    if s.len() > 0 {
        lemma_absprod_pos(s.drop_last());
        let a = absprod(s.drop_last());
        let w = weight(s.last());
        assert(a * w >= 1) by (nonlinear_arith)
            requires
                a >= 1,
                w >= 1,
        ;
    }
}

/// The products of dimension sequences of length one to three.
pub proof fn lemma_prod_small(a: i64, b: i64, c: i64)
    ensures
        prod(seq![a]) == a,
        absprod(seq![a]) == weight(a),
        prod(seq![a, b]) == a * b,
        absprod(seq![a, b]) == weight(a) * weight(b),
        prod(seq![a, b, c]) == a * b * c,
        absprod(seq![a, b, c]) == weight(a) * weight(b) * weight(c),
{
    reveal_with_fuel(prod, 4);
    reveal_with_fuel(absprod, 4);
    assert(seq![a].drop_last() =~= Seq::<i64>::empty());
    assert(seq![a, b].drop_last() =~= seq![a]);
    assert(seq![a, b, c].drop_last() =~= seq![a, b]);
}

/// The magnitude of a product is bounded by the product of the weights.
pub proof fn lemma_prod_bounded(s: Seq<i64>)
    ensures
        -absprod(s) <= prod(s) <= absprod(s),
    decreases s.len(),
{
    if s.len() > 0 {
        let p = prod(s.drop_last());
        let a = absprod(s.drop_last());
        let d = s.last();
        lemma_prod_bounded(s.drop_last());
        lemma_absprod_pos(s.drop_last());
        let w = weight(d);
        let di = d as int;
        assert(prod(s) == p * di);
        assert(absprod(s) == a * w);
        if d >= 0 {
            assert(-(a * w) <= p * di <= a * w) by (nonlinear_arith)
                requires -a <= p <= a, 0 <= di <= w, a >= 1;
        } else {
            assert(-(a * w) <= p * di <= a * w) by (nonlinear_arith)
                requires -a <= p <= a, di < 0, w == -di, a >= 1;
        }
    }
}

/// Appending a dimension does not lower the weight product.
pub proof fn lemma_absprod_push(s: Seq<i64>, d: i64)
    ensures
        absprod(s.push(d)) == absprod(s) * weight(d),
        absprod(s) <= absprod(s.push(d)),
        prod(s.push(d)) == prod(s) * d,
{
    assert(s.push(d).drop_last() =~= s);
    lemma_absprod_pos(s);
    vstd::arithmetic::mul::lemma_mul_increases(weight(d), absprod(s));
    vstd::arithmetic::mul::lemma_mul_is_commutative(weight(d), absprod(s));
}

/// The product of a concatenation is the product of the products.
pub proof fn lemma_prod_append(s1: Seq<i64>, s2: Seq<i64>)
    ensures
        prod(s1 + s2) == prod(s1) * prod(s2),
        absprod(s1 + s2) == absprod(s1) * absprod(s2),
    decreases s2.len(),
{
    if s2.len() == 0 {
        assert(s1 + s2 =~= s1);
    } else {
        assert((s1 + s2).drop_last() =~= s1 + s2.drop_last());
        lemma_prod_append(s1, s2.drop_last());
        let p1 = prod(s1);
        let p2 = prod(s2.drop_last());
        let a1 = absprod(s1);
        let a2 = absprod(s2.drop_last());
        let l = s2.last() as int;
        let w = weight(s2.last());
        assert(p1 * p2 * l == p1 * (p2 * l)) by (nonlinear_arith);
        assert(a1 * a2 * w == a1 * (a2 * w)) by (nonlinear_arith);
    }
}

/// The dimensions split around one axis: before it, the axis, after it.
pub proof fn lemma_prod_around(d: Seq<i64>, axis: int)
    requires
        0 <= axis < d.len(),
    ensures
        prod(d) == prod(d.take(axis)) * d[axis] * prod(d.skip(axis + 1)),
        absprod(d.take(axis)) * absprod(d.skip(axis + 1)) <= absprod(d),
        1 <= absprod(d.take(axis)),
        1 <= absprod(d.skip(axis + 1)),
{
    assert(d =~= d.take(axis) + seq![d[axis]] + d.skip(axis + 1));
    lemma_prod_append(d.take(axis) + seq![d[axis]], d.skip(axis + 1));
    lemma_prod_append(d.take(axis), seq![d[axis]]);
    lemma_prod_small(d[axis], 0, 0);
    lemma_absprod_pos(d.take(axis));
    lemma_absprod_pos(d.skip(axis + 1));
    let a = absprod(d.take(axis));
    let b = absprod(d.skip(axis + 1));
    let w = weight(d[axis]);
    assert(a * b <= a * w * b) by (nonlinear_arith) requires a >= 1, b >= 1, w >= 1;
}

/// A prefix of the dimensions has no larger weight product.
pub proof fn lemma_absprod_take(s: Seq<i64>, k: int)
    requires
        0 <= k <= s.len(),
    ensures
        absprod(s.take(k)) <= absprod(s),
        1 <= absprod(s.take(k)),
    decreases s.len() - k,
{
    lemma_absprod_pos(s.take(k));
    if k < s.len() {
        lemma_absprod_take(s, k + 1);
        assert(s.take(k + 1) =~= s.take(k).push(s[k]));
        lemma_absprod_push(s.take(k), s[k]);
    } else {
        assert(s.take(k) =~= s);
    }
}

/// The product of the dimensions with one of them replaced.
pub proof fn lemma_prod_update(s: Seq<i64>, i: int, d: i64)
    requires
        0 <= i < s.len(),
    ensures
        s[i] != 0 ==> prod(s.update(i, d)) * s[i] == prod(s) * d,
        absprod(s.update(i, d)) * weight(s[i]) == absprod(s) * weight(d),
    decreases s.len(),
{
    let t = s.update(i, d);
    if i == s.len() - 1 {
        assert(t.drop_last() =~= s.drop_last());
        let p = prod(s.drop_last());
        let a = absprod(s.drop_last());
        assert(p * d * s[i] == p * s[i] * d) by (nonlinear_arith);
        assert(a * weight(d) * weight(s[i]) == a * weight(s[i]) * weight(d)) by (nonlinear_arith);
    } else {
        assert(t.drop_last() =~= s.drop_last().update(i, d));
        lemma_prod_update(s.drop_last(), i, d);
        let p1 = prod(t.drop_last());
        let p0 = prod(s.drop_last());
        let a1 = absprod(t.drop_last());
        let a0 = absprod(s.drop_last());
        let l = s.last();
        let si = s[i];
        assert(s.drop_last()[i] == si);
        assert(si != 0 ==> p1 * l * si == p0 * l * d) by (nonlinear_arith)
            requires
                si != 0 ==> p1 * si == p0 * d,
        ;
        assert(a1 * weight(l) * weight(si) == a0 * weight(l) * weight(d)) by (nonlinear_arith)
            requires
                a1 * weight(si) == a0 * weight(d),
        ;
    }
}

/// All dimensions are non-negative.
pub open spec fn nonneg(s: Seq<i64>) -> bool {
    forall|i: int| 0 <= i < s.len() ==> s[i] >= 0
}

/// The product of non-negative dimensions is non-negative.
pub proof fn lemma_prod_nonneg(s: Seq<i64>)
    requires
        nonneg(s),
    ensures
        prod(s) >= 0,
    decreases s.len(),
{
    if s.len() > 0 {
        lemma_prod_nonneg(s.drop_last());
        let p = prod(s.drop_last());
        let d = s.last() as int;
        assert(p * d >= 0) by (nonlinear_arith) requires p >= 0, d >= 0;
    }
}

/// The product of positive dimensions is positive.
pub proof fn lemma_prod_pos(s: Seq<i64>)
    requires
        forall|i: int| 0 <= i < s.len() ==> s[i] > 0,
    ensures
        prod(s) >= 1,
    decreases s.len(),
{
    if s.len() > 0 {
        lemma_prod_pos(s.drop_last());
        let p = prod(s.drop_last());
        let d = s.last() as int;
        assert(p * d >= 1) by (nonlinear_arith) requires p >= 1, d >= 1;
    }
}

/// The shape of an APL value.
#[derive(Clone, Copy, Debug)]
pub struct Shape {
    /// the rank
    rho_rho: URank,
    /// per-axis lengths, padded with zeros
    rho: [ShapeItem; 8],
    /// product of all dimensions
    volume: ShapeItem,
}

impl View for Shape {
    type V = Seq<i64>;

    /// The dimensions, one per axis.
    closed spec fn view(&self) -> Seq<i64> {
        self.rho@.take(self.rho_rho as int)
    }
}

impl Shape {
    /// The number of elements of a value of this shape.
    pub closed spec fn spec_volume(self) -> i64 {
        self.volume
    }

    /// The representation is in range.
    pub closed spec fn fields_ok(self) -> bool {
        self.rho_rho <= 8
    }

    /// What every shape satisfies: legal dimensions whose product is the volume.
    #[verifier::type_invariant]
    pub open spec fn inv(self) -> bool {
        &&& self.fields_ok()
        &&& dims_ok(self@)
        &&& self.spec_volume() as int == prod(self@)
    }

    /// shape of a scalar (rank 0)
    pub fn scalar() -> (s: Shape)
        ensures
            s@ == Seq::<i64>::empty(),
            s.spec_volume() == 1,
    {
        let s = Shape { rho_rho: 0, rho: [0;8], volume: 1 };
        assert(s@ =~= Seq::<i64>::empty());
        s
    }

    /// shape of a vector of length `len`
    pub fn vector(len: ShapeItem) -> (s: Shape)
        requires
            len > i64::MIN,
        ensures
            s@ == seq![len],
            s.spec_volume() == len,
    {
        let mut rho: [i64; 8] = [0;8];
        rho[0] = len;
        proof { lemma_prod_small(len, 0, 0); }
        assert(rho@.take(1) =~= seq![len]);
        let s = Shape { rho_rho: 1, rho, volume: len };
        s
    }

    /// shape of a matrix (`rows` x `cols`)
    pub fn matrix(rows: ShapeItem, cols: ShapeItem) -> (s: Shape)
        requires
            dims_ok(seq![rows, cols]),
        ensures
            s@ == seq![rows, cols],
            s.spec_volume() == rows * cols,
    {
        let ghost d = seq![rows, cols];
        proof {
            lemma_prod_small(rows, cols, 0);
            lemma_prod_bounded(d);
        }
        let mut rho: [i64; 8] = [0;8];
        rho[0] = rows;
        rho[1] = cols;
        assert(rho@.take(2) =~= d);
        let s = Shape { rho_rho: 2, rho, volume: rows * cols };
        s
    }

    /// shape of a cube (`height` x `rows` x `cols`)
    pub fn cube(height: ShapeItem, rows: ShapeItem, cols: ShapeItem) -> (s: Shape)
        requires
            dims_ok(seq![height, rows, cols]),
        ensures
            s@ == seq![height, rows, cols],
            s.spec_volume() == height * rows * cols,
    {
        let ghost d = seq![height, rows, cols];
        proof {
            lemma_prod_small(height, rows, cols);
            lemma_prod_bounded(d);
            assert(d.take(2) =~= seq![height, rows]);
            lemma_absprod_take(d, 2);
            lemma_prod_bounded(seq![height, rows]);
        }
        let mut rho: [i64; 8] = [0;8];
        rho[0] = height;
        rho[1] = rows;
        rho[2] = cols;
        assert(rho@.take(3) =~= d);
        let s = Shape { rho_rho: 3, rho, volume: height * rows * cols };
        s
    }

    /// arbitrary shape from a slice of dimension lengths
    pub fn from_dims(dims: &[ShapeItem]) -> (r: Result<Shape, ErrorCode>)
        requires
            dims@.len() <= MAX_RANK ==> absprod(dims@) <= i64::MAX,
        ensures
            dims@.len() > MAX_RANK ==> r == Err::<Shape, ErrorCode>(ErrorCode::LimitError),
            dims@.len() <= MAX_RANK ==> (r matches Ok(s) && s@ == dims@),
    {
        if dims.len() > MAX_RANK {
            return Err(ErrorCode::LimitError);
        }
        let mut s = Shape::scalar();
        let mut i: usize = 0;
        while i < dims.len()
            invariant
                i <= dims@.len() <= MAX_RANK,
                absprod(dims@) <= i64::MAX,
                s@ == dims@.take(i as int),
            decreases dims@.len() - i,
        {
            proof {
                assert(dims@.take(i as int + 1) =~= dims@.take(i as int).push(dims@[i as int]));
                lemma_absprod_take(dims@, i as int + 1);
            }
            let r = s.add_shape_item(dims[i]);
            assert(r is Ok);
            i += 1;
        }
        assert(dims@.take(i as int) =~= dims@);
        Ok(s)
    }

    /// the rank
    pub fn get_rank(&self) -> (r: URank)
        ensures
            r as int == self@.len(),
            r <= 8,
    {
        proof { use_type_invariant(self); }
        self.rho_rho
    }

    /// the length of axis `axis`
    pub fn get_shape_item(&self, axis: SAxis) -> (r: ShapeItem)
        requires
            0 <= axis < self@.len(),
        ensures
            r == self@[axis as int],
    {
        proof { use_type_invariant(self); }
        self.rho[axis as usize]
    }

    /// the number of elements
    pub fn get_volume(&self) -> (r: ShapeItem)
        ensures
            r == self.spec_volume(),
            r as int == prod(self@),
    {
        proof { use_type_invariant(self); }
        self.volume
    }

    /// length of the first axis, or 1 for scalars
    pub fn get_first_shape_item(&self) -> (r: ShapeItem)
        ensures
            r == (if self@.len() == 0 { 1 } else { self@[0] }),
    {
        proof { use_type_invariant(self); }
        if self.rho_rho == 0 {
            1
        } else {
            self.rho[0]
        }
    }

    /// length of the last axis, or 1 for scalars
    pub fn get_last_shape_item(&self) -> (r: ShapeItem)
        ensures
            r == (if self@.len() == 0 { 1 } else { self@.last() }),
    {
        proof { use_type_invariant(self); }
        if self.rho_rho == 0 {
            1
        } else {
            self.rho[self.rho_rho as usize - 1]
        }
    }

    /// the number of columns (the length of the last axis, 1 for scalars)
    pub fn get_cols(&self) -> (r: ShapeItem)
        ensures
            r == (if self@.len() == 0 { 1 } else { self@.last() }),
    {
        self.get_last_shape_item()
    }

    /// the number of rows: the product of all but the last dimension
    /// (1 for scalars)
    pub fn get_rows(&self) -> (r: ShapeItem)
        ensures
            r as int == (if self@.len() == 0 { 1 } else { prod(self@.drop_last()) }),
    {
        proof { use_type_invariant(self); }
        if self.rho_rho == 0 {
            return 1;
        }
        let ghost d = self@;
        proof {
            lemma_absprod_take(d, d.len() - 1);
            assert(d.take(d.len() - 1) =~= d.drop_last());
        }
        let mut count: ShapeItem = 1;
        let mut i: usize = 0;
        let n = self.rho_rho as usize - 1;
        while i < n
            invariant
                n == d.len() - 1,
                d == self@,
                d.len() <= 8,
                self.rho_rho as int == d.len(),
                absprod(d.drop_last()) <= i64::MAX,
                i <= n,
                count as int == prod(d.take(i as int)),
            decreases n - i,
        {
            proof {
                assert(d.take(i as int + 1) =~= d.take(i as int).push(d[i as int]));
                lemma_absprod_push(d.take(i as int), d[i as int]);
                assert(d.drop_last().take(i as int + 1) =~= d.take(i as int + 1));
                lemma_absprod_take(d.drop_last(), i as int + 1);
                lemma_prod_bounded(d.take(i as int + 1));
            }
            count = count * self.rho[i];
            i += 1;
        }
        assert(d.take(i as int) =~= d.drop_last());
        count
    }

    /// true iff some dimension is 0
    pub fn is_empty(&self) -> (b: bool)
        ensures
            b == exists|i: int| 0 <= i < self@.len() && self@[i] == 0,
    {
        proof { use_type_invariant(self); }
        let mut i: usize = 0;
        while i < self.rho_rho as usize
            invariant
                self.rho_rho <= 8,
                self@.len() == self.rho_rho,
                i <= self.rho_rho,
                forall|j: int| 0 <= j < i ==> self@[j] != 0,
            decreases self.rho_rho - i,
        {
            if self.rho[i] == 0 {
                assert(self@[i as int] == 0);
                return true;
            }
            i += 1;
        }
        false
    }

    /// true iff every dimension is non-negative
    pub fn all_nonneg(&self) -> (b: bool)
        ensures
            b == nonneg(self@),
    {
        proof { use_type_invariant(self); }
        let mut i: usize = 0;
        while i < self.rho_rho as usize
            invariant
                self.rho_rho <= 8,
                self@.len() == self.rho_rho,
                i <= self.rho_rho,
                forall|j: int| 0 <= j < i ==> self@[j] >= 0,
            decreases self.rho_rho - i,
        {
            if self.rho[i] < 0 {
                assert(self@[i as int] < 0);
                return false;
            }
            i += 1;
        }
        true
    }

    /// replace the length of one axis
    pub fn set_shape_item(&mut self, axis: SAxis, len: ShapeItem)
        requires
            0 <= axis < old(self)@.len(),
            absprod(old(self)@.update(axis as int, len)) <= i64::MAX,
        ensures
            final(self)@ == old(self)@.update(axis as int, len),
    {
        proof { use_type_invariant(&*self); }
        let idx = axis as usize;
        let ghost d = self@;
        let mut rho = self.rho;
        rho[idx] = len;
        assert(rho@.take(self.rho_rho as int) =~= d.update(axis as int, len));
        let v = Self::volume_of(&rho, self.rho_rho);
        *self = Shape { rho_rho: self.rho_rho, rho, volume: v };
    }

    /// the product of the first `n` entries of `rho`
    fn volume_of(rho: &[i64; 8], n: u32) -> (v: i64)
        requires
            n <= 8,
            dims_ok(rho@.take(n as int)),
        ensures
            v as int == prod(rho@.take(n as int)),
    {
        let ghost d = rho@.take(n as int);
        let mut v: ShapeItem = 1;
        let mut i: usize = 0;
        let n = n as usize;
        while i < n
            invariant
                n == d.len(),
                d == rho@.take(n as int),
                n <= 8,
                absprod(d) <= i64::MAX,
                i <= n,
                v as int == prod(d.take(i as int)),
            decreases n - i,
        {
            proof {
                assert(d.take(i as int + 1) =~= d.take(i as int).push(d[i as int]));
                lemma_absprod_take(d, i as int + 1);
                lemma_prod_bounded(d.take(i as int + 1));
                lemma_absprod_push(d.take(i as int), d[i as int]);
            }
            v = v * rho[i];
            i += 1;
        }
        assert(d.take(i as int) =~= d);
        v
    }

    /// recompute the volume from the dimensions (the volume of a shape
    /// always is their product, so this leaves the shape unchanged)
    pub fn recompute_volume(&mut self)
        ensures
            final(self)@ == old(self)@,
            final(self).spec_volume() == old(self).spec_volume(),
    {
        proof { use_type_invariant(&*self); }
        let v = Self::volume_of(&self.rho, self.rho_rho);
        *self = Shape { rho_rho: self.rho_rho, rho: self.rho, volume: v };
    }

    /// add a dimension at the end
    pub fn add_shape_item(&mut self, len: ShapeItem) -> (r: Result<(), ErrorCode>)
        requires
            old(self)@.len() < MAX_RANK ==> absprod(old(self)@.push(len)) <= i64::MAX,
        ensures
            old(self)@.len() >= MAX_RANK ==> r == Err::<(), ErrorCode>(ErrorCode::LimitError)
                && final(self)@ == old(self)@,
            old(self)@.len() < MAX_RANK ==> r is Ok && final(self)@ == old(self)@.push(len),
    {
        proof { use_type_invariant(&*self); }
        if self.rho_rho as usize >= MAX_RANK {
            return Err(ErrorCode::LimitError);
        }
        let ghost d = self@;
        proof {
            lemma_absprod_push(d, len);
            lemma_prod_bounded(d.push(len));
        }
        let idx = self.rho_rho as usize;
        let mut rho = self.rho;
        rho[idx] = len;
        assert(rho@.take(idx as int + 1) =~= d.push(len));
        *self = Shape { rho_rho: self.rho_rho + 1, rho, volume: self.volume * len };
        Ok(())
    }

    /// true iff both shapes have the same dimensions
    pub fn same_as(&self, other: &Shape) -> (b: bool)
        ensures
            b == (self@ == other@),
    {
        proof {
            use_type_invariant(self);
            use_type_invariant(other);
        }
        if self.rho_rho != other.rho_rho {
            return false;
        }
        let mut i: usize = 0;
        while i < self.rho_rho as usize
            invariant
                self.rho_rho == other.rho_rho,
                self.rho_rho <= 8,
                self@.len() == self.rho_rho,
                other@.len() == other.rho_rho,
                i <= self.rho_rho,
                forall|j: int| 0 <= j < i ==> self@[j] == other@[j],
            decreases self.rho_rho - i,
        {
            if self.rho[i] != other.rho[i] {
                assert(self@[i as int] != other@[i as int]);
                return false;
            }
            i += 1;
        }
        assert(self@ =~= other@);
        true
    }
}

} // verus!
