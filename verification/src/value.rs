//! Value: an APL array (a shape and a ravel of cells), shared by reference
//! counting with copy-on-write isolation.

use vstd::prelude::*;
use std::sync::Arc;
use crate::cell::{share, Cell, PointerCellData};
use crate::shape::{dims_ok, nonneg, prod, Shape};
use crate::types::{APLInteger, AplResult, ErrorCode, ShapeItem, Unicode};

verus! {

/// `Arc::strong_count`: the number of handles to the shared value.
#[verifier::external_body]
fn arc_owner_count(a: &Arc<ValueInner>) -> usize {
    Arc::strong_count(a)
}

/// `Arc::make_mut`: a mutable reference to the shared value, cloned first
/// when other handles exist. The value seen through the reference is the
/// value the handle held, and the handle holds what is written through it.
#[verifier::external_body]
fn arc_make_mut(a: &mut Arc<ValueInner>) -> (r: &mut ValueInner)
    ensures
        same_data(*r, **old(a)),
        **final(a) == *final(r),
{
    Arc::make_mut(a)
}

/// The cells of a vector of integers.
pub open spec fn int_cells(s: Seq<i64>) -> Seq<Cell> {
    s.map_values(|i: i64| Cell::Int(i))
}

/// The cells of a vector of characters.
pub open spec fn char_cells(s: Seq<u32>) -> Seq<Cell> {
    s.map_values(|u: u32| Cell::Char(u))
}

/// A sequence of `n` copies of `c`.
pub open spec fn fill(n: nat, c: Cell) -> Seq<Cell> {
    Seq::new(n, |i: int| c)
}

/// Two values hold the same data: shape, ravel and prototype.
pub open spec fn same_data(a: ValueInner, b: ValueInner) -> bool {
    a.shape_view() == b.shape_view() && a.ravel_view() == b.ravel_view() && a.proto_view() == b.proto_view()
}

/// The actual value data.
#[derive(Debug)]
pub struct ValueInner {
    shape: Shape,
    ravel: Vec<Cell>,
    /// prototype cell: the element type for empty values and over-take
    proto: Cell,
}

impl Clone for ValueInner {
    fn clone(&self) -> (r: Self)
        ensures
            same_data(r, *self),
    {
        proof { use_type_invariant(self); }
        let ravel = clone_cells(&self.ravel);
        ValueInner { shape: self.shape, ravel, proto: self.proto.clone() }
    }
}

/// A copy of a ravel.
pub fn clone_cells(v: &[Cell]) -> (r: Vec<Cell>)
    ensures
        r@ == v@,
{
    let mut out: Vec<Cell> = Vec::new();
    let mut i: usize = 0;
    while i < v.len()
        invariant
            i <= v@.len(),
            out@ == v@.take(i as int),
        decreases v@.len() - i,
    {
        out.push(v[i].clone());
        proof { assert(v@.take(i as int + 1) =~= v@.take(i as int).push(v@[i as int])); }
        i += 1;
    }
    assert(v@.take(i as int) =~= v@);
    out
}

impl ValueInner {
    pub closed spec fn shape_view(self) -> Shape {
        self.shape
    }

    pub closed spec fn ravel_view(self) -> Seq<Cell> {
        self.ravel@
    }

    pub closed spec fn proto_view(self) -> Cell {
        self.proto
    }

    /// What every value satisfies: legal dimensions, and one cell per
    /// element of the shape.
    #[verifier::type_invariant]
    pub open spec fn inv(self) -> bool {
        &&& dims_ok(self.shape_view()@)
        &&& nonneg(self.shape_view()@)
        &&& self.shape_view().spec_volume() as int == prod(self.shape_view()@)
        &&& self.ravel_view().len() == prod(self.shape_view()@)
    }

    /// a value from a shape and a ravel of matching length; the prototype
    /// is the first cell (integer 0 for an empty ravel)
    pub fn new(shape: Shape, ravel: Vec<Cell>) -> (v: ValueInner)
        requires
            nonneg(shape@),
            ravel@.len() == shape.spec_volume(),
        ensures
            v.shape_view() == shape,
            v.ravel_view() == ravel@,
            v.proto_view() == (if ravel@.len() > 0 { ravel@[0] } else { Cell::Int(0) }),
    {
        proof { use_type_invariant(shape); }
        let proto = if ravel.len() > 0 { ravel[0].clone() } else { Cell::Int(0) };
        ValueInner { shape, ravel, proto }
    }

    /// a value from a shape, a ravel of matching length and a prototype
    pub fn new_with_proto(shape: Shape, ravel: Vec<Cell>, proto: Cell) -> (v: ValueInner)
        requires
            nonneg(shape@),
            ravel@.len() == shape.spec_volume(),
        ensures
            v.shape_view() == shape,
            v.ravel_view() == ravel@,
            v.proto_view() == proto,
    {
        proof { use_type_invariant(shape); }
        ValueInner { shape, ravel, proto }
    }

    /// a value whose cells are computed by `fetcher` from their ravel index
    pub fn new_fetched<F: Fn(usize) -> Cell>(shape: Shape, fetcher: F, proto: Cell) -> (v: ValueInner)
        requires
            nonneg(shape@),
            shape.spec_volume() <= usize::MAX,
            forall|i: usize| 0 <= i < shape.spec_volume() ==> call_requires(fetcher, (i,)),
        ensures
            v.shape_view() == shape,
            v.proto_view() == proto,
            v.ravel_view().len() == shape.spec_volume(),
            forall|i: int|
                0 <= i < shape.spec_volume() ==> call_ensures(fetcher, (i as usize,), #[trigger] v.ravel_view()[i]),
    {
        proof { use_type_invariant(shape); crate::shape::lemma_prod_nonneg(shape@); }
        let n = shape.get_volume() as usize;
        let mut ravel: Vec<Cell> = Vec::new();
        let mut i: usize = 0;
        while i < n
            invariant
                n == shape.spec_volume(),
                i <= n,
                ravel@.len() == i,
                forall|j: usize| 0 <= j < shape.spec_volume() ==> call_requires(fetcher, (j,)),
                forall|j: int| 0 <= j < i ==> call_ensures(fetcher, (j as usize,), #[trigger] ravel@[j]),
            decreases n - i,
        {
            let c = fetcher(i);
            ravel.push(c);
            i += 1;
        }
        ValueInner { shape, ravel, proto }
    }

    /// the prototype cell (element type)
    pub fn proto(&self) -> (c: &Cell)
        ensures
            *c == self.proto_view(),
    {
        &self.proto
    }

    /// the ravel
    pub fn cells(&self) -> (r: &[Cell])
        ensures
            r@ == self.ravel_view(),
            r@.len() == self.shape_view().spec_volume(),
    {
        proof { use_type_invariant(self); }
        self.ravel.as_slice()
    }

    /// the cell at ravel index `index`, if there is one
    pub fn cell_at(&self, index: usize) -> (r: Option<Cell>)
        ensures
            index < self.ravel_view().len() ==> r == Some(self.ravel_view()[index as int]),
            index >= self.ravel_view().len() ==> r is None,
    {
        if index < self.ravel.len() {
            Some(self.ravel[index].clone())
        } else {
            None
        }
    }

    /// replace the cell at ravel index `index`
    pub fn set_cell(&mut self, index: usize, c: Cell)
        requires
            index < old(self).ravel_view().len(),
        ensures
            final(self).shape_view() == old(self).shape_view(),
            final(self).proto_view() == old(self).proto_view(),
            final(self).ravel_view() == old(self).ravel_view().update(index as int, c),
    {
        proof { use_type_invariant(&*self); }
        let mut ravel = clone_cells(&self.ravel);
        ravel.set(index, c);
        *self = ValueInner { shape: self.shape, ravel, proto: self.proto.clone() };
    }

    /// the shape
    pub fn shape(&self) -> (s: &Shape)
        ensures
            *s == self.shape_view(),
    {
        &self.shape
    }

    /// true iff this value has rank 0
    pub fn is_scalar_shape(&self) -> (b: bool)
        ensures
            b == (self.shape_view()@.len() == 0),
    {
        self.shape.get_rank() == 0
    }

    /// the number of ravel elements
    pub fn element_count(&self) -> (n: i64)
        ensures
            n == self.shape_view().spec_volume(),
            n as int == self.ravel_view().len(),
    {
        proof { use_type_invariant(self); }
        self.shape.get_volume()
    }
}

/// A reference-counted APL value.
#[derive(Debug)]
pub struct ValueP {
    pub inner: Arc<ValueInner>,
}

impl Clone for ValueP {
    fn clone(&self) -> (r: Self)
        ensures
            r == *self,
    {
        ValueP { inner: share(&self.inner) }
    }
}

impl ValueP {
    /// The dimensions of this value.
    pub open spec fn dims(self) -> Seq<i64> {
        (*self.inner).shape_view()@
    }

    /// The shape of this value.
    pub open spec fn spec_shape(self) -> Shape {
        (*self.inner).shape_view()
    }

    /// The ravel of this value.
    pub open spec fn ravel(self) -> Seq<Cell> {
        (*self.inner).ravel_view()
    }

    /// The prototype cell of this value.
    pub open spec fn spec_proto(self) -> Cell {
        (*self.inner).proto_view()
    }

    /// The rank of this value.
    pub open spec fn spec_rank(self) -> int {
        self.dims().len() as int
    }

    /// Every value has legal dimensions and one cell per element.
    pub fn lemma_wf(&self)
        ensures
            dims_ok(self.dims()),
            nonneg(self.dims()),
            self.ravel().len() == prod(self.dims()),
            self.spec_shape().spec_volume() as int == prod(self.dims()),
            self.ravel().len() <= i64::MAX,
    {
        proof {
            use_type_invariant(&*self.inner);
            crate::take_drop::lemma_prod_le_absprod(self.dims());
        }
    }

    fn make(inner: ValueInner) -> (v: ValueP)
        ensures
            *v.inner == inner,
    {
        ValueP { inner: Arc::new(inner) }
    }

    /// a new scalar holding integer 0
    pub fn scalar() -> (v: ValueP)
        ensures
            v.dims() == Seq::<i64>::empty(),
            v.ravel() == seq![Cell::Int(0)],
    {
        let mut ravel: Vec<Cell> = Vec::new();
        ravel.push(Cell::Int(0));
        Self::make(ValueInner::new(Shape::scalar(), ravel))
    }

    /// a new scalar holding `cell`
    pub fn scalar_from(cell: Cell) -> (v: ValueP)
        ensures
            v.dims() == Seq::<i64>::empty(),
            v.ravel() == seq![cell],
            v.spec_proto() == cell,
    {
        let mut ravel: Vec<Cell> = Vec::new();
        ravel.push(cell);
        Self::make(ValueInner::new(Shape::scalar(), ravel))
    }

    /// a new vector of `len` integer zeros
    pub fn vector(len: ShapeItem) -> (v: ValueP)
        requires
            0 <= len <= usize::MAX,
        ensures
            v.dims() == seq![len],
            v.ravel() == fill(len as nat, Cell::Int(0)),
    {
        let ravel = zeros(len as usize);
        Self::make(ValueInner::new(Shape::vector(len), ravel))
    }

    /// a new `rows` x `cols` matrix of integer zeros
    pub fn matrix(rows: ShapeItem, cols: ShapeItem) -> (v: ValueP)
        requires
            rows >= 0,
            cols >= 0,
            rows * cols <= i64::MAX,
            rows * cols <= usize::MAX,
        ensures
            v.dims() == seq![rows, cols],
            v.ravel() == fill((rows * cols) as nat, Cell::Int(0)),
    {
        proof {
            crate::shape::lemma_prod_small(rows, cols, 0);
            assert(crate::shape::weight(rows) * crate::shape::weight(cols) <= i64::MAX) by (nonlinear_arith)
                requires rows >= 0, cols >= 0, rows * cols <= i64::MAX,
                    crate::shape::weight(rows) == (if rows == 0 { 1 } else { rows as int }),
                    crate::shape::weight(cols) == (if cols == 0 { 1 } else { cols as int });
        }
        let n = rows * cols;
        let ravel = zeros(n as usize);
        Self::make(ValueInner::new(Shape::matrix(rows, cols), ravel))
    }

    /// a new value of the given shape filled with integer zeros; VALUE ERROR
    /// for a negative volume
    pub fn from_shape(shape: Shape) -> (r: Result<ValueP, ErrorCode>)
        requires
            shape.spec_volume() <= usize::MAX,
        ensures
            !nonneg(shape@) ==> r == Err::<ValueP, ErrorCode>(ErrorCode::ValueError),
            nonneg(shape@) ==> (r matches Ok(v) && v.spec_shape() == shape
                && v.ravel() == fill(shape.spec_volume() as nat, Cell::Int(0))),
    {
        proof { use_type_invariant(shape); }
        if !shape.all_nonneg() {
            return Err(ErrorCode::ValueError);
        }
        proof { crate::shape::lemma_prod_nonneg(shape@); }
        let count = shape.get_volume();
        let ravel = zeros(count as usize);
        Ok(Self::make(ValueInner::new(shape, ravel)))
    }

    /// a character vector; its prototype is the blank, so an empty one
    /// stays a character vector
    pub fn char_vector(chars: &[Unicode]) -> (v: ValueP)
        requires
            chars@.len() <= i64::MAX,
        ensures
            v.dims() == seq![chars@.len() as i64],
            v.ravel() == char_cells(chars@),
            v.spec_proto() == Cell::Char(32),
    {
        let mut ravel: Vec<Cell> = Vec::new();
        let mut i: usize = 0;
        while i < chars.len()
            invariant
                i <= chars@.len(),
                ravel@ == char_cells(chars@.take(i as int)),
            decreases chars@.len() - i,
        {
            ravel.push(Cell::Char(chars[i]));
            proof {
                assert(char_cells(chars@.take(i as int + 1)) =~= char_cells(chars@.take(i as int)).push(Cell::Char(chars@[i as int])));
            }
            i += 1;
        }
        assert(chars@.take(i as int) =~= chars@);
        Self::make(ValueInner::new_with_proto(Shape::vector(chars.len() as i64), ravel, Cell::Char(32)))
    }

    /// an integer vector
    pub fn int_vector(vals: &[APLInteger]) -> (v: ValueP)
        requires
            vals@.len() <= i64::MAX,
        ensures
            v.dims() == seq![vals@.len() as i64],
            v.ravel() == int_cells(vals@),
            v.spec_proto() == (if vals@.len() > 0 { Cell::Int(vals@[0]) } else { Cell::Int(0) }),
    {
        let ravel = int_cells_of(vals);
        Self::make(ValueInner::new(Shape::vector(vals.len() as i64), ravel))
    }

    /// an integer vector taking ownership of its elements
    pub fn int_vector_owned(vals: Vec<APLInteger>) -> (v: ValueP)
        requires
            vals@.len() <= i64::MAX,
        ensures
            v.dims() == seq![vals@.len() as i64],
            v.ravel() == int_cells(vals@),
    {
        Self::int_vector(vals.as_slice())
    }

    /// monadic iota: the vector 0 1 ... n-1; DOMAIN ERROR for negative n
    pub fn iota(n: APLInteger) -> (r: Result<ValueP, ErrorCode>)
        requires
            n <= usize::MAX,
        ensures
            n < 0 ==> r == Err::<ValueP, ErrorCode>(ErrorCode::DomainError),
            n >= 0 ==> (r matches Ok(v) && v.dims() == seq![n]
                && v.ravel() == Seq::new(n as nat, |i: int| Cell::Int(i as i64))),
    {
        if n < 0 {
            return Err(ErrorCode::DomainError);
        }
        let mut ravel: Vec<Cell> = Vec::new();
        let mut i: i64 = 0;
        while i < n
            invariant
                0 <= i <= n,
                ravel@ == Seq::new(i as nat, |k: int| Cell::Int(k as i64)),
            decreases n - i,
        {
            ravel.push(Cell::Int(i));
            proof {
                assert(ravel@ =~= Seq::new((i + 1) as nat, |k: int| Cell::Int(k as i64)));
            }
            i += 1;
        }
        Ok(Self::make(ValueInner::new(Shape::vector(n), ravel)))
    }

    /// true iff rank 0
    pub fn is_scalar(&self) -> (b: bool)
        ensures
            b == (self.dims().len() == 0),
    {
        self.inner.shape.get_rank() == 0
    }

    /// true iff rank 0 with a simple (non-nested) cell
    pub fn is_scalar_simple(&self) -> (b: bool)
        ensures
            b == (self.dims().len() == 0 && !(self.ravel()[0] is Pointer)),
    {
        proof {
            use_type_invariant(&*self.inner);
            reveal_with_fuel(prod, 1);
        }
        self.is_scalar() && !self.inner.ravel[0].is_pointer_cell()
    }

    /// true iff rank 1
    pub fn is_vector(&self) -> (b: bool)
        ensures
            b == (self.dims().len() == 1),
    {
        self.inner.shape.get_rank() == 1
    }

    /// true iff some dimension is 0
    pub fn is_empty(&self) -> (b: bool)
        ensures
            b == exists|i: int| 0 <= i < self.dims().len() && self.dims()[i] == 0,
    {
        assert(self.dims() == self.inner.shape@);
        self.inner.shape.is_empty()
    }

    /// true iff this value is the empty numeric vector
    pub fn is_zilde(&self) -> (b: bool)
        ensures
            b == (self.dims() == seq![0i64] && self.spec_proto() is Int),
    {
        let r = self.is_vector() && self.inner.shape.get_cols() == 0 && self.inner.proto.is_int_cell();
        proof {
            if r { assert(self.dims() =~= seq![0i64]); }
        }
        r
    }

    /// true iff this value is the empty character vector
    pub fn is_str0(&self) -> (b: bool)
        ensures
            b == (self.dims() == seq![0i64] && self.spec_proto() is Char),
    {
        let r = self.is_vector() && self.inner.shape.get_cols() == 0 && self.inner.proto.is_char_cell();
        proof {
            if r { assert(self.dims() =~= seq![0i64]); }
        }
        r
    }

    /// a second handle to the shared data
    pub fn clone_inner_arc(&self) -> (r: Arc<ValueInner>)
        ensures
            r == self.inner,
    {
        share(&self.inner)
    }

    /// the shape
    pub fn shape(&self) -> (s: &Shape)
        ensures
            *s == self.spec_shape(),
    {
        &self.inner.shape
    }

    /// the rank
    pub fn rank(&self) -> (r: u32)
        ensures
            r as int == self.dims().len(),
            r <= 8,
    {
        self.inner.shape.get_rank()
    }

    /// the number of elements
    pub fn element_count(&self) -> (n: ShapeItem)
        ensures
            n as int == self.ravel().len(),
            n as int == prod(self.dims()),
            n == self.spec_shape().spec_volume(),
    {
        proof { use_type_invariant(&*self.inner); }
        self.inner.shape.get_volume()
    }

    /// the length of axis `axis`
    pub fn get_shape_item(&self, axis: i16) -> (r: ShapeItem)
        requires
            0 <= axis < self.dims().len(),
        ensures
            r == self.dims()[axis as int],
    {
        self.inner.shape.get_shape_item(axis)
    }

    /// the dimensions, one per axis
    pub fn dim_list(&self) -> (r: Vec<ShapeItem>)
        ensures
            r@ == self.dims(),
    {
        proof { use_type_invariant(&*self.inner); }
        let rank = self.rank();
        let mut out: Vec<ShapeItem> = Vec::new();
        let mut i: u32 = 0;
        while i < rank
            invariant
                i <= rank,
                rank as int == self.dims().len(),
                rank <= 8,
                out@ == self.dims().take(i as int),
            decreases rank - i,
        {
            out.push(self.get_shape_item(i as i16));
            proof { assert(out@ =~= self.dims().take(i as int + 1)); }
            i += 1;
        }
        assert(self.dims().take(i as int) =~= self.dims());
        out
    }

    /// the ravel
    pub fn cells(&self) -> (r: &[Cell])
        ensures
            r@ == self.ravel(),
            r@.len() == prod(self.dims()),
    {
        proof { use_type_invariant(&*self.inner); }
        self.inner.ravel.as_slice()
    }

    /// the first cell, if any
    pub fn first_cell(&self) -> (r: Option<&Cell>)
        ensures
            self.ravel().len() > 0 ==> r == Some(&self.ravel()[0]),
            self.ravel().len() == 0 ==> r is None,
    {
        if self.inner.ravel.len() > 0 {
            Some(&self.inner.ravel[0])
        } else {
            None
        }
    }

    /// the number of handles to this value's data
    pub fn owner_count(&self) -> usize {
        arc_owner_count(&self.inner)
    }

    /// true iff this handle is the only owner of its data
    pub fn is_unique(&self) -> bool {
        arc_owner_count(&self.inner) == 1
    }

    /// copy the data unless this handle is its only owner; the value is
    /// unchanged either way
    pub fn isolate(&mut self)
        ensures
            same_data(*final(self).inner, *old(self).inner),
    {
        if !self.is_unique() {
            let copy = (*self.inner).clone();
            self.inner = Arc::new(copy);
        }
    }

    /// a mutable reference to the data, copied first if shared
    pub fn make_mut(&mut self) -> (r: &mut ValueInner)
        ensures
            same_data(*r, *old(self).inner),
            *final(self).inner == *final(r),
    {
        arc_make_mut(&mut self.inner)
    }

    /// dyadic `+` with scalar extension: element-wise sums of two
    /// simple integer values
    pub fn add(a: &ValueP, b: &ValueP) -> (r: Result<ValueP, ErrorCode>)
        ensures
            r matches Ok(z) ==> crate::scalar::dyadic_result(crate::scalar::ScalarFn::Add, *a, *b, z),
            r is Err ==> !crate::scalar::dyadic_ok(crate::scalar::ScalarFn::Add, *a, *b),
            crate::scalar::dyadic_ok(crate::scalar::ScalarFn::Add, *a, *b) ==> r is Ok,
    {
        crate::scalar::scalar_dyadic(crate::scalar::ScalarFn::Add, a, b)
    }

    /// a value of the same shape as `model` with the given ravel
    pub fn from_ravel_like(model: &ValueP, ravel: Vec<Cell>) -> (v: ValueP)
        requires
            ravel@.len() == prod(model.dims()),
        ensures
            v.dims() == model.dims(),
            v.ravel() == ravel@,
    {
        proof { use_type_invariant(&*model.inner); }
        Self::make(ValueInner::new(model.inner.shape, ravel))
    }

    /// enclose: a scalar whose only cell points to `v`
    pub fn nested(v: ValueP) -> (r: ValueP)
        ensures
            r.dims() == Seq::<i64>::empty(),
            r.ravel() == seq![Cell::Pointer(PointerCellData { value: v.inner })],
    {
        let mut ravel: Vec<Cell> = Vec::new();
        ravel.push(Cell::Pointer(PointerCellData { value: v.inner }));
        Self::make(ValueInner::new(Shape::scalar(), ravel))
    }

    /// the nested value of a scalar pointer cell; otherwise the value itself
    pub fn disclose(&self) -> (r: ValueP)
        ensures
            (self.dims().len() == 0 && self.ravel()[0] is Pointer)
                ==> *r.inner == *self.ravel()[0]->Pointer_0.value,
            !(self.dims().len() == 0 && self.ravel()[0] is Pointer) ==> r == *self,
    {
        proof {
            use_type_invariant(&*self.inner);
            reveal_with_fuel(prod, 1);
        }
        if self.is_scalar() {
            if let Cell::Pointer(p) = &self.inner.ravel[0] {
                return ValueP { inner: share(&p.value) };
            }
        }
        self.clone()
    }

    /// a value whose cells are computed by `fetcher` from their ravel index;
    /// LENGTH ERROR for a negative volume
    pub fn from_fetcher<F: Fn(usize) -> Cell>(shape: Shape, fetcher: F, proto: Cell) -> (r: Result<ValueP, ErrorCode>)
        requires
            shape.spec_volume() <= usize::MAX,
            forall|i: usize| 0 <= i < shape.spec_volume() ==> call_requires(fetcher, (i,)),
        ensures
            !nonneg(shape@) ==> r == Err::<ValueP, ErrorCode>(ErrorCode::LengthError),
            nonneg(shape@) ==> (r matches Ok(v) && v.spec_shape() == shape
                && v.spec_proto() == proto
                && v.ravel().len() == shape.spec_volume()
                && forall|i: int| 0 <= i < shape.spec_volume()
                    ==> call_ensures(fetcher, (i as usize,), #[trigger] v.ravel()[i])),
    {
        proof { use_type_invariant(shape); }
        if !shape.all_nonneg() {
            return Err(ErrorCode::LengthError);
        }
        Ok(Self::make(ValueInner::new_fetched(shape, fetcher, proto)))
    }

    /// a value from an explicit shape and ravel; LENGTH ERROR unless the
    /// ravel has exactly one cell per element of the shape
    pub fn from_parts(shape: Shape, ravel: Vec<Cell>) -> (r: Result<ValueP, ErrorCode>)
        ensures
            (!nonneg(shape@) || shape.spec_volume() != ravel@.len())
                ==> r == Err::<ValueP, ErrorCode>(ErrorCode::LengthError),
            (nonneg(shape@) && shape.spec_volume() == ravel@.len())
                ==> (r matches Ok(v) && v.spec_shape() == shape && v.ravel() == ravel@
                    && v.spec_proto() == (if ravel@.len() > 0 { ravel@[0] } else { Cell::Int(0) })),
    {
        proof { use_type_invariant(shape); }
        if !shape.all_nonneg() {
            return Err(ErrorCode::LengthError);
        }
        proof { crate::shape::lemma_prod_nonneg(shape@); }
        let want = shape.get_volume();
        if want as u128 != ravel.len() as u128 {
            return Err(ErrorCode::LengthError);
        }
        Ok(Self::make(ValueInner::new(shape, ravel)))
    }

    /// a value from a shape and a ravel of matching length, with a prototype
    pub fn from_parts_with_proto(shape: Shape, ravel: Vec<Cell>, proto: Cell) -> (v: ValueP)
        requires
            nonneg(shape@),
            ravel@.len() == shape.spec_volume(),
        ensures
            v.spec_shape() == shape,
            v.ravel() == ravel@,
            v.spec_proto() == proto,
    {
        Self::make(ValueInner::new_with_proto(shape, ravel, proto))
    }
}

/// Two cells match: equal integers, equal characters, or nested values of
/// the same shape whose ravels match element by element.
pub closed spec fn cell_match(a: Cell, b: Cell) -> bool
    decreases a, 0nat,
{
    match a {
        Cell::Int(x) => b matches Cell::Int(y) && x == y,
        Cell::Char(x) => b matches Cell::Char(y) && x == y,
        Cell::Pointer(p) => match b {
            Cell::Pointer(q) => {
                &&& (*p.value).shape@ == (*q.value).shape@
                &&& (*p.value).ravel@.len() == (*q.value).ravel@.len()
                &&& ravel_match((*p.value).ravel@, (*q.value).ravel@, (*p.value).ravel@.len())
            },
            _ => false,
        },
    }
}

/// The first `n` cells of `s` and `t` match pairwise.
pub closed spec fn ravel_match(s: Seq<Cell>, t: Seq<Cell>, n: nat) -> bool
    decreases s, n,
{
    if n == 0 || n > s.len() {
        n == 0
    } else {
        ravel_match(s, t, (n - 1) as nat) && cell_match(s[n - 1], t[n - 1])
    }
}

/// A mismatch at one position spoils every longer prefix.
proof fn lemma_ravel_mismatch(s: Seq<Cell>, t: Seq<Cell>, k: nat, n: nat)
    requires
        k < n <= s.len(),
        !cell_match(s[k as int], t[k as int]),
    ensures
        !ravel_match(s, t, n),
    decreases n,
{
    if n > k + 1 {
        lemma_ravel_mismatch(s, t, k, (n - 1) as nat);
    }
}

/// Matching simple cells are equal.
pub proof fn lemma_match_simple(a: Cell, b: Cell)
    requires
        !(a is Pointer) || !(b is Pointer),
    ensures
        cell_match(a, b) == (a == b),
{
}

/// Every cell is an integer.
pub open spec fn all_ints(s: Seq<Cell>) -> bool {
    forall|i: int| 0 <= i < s.len() ==> (#[trigger] s[i]) is Int
}

/// The integers held by a sequence of integer cells.
pub open spec fn int_vals(s: Seq<Cell>) -> Seq<i64> {
    Seq::new(s.len(), |i: int| s[i]->Int_0)
}

/// The integers held by the cells; DOMAIN ERROR if a cell is not an integer.
pub fn int_values(cells: &[Cell]) -> (r: AplResult<Vec<i64>>)
    ensures
        all_ints(cells@) ==> (r matches Ok(v) && v@ == int_vals(cells@)),
        !all_ints(cells@) ==> r == Err::<Vec<i64>, ErrorCode>(ErrorCode::DomainError),
{
    let mut out: Vec<i64> = Vec::new();
    let mut i: usize = 0;
    while i < cells.len()
        invariant
            i <= cells@.len(),
            out@.len() == i,
            forall|j: int| 0 <= j < i ==> (#[trigger] cells@[j]) is Int && out@[j] == cells@[j]->Int_0,
        decreases cells@.len() - i,
    {
        match &cells[i] {
            Cell::Int(v) => { out.push(*v); }
            _ => {
                assert(!(cells@[i as int] is Int));
                return Err(ErrorCode::DomainError);
            }
        }
        i += 1;
    }
    assert(out@ =~= int_vals(cells@));
    Ok(out)
}

/// Compare two cells for a match (deeply for nested values).
pub fn cells_match(a: &Cell, b: &Cell) -> (r: bool)
    ensures
        r == cell_match(*a, *b),
    decreases a,
{
    match a {
        Cell::Int(x) => match b { Cell::Int(y) => *x == *y, _ => false },
        Cell::Char(x) => match b { Cell::Char(y) => *x == *y, _ => false },
        Cell::Pointer(p) => match b {
            Cell::Pointer(q) => {
                let pv: &ValueInner = &p.value;
                let qv: &ValueInner = &q.value;
                if !pv.shape.same_as(&qv.shape) {
                    return false;
                }
                if pv.ravel.len() != qv.ravel.len() {
                    return false;
                }
                let mut i: usize = 0;
                while i < pv.ravel.len()
                    invariant
                        i <= pv.ravel@.len(),
                        pv.ravel@.len() == qv.ravel@.len(),
                        *pv == *p.value,
                        *qv == *q.value,
                        *a == Cell::Pointer(*p),
                        *b == Cell::Pointer(*q),
                        ravel_match(pv.ravel@, qv.ravel@, i as nat),
                    decreases pv.ravel@.len() - i,
                {
                    proof {
                        let ghost pc: PointerCellData = *p;
                        let ghost inner: ValueInner = *pc.value;
                        assert(decreases_to!(*a => (*a)->Pointer_0));
                        assert(decreases_to!(pc => pc.value));
                        assert(decreases_to!(inner => inner.ravel));
                        assert(decreases_to!(inner.ravel => inner.ravel@));
                        assert(decreases_to!(inner.ravel@ => inner.ravel@[i as int]));
                    }
                    if !cells_match(&pv.ravel[i], &qv.ravel[i]) {
                        proof {
                            lemma_ravel_mismatch(pv.ravel@, qv.ravel@, i as nat, pv.ravel@.len());
                        }
                        return false;
                    }
                    i += 1;
                }
                true
            },
            _ => false,
        },
    }
}

/// The simple cells inside a cell, depth first: the cell itself when it is
/// simple, and the simple cells of each element of a nested value in turn.
pub closed spec fn flat_cell(c: Cell) -> Seq<Cell>
    decreases c, 0nat,
{
    match c {
        Cell::Pointer(p) => flat_ravel((*p.value).ravel@, (*p.value).ravel@.len()),
        _ => seq![c],
    }
}

/// The simple cells inside the first `n` cells of `s`, depth first.
pub closed spec fn flat_ravel(s: Seq<Cell>, n: nat) -> Seq<Cell>
    decreases s, n,
{
    if n == 0 || n > s.len() {
        Seq::empty()
    } else {
        flat_ravel(s, (n - 1) as nat) + flat_cell(s[n - 1])
    }
}

/// Append the simple cells inside `c` to `out`.
fn flatten_into(c: &Cell, out: &mut Vec<Cell>)
    ensures
        final(out)@ == old(out)@ + flat_cell(*c),
    decreases c,
{
    match c {
        Cell::Pointer(p) => {
            let pv: &ValueInner = &p.value;
            let ghost start = out@;
            let mut i: usize = 0;
            while i < pv.ravel.len()
                invariant
                    i <= pv.ravel@.len(),
                    *pv == *p.value,
                    *c == Cell::Pointer(*p),
                    out@ == start + flat_ravel(pv.ravel@, i as nat),
                decreases pv.ravel@.len() - i,
            {
                proof {
                    let ghost pc: PointerCellData = *p;
                    let ghost inner: ValueInner = *pc.value;
                    assert(decreases_to!(*c => (*c)->Pointer_0));
                    assert(decreases_to!(pc => pc.value));
                    assert(decreases_to!(inner => inner.ravel));
                    assert(decreases_to!(inner.ravel => inner.ravel@));
                    assert(decreases_to!(inner.ravel@ => inner.ravel@[i as int]));
                }
                flatten_into(&pv.ravel[i], out);
                proof {
                    assert(flat_ravel(pv.ravel@, (i + 1) as nat)
                        == flat_ravel(pv.ravel@, i as nat) + flat_cell(pv.ravel@[i as int]));
                    assert(out@ =~= start + flat_ravel(pv.ravel@, (i + 1) as nat));
                }
                i += 1;
            }
        },
        _ => {
            out.push(c.clone());
        },
    }
}

impl ValueP {
    /// The simple cells of the value, depth first.
    pub closed spec fn flat(self) -> Seq<Cell> {
        flat_ravel(self.ravel(), self.ravel().len())
    }
}

/// `∊B`, enlist: a vector of the simple cells of B, depth first.
pub fn enlist(b: &ValueP) -> (r: AplResult<ValueP>)
    ensures
        b.flat().len() <= i64::MAX ==> (r matches Ok(v) && v.dims() == seq![b.flat().len() as i64]
            && v.ravel() == b.flat()),
        b.flat().len() > i64::MAX ==> r == Err::<ValueP, ErrorCode>(ErrorCode::LimitError),
{
    let cells = b.cells();
    let mut out: Vec<Cell> = Vec::new();
    let mut i: usize = 0;
    while i < cells.len()
        invariant
            i <= cells@.len(),
            cells@ == b.ravel(),
            out@ == flat_ravel(cells@, i as nat),
        decreases cells@.len() - i,
    {
        flatten_into(&cells[i], &mut out);
        proof {
            assert(flat_ravel(cells@, (i + 1) as nat)
                == flat_ravel(cells@, i as nat) + flat_cell(cells@[i as int]));
        }
        i += 1;
    }
    if out.len() as u128 > i64::MAX as u128 {
        return Err(ErrorCode::LimitError);
    }
    ValueP::from_parts(Shape::vector(out.len() as i64), out)
}

/// `r` is the fill element for a value whose prototype is `c`: integer 0
/// for a number, the blank for a character, and for a nested value the
/// enclosed fill element of its own prototype.
pub closed spec fn proto_ok(r: Cell, c: Cell) -> bool
    decreases c,
{
    match c {
        Cell::Int(_) => r == Cell::Int(0),
        Cell::Char(_) => r == Cell::Char(32),
        Cell::Pointer(p) => {
            &&& r is Pointer
            &&& (*r->Pointer_0.value).shape_view()@ == Seq::<i64>::empty()
            &&& (*r->Pointer_0.value).ravel_view().len() == 1
            &&& proto_ok((*r->Pointer_0.value).ravel_view()[0], (*p.value).proto)
        },
    }
}

/// The fill element of a simple prototype is integer 0 or the blank.
pub proof fn lemma_proto_simple(r: Cell, c: Cell)
    ensures
        c is Int ==> (proto_ok(r, c) <==> r == Cell::Int(0)),
        c is Char ==> (proto_ok(r, c) <==> r == Cell::Char(32)),
{
}

/// The fill element for a value whose prototype is `c`.
pub fn proto_cell(c: &Cell) -> (r: Cell)
    ensures
        proto_ok(r, *c),
    decreases c,
{
    match c {
        Cell::Int(_) => Cell::Int(0),
        Cell::Char(_) => Cell::Char(32),
        Cell::Pointer(p) => {
            proof {
                let ghost pc: PointerCellData = *p;
                assert(decreases_to!(*c => (*c)->Pointer_0));
                assert(decreases_to!(pc => pc.value));
                let ghost inner: ValueInner = *pc.value;
                assert(decreases_to!(inner => inner.proto));
            }
            let inner = proto_cell(&p.value.proto);
            let mut ravel: Vec<Cell> = Vec::new();
            ravel.push(inner);
            Cell::Pointer(PointerCellData { value: Arc::new(ValueInner::new(Shape::scalar(), ravel)) })
        },
    }
}

/// `n` integer zeros
pub fn zeros(n: usize) -> (r: Vec<Cell>)
    ensures
        r@ == fill(n as nat, Cell::Int(0)),
{
    let mut out: Vec<Cell> = Vec::new();
    let mut i: usize = 0;
    while i < n
        invariant
            i <= n,
            out@ == fill(i as nat, Cell::Int(0)),
        decreases n - i,
    {
        out.push(Cell::Int(0));
        proof { assert(out@ =~= fill((i + 1) as nat, Cell::Int(0))); }
        i += 1;
    }
    out
}

/// the integer cells of a slice of integers
pub fn int_cells_of(vals: &[i64]) -> (r: Vec<Cell>)
    ensures
        r@ == int_cells(vals@),
{
    let mut ravel: Vec<Cell> = Vec::new();
    let mut i: usize = 0;
    while i < vals.len()
        invariant
            i <= vals@.len(),
            ravel@ == int_cells(vals@.take(i as int)),
        decreases vals@.len() - i,
    {
        ravel.push(Cell::Int(vals[i]));
        proof {
            assert(int_cells(vals@.take(i as int + 1)) =~= int_cells(vals@.take(i as int)).push(Cell::Int(vals@[i as int])));
        }
        i += 1;
    }
    assert(vals@.take(i as int) =~= vals@);
    ravel
}

} // verus!
