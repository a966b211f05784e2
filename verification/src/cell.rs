//! Cell: one element of the ravel of an APL value.

use vstd::prelude::*;
use std::sync::Arc;
use crate::types::{AplResult, ErrorCode, APLInteger, Unicode};
use crate::value::ValueInner;

verus! {

/// `Arc::clone`: a second handle to the same shared value.
#[verifier::external_body]
pub(crate) fn share(a: &Arc<ValueInner>) -> (r: Arc<ValueInner>)
    ensures
        r == *a,
{
    a.clone()
}

/// A nested value held by a pointer cell.
#[derive(Debug)]
pub struct PointerCellData {
    pub value: Arc<ValueInner>,
}

/// One element of a ravel.
#[derive(Debug)]
pub enum Cell {
    /// an integer
    Int(APLInteger),
    /// a character (Unicode code point)
    Char(Unicode),
    /// a nested value
    Pointer(PointerCellData),
}

/// The order in which grade sorts cells: numbers before characters before
/// nested values; numbers by value and characters by code point.
pub open spec fn cell_rank(c: Cell) -> int {
    match c {
        Cell::Int(_) => 0,
        Cell::Char(_) => 1,
        Cell::Pointer(_) => 2,
    }
}

/// The value by which grade orders cells of the same kind.
pub open spec fn cell_key(c: Cell) -> int {
    match c {
        Cell::Int(i) => i as int,
        Cell::Char(u) => u as int,
        Cell::Pointer(_) => 0,
    }
}

/// `a` sorts strictly before `b`.
pub open spec fn cell_lt(a: Cell, b: Cell) -> bool {
    cell_rank(a) < cell_rank(b) || (cell_rank(a) == cell_rank(b) && cell_key(a) < cell_key(b))
}

/// The three outcomes of comparing two cells.
#[derive(Clone, Copy, Debug, PartialEq, Eq, Structural)]
pub enum CompResult {
    Lt,
    Eq,
    Gt,
}

impl Clone for PointerCellData {
    fn clone(&self) -> (r: Self)
        ensures
            r == *self,
    {
        PointerCellData { value: share(&self.value) }
    }
}

impl Clone for Cell {
    fn clone(&self) -> (r: Self)
        ensures
            r == *self,
    {
        match self {
            Cell::Int(i) => Cell::Int(*i),
            Cell::Char(c) => Cell::Char(*c),
            Cell::Pointer(p) => Cell::Pointer(p.clone()),
        }
    }
}

/// Two cells are equal when they match: equal numbers, equal characters,
/// or nested values of the same shape whose cells match in turn.
impl PartialEq for Cell {
    fn eq(&self, other: &Cell) -> (r: bool) {
        crate::value::cells_match(self, other)
    }
}

impl vstd::std_specs::cmp::PartialEqSpecImpl for Cell {
    open spec fn obeys_eq_spec() -> bool {
        true
    }

    open spec fn eq_spec(&self, other: &Cell) -> bool {
        crate::value::cell_match(*self, *other)
    }
}

impl Cell {
    /// an integer cell
    pub fn integer(i: APLInteger) -> (c: Cell)
        ensures
            c == Cell::Int(i),
    {
        Cell::Int(i)
    }

    /// a character cell
    pub fn char(u: Unicode) -> (c: Cell)
        ensures
            c == Cell::Char(u),
    {
        Cell::Char(u)
    }

    /// a pointer cell holding a nested value
    pub fn pointer(v: Arc<ValueInner>) -> (c: Cell)
        ensures
            c == Cell::Pointer(PointerCellData { value: v }),
    {
        Cell::Pointer(PointerCellData { value: v })
    }

    /// true iff this cell holds a nested value
    pub fn is_pointer_cell(&self) -> (b: bool)
        ensures
            b == (*self is Pointer),
    {
        match self {
            Cell::Pointer(_) => true,
            _ => false,
        }
    }

    /// true iff this cell holds a character
    pub fn is_char_cell(&self) -> (b: bool)
        ensures
            b == (*self is Char),
    {
        match self {
            Cell::Char(_) => true,
            _ => false,
        }
    }

    /// true iff this cell holds an integer
    pub fn is_int_cell(&self) -> (b: bool)
        ensures
            b == (*self is Int),
    {
        match self {
            Cell::Int(_) => true,
            _ => false,
        }
    }

    /// the integer held by this cell; DOMAIN ERROR for other cells
    pub fn get_int_value(&self) -> (r: AplResult<APLInteger>)
        ensures
            match *self {
                Cell::Int(i) => r == Ok::<i64, ErrorCode>(i),
                _ => r == Err::<i64, ErrorCode>(ErrorCode::DomainError),
            },
    {
        match self {
            Cell::Int(i) => Ok(*i),
            _ => Err(ErrorCode::DomainError),
        }
    }

    /// the nearest integer of a numeric cell (the integer itself, as every
    /// number of this library is an integer); DOMAIN ERROR for other cells
    pub fn get_near_int(&self) -> (r: AplResult<APLInteger>)
        ensures
            match *self {
                Cell::Int(i) => r == Ok::<i64, ErrorCode>(i),
                _ => r == Err::<i64, ErrorCode>(ErrorCode::DomainError),
            },
    {
        self.get_int_value()
    }

    /// the code point held by this cell; DOMAIN ERROR for other cells
    pub fn get_char_value(&self) -> (r: AplResult<Unicode>)
        ensures
            match *self {
                Cell::Char(u) => r == Ok::<u32, ErrorCode>(u),
                _ => r == Err::<u32, ErrorCode>(ErrorCode::DomainError),
            },
    {
        match self {
            Cell::Char(u) => Ok(*u),
            _ => Err(ErrorCode::DomainError),
        }
    }

    /// compare two cells in grade order
    pub fn compare(&self, other: &Cell) -> (r: CompResult)
        ensures
            r == CompResult::Lt <==> cell_lt(*self, *other),
            r == CompResult::Gt <==> cell_lt(*other, *self),
            r == CompResult::Eq <==> (!cell_lt(*self, *other) && !cell_lt(*other, *self)),
    {
        let (ra, ka) = Self::order_key(self);
        let (rb, kb) = Self::order_key(other);
        if ra < rb || (ra == rb && ka < kb) {
            CompResult::Lt
        } else if rb < ra || (ra == rb && kb < ka) {
            CompResult::Gt
        } else {
            CompResult::Eq
        }
    }

    fn order_key(c: &Cell) -> (r: (u8, i64))
        ensures
            r.0 as int == cell_rank(*c),
            r.1 as int == cell_key(*c),
    {
        match c {
            Cell::Int(i) => (0, *i),
            Cell::Char(u) => (1, *u as i64),
            Cell::Pointer(_) => (2, 0),
        }
    }
}

/// How cells are ordered for grading: integers before characters before
/// nested cells; integers by value and characters by code point, each
/// ascending.
pub proof fn law_cell_order(x: i64, y: i64, u: u32, v: u32, p: Cell)
    ensures
        cell_lt(Cell::Int(x), Cell::Int(y)) <==> x < y,
        cell_lt(Cell::Char(u), Cell::Char(v)) <==> u < v,
        cell_lt(Cell::Int(x), Cell::Char(u)),
        !cell_lt(Cell::Char(u), Cell::Int(x)),
        p is Pointer ==> cell_lt(Cell::Char(u), p) && !cell_lt(p, Cell::Char(u)),
{
}

} // verus!
