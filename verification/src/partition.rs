//! Dyadic partition `A⊂B`: split vector B into enclosed pieces by the keys
//! in A. A piece opens where the key increases; an element whose key is 0
//! is dropped (and closes the open piece); an equal or lower key continues
//! the open piece.

use vstd::prelude::*;
use std::sync::Arc;
use crate::cell::{Cell, PointerCellData};
use crate::shape::Shape;
use crate::types::{AplResult, ErrorCode};
use crate::value::{all_ints, int_vals, ValueInner, ValueP};

verus! {

/// The state of the partition scan: the finished pieces, the open piece and
/// the key that opened it (or the 0 that closed it).
pub struct PState {
    pub pieces: Seq<Seq<Cell>>,
    pub current: Seq<Cell>,
    pub key: Option<i64>,
}

/// The finished pieces, with the open one added if it is a real piece.
pub open spec fn flushed(st: PState) -> Seq<Seq<Cell>> {
    if st.current.len() > 0 && (st.key matches Some(k) && k != 0) {
        st.pieces.push(st.current)
    } else {
        st.pieces
    }
}

/// One step of the scan.
pub open spec fn pstep(st: PState, key: i64, c: Cell) -> PState {
    if key == 0 {
        PState { pieces: flushed(st), current: Seq::empty(), key: Some(0) }
    } else if st.key matches Some(k) && key <= k {
        PState { pieces: st.pieces, current: st.current.push(c), key: st.key }
    } else {
        PState { pieces: flushed(st), current: seq![c], key: Some(key) }
    }
}

/// The state after scanning all keys and cells.
pub open spec fn pscan(keys: Seq<i64>, cells: Seq<Cell>) -> PState
    decreases keys.len(),
{
    if keys.len() == 0 || cells.len() == 0 {
        PState { pieces: Seq::empty(), current: Seq::empty(), key: None }
    } else {
        pstep(pscan(keys.drop_last(), cells.drop_last()), keys.last(), cells.last())
    }
}

/// The pieces of `A⊂B` for keys `keys`.
pub open spec fn spec_pieces(keys: Seq<i64>, cells: Seq<Cell>) -> Seq<Seq<Cell>> {
    flushed(pscan(keys, cells))
}

/// `c` is a pointer cell to the vector of `piece`.
pub open spec fn encloses_vector(c: Cell, piece: Seq<Cell>) -> bool {
    c matches Cell::Pointer(p) && (*p.value).shape_view()@ == seq![piece.len() as i64]
        && (*p.value).ravel_view() == piece
}

/// The enclosed vector of the cells.
pub fn enclose_vector(piece: Vec<Cell>) -> (c: Cell)
    requires
        piece@.len() <= i64::MAX,
    ensures
        encloses_vector(c, piece@),
{
    let n = piece.len() as i64;
    let sh = Shape::vector(n);
    let inner = ValueInner::new(sh, piece);
    Cell::Pointer(PointerCellData { value: Arc::new(inner) })
}

/// `A⊂B`. A single-element (or empty) A encloses all of B, and so does a
/// B of rank 2 or more: only a vector B is split into pieces.
pub fn partition(a: &ValueP, b: &ValueP) -> (r: AplResult<ValueP>)
    ensures
        a.ravel().len() <= 1 || b.dims().len() > 1 ==> (r matches Ok(z) && z.dims() == Seq::<i64>::empty()
            && z.ravel() == seq![Cell::Pointer(PointerCellData { value: b.inner })]),
        a.ravel().len() > 1 && b.dims().len() <= 1 && b.ravel().len() != a.ravel().len()
            ==> r == Err::<ValueP, ErrorCode>(ErrorCode::LengthError),
        a.ravel().len() > 1 && b.dims().len() <= 1 && b.ravel().len() == a.ravel().len() && !all_ints(a.ravel())
            ==> r == Err::<ValueP, ErrorCode>(ErrorCode::DomainError),
        a.ravel().len() > 1 && b.dims().len() <= 1 && b.ravel().len() == a.ravel().len() && all_ints(a.ravel())
            ==> (r matches Ok(z) && ({
                let pieces = spec_pieces(int_vals(a.ravel()), b.ravel());
                &&& z.dims() == seq![pieces.len() as i64]
                &&& z.ravel().len() == pieces.len()
                &&& forall|i: int| 0 <= i < pieces.len() ==> encloses_vector(#[trigger] z.ravel()[i], pieces[i])
            })),
{
    let ac = a.cells();
    let bc = b.cells();
    let bn = b.element_count();
    if ac.len() <= 1 || b.rank() > 1 {
        return Ok(ValueP::nested(b.clone()));
    }
    if bc.len() != ac.len() {
        return Err(ErrorCode::LengthError);
    }
    let keys = match crate::value::int_values(ac) {
        Ok(k) => k,
        Err(e) => { return Err(e); }
    };
    let ghost ks = keys@;
    let mut pieces: Vec<Vec<Cell>> = Vec::new();
    let mut current: Vec<Cell> = Vec::new();
    let mut current_key: Option<i64> = None;
    let mut i: usize = 0;
    while i < keys.len()
        invariant
            i <= keys@.len(),
            keys@.len() == bc@.len(),
            ({
                let st = pscan(keys@.take(i as int), bc@.take(i as int));
                &&& pieces@.len() == st.pieces.len()
                &&& forall|j: int| 0 <= j < pieces@.len() ==> (#[trigger] pieces@[j])@ == st.pieces[j]
                &&& current@ == st.current
                &&& current_key == st.key
            }),
            forall|j: int| 0 <= j < pieces@.len() ==> (#[trigger] pieces@[j])@.len() <= i,
            current@.len() <= i,
            pieces@.len() + current@.len() <= i,
        decreases keys@.len() - i,
    {
        let key = keys[i];
        let ghost st0 = pscan(keys@.take(i as int), bc@.take(i as int));
        proof {
            assert(keys@.take(i as int + 1).drop_last() =~= keys@.take(i as int));
            assert(bc@.take(i as int + 1).drop_last() =~= bc@.take(i as int));
        }
        let open_piece = current.len() > 0 && match current_key { Some(k) => k != 0, None => false };
        if key == 0 {
            if open_piece {
                let mut done: Vec<Cell> = Vec::new();
                std::mem::swap(&mut done, &mut current);
                pieces.push(done);
            } else {
                current = Vec::new();
            }
            current_key = Some(0);
        } else {
            let continues = match current_key { Some(k) => key <= k, None => false };
            if continues {
                current.push(bc[i].clone());
            } else {
                if open_piece {
                    let mut done: Vec<Cell> = Vec::new();
                std::mem::swap(&mut done, &mut current);
                    pieces.push(done);
                }
                current = Vec::new();
                current.push(bc[i].clone());
                current_key = Some(key);
            }
        }
        proof {
            let st1 = pscan(keys@.take(i as int + 1), bc@.take(i as int + 1));
            assert(st1 == pstep(st0, key, bc@[i as int]));
            assert(current@ =~= st1.current);
            assert(pieces@.len() == st1.pieces.len());
        }
        i += 1;
    }
    assert(keys@.take(i as int) =~= keys@ && bc@.take(i as int) =~= bc@);
    let open_piece = current.len() > 0 && match current_key { Some(k) => k != 0, None => false };
    if open_piece {
        pieces.push(current);
    }
    let ghost want = spec_pieces(keys@, bc@);
    assert(pieces@.len() == want.len());
    // enclose each piece
    let mut ravel: Vec<Cell> = Vec::new();
    let mut j: usize = 0;
    let np = pieces.len();
    while j < np
        invariant
            j <= np,
            np == pieces@.len(),
            np == want.len(),
            forall|t: int| 0 <= t < np ==> (#[trigger] pieces@[t])@ == want[t],
            forall|t: int| 0 <= t < np ==> (#[trigger] pieces@[t])@.len() <= bc@.len(),
            bc@.len() <= i64::MAX,
            np <= bc@.len(),
            ravel@.len() == j,
            forall|t: int| 0 <= t < j ==> encloses_vector(#[trigger] ravel@[t], want[t]),
        decreases np - j,
    {
        let piece = crate::value::clone_cells(pieces[j].as_slice());
        assert(piece@.len() <= i64::MAX);
        ravel.push(enclose_vector(piece));
        j += 1;
    }
    assert(keys@ == int_vals(a.ravel()));
    assert(np <= i64::MAX);
    Ok(ValueP::from_parts_with_proto(Shape::vector(np as i64), ravel, Cell::Int(0)))
}

} // verus!
