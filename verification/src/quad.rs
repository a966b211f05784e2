//! System functions: character codes, constants of the session, the
//! random link, case conversion, an exact cover solver, function text and
//! the workspace map.

use vstd::prelude::*;
use crate::cell::Cell;
use crate::text::{char_from_u32, is_scalar_value};
use crate::types::{AplResult, ErrorCode};
use crate::value::ValueP;
use crate::shape::prod;
use rand::rngs::ThreadRng;
use rand::Rng;
use std::time::{Duration, SystemTime};

verus! {

#[verifier::external_type_specification]
#[verifier::external_body]
pub struct ExSystemTime(SystemTime);

#[verifier::external_type_specification]
#[verifier::external_body]
pub struct ExThreadRng(ThreadRng);

/// `rand::thread_rng`: the generator of this thread, seeded by the system.
#[verifier::external_body]
fn random_source() -> ThreadRng {
    rand::thread_rng()
}

/// `Rng::gen_range(lo..hi)`: a random integer from `lo` up to, not
/// including, `hi`; which one is left open.
#[verifier::external_body]
fn random_in(rng: &mut ThreadRng, lo: i64, hi: i64) -> (r: i64)
    requires
        lo < hi,
    ensures
        lo <= r < hi,
{
    rng.gen_range(lo..hi)
}

/// `SystemTime::now`: a reading of the system clock. Nothing is stated of
/// which reading comes back.
#[verifier::external_body]
fn clock_now() -> SystemTime {
    SystemTime::now()
}

/// `SystemTime::duration_since` the epoch: the time from the epoch to `t`,
/// or None when `t` is earlier. Nothing is stated of the duration.
#[verifier::external_body]
fn since_epoch(t: &SystemTime) -> Option<Duration> {
    t.duration_since(std::time::UNIX_EPOCH).ok()
}

/// `Duration::as_secs`: the whole seconds of `d`.
#[verifier::external_body]
fn whole_seconds(d: &Duration) -> u64 {
    d.as_secs()
}

/// `Duration::subsec_micros`: the microseconds of `d` past its whole
/// seconds, fewer than a million.
#[verifier::external_body]
fn micros_past(d: &Duration) -> (r: u32)
    ensures
        r < 1_000_000,
{
    d.subsec_micros()
}

/// `char::to_uppercase`: the first character of the upper case of `c`.
pub uninterp spec fn upper_of(c: char) -> char;

/// `char::to_lowercase`: the first character of the lower case of `c`.
pub uninterp spec fn lower_of(c: char) -> char;

/// `char::to_uppercase`, first character: a name for its result; the
/// letters `a` to `z` become `A` to `Z`.
#[verifier::external_body]
fn char_upper(c: char) -> (r: char)
    ensures
        r == upper_of(c),
        'a' <= c <= 'z' ==> r as u32 == c as u32 - 32,
{
    match c.to_uppercase().next() {
        Some(u) => u,
        None => c,
    }
}

/// `char::to_lowercase`, first character: a name for its result; the
/// letters `A` to `Z` become `a` to `z`.
#[verifier::external_body]
fn char_lower(c: char) -> (r: char)
    ensures
        r == lower_of(c),
        'A' <= c <= 'Z' ==> r as u32 == c as u32 + 32,
{
    match c.to_lowercase().next() {
        Some(u) => u,
        None => c,
    }
}

/// Whether `c` has the Unicode White_Space property: the controls U+0009
/// to U+000D, the blank, U+0085, U+00A0, U+1680, U+2000 to U+200A, the line
/// and paragraph separators U+2028 and U+2029, U+202F, U+205F and U+3000.
pub open spec fn white_space(c: char) -> bool {
    white_code(c as u32)
}

/// The code points of the White_Space property (see `white_space`).
pub open spec fn white_code(u: u32) -> bool {
    ||| 0x09 <= u <= 0x0D
    ||| u == 0x20
    ||| u == 0x85
    ||| u == 0xA0
    ||| u == 0x1680
    ||| 0x2000 <= u <= 0x200A
    ||| u == 0x2028
    ||| u == 0x2029
    ||| u == 0x202F
    ||| u == 0x205F
    ||| u == 0x3000
}

/// `char::is_whitespace`, which the standard library documents as the
/// White_Space property of the Unicode Character Database.
#[verifier::external_body]
pub(crate) fn char_is_white(c: char) -> (r: bool)
    ensures
        r == white_space(c),
{
    c.is_whitespace()
}

/// Every cell is an integer.
pub open spec fn all_int_cells(s: Seq<Cell>) -> bool {
    forall|i: int| 0 <= i < s.len() ==> (#[trigger] s[i]) is Int
}

/// Every cell is a character.
pub open spec fn all_char_cells(s: Seq<Cell>) -> bool {
    forall|i: int| 0 <= i < s.len() ==> (#[trigger] s[i]) is Char
}

/// An integer cell that names a character: its integer lies in
/// 0…0x10FFFF and is a Unicode scalar value.
pub open spec fn valid_int_code(c: Cell) -> bool {
    c matches Cell::Int(i) && 0 <= i <= 0x10FFFF && is_scalar_value(i as u32)
}

/// The code point an integer cell names (meaningful where
/// `valid_int_code` holds).
pub open spec fn int_code(c: Cell) -> u32 {
    match c {
        Cell::Int(i) => i as u32,
        _ => 0,
    }
}

/// The code point of a character cell.
pub open spec fn char_code(c: Cell) -> u32 {
    match c {
        Cell::Char(u) => u,
        _ => 0,
    }
}

/// The character with code point `u`.
pub open spec fn char_of(u: u32) -> char {
    choose|c: char| #[trigger] code_point(c) == u
}

/// The code point of a character.
pub open spec fn code_point(c: char) -> u32 {
    c as u32
}

/// Each character is the character of its code point.
pub(crate) proof fn lemma_char_of(c: char)
    ensures
        char_of(c as u32) == c,
{
    assert(code_point(c) == c as u32);
    let d = char_of(c as u32);
    assert(code_point(d) == c as u32);
}

/// A code point as a character, `?` where it is not one.
pub open spec fn code_or_query(u: u32) -> u32 {
    if is_scalar_value(u) { u } else { 63 }
}

/// `v` is the vector of the given cells.
pub open spec fn is_vector_of(v: ValueP, cells: Seq<Cell>) -> bool {
    v.dims() == seq![cells.len() as i64] && v.ravel() == cells
}

/// Whether all cells are integers.
fn all_int_exec(s: &[Cell]) -> (r: bool)
    ensures
        r == all_int_cells(s@),
{
    let mut i: usize = 0;
    while i < s.len()
        invariant
            i <= s@.len(),
            forall|k: int| 0 <= k < i ==> (#[trigger] s@[k]) is Int,
        decreases s@.len() - i,
    {
        if !s[i].is_int_cell() {
            return false;
        }
        i += 1;
    }
    true
}

/// Whether all cells are characters.
fn all_char_exec(s: &[Cell]) -> (r: bool)
    ensures
        r == all_char_cells(s@),
{
    let mut i: usize = 0;
    while i < s.len()
        invariant
            i <= s@.len(),
            forall|k: int| 0 <= k < i ==> (#[trigger] s@[k]) is Char,
        decreases s@.len() - i,
    {
        if !s[i].is_char_cell() {
            return false;
        }
        i += 1;
    }
    true
}

/// The code points of character cells, `?` for those that are not
/// characters of Unicode.
fn codes_or_query(s: &[Cell]) -> (r: Vec<u32>)
    ensures
        r@ == Seq::new(s@.len(), |i: int| code_or_query(char_code(s@[i]))),
{
    let mut out: Vec<u32> = Vec::new();
    let mut i: usize = 0;
    while i < s.len()
        invariant
            i <= s@.len(),
            out@ == Seq::new(i as nat, |k: int| code_or_query(char_code(s@[k]))),
        decreases s@.len() - i,
    {
        let u = match &s[i] {
            Cell::Char(u) => *u,
            _ => 0,
        };
        let c = match char_from_u32(u) {
            Some(_) => u,
            None => 63,
        };
        out.push(c);
        proof {
            assert(out@ =~= Seq::new((i + 1) as nat, |k: int| code_or_query(char_code(s@[k]))));
        }
        i += 1;
    }
    out
}

/// `⎕UCS B`: integers to the characters with those code points, or
/// characters to their code points. An empty B gives an empty vector; an
/// integer outside 0…0x10FFFF or naming no character, or a B that mixes
/// kinds, is a DOMAIN ERROR.
pub fn quad_ucs(b: &ValueP) -> (r: AplResult<ValueP>)
    ensures
        b.ravel().len() == 0 ==> (r matches Ok(v) && is_vector_of(v, Seq::<Cell>::empty())),
        b.ravel().len() > 0 && all_int_cells(b.ravel()) ==> (
            if forall|i: int| 0 <= i < b.ravel().len() ==> #[trigger] valid_int_code(b.ravel()[i]) {
                r matches Ok(v) && is_vector_of(v,
                    Seq::new(b.ravel().len(), |i: int| Cell::Char(int_code(b.ravel()[i]))))
            } else {
                r == Err::<ValueP, ErrorCode>(ErrorCode::DomainError)
            }),
        b.ravel().len() > 0 && !all_int_cells(b.ravel()) && all_char_cells(b.ravel()) ==> (
            r matches Ok(v) && is_vector_of(v,
                Seq::new(b.ravel().len(), |i: int| Cell::Int(char_code(b.ravel()[i]) as i64)))),
        b.ravel().len() > 0 && !all_int_cells(b.ravel()) && !all_char_cells(b.ravel())
            ==> r == Err::<ValueP, ErrorCode>(ErrorCode::DomainError),
{
    b.lemma_wf();
    let cells = b.cells();
    if cells.len() == 0 {
        let v = ValueP::int_vector(&[]);
        assert(v.ravel() =~= Seq::<Cell>::empty());
        return Ok(v);
    }
    if all_int_exec(cells) {
        let mut codes: Vec<u32> = Vec::new();
        let mut i: usize = 0;
        while i < cells.len()
            invariant
                i <= cells@.len(),
                cells@ == b.ravel(),
                all_int_cells(cells@),
                codes@ == Seq::new(i as nat, |k: int| int_code(cells@[k])),
                forall|k: int| 0 <= k < i ==> #[trigger] valid_int_code(cells@[k]),
            decreases cells@.len() - i,
        {
            let x = match &cells[i] {
                Cell::Int(x) => *x,
                _ => 0,
            };
            if x < 0 || x > 0x10FFFF {
                assert(cells@[i as int] == Cell::Int(x));
                assert(!valid_int_code(cells@[i as int]));
                return Err(ErrorCode::DomainError);
            }
            let u = x as u32;
            if char_from_u32(u).is_none() {
                assert(!valid_int_code(cells@[i as int]));
                return Err(ErrorCode::DomainError);
            }
            codes.push(u);
            proof {
                assert(codes@ =~= Seq::new((i + 1) as nat, |k: int| int_code(cells@[k])));
            }
            i += 1;
        }
        let v = ValueP::char_vector(codes.as_slice());
        assert(v.ravel() =~= Seq::new(b.ravel().len(), |i: int| Cell::Char(int_code(b.ravel()[i]))));
        return Ok(v);
    }
    if all_char_exec(cells) {
        let mut ints: Vec<i64> = Vec::new();
        let mut i: usize = 0;
        while i < cells.len()
            invariant
                i <= cells@.len(),
                cells@ == b.ravel(),
                ints@ == Seq::new(i as nat, |k: int| char_code(cells@[k]) as i64),
            decreases cells@.len() - i,
        {
            let u = match &cells[i] {
                Cell::Char(u) => *u,
                _ => 0,
            };
            ints.push(u as i64);
            proof {
                assert(ints@ =~= Seq::new((i + 1) as nat, |k: int| char_code(cells@[k]) as i64));
            }
            i += 1;
        }
        let v = ValueP::int_vector(ints.as_slice());
        assert(v.ravel() =~= Seq::new(b.ravel().len(), |i: int| Cell::Int(char_code(b.ravel()[i]) as i64)));
        return Ok(v);
    }
    Err(ErrorCode::DomainError)
}

/// `⎕AV`: the characters with code points 0 to 255.
pub fn quad_av() -> (v: ValueP)
    ensures
        is_vector_of(v, Seq::new(256, |i: int| Cell::Char(i as u32))),
{
    let mut codes: Vec<u32> = Vec::new();
    let mut k: u32 = 0;
    while k < 256
        invariant
            k <= 256,
            codes@ == Seq::new(k as nat, |i: int| i as u32),
        decreases 256 - k,
    {
        codes.push(k);
        proof {
            assert(codes@ =~= Seq::new((k + 1) as nat, |i: int| i as u32));
        }
        k += 1;
    }
    let v = ValueP::char_vector(codes.as_slice());
    assert(v.ravel() =~= Seq::new(256, |i: int| Cell::Char(i as u32)));
    v
}

/// `⎕WA`: the workspace available, a fixed estimate of one gigabyte.
pub fn quad_wa() -> (r: AplResult<ValueP>)
    ensures
        r matches Ok(v) && v.dims() == Seq::<i64>::empty() && v.ravel() == seq![Cell::Int(1073741824)],
{
    Ok(ValueP::scalar_from(Cell::Int(1073741824)))
}

/// `⎕TC`: backspace, newline and carriage return.
pub fn quad_tc() -> (v: ValueP)
    ensures
        is_vector_of(v, seq![Cell::Char(8), Cell::Char(10), Cell::Char(13)]),
{
    let v = ValueP::char_vector(&[8u32, 10u32, 13u32]);
    proof {
        assert(v.ravel() =~= seq![Cell::Char(8), Cell::Char(10), Cell::Char(13)]);
    }
    v
}

/// `⎕DM`: the last error message, empty when there was none.
pub fn quad_dm() -> (v: ValueP)
    ensures
        is_vector_of(v, Seq::<Cell>::empty()),
{
    let v = ValueP::char_vector(&[]);
    assert(v.ravel() =~= Seq::<Cell>::empty());
    v
}

/// `⎕EN`: the last error number, 0 when there was none.
pub fn quad_en() -> (v: ValueP)
    ensures
        v.dims() == Seq::<i64>::empty() && v.ravel() == seq![Cell::Int(0)],
{
    ValueP::scalar_from(Cell::Int(0))
}

/// The text `DEFAULT` as code points.
pub open spec fn default_text() -> Seq<Cell> {
    seq![Cell::Char(68), Cell::Char(69), Cell::Char(70), Cell::Char(65), Cell::Char(85),
        Cell::Char(76), Cell::Char(84)]
}

/// `⎕DFT`: the name of the default format, `DEFAULT`.
pub fn quad_dft() -> (v: ValueP)
    ensures
        is_vector_of(v, default_text()),
{
    let v = ValueP::char_vector(&[68u32, 69u32, 70u32, 65u32, 85u32, 76u32, 84u32]);
    proof {
        assert(v.ravel() =~= default_text());
    }
    v
}

/// The integer in cell `k` of `s`, or `d` when there is none.
pub open spec fn int_or(s: Seq<Cell>, k: int, d: i64) -> i64 {
    if 0 <= k < s.len() && s[k] is Int { s[k]->Int_0 } else { d }
}

fn int_or_exec(s: &[Cell], k: usize, d: i64) -> (r: i64)
    ensures
        r == int_or(s@, k as int, d),
{
    if k < s.len() {
        match &s[k] {
            Cell::Int(i) => *i,
            _ => d,
        }
    } else {
        d
    }
}

/// `⎕RVAL` configuration: the rank, the length of each axis, the type and
/// the greatest depth taken from the first four cells of B, where a cell
/// that is missing or not an integer gives the default 0, 1, 0 or 4. An
/// empty B is a DOMAIN ERROR.
pub fn quad_rval_config(b: &ValueP) -> (r: AplResult<ValueP>)
    ensures
        b.ravel().len() == 0 ==> r == Err::<ValueP, ErrorCode>(ErrorCode::DomainError),
        b.ravel().len() > 0 ==> (r matches Ok(v) && is_vector_of(v, seq![
            Cell::Int(int_or(b.ravel(), 0, 0)), Cell::Int(int_or(b.ravel(), 1, 1)),
            Cell::Int(int_or(b.ravel(), 2, 0)), Cell::Int(int_or(b.ravel(), 3, 4))])),
{
    let cells = b.cells();
    if cells.len() == 0 {
        return Err(ErrorCode::DomainError);
    }
    let rank = int_or_exec(cells, 0, 0);
    let shape = int_or_exec(cells, 1, 1);
    let ty = int_or_exec(cells, 2, 0);
    let maxdepth = int_or_exec(cells, 3, 4);
    let v = ValueP::int_vector(&[rank, shape, ty, maxdepth]);
    proof {
        assert(v.ravel() =~= seq![Cell::Int(rank), Cell::Int(shape), Cell::Int(ty), Cell::Int(maxdepth)]);
    }
    Ok(v)
}

/// `⎕RL`, the random link held in `seed`: an empty B gives the link and
/// leaves it; an integer first in B replaces it (as its 64 bits) and gives
/// the link it replaced; anything else is a DOMAIN ERROR.
pub fn quad_rl(seed: &mut u64, b: &ValueP) -> (r: AplResult<ValueP>)
    ensures
        b.ravel().len() == 0 ==> *final(seed) == *old(seed),
        b.ravel().len() == 0 ==> (r matches Ok(v)
            && v.dims() == Seq::<i64>::empty() && v.ravel() == seq![Cell::Int(*old(seed) as i64)]),
        b.ravel().len() > 0 && b.ravel()[0] is Int ==> *final(seed) == b.ravel()[0]->Int_0 as u64,
        b.ravel().len() > 0 && b.ravel()[0] is Int ==> (r matches Ok(v) && v.dims() == Seq::<i64>::empty()
            && v.ravel() == seq![Cell::Int(*old(seed) as i64)]),
        b.ravel().len() > 0 && !(b.ravel()[0] is Int) ==> (*final(seed) == *old(seed)
            && r == Err::<ValueP, ErrorCode>(ErrorCode::DomainError)),
{
    let cells = b.cells();
    if cells.len() == 0 {
        return Ok(ValueP::scalar_from(Cell::Int(*seed as i64)));
    }
    match &cells[0] {
        Cell::Int(n) => {
            let prev = *seed;
            *seed = *n as u64;
            Ok(ValueP::scalar_from(Cell::Int(prev as i64)))
        },
        _ => Err(ErrorCode::DomainError),
    }
}

/// `⎕CC B`: a single integer 1, 2 or 3 is a case setting and is given
/// back; characters are given back as a vector; anything else, and an
/// empty B, is a DOMAIN ERROR.
pub fn quad_cc(b: &ValueP) -> (r: AplResult<ValueP>)
    ensures
        b.ravel().len() == 1 && b.ravel()[0] is Int && 1 <= b.ravel()[0]->Int_0 <= 3 ==> (r matches Ok(v)
            && v.dims() == Seq::<i64>::empty() && v.ravel() == seq![b.ravel()[0]]),
        b.ravel().len() > 0 && all_char_cells(b.ravel()) ==> (r matches Ok(v)
            && is_vector_of(v, b.ravel())),
        !(b.ravel().len() == 1 && b.ravel()[0] is Int && 1 <= b.ravel()[0]->Int_0 <= 3)
            && !(b.ravel().len() > 0 && all_char_cells(b.ravel()))
            ==> r == Err::<ValueP, ErrorCode>(ErrorCode::DomainError),
{
    b.lemma_wf();
    let cells = b.cells();
    if cells.len() == 0 {
        return Err(ErrorCode::DomainError);
    }
    if all_int_exec(cells) {
        if cells.len() == 1 {
            let case = match &cells[0] {
                Cell::Int(i) => *i,
                _ => 0,
            };
            if case >= 1 && case <= 3 {
                return Ok(ValueP::scalar_from(Cell::Int(case)));
            }
        }
        return Err(ErrorCode::DomainError);
    }
    if all_char_exec(cells) {
        let mut codes: Vec<u32> = Vec::new();
        let mut i: usize = 0;
        while i < cells.len()
            invariant
                i <= cells@.len(),
                cells@ == b.ravel(),
                all_char_cells(cells@),
                codes@ == Seq::new(i as nat, |k: int| char_code(cells@[k])),
            decreases cells@.len() - i,
        {
            let u = match &cells[i] {
                Cell::Char(u) => *u,
                _ => 0,
            };
            codes.push(u);
            proof {
                assert(codes@ =~= Seq::new((i + 1) as nat, |k: int| char_code(cells@[k])));
            }
            i += 1;
        }
        let v = ValueP::char_vector(codes.as_slice());
        proof {
            assert forall|k: int| 0 <= k < cells@.len() implies v.ravel()[k] == b.ravel()[k] by {
                assert(b.ravel()[k] is Char);
            }
            assert(v.ravel() =~= b.ravel());
        }
        return Ok(v);
    }
    Err(ErrorCode::DomainError)
}

/// `⎕TF B`: the transfer form of the function named by the characters of
/// B, which is that name, with `?` for each code point that is no
/// character. An empty B gives an empty vector; a B that is not all
/// characters is a DOMAIN ERROR.
pub fn quad_tf(b: &ValueP) -> (r: AplResult<ValueP>)
    ensures
        b.ravel().len() == 0 ==> (r matches Ok(v) && is_vector_of(v, Seq::<Cell>::empty())),
        b.ravel().len() > 0 && all_char_cells(b.ravel()) ==> (r matches Ok(v) && is_vector_of(v,
            Seq::new(b.ravel().len(), |i: int| Cell::Char(code_or_query(char_code(b.ravel()[i])))))),
        b.ravel().len() > 0 && !all_char_cells(b.ravel()) ==> r == Err::<ValueP, ErrorCode>(ErrorCode::DomainError),
{
    b.lemma_wf();
    let cells = b.cells();
    if cells.len() == 0 {
        let v = ValueP::char_vector(&[]);
        assert(v.ravel() =~= Seq::<Cell>::empty());
        return Ok(v);
    }
    if all_char_exec(cells) {
        let codes = codes_or_query(cells);
        let v = ValueP::char_vector(codes.as_slice());
        assert(v.ravel() =~= Seq::new(b.ravel().len(), |i: int| Cell::Char(code_or_query(char_code(b.ravel()[i])))));
        return Ok(v);
    }
    Err(ErrorCode::DomainError)
}

/// `⎕SVC`: the shared variables, of which there are none.
pub fn quad_svc() -> (r: AplResult<ValueP>)
    ensures
        r matches Ok(v) && is_vector_of(v, Seq::<Cell>::empty()),
{
    let v = ValueP::char_vector(&[]);
    assert(v.ravel() =~= Seq::<Cell>::empty());
    Ok(v)
}

/// `⎕SVO B`: shared variables are not offered; a DOMAIN ERROR.
pub fn quad_svo(_b: &ValueP) -> (r: AplResult<ValueP>)
    ensures
        r == Err::<ValueP, ErrorCode>(ErrorCode::DomainError),
{
    Err(ErrorCode::DomainError)
}

/// `⎕SVQ B`: shared variables are not offered; a DOMAIN ERROR.
pub fn quad_svq(_b: &ValueP) -> (r: AplResult<ValueP>)
    ensures
        r == Err::<ValueP, ErrorCode>(ErrorCode::DomainError),
{
    Err(ErrorCode::DomainError)
}

/// `⎕SVR B`: shared variables are not offered; a DOMAIN ERROR.
pub fn quad_svr(_b: &ValueP) -> (r: AplResult<ValueP>)
    ensures
        r == Err::<ValueP, ErrorCode>(ErrorCode::DomainError),
{
    Err(ErrorCode::DomainError)
}

/// `⎕SVS B`: shared variables are not offered; a DOMAIN ERROR.
pub fn quad_svs(_b: &ValueP) -> (r: AplResult<ValueP>)
    ensures
        r == Err::<ValueP, ErrorCode>(ErrorCode::DomainError),
{
    Err(ErrorCode::DomainError)
}

/// Year `y` of the Gregorian calendar is a leap year.
pub open spec fn is_leap(y: int) -> bool {
    (y % 4 == 0 && y % 100 != 0) || y % 400 == 0
}

/// The number of days in year `y`.
pub open spec fn year_len(y: int) -> int {
    if is_leap(y) { 366 } else { 365 }
}

/// The days of year `y` before the first of month `m` (1 to 12).
pub open spec fn days_before(y: int, m: int) -> int {
    let base: int = if m <= 1 { 0 } else if m == 2 { 31 } else if m == 3 { 59 } else if m == 4 { 90 }
        else if m == 5 { 120 } else if m == 6 { 151 } else if m == 7 { 181 } else if m == 8 { 212 }
        else if m == 9 { 243 } else if m == 10 { 273 } else if m == 11 { 304 } else { 334 };
    base + if m > 2 && is_leap(y) { 1int } else { 0int }
}

/// The number of days in month `m` of year `y`.
pub open spec fn month_len(y: int, m: int) -> int {
    if m == 2 { if is_leap(y) { 29 } else { 28 } } else if m == 4 || m == 6 || m == 9 || m == 11 { 30 } else { 31 }
}

/// The year and the day within it (from 0) of day `d` counted from the
/// first of January of year `y`.
pub open spec fn year_of(y: int, d: nat) -> (int, nat)
    decreases d,
{
    if d >= year_len(y) { year_of(y + 1, (d - year_len(y)) as nat) } else { (y, d) }
}

/// The month (1 to 12) of day `d` (from 0) of year `y`, searching from
/// month `m`.
pub open spec fn month_of(y: int, d: int, m: int) -> int
    decreases 12 - m,
{
    if m < 12 && d >= days_before(y, m + 1) { month_of(y, d, m + 1) } else { m }
}

/// The calendar fields of a time `secs` seconds and `micros`
/// microseconds past the epoch, in the Gregorian calendar (UTC): year,
/// month, day, hour, minute, second, millisecond, microsecond.
pub open spec fn time_fields(secs: u64, micros: u32) -> Seq<i64> {
    let (y, d) = year_of(1970, (secs / 86400) as nat);
    let m = month_of(y, d as int, 1);
    seq![y as i64, m as i64, (d - days_before(y, m) + 1) as i64,
        ((secs % 86400) / 3600) as i64, ((secs % 3600) / 60) as i64, (secs % 60) as i64,
        (micros / 1000) as i64, (micros % 1000) as i64]
}

/// Each month's days follow the days before it.
proof fn lemma_month_len(y: int, m: int)
    requires
        1 <= m <= 11,
    ensures
        days_before(y, m + 1) == days_before(y, m) + month_len(y, m),
{
}

/// The month found for a day of the year holds that day.
pub proof fn lemma_month_of(y: int, d: int, m: int)
    requires
        1 <= m <= 12,
        days_before(y, m) <= d < year_len(y),
    ensures
        m <= month_of(y, d, m) <= 12,
        days_before(y, month_of(y, d, m)) <= d,
        d < days_before(y, month_of(y, d, m)) + month_len(y, month_of(y, d, m)),
    decreases 12 - m,
{
    if m < 12 {
        lemma_month_len(y, m);
        if d >= days_before(y, m + 1) {
            lemma_month_of(y, d, m + 1);
        }
    }
}

/// The year found for a day holds it.
pub proof fn lemma_year_of(y: int, d: nat)
    ensures
        year_of(y, d).1 < year_len(year_of(y, d).0),
        year_of(y, d).0 >= y,
        year_of(y, d).0 <= y + d,
        year_of(y, d).1 <= d,
    decreases d,
{
    if d >= year_len(y) {
        lemma_year_of(y + 1, (d - year_len(y)) as nat);
    }
}

/// The fields of `⎕TS` lie in their calendar ranges: a month from 1 to
/// 12, a day from 1 to the length of that month, an hour below 24, a
/// minute and a second below 60, milliseconds and microseconds below 1000.
pub proof fn law_time_fields_ranges(secs: u64, micros: u32)
    requires
        micros < 1_000_000,
    ensures
        ({
            let f = time_fields(secs, micros);
            &&& f.len() == 8
            &&& f[0] >= 1970
            &&& 1 <= f[1] <= 12
            &&& 1 <= f[2] <= month_len(f[0] as int, f[1] as int) <= 31
            &&& 0 <= f[3] < 24 && 0 <= f[4] < 60 && 0 <= f[5] < 60
            &&& 0 <= f[6] < 1000 && 0 <= f[7] < 1000
        }),
{
    let (y, d) = year_of(1970, (secs / 86400) as nat);
    lemma_year_of(1970, (secs / 86400) as nat);
    lemma_month_of(y, d as int, 1);
    let m = month_of(y, d as int, 1);
    assert(secs / 86400 <= u64::MAX / 86400);
    assert(1970 <= y <= 1970 + secs / 86400);
    assert(1 <= m <= 12);
    let f = time_fields(secs, micros);
    assert(f[0] as int == y);
    assert(f[1] as int == m);
    assert(f[2] as int == d - days_before(y, m) + 1);
    assert(secs % 86400 < 86400);
    assert((secs % 86400) / 3600 < 24);
    assert(secs % 3600 < 3600);
    assert((secs % 3600) / 60 < 60);
}

/// Whether year `y` is a leap year.
fn leap_year(y: u64) -> (r: bool)
    ensures
        r == is_leap(y as int),
{
    (y % 4 == 0 && y % 100 != 0) || y % 400 == 0
}

/// The number of days in year `y`.
fn year_days(y: u64) -> (r: u64)
    ensures
        r as int == year_len(y as int),
{
    if leap_year(y) { 366 } else { 365 }
}

/// The number of days in month `m` of a year that is a leap year or not.
fn month_days(leap: bool, m: u64) -> (r: u64)
    ensures
        forall|y: int| is_leap(y) == leap ==> r as int == month_len(y, m as int),
{
    if m == 2 { if leap { 29 } else { 28 } } else if m == 4 || m == 6 || m == 9 || m == 11 { 30 } else { 31 }
}

/// The fields of a time since the epoch, as `⎕TS` gives them.
pub fn timestamp_fields(secs: u64, micros: u32) -> (r: Vec<i64>)
    ensures
        r@ == time_fields(secs, micros),
{
    let days = secs / 86400;
    let mut y: u64 = 1970;
    let mut d: u64 = days;
    proof { lemma_year_of(1970, days as nat); }
    while d >= year_days(y)
        invariant
            year_of(y as int, d as nat) == year_of(1970, days as nat),
            y as int + d as int <= 1970 + days as int,
            1970 <= y,
            days <= u64::MAX / 86400,
        decreases d,
    {
        let len: u64 = year_days(y);
        d = d - len;
        y = y + 1;
    }
    let ghost yi = y as int;
    assert(year_of(yi, d as nat) == (yi, d as nat));
    let leap: bool = leap_year(y);
    let mut m: u64 = 1;
    let mut before: u64 = 0;
    proof { lemma_month_of(yi, d as int, 1); }
    while m < 12 && d >= before + month_days(leap, m)
        invariant
            1 <= m <= 12,
            before as int == days_before(yi, m as int),
            leap == is_leap(yi),
            (d as int) < year_len(yi),
            days_before(yi, m as int) <= d,
            month_of(yi, d as int, m as int) == month_of(yi, d as int, 1),
        decreases 12 - m,
    {
        proof { lemma_month_len(yi, m as int); }
        let ml: u64 = month_days(leap, m);
        before = before + ml;
        m = m + 1;
    }
    proof {
        if m < 12 {
            lemma_month_len(yi, m as int);
        }
        assert(month_of(yi, d as int, m as int) == m as int);
    }
    let mut out: Vec<i64> = Vec::new();
    out.push(y as i64);
    out.push(m as i64);
    out.push((d - before + 1) as i64);
    out.push(((secs % 86400) / 3600) as i64);
    out.push(((secs % 3600) / 60) as i64);
    out.push((secs % 60) as i64);
    out.push((micros / 1000) as i64);
    out.push((micros % 1000) as i64);
    assert(out@ =~= time_fields(secs, micros));
    out
}

/// `⎕TS`: the current time as eight integers (see `time_fields`); a DOMAIN
/// ERROR when the clock reads earlier than the epoch.
pub fn quad_ts() -> (r: AplResult<ValueP>)
    ensures
        r matches Ok(v) ==> exists|s: u64, m: u32| m < 1_000_000
            && is_vector_of(v, crate::value::int_cells(#[trigger] time_fields(s, m))),
        r is Err ==> r == Err::<ValueP, ErrorCode>(ErrorCode::DomainError),
{
    let now = clock_now();
    match since_epoch(&now) {
        None => Err(ErrorCode::DomainError),
        Some(d) => {
            let secs = whole_seconds(&d);
            let micros = micros_past(&d);
            let fields = timestamp_fields(secs, micros);
            let v = ValueP::int_vector(fields.as_slice());
            assert(is_vector_of(v, crate::value::int_cells(time_fields(secs, micros))));
            Ok(v)
        },
    }
}

/// A code point after case conversion `case`: 1 upper case, 2 lower case,
/// anything else unchanged; a code point that is no character reads as `?`.
pub open spec fn case_code(case: i64, u: u32) -> u32 {
    let c = if is_scalar_value(u) { char_of(u) } else { '?' };
    if case == 1 { upper_of(c) as u32 } else if case == 2 { lower_of(c) as u32 } else { c as u32 }
}

/// The code of a cell after case conversion `case`: 0 for a cell that is
/// not a character.
pub open spec fn case_cell(case: i64, c: Cell) -> Cell {
    match c {
        Cell::Char(u) => Cell::Char(case_code(case, u)),
        _ => Cell::Char(0),
    }
}

/// The ASCII case mapping of a cell under case setting `case`: a letter
/// `a`…`z` in upper case (1) and `A`…`Z` in lower case (2) move by 32;
/// nothing is said of other cells.
pub open spec fn ascii_case(case: i64, c: Cell) -> Option<u32> {
    match c {
        Cell::Char(u) => if case == 1 && 97 <= u <= 122 {
            Some((u - 32) as u32)
        } else if case == 2 && 65 <= u <= 90 {
            Some((u + 32) as u32)
        } else {
            None
        },
        _ => None,
    }
}

/// `⎕CC` with case setting `case` (1 upper, 2 lower, other values leave
/// the characters): the converted characters of B as a vector; a cell that
/// is not a character gives code point 0.
pub fn quad_cc_with_case(case: i64, b: &ValueP) -> (r: AplResult<ValueP>)
    ensures
        r matches Ok(v) && is_vector_of(v, Seq::new(b.ravel().len(), |i: int| case_cell(case, b.ravel()[i])))
            && v.spec_proto() == Cell::Char(32),
        r matches Ok(v) ==> forall|i: int| 0 <= i < b.ravel().len() ==>
            (ascii_case(case, #[trigger] b.ravel()[i]) matches Some(x) ==> v.ravel()[i] == Cell::Char(x)),
{
    b.lemma_wf();
    let cells = b.cells();
    let mut codes: Vec<u32> = Vec::new();
    let mut i: usize = 0;
    while i < cells.len()
        invariant
            i <= cells@.len(),
            cells@ == b.ravel(),
            forall|k: int| 0 <= k < i ==> Cell::Char(#[trigger] codes@[k]) == case_cell(case, cells@[k]),
            forall|k: int| 0 <= k < i ==> (ascii_case(case, cells@[k]) matches Some(x) ==> #[trigger] codes@[k] == x),
            codes@.len() == i,
        decreases cells@.len() - i,
    {
        let code: u32 = match &cells[i] {
            Cell::Char(u) => {
                let c = match char_from_u32(*u) {
                    Some(c) => c,
                    None => '?',
                };
                proof {
                    if is_scalar_value(*u) {
                        lemma_char_of(c);
                    }
                }
                if case == 1 {
                    char_upper(c) as u32
                } else if case == 2 {
                    char_lower(c) as u32
                } else {
                    c as u32
                }
            },
            _ => 0,
        };
        assert(Cell::Char(code) == case_cell(case, cells@[i as int]));
        proof {
            if ascii_case(case, cells@[i as int]) is Some {
                let u = cells@[i as int]->Char_0;
                assert(is_scalar_value(u));
            }
        }
        codes.push(code);
        i += 1;
    }
    let v = ValueP::char_vector(codes.as_slice());
    assert(v.ravel() =~= Seq::new(b.ravel().len(), |i: int| case_cell(case, b.ravel()[i])));
    Ok(v)
}

/// Text without its leading and trailing white space.
pub open spec fn trimmed(s: Seq<char>) -> Seq<char>
    decreases s.len(),
{
    if s.len() == 0 {
        s
    } else if white_space(s[0]) {
        trimmed(s.drop_first())
    } else if white_space(s.last()) {
        trimmed(s.drop_last())
    } else {
        s
    }
}

/// `str::trim`: the characters of `s` without leading and trailing white
/// space.
pub fn trim_chars(s: &[char]) -> (r: Vec<char>)
    ensures
        r@ == trimmed(s@),
{
    let n = s.len();
    let mut lo: usize = 0;
    assert(s@.subrange(0, n as int) =~= s@);
    while lo < n && char_is_white(s[lo])
        invariant
            n == s@.len(),
            lo <= n,
            trimmed(s@) == trimmed(s@.subrange(lo as int, n as int)),
        decreases n - lo,
    {
        proof {
            assert(s@.subrange(lo as int, n as int).drop_first() =~= s@.subrange(lo as int + 1, n as int));
        }
        lo += 1;
    }
    let mut hi: usize = n;
    while hi > lo && char_is_white(s[hi - 1])
        invariant
            n == s@.len(),
            lo <= hi <= n,
            lo < hi ==> !white_space(s@[lo as int]),
            trimmed(s@) == trimmed(s@.subrange(lo as int, hi as int)),
        decreases hi - lo,
    {
        proof {
            let t = s@.subrange(lo as int, hi as int);
            assert(t.drop_last() =~= s@.subrange(lo as int, hi as int - 1));
            assert(t[0] == s@[lo as int]);
            if hi - 1 == lo {
                assert(white_space(t[0]));
            }
        }
        hi -= 1;
    }
    proof {
        let t = s@.subrange(lo as int, hi as int);
        if lo < hi {
            assert(t[0] == s@[lo as int]);
            assert(t.last() == s@[hi as int - 1]);
        } else {
            assert(t =~= Seq::<char>::empty());
        }
    }
    crate::text::sub_chars(s, lo, hi)
}

/// The characters of cells, `rep` for each code point that is no
/// character (and for a cell that is not a character).
pub open spec fn chars_of(s: Seq<Cell>, rep: char) -> Seq<char> {
    Seq::new(s.len(), |i: int| match s[i] {
        Cell::Char(u) => if is_scalar_value(u) { char_of(u) } else { rep },
        _ => rep,
    })
}

fn chars_of_exec(s: &[Cell], rep: char) -> (r: Vec<char>)
    ensures
        r@ == chars_of(s@, rep),
{
    let mut out: Vec<char> = Vec::new();
    let mut i: usize = 0;
    while i < s.len()
        invariant
            i <= s@.len(),
            out@ == chars_of(s@.take(i as int), rep),
        decreases s@.len() - i,
    {
        let c = match &s[i] {
            Cell::Char(u) => match char_from_u32(*u) {
                Some(c) => {
                    proof {
                        lemma_char_of(c);
                    }
                    c
                },
                None => rep,
            },
            _ => rep,
        };
        proof {
            let t = s@.take(i as int + 1);
            assert(t[i as int] == s@[i as int]);
            assert(chars_of(t, rep)[i as int] == c);
            assert forall|k: int| 0 <= k < i implies #[trigger] chars_of(t, rep)[k] == chars_of(s@.take(i as int), rep)[k] by {
                assert(t[k] == s@.take(i as int)[k]);
            }
        }
        out.push(c);
        proof {
            assert(out@ =~= chars_of(s@.take(i as int + 1), rep));
        }
        i += 1;
    }
    assert(s@.take(i as int) =~= s@);
    out
}

/// Code points of characters.
pub open spec fn codes_of(s: Seq<char>) -> Seq<Cell> {
    Seq::new(s.len(), |i: int| Cell::Char(s[i] as u32))
}

fn char_value(s: &[char]) -> (v: ValueP)
    requires
        s@.len() <= i64::MAX,
    ensures
        is_vector_of(v, codes_of(s@)),
{
    let mut codes: Vec<u32> = Vec::new();
    let mut i: usize = 0;
    while i < s.len()
        invariant
            i <= s@.len(),
            codes@ == Seq::new(i as nat, |k: int| s@[k] as u32),
        decreases s@.len() - i,
    {
        codes.push(s[i] as u32);
        proof {
            assert(codes@ =~= Seq::new((i + 1) as nat, |k: int| s@[k] as u32));
        }
        i += 1;
    }
    let v = ValueP::char_vector(codes.as_slice());
    assert(v.ravel() =~= codes_of(s@));
    v
}

/// The first line of the characters of B: all of B when B has rank at
/// most 1 (with `?` for a code point that is no character), else its first
/// row (with a blank for such a code point).
pub open spec fn first_line(b: ValueP) -> Seq<char> {
    if b.dims().len() <= 1 {
        chars_of(b.ravel(), '?')
    } else {
        chars_of(b.ravel().take(if b.dims().last() < b.ravel().len() { b.dims().last() as int } else { b.ravel().len() as int }), ' ')
    }
}

/// `⎕FX B`: fix a function from the character lines of B, giving its
/// name: the first line without its surrounding white space. An empty B,
/// or one that is not all characters, is a DOMAIN ERROR.
pub fn quad_fx(env: &crate::parser::Environment, b: &ValueP) -> (r: AplResult<ValueP>)
    ensures
        b.ravel().len() == 0 || !all_char_cells(b.ravel()) ==> r == Err::<ValueP, ErrorCode>(ErrorCode::DomainError),
        b.ravel().len() > 0 && all_char_cells(b.ravel()) ==> (r matches Ok(v)
            && is_vector_of(v, codes_of(trimmed(first_line(*b))))),
{
    b.lemma_wf();
    let cells = b.cells();
    if cells.len() == 0 || !all_char_exec(cells) {
        return Err(ErrorCode::DomainError);
    }
    let line = if b.rank() <= 1 {
        chars_of_exec(cells, '?')
    } else {
        let last = b.shape().get_last_shape_item();
        let cols: usize = if last < cells.len() as i64 { last as usize } else { cells.len() };
        let row = crate::rank::slice_cells(cells, 0, cols);
        assert(row@ =~= b.ravel().take(cols as int));
        chars_of_exec(row.as_slice(), ' ')
    };
    let t = trim_chars(line.as_slice());
    proof {
        assert(t@.len() <= line@.len()) by {
            lemma_trimmed_len(line@);
        }
    }
    Ok(char_value(t.as_slice()))
}

/// What `⎕MAP` tells of a name: `VAR` for a variable, `FN` for a defined
/// function, `?` otherwise.
pub open spec fn map_kind(env: crate::parser::Environment, name: Seq<char>) -> Seq<char> {
    if env.vars_view().dom().contains(name) {
        seq!['V', 'A', 'R']
    } else if env.fn_names().contains(name) {
        seq!['F', 'N']
    } else {
        seq!['?']
    }
}

/// `⎕MAP B`: an empty B gives the number of variables; characters name a
/// symbol and give what it is (see `map_kind`), with `?` for a code point
/// that is no character; anything else is a DOMAIN ERROR.
pub fn quad_map(env: &crate::parser::Environment, b: &ValueP) -> (r: AplResult<ValueP>)
    requires
        env.wf(),
    ensures
        b.ravel().len() == 0 ==> (r matches Ok(v) && v.dims() == Seq::<i64>::empty()
            && v.ravel() == seq![Cell::Int(env.vars_view().dom().len() as i64)]),
        b.ravel().len() > 0 && all_char_cells(b.ravel()) ==> (r matches Ok(v)
            && is_vector_of(v, codes_of(map_kind(*env, chars_of(b.ravel(), '?'))))),
        b.ravel().len() > 0 && !all_char_cells(b.ravel()) ==> r == Err::<ValueP, ErrorCode>(ErrorCode::DomainError),
{
    let cells = b.cells();
    if cells.len() == 0 {
        let count = env.var_names().len();
        return Ok(ValueP::scalar_from(Cell::Int(count as i64)));
    }
    if !all_char_exec(cells) {
        return Err(ErrorCode::DomainError);
    }
    let chars = chars_of_exec(cells, '?');
    let name = crate::text::chars_to_string(chars.as_slice());
    let kind: Vec<char> = if env.get_var(name.as_str()).is_some() {
        vec!['V', 'A', 'R']
    } else if env.has_fn(name.as_str()) {
        vec!['F', 'N']
    } else {
        vec!['?']
    };
    assert(kind@ == map_kind(*env, chars_of(b.ravel(), '?')));
    Ok(char_value(kind.as_slice()))
}

/// The characters of code points, if each is a character.
pub open spec fn chars_if_valid(s: Seq<Cell>) -> Option<Seq<char>> {
    if forall|i: int| 0 <= i < s.len() ==> is_scalar_value(#[trigger] char_code(s[i])) {
        Some(Seq::new(s.len(), |i: int| char_of(char_code(s[i]))))
    } else {
        None
    }
}

fn chars_if_valid_exec(s: &[Cell]) -> (r: Option<Vec<char>>)
    ensures
        r matches Some(v) ==> chars_if_valid(s@) == Some(v@),
        r is None ==> chars_if_valid(s@) is None,
{
    let mut out: Vec<char> = Vec::new();
    let mut i: usize = 0;
    while i < s.len()
        invariant
            i <= s@.len(),
            forall|k: int| 0 <= k < i ==> is_scalar_value(#[trigger] char_code(s@[k])),
            out@ == Seq::new(i as nat, |k: int| char_of(char_code(s@[k]))),
        decreases s@.len() - i,
    {
        let u = match &s[i] {
            Cell::Char(u) => *u,
            _ => 0,
        };
        match char_from_u32(u) {
            Some(c) => {
                proof { lemma_char_of(c); }
                out.push(c);
            },
            None => {
                assert(!is_scalar_value(char_code(s@[i as int])));
                return None;
            },
        }
        proof {
            assert(out@ =~= Seq::new((i + 1) as nat, |k: int| char_of(char_code(s@[k]))));
        }
        i += 1;
    }
    Some(out)
}

/// The name held by a nonempty vector of characters, if each code point is
/// a character.
pub open spec fn name_arg(b: ValueP) -> Option<Seq<char>> {
    if b.ravel().len() > 0 && b.dims().len() == 1 && all_char_cells(b.ravel()) {
        chars_if_valid(b.ravel())
    } else {
        None
    }
}

/// A name that `⎕NS` refuses: one that begins with `⎕` or `{`.
pub open spec fn bad_ns_name(n: Seq<char>) -> bool {
    n.len() > 0 && (n[0] == '⎕' || n[0] == '{')
}

/// `⎕NS B`: make the namespace named by the character vector B known and
/// give its name. An empty B, one that is not a vector of characters, a
/// code point that is no character, and a name that begins with `⎕` or `{`
/// are a DOMAIN ERROR.
pub fn quad_ns(env: &mut crate::parser::Environment, b: &ValueP) -> (r: AplResult<ValueP>)
    requires
        old(env).wf(),
    ensures
        final(env).wf(),
        final(env).vars_view() == old(env).vars_view(),
        final(env).current_ns_view() == old(env).current_ns_view(),
        name_arg(*b) is Some && !bad_ns_name(name_arg(*b)->Some_0) ==> (
            r matches Ok(v) && is_vector_of(v, codes_of(name_arg(*b)->Some_0))
            && final(env).ns_view() == old(env).ns_view().insert(name_arg(*b)->Some_0)),
        !(name_arg(*b) is Some && !bad_ns_name(name_arg(*b)->Some_0)) ==> (
            r == Err::<ValueP, ErrorCode>(ErrorCode::DomainError) && final(env).ns_view() == old(env).ns_view()),
{
    b.lemma_wf();
    let cells = b.cells();
    if cells.len() == 0 || b.rank() != 1 || !all_char_exec(cells) {
        return Err(ErrorCode::DomainError);
    }
    let chars = match chars_if_valid_exec(cells) {
        Some(c) => c,
        None => { return Err(ErrorCode::DomainError); },
    };
    if chars.len() > 0 && (chars[0] == '⎕' || chars[0] == '{') {
        return Err(ErrorCode::DomainError);
    }
    let name = crate::text::chars_to_string(chars.as_slice());
    env.add_namespace(name);
    Ok(char_value(chars.as_slice()))
}

/// `⎕CS B`: make the namespace named by the character vector B current
/// (an empty B names the root) and give the name of the one it replaces.
/// A B that is not a vector of characters, a code point that is no
/// character, and a name that is not a known namespace are a DOMAIN ERROR.
pub fn quad_cs(env: &mut crate::parser::Environment, b: &ValueP) -> (r: AplResult<ValueP>)
    requires
        old(env).wf(),
    ensures
        final(env).wf(),
        final(env).vars_view() == old(env).vars_view(),
        final(env).ns_view() == old(env).ns_view(),
        b.ravel().len() == 0 ==> (r matches Ok(v) && is_vector_of(v, codes_of(old(env).current_ns_view()))
            && final(env).current_ns_view() == Seq::<char>::empty()),
        name_arg(*b) is Some && old(env).ns_view().contains(name_arg(*b)->Some_0) ==> (
            r matches Ok(v) && is_vector_of(v, codes_of(old(env).current_ns_view()))
            && final(env).current_ns_view() == name_arg(*b)->Some_0),
        b.ravel().len() > 0 && !(name_arg(*b) is Some && old(env).ns_view().contains(name_arg(*b)->Some_0)) ==> (
            r == Err::<ValueP, ErrorCode>(ErrorCode::DomainError)
            && final(env).current_ns_view() == old(env).current_ns_view()),
{
    b.lemma_wf();
    let cells = b.cells();
    let chars: Vec<char> = if cells.len() == 0 {
        Vec::new()
    } else {
        if b.rank() != 1 || !all_char_exec(cells) {
            return Err(ErrorCode::DomainError);
        }
        match chars_if_valid_exec(cells) {
            Some(c) => c,
            None => { return Err(ErrorCode::DomainError); },
        }
    };
    let name = crate::text::chars_to_string(chars.as_slice());
    if chars.len() > 0 && !env.has_namespace(&name) {
        return Err(ErrorCode::DomainError);
    }
    proof { env.lemma_ns_len(); }
    let prev = env.switch_namespace(name);
    let pc = crate::text::str_chars(prev.as_str());
    Ok(char_value(pc.as_slice()))
}


/// The value of decimal digits.
pub open spec fn digits_value(s: Seq<char>) -> int
    decreases s.len(),
{
    if s.len() == 0 {
        0
    } else {
        digits_value(s.drop_last()) * 10 + (s.last() as int - 48)
    }
}

/// The integer that `str::parse::<i64>` reads from a text: an optional
/// sign `+` or `-` and one or more decimal digits, within `i64`.
pub open spec fn i64_text(s: Seq<char>) -> Option<i64> {
    let signed = s.len() > 0 && (s[0] == '-' || s[0] == '+');
    let body = if signed { s.drop_first() } else { s };
    if body.len() == 0 || !(forall|i: int| 0 <= i < body.len() ==> '0' <= #[trigger] body[i] <= '9') {
        None
    } else {
        let v: int = if s[0] == '-' { -digits_value(body) } else { digits_value(body) };
        if i64::MIN <= v <= i64::MAX { Some(v as i64) } else { None }
    }
}

/// `str::parse::<i64>`: the integer a text names (see `i64_text`).
#[verifier::external_body]
pub(crate) fn parse_i64(s: &str) -> (r: Option<i64>)
    ensures
        r == i64_text(s@),
{
    s.parse::<i64>().ok()
}

/// One element of a JSON array: an integer, or a DOMAIN ERROR (this
/// library holds integers only).
pub open spec fn json_number(p: Seq<char>) -> Result<i64, ErrorCode> {
    let t = trimmed(p);
    if i64_text(t) is Some {
        Ok(i64_text(t)->Some_0)
    } else {
        Err(ErrorCode::DomainError)
    }
}

/// A text cut at its commas.
pub open spec fn comma_parts(s: Seq<char>) -> Seq<Seq<char>>
    decreases s.len(),
{
    if s.len() == 0 {
        seq![Seq::<char>::empty()]
    } else {
        let rest = comma_parts(s.drop_last());
        if s.last() == ',' {
            rest.push(Seq::<char>::empty())
        } else {
            rest.update(rest.len() - 1, rest.last().push(s.last()))
        }
    }
}

/// The numbers of the parts of a JSON array, or the first error, from the
/// left.
pub open spec fn json_numbers(parts: Seq<Seq<char>>) -> Result<Seq<i64>, ErrorCode>
    decreases parts.len(),
{
    if parts.len() == 0 {
        Ok(Seq::empty())
    } else {
        match json_numbers(parts.drop_last()) {
            Err(e) => Err(e),
            Ok(v) => match json_number(parts.last()) {
                Err(e) => Err(e),
                Ok(n) => Ok(v.push(n)),
            },
        }
    }
}

/// What `⎕JSON` reads from text `t` (already without surrounding white
/// space): the dimensions and cells of the value, or the error.
pub open spec fn json_read(t: Seq<char>) -> Result<(Seq<i64>, Seq<Cell>), ErrorCode> {
    if i64_text(t) is Some {
        Ok((Seq::empty(), seq![Cell::Int(i64_text(t)->Some_0)]))
    } else if t.len() >= 2 && t[0] == '"' && t.last() == '"' {
        let body = t.subrange(1, t.len() - 1);
        Ok((seq![body.len() as i64], codes_of(body)))
    } else if t.len() >= 2 && t[0] == '[' && t.last() == ']' {
        match json_numbers(comma_parts(t.subrange(1, t.len() - 1))) {
            Err(e) => Err(e),
            Ok(v) => Ok((seq![v.len() as i64], crate::value::int_cells(v))),
        }
    } else if t == seq!['t', 'r', 'u', 'e'] {
        Ok((Seq::empty(), seq![Cell::Int(1)]))
    } else if t == seq!['f', 'a', 'l', 's', 'e'] || t == seq!['n', 'u', 'l', 'l'] {
        Ok((Seq::empty(), seq![Cell::Int(0)]))
    } else {
        Err(ErrorCode::DomainError)
    }
}

/// The text of one cell in JSON: an integer, a one-character string, or
/// `null` for anything else.
pub open spec fn json_cell(c: Cell) -> Seq<char> {
    match c {
        Cell::Int(n) => crate::text::int_display(n),
        Cell::Char(u) => if is_scalar_value(u) { seq!['"', char_of(u), '"'] } else { seq!['n', 'u', 'l', 'l'] },
        _ => seq!['n', 'u', 'l', 'l'],
    }
}

/// The JSON texts of the first `n` cells of `s`, joined by `, `.
pub open spec fn json_join(s: Seq<Cell>, n: nat) -> Seq<char>
    decreases n,
{
    if n == 0 || n > s.len() {
        Seq::empty()
    } else if n == 1 {
        json_cell(s[0])
    } else {
        json_join(s, (n - 1) as nat) + seq![',', ' '] + json_cell(s[n - 1])
    }
}

/// What `⎕JSON` writes for the cells of a value that is not all
/// characters: a single integer or character alone (other single cells are
/// a DOMAIN ERROR), more cells as an array.
pub open spec fn json_write(s: Seq<Cell>) -> Result<Seq<char>, ErrorCode> {
    if s.len() == 1 {
        match s[0] {
            Cell::Int(n) => Ok(crate::text::int_display(n)),
            Cell::Char(u) => if is_scalar_value(u) { Ok(json_cell(s[0])) } else { Err(ErrorCode::DomainError) },
            _ => Err(ErrorCode::DomainError),
        }
    } else {
        Ok(seq!['['] + json_join(s, s.len()) + seq![']'])
    }
}

/// Append the JSON text of a cell.
fn push_json_cell(out: &mut Vec<char>, c: &Cell)
    ensures
        final(out)@ == old(out)@ + json_cell(*c),
{
    match c {
        Cell::Int(n) => {
            crate::text::push_int_display(out, *n);
        },
        Cell::Char(u) => {
            match char_from_u32(*u) {
                Some(ch) => {
                    proof { lemma_char_of(ch); }
                    out.push('"');
                    out.push(ch);
                    out.push('"');
                },
                None => {
                    out.push('n'); out.push('u'); out.push('l'); out.push('l');
                },
            }
            assert(out@ =~= old(out)@ + json_cell(*c));
        },
        _ => {
            out.push('n'); out.push('u'); out.push('l'); out.push('l');
            assert(out@ =~= old(out)@ + json_cell(*c));
        },
    }
}

/// The numbers of the comma-separated parts of `inner`.
fn json_array(inner: &[char]) -> (r: Result<Vec<i64>, ErrorCode>)
    ensures
        match json_numbers(comma_parts(inner@)) {
            Ok(v) => r matches Ok(x) && x@ == v,
            Err(e) => r == Err::<Vec<i64>, ErrorCode>(e),
        },
{
    let mut vals: Vec<i64> = Vec::new();
    let mut current: Vec<char> = Vec::new();
    let mut i: usize = 0;
    assert(inner@.take(0) =~= Seq::<char>::empty());
    while i < inner.len()
        invariant
            i <= inner@.len(),
            comma_parts(inner@.take(i as int)).len() >= 1,
            json_numbers(comma_parts(inner@.take(i as int)).drop_last()) == Ok::<Seq<i64>, ErrorCode>(vals@),
            current@ == comma_parts(inner@.take(i as int)).last(),
        decreases inner@.len() - i,
    {
        let ghost before = comma_parts(inner@.take(i as int));
        proof {
            assert(inner@.take(i as int + 1).drop_last() =~= inner@.take(i as int));
            assert(inner@.take(i as int + 1).last() == inner@[i as int]);
        }
        if inner[i] == ',' {
            let n = match json_part(current.as_slice()) {
                Ok(n) => n,
                Err(e) => {
                    proof {
                        let after = comma_parts(inner@.take(i as int + 1));
                        assert(after == before.push(Seq::<char>::empty()));
                        assert(before =~= before.drop_last().push(before.last()));
                        assert(json_numbers(before) == Err::<Seq<i64>, ErrorCode>(e));
                        assert(after.take(before.len() as int) =~= before);
                        lemma_parts_prefix(inner@, i as int + 1, inner@.len() as int);
                        assert(inner@.take(inner@.len() as int) =~= inner@);
                        lemma_numbers_prefix_err(comma_parts(inner@), before.len() as int, e);
                    }
                    return Err(e);
                },
            };
            vals.push(n);
            current = Vec::new();
            proof {
                let after = comma_parts(inner@.take(i as int + 1));
                assert(after == before.push(Seq::<char>::empty()));
                assert(after.drop_last() =~= before);
                assert(before =~= before.drop_last().push(before.last()));
                assert(json_numbers(before) == Ok::<Seq<i64>, ErrorCode>(vals@));
            }
        } else {
            current.push(inner[i]);
            proof {
                let after = comma_parts(inner@.take(i as int + 1));
                assert(after == before.update(before.len() - 1, before.last().push(inner@[i as int])));
                assert(after.drop_last() =~= before.drop_last());
            }
        }
        i += 1;
    }
    proof {
        assert(inner@.take(i as int) =~= inner@);
    }
    let n = json_part(current.as_slice())?;
    vals.push(n);
    proof {
        let parts = comma_parts(inner@);
        assert(parts =~= parts.drop_last().push(parts.last()));
    }
    Ok(vals)
}

/// One number of a JSON array (see `json_number`).
fn json_part(p: &[char]) -> (r: Result<i64, ErrorCode>)
    ensures
        r == json_number(p@),
{
    let t = trim_chars(p);
    let ts = crate::text::chars_to_string(t.as_slice());
    match parse_i64(ts.as_str()) {
        Some(n) => Ok(n),
        None => Err(ErrorCode::DomainError),
    }
}

/// Whether the characters `t` spell `w`.
fn spells_text(t: &[char], w: &[char]) -> (r: bool)
    ensures
        r == (t@ == w@),
{
    if t.len() != w.len() {
        return false;
    }
    let mut i: usize = 0;
    while i < t.len()
        invariant
            t@.len() == w@.len(),
            i <= t@.len(),
            forall|k: int| 0 <= k < i ==> t@[k] == w@[k],
        decreases t@.len() - i,
    {
        if t[i] != w[i] {
            assert(t@[i as int] != w@[i as int]);
            return false;
        }
        i += 1;
    }
    assert(t@ =~= w@);
    true
}

/// `⎕JSON B`: characters are read as JSON (see `json_read`, after the
/// code points that are no characters read as `?` and the surrounding
/// white space is dropped); any other value is written as JSON text (see
/// `json_write`). An empty B is a DOMAIN ERROR.
pub fn quad_json(b: &ValueP) -> (r: AplResult<ValueP>)
    ensures
        b.ravel().len() == 0 ==> r == Err::<ValueP, ErrorCode>(ErrorCode::DomainError),
        b.ravel().len() > 0 && all_char_cells(b.ravel()) ==> match json_read(trimmed(chars_of(b.ravel(), '?'))) {
            Ok((d, cells)) => r matches Ok(v) && v.dims() == d && v.ravel() == cells,
            Err(e) => r == Err::<ValueP, ErrorCode>(e),
        },
        b.ravel().len() > 0 && !all_char_cells(b.ravel()) ==> match json_write(b.ravel()) {
            Ok(text) => text.len() <= i64::MAX ==> (r matches Ok(v) && is_vector_of(v, codes_of(text))),
            Err(e) => r == Err::<ValueP, ErrorCode>(e),
        },
{
    b.lemma_wf();
    let cells = b.cells();
    if cells.len() == 0 {
        return Err(ErrorCode::DomainError);
    }
    if all_char_exec(cells) {
        let text = chars_of_exec(cells, '?');
        let t = trim_chars(text.as_slice());
        proof { lemma_trimmed_len(text@); }
        let ts = crate::text::chars_to_string(t.as_slice());
        if let Some(n) = parse_i64(ts.as_str()) {
            return Ok(ValueP::scalar_from(Cell::Int(n)));
        }
        let n = t.len();
        if n >= 2 && t[0] == '"' && t[n - 1] == '"' {
            let body = crate::text::sub_chars(t.as_slice(), 1, n - 1);
            return Ok(char_value(body.as_slice()));
        }
        if n >= 2 && t[0] == '[' && t[n - 1] == ']' {
            let inner = crate::text::sub_chars(t.as_slice(), 1, n - 1);
            let vals = json_array(inner.as_slice())?;
            proof {
                assert(vals@.len() <= inner@.len() + 1) by {
                    lemma_numbers_len(comma_parts(inner@));
                    lemma_parts_len(inner@);
                }
            }
            let v = ValueP::int_vector(vals.as_slice());
            return Ok(v);
        }
        if spells_text(t.as_slice(), &['t', 'r', 'u', 'e']) {
            return Ok(ValueP::scalar_from(Cell::Int(1)));
        }
        if spells_text(t.as_slice(), &['f', 'a', 'l', 's', 'e']) || spells_text(t.as_slice(), &['n', 'u', 'l', 'l']) {
            return Ok(ValueP::scalar_from(Cell::Int(0)));
        }
        return Err(ErrorCode::DomainError);
    }
    if cells.len() == 1 {
        match &cells[0] {
            Cell::Int(n) => {
                let mut out: Vec<char> = Vec::new();
                crate::text::push_int_display(&mut out, *n);
                assert(out@ =~= crate::text::int_display(*n));
                if out.len() as u128 > i64::MAX as u128 {
                    return Err(ErrorCode::LimitError);
                }
                return Ok(char_value(out.as_slice()));
            },
            Cell::Char(u) => {
                if char_from_u32(*u).is_none() {
                    return Err(ErrorCode::DomainError);
                }
                let mut out: Vec<char> = Vec::new();
                push_json_cell(&mut out, &cells[0]);
                assert(out@ =~= json_cell(cells@[0]));
                return Ok(char_value(out.as_slice()));
            },
            _ => { return Err(ErrorCode::DomainError); },
        }
    }
    let mut out: Vec<char> = Vec::new();
    out.push('[');
    let mut i: usize = 0;
    while i < cells.len()
        invariant
            i <= cells@.len(),
            cells@ == b.ravel(),
            cells@.len() >= 2,
            out@ == seq!['['] + json_join(cells@, i as nat),
        decreases cells@.len() - i,
    {
        if i > 0 {
            out.push(',');
            out.push(' ');
        }
        push_json_cell(&mut out, &cells[i]);
        proof {
            if i == 0 {
                assert(out@ =~= seq!['['] + json_join(cells@, 1));
            } else {
                assert(out@ =~= seq!['['] + json_join(cells@, (i + 1) as nat));
            }
        }
        i += 1;
    }
    out.push(']');
    if out.len() as u128 > i64::MAX as u128 {
        return Err(ErrorCode::LimitError);
    }
    assert(out@ =~= seq!['['] + json_join(cells@, cells@.len()) + seq![']']);
    Ok(char_value(out.as_slice()))
}

/// The parts of a text before its last comma stay as they are when the
/// text grows.
proof fn lemma_parts_prefix(s: Seq<char>, i: int, j: int)
    requires
        0 <= i <= j <= s.len(),
    ensures
        comma_parts(s.take(j)).len() >= comma_parts(s.take(i)).len(),
        comma_parts(s.take(j)).take(comma_parts(s.take(i)).len() - 1)
            == comma_parts(s.take(i)).take(comma_parts(s.take(i)).len() - 1),
    decreases j - i,
{
    lemma_parts_len(s.take(i));
    if j > i {
        lemma_parts_prefix(s, i, j - 1);
        let a = comma_parts(s.take(j - 1));
        let m = comma_parts(s.take(i)).len() - 1;
        assert(s.take(j).drop_last() =~= s.take(j - 1));
        lemma_parts_len(s.take(j - 1));
        let b = comma_parts(s.take(j));
        if s.take(j).last() == ',' {
            assert(b == a.push(Seq::<char>::empty()));
            assert(b.take(m) =~= a.take(m));
        } else {
            assert(b == a.update(a.len() - 1, a.last().push(s.take(j).last())));
            assert(b.take(m) =~= a.take(m));
        }
    }
}

/// An error among the first parts of an array is the error of the whole.
proof fn lemma_numbers_prefix_err(parts: Seq<Seq<char>>, k: int, e: ErrorCode)
    requires
        0 <= k <= parts.len(),
        json_numbers(parts.take(k)) == Err::<Seq<i64>, ErrorCode>(e),
    ensures
        json_numbers(parts) == Err::<Seq<i64>, ErrorCode>(e),
    decreases parts.len() - k,
{
    if k < parts.len() {
        assert(parts.take(k + 1).drop_last() =~= parts.take(k));
        lemma_numbers_prefix_err(parts, k + 1, e);
    } else {
        assert(parts.take(k) =~= parts);
    }
}

/// A text has at most one more comma part than characters.
proof fn lemma_parts_len(s: Seq<char>)
    ensures
        comma_parts(s).len() <= s.len() + 1,
        comma_parts(s).len() >= 1,
    decreases s.len(),
{
    if s.len() > 0 {
        lemma_parts_len(s.drop_last());
    }
}

/// The numbers read from parts are one per part.
proof fn lemma_numbers_len(parts: Seq<Seq<char>>)
    ensures
        json_numbers(parts) matches Ok(v) ==> v.len() == parts.len(),
    decreases parts.len(),
{
    if parts.len() > 0 {
        lemma_numbers_len(parts.drop_last());
    }
}


/// The position of the first `c` in `t` at or after `i`, or the length of
/// `t` when there is none.
pub open spec fn first_from(t: Seq<char>, c: char, i: int) -> int
    decreases t.len() - i,
{
    if i >= t.len() || i < 0 {
        t.len() as int
    } else if t[i] == c {
        i
    } else {
        first_from(t, c, i + 1)
    }
}

/// The last position `p`, at most `hi`, where `w` occurs in `t`, if any.
pub open spec fn last_match(t: Seq<char>, w: Seq<char>, hi: int) -> Option<int>
    decreases hi + 1,
{
    if hi < 0 {
        None
    } else if hi + w.len() <= t.len() && t.subrange(hi, hi + w.len()) == w {
        Some(hi)
    } else {
        last_match(t, w, hi - 1)
    }
}

/// What `⎕XML` reads from text `t` (already without surrounding white
/// space): for `<tag>…</tag>` the text between the first tag and the last
/// closing one; any other text as it is.
pub open spec fn xml_read(t: Seq<char>) -> Seq<char> {
    if t.len() >= 1 && t[0] == '<' && t.last() == '>' {
        let e = first_from(t, '>', 0);
        let closing = seq!['<', '/'] + t.subrange(1, e) + seq!['>'];
        match last_match(t, closing, t.len() - closing.len()) {
            Some(c) => if c >= e + 1 { t.subrange(e + 1, c) } else { t },
            None => t,
        }
    } else {
        t
    }
}

/// The XML text of one cell.
pub open spec fn xml_cell(c: Cell) -> Seq<char> {
    match c {
        Cell::Int(n) => seq!['<', 'i', 'n', 't', '>'] + crate::text::int_display(n)
            + seq!['<', '/', 'i', 'n', 't', '>'],
        Cell::Char(u) => if is_scalar_value(u) {
            seq!['<', 'c', 'h', 'a', 'r', '>', char_of(u), '<', '/', 'c', 'h', 'a', 'r', '>']
        } else {
            seq!['<', 'c', 'h', 'a', 'r', '/', '>']
        },
        _ => seq!['<', 'n', 'u', 'l', 'l', '/', '>'],
    }
}

/// The XML texts of the first `n` cells of `s`, one after another.
pub open spec fn xml_cells(s: Seq<Cell>, n: nat) -> Seq<char>
    decreases n,
{
    if n == 0 || n > s.len() {
        Seq::empty()
    } else {
        xml_cells(s, (n - 1) as nat) + xml_cell(s[n - 1])
    }
}

/// What `⎕XML` writes for the cells of a value that is not all characters.
pub open spec fn xml_write(s: Seq<Cell>) -> Seq<char> {
    seq!['<', 'v', 'a', 'l', 'u', 'e', '>'] + xml_cells(s, s.len())
        + seq!['<', '/', 'v', 'a', 'l', 'u', 'e', '>']
}

fn push_chars(out: &mut Vec<char>, w: &[char])
    ensures
        final(out)@ == old(out)@ + w@,
{
    let mut k: usize = 0;
    while k < w.len()
        invariant
            k <= w@.len(),
            out@ == old(out)@ + w@.take(k as int),
        decreases w@.len() - k,
    {
        out.push(w[k]);
        proof { assert(out@ =~= old(out)@ + w@.take(k as int + 1)); }
        k += 1;
    }
    assert(w@.take(w@.len() as int) =~= w@);
}

fn push_xml_cell(out: &mut Vec<char>, c: &Cell)
    ensures
        final(out)@ == old(out)@ + xml_cell(*c),
{
    match c {
        Cell::Int(n) => {
            push_chars(out, &['<', 'i', 'n', 't', '>']);
            crate::text::push_int_display(out, *n);
            push_chars(out, &['<', '/', 'i', 'n', 't', '>']);
        },
        Cell::Char(u) => {
            match char_from_u32(*u) {
                Some(ch) => {
                    proof { lemma_char_of(ch); }
                    push_chars(out, &['<', 'c', 'h', 'a', 'r', '>']);
                    out.push(ch);
                    push_chars(out, &['<', '/', 'c', 'h', 'a', 'r', '>']);
                },
                None => {
                    push_chars(out, &['<', 'c', 'h', 'a', 'r', '/', '>']);
                },
            }
        },
        _ => {
            push_chars(out, &['<', 'n', 'u', 'l', 'l', '/', '>']);
        },
    }
    assert(out@ =~= old(out)@ + xml_cell(*c));
}

/// The position of the first `c` in `t` from `i` on (see `first_from`).
fn first_from_exec(t: &[char], c: char, i: usize) -> (r: usize)
    requires
        i <= t@.len(),
    ensures
        r as int == first_from(t@, c, i as int),
    decreases t@.len() - i,
{
    if i >= t.len() {
        t.len()
    } else if t[i] == c {
        i
    } else {
        first_from_exec(t, c, i + 1)
    }
}

/// Whether `w` occurs in `t` at `p`.
fn occurs_chars(t: &[char], w: &[char], p: usize) -> (r: bool)
    requires
        p + w@.len() <= t@.len(),
    ensures
        r == (t@.subrange(p as int, p + w@.len()) == w@),
{
    let tn = t.len();
    let mut k: usize = 0;
    while k < w.len()
        invariant
            tn == t@.len(),
            k <= w@.len(),
            p + w@.len() <= t@.len(),
            forall|q: int| 0 <= q < k ==> t@[p + q] == w@[q],
        decreases w@.len() - k,
    {
        if t[p + k] != w[k] {
            assert(t@.subrange(p as int, p + w@.len())[k as int] != w@[k as int]);
            return false;
        }
        k += 1;
    }
    assert(t@.subrange(p as int, p + w@.len()) =~= w@);
    true
}

/// The last position at most `hi` where `w` occurs in `t`.
fn last_match_exec(t: &[char], w: &[char], hi: usize) -> (r: Option<usize>)
    requires
        hi + w@.len() <= t@.len(),
    ensures
        match last_match(t@, w@, hi as int) {
            Some(c) => r == Some(c as usize),
            None => r is None,
        },
    decreases hi,
{
    if occurs_chars(t, w, hi) {
        Some(hi)
    } else if hi == 0 {
        assert(last_match(t@, w@, -1) is None);
        None
    } else {
        last_match_exec(t, w, hi - 1)
    }
}

/// `⎕XML B`: characters are read as XML (see `xml_read`, after the code
/// points that are no characters read as `?` and the surrounding white
/// space is dropped); any other value is written as XML (see `xml_write`).
/// An empty B is a DOMAIN ERROR.
pub fn quad_xml(b: &ValueP) -> (r: AplResult<ValueP>)
    ensures
        b.ravel().len() == 0 ==> r == Err::<ValueP, ErrorCode>(ErrorCode::DomainError),
        b.ravel().len() > 0 && all_char_cells(b.ravel()) ==> (r matches Ok(v)
            && is_vector_of(v, codes_of(xml_read(trimmed(chars_of(b.ravel(), '?')))))),
        b.ravel().len() > 0 && !all_char_cells(b.ravel()) ==> (xml_write(b.ravel()).len() <= i64::MAX
            ==> (r matches Ok(v) && is_vector_of(v, codes_of(xml_write(b.ravel()))))),
{
    b.lemma_wf();
    let cells = b.cells();
    if cells.len() == 0 {
        return Err(ErrorCode::DomainError);
    }
    if all_char_exec(cells) {
        let text = chars_of_exec(cells, '?');
        let t = trim_chars(text.as_slice());
        proof { lemma_trimmed_len(text@); }
        let n = t.len();
        if n >= 1 && t[0] == '<' && t[n - 1] == '>' {
            let e = first_from_exec(t.as_slice(), '>', 0);
            proof {
                lemma_first_from_bound(t@, '>', 0);
                lemma_first_from_bound(t@, '>', 1);
                assert(first_from(t@, '>', 0) == first_from(t@, '>', 1));
            }
            if e >= 1 {
                let mut closing: Vec<char> = Vec::new();
                closing.push('<');
                closing.push('/');
                let tag = crate::text::sub_chars(t.as_slice(), 1, e);
                push_chars(&mut closing, tag.as_slice());
                closing.push('>');
                assert(closing@ =~= seq!['<', '/'] + t@.subrange(1, e as int) + seq!['>']);
                if closing.len() <= n {
                    let found = last_match_exec(t.as_slice(), closing.as_slice(), n - closing.len());
                    proof { lemma_last_match_bound(t@, closing@, n - closing@.len()); }
                    if let Some(c) = found {
                        if c >= e + 1 {
                            let content = crate::text::sub_chars(t.as_slice(), e + 1, c);
                            return Ok(char_value(content.as_slice()));
                        }
                    }
                } else {
                    proof { assert(last_match(t@, closing@, n - closing@.len()) is None); }
                }
            }
        }
        return Ok(char_value(t.as_slice()));
    }
    let mut out: Vec<char> = Vec::new();
    push_chars(&mut out, &['<', 'v', 'a', 'l', 'u', 'e', '>']);
    let ghost start = out@;
    let mut i: usize = 0;
    while i < cells.len()
        invariant
            i <= cells@.len(),
            cells@ == b.ravel(),
            out@ == start + xml_cells(cells@, i as nat),
        decreases cells@.len() - i,
    {
        push_xml_cell(&mut out, &cells[i]);
        proof { assert(out@ =~= start + xml_cells(cells@, (i + 1) as nat)); }
        i += 1;
    }
    push_chars(&mut out, &['<', '/', 'v', 'a', 'l', 'u', 'e', '>']);
    assert(out@ =~= xml_write(b.ravel()));
    if out.len() as u128 > i64::MAX as u128 {
        return Err(ErrorCode::LimitError);
    }
    Ok(char_value(out.as_slice()))
}

/// A match found is at or before `hi`.
proof fn lemma_last_match_bound(t: Seq<char>, w: Seq<char>, hi: int)
    ensures
        last_match(t, w, hi) matches Some(c) ==> 0 <= c <= hi,
    decreases hi + 1,
{
    if hi >= 0 && !(hi + w.len() <= t.len() && t.subrange(hi, hi + w.len()) == w) {
        lemma_last_match_bound(t, w, hi - 1);
    }
}

/// The first position found is within the text, and at or after `i`.
proof fn lemma_first_from_bound(t: Seq<char>, c: char, i: int)
    requires
        0 <= i <= t.len(),
    ensures
        i <= first_from(t, c, i) <= t.len(),
    decreases t.len() - i,
{
    if i < t.len() && t[i] != c {
        lemma_first_from_bound(t, c, i + 1);
    }
}


// ---------------------------------------------------------------------------
// Exact cover
// ---------------------------------------------------------------------------

/// How many of the chosen rows of `m` cover column `c`.
pub open spec fn col_count(m: Seq<Seq<bool>>, rows: Seq<usize>, c: int) -> int
    decreases rows.len(),
{
    if rows.len() == 0 {
        0
    } else {
        col_count(m, rows.drop_last(), c) + if m[rows.last() as int][c] { 1int } else { 0int }
    }
}

/// The chosen rows cover each of the `nc` columns exactly once.
pub open spec fn exact_cover(m: Seq<Seq<bool>>, rows: Seq<usize>, nc: int) -> bool {
    &&& forall|i: int| 0 <= i < rows.len() ==> (#[trigger] rows[i]) < m.len()
    &&& forall|c: int| 0 <= c < nc ==> #[trigger] col_count(m, rows, c) == 1
}

/// The columns marked covered are those the chosen rows cover, each once.
pub open spec fn cover_state(m: Seq<Seq<bool>>, rows: Seq<usize>, cov: Seq<bool>) -> bool {
    &&& forall|i: int| 0 <= i < rows.len() ==> (#[trigger] rows[i]) < m.len()
    &&& forall|c: int| 0 <= c < cov.len() ==> #[trigger] col_count(m, rows, c) == if cov[c] { 1int } else { 0int }
}

/// The number of columns not yet covered.
pub open spec fn uncovered(cov: Seq<bool>) -> nat
    decreases cov.len(),
{
    if cov.len() == 0 {
        0
    } else {
        uncovered(cov.drop_last()) + if cov.last() { 0nat } else { 1nat }
    }
}

/// Covering more columns, one of them new, leaves fewer uncovered.
proof fn lemma_uncovered_less(a: Seq<bool>, b: Seq<bool>, k: int)
    requires
        a.len() == b.len(),
        0 <= k < a.len(),
        !a[k] && b[k],
        forall|c: int| 0 <= c < a.len() && a[c] ==> b[c],
    ensures
        uncovered(b) < uncovered(a),
    decreases a.len(),
{
    if k == a.len() - 1 {
        lemma_uncovered_le(a.drop_last(), b.drop_last());
    } else {
        lemma_uncovered_less(a.drop_last(), b.drop_last(), k);
    }
}

proof fn lemma_uncovered_le(a: Seq<bool>, b: Seq<bool>)
    requires
        a.len() == b.len(),
        forall|c: int| 0 <= c < a.len() && a[c] ==> b[c],
    ensures
        uncovered(b) <= uncovered(a),
    decreases a.len(),
{
    if a.len() > 0 {
        lemma_uncovered_le(a.drop_last(), b.drop_last());
    }
}


/// Counts over two lists of rows add up.
proof fn lemma_count_append(m: Seq<Seq<bool>>, a: Seq<usize>, b: Seq<usize>, c: int)
    ensures
        col_count(m, a + b, c) == col_count(m, a, c) + col_count(m, b, c),
    decreases b.len(),
{
    if b.len() > 0 {
        lemma_count_append(m, a, b.drop_last(), c);
        assert((a + b).drop_last() =~= a + b.drop_last());
        assert((a + b).last() == b.last());
    } else {
        assert(a + b =~= a);
    }
}

/// Taking one row out of a list takes its share out of each count.
proof fn lemma_count_remove(m: Seq<Seq<bool>>, s: Seq<usize>, j: int, c: int)
    requires
        0 <= j < s.len(),
    ensures
        col_count(m, s, c) == col_count(m, s.remove(j), c) + if m[s[j] as int][c] { 1int } else { 0int },
{
    let a = s.take(j);
    let b = s.skip(j + 1);
    let one = seq![s[j]];
    assert(s =~= (a + one) + b);
    assert(s.remove(j) =~= a + b);
    lemma_count_append(m, a + one, b, c);
    lemma_count_append(m, a, one, c);
    lemma_count_append(m, a, b, c);
    assert(one.drop_last() =~= Seq::<usize>::empty());
    assert(col_count(m, one.drop_last(), c) == 0);
    assert(one.last() == s[j]);
    assert(col_count(m, one, c) == if m[s[j] as int][c] { 1int } else { 0int });
}

/// Counts are never negative.
proof fn lemma_count_nonneg(m: Seq<Seq<bool>>, s: Seq<usize>, c: int)
    ensures
        col_count(m, s, c) >= 0,
    decreases s.len(),
{
    if s.len() > 0 {
        lemma_count_nonneg(m, s.drop_last(), c);
    }
}

/// A column that is covered is covered by one of the rows.
proof fn lemma_count_witness(m: Seq<Seq<bool>>, s: Seq<usize>, c: int) -> (j: int)
    requires
        col_count(m, s, c) >= 1,
    ensures
        0 <= j < s.len(),
        m[s[j] as int][c],
    decreases s.len(),
{
    if s.len() == 0 {
        assert(false);
        0
    } else if m[s.last() as int][c] {
        s.len() - 1
    } else {
        let j = lemma_count_witness(m, s.drop_last(), c);
        assert(s[j] == s.drop_last()[j]);
        j
    }
}

/// The rows of a matrix of booleans.
pub open spec fn bool_rows(m: Seq<Vec<bool>>) -> Seq<Seq<bool>> {
    Seq::new(m.len(), |i: int| m[i]@)
}

/// Search for an exact cover of the rows of `m` (each of `nc` columns)
/// that extends `chosen`, trying for the first uncovered column each row
/// that covers it and no covered column, in order.
fn solve(m: &Vec<Vec<bool>>, nc: usize, covered: &Vec<bool>, chosen: &Vec<usize>) -> (r: Option<Vec<usize>>)
    requires
        forall|i: int| 0 <= i < m@.len() ==> (#[trigger] m@[i])@.len() == nc,
        covered@.len() == nc,
        cover_state(bool_rows(m@), chosen@, covered@),
        chosen@.no_duplicates(),
    ensures
        r matches Some(sol) ==> exact_cover(bool_rows(m@), sol@, nc as int),
        r matches Some(sol) ==> sol@.no_duplicates(),
        r is None ==> forall|s: Seq<usize>| !#[trigger] exact_cover(bool_rows(m@), chosen@ + s, nc as int),
    decreases uncovered(covered@),
{
    let ghost mm = bool_rows(m@);
    let mut col: usize = 0;
    while col < nc && covered[col]
        invariant
            col <= nc == covered@.len(),
            forall|c: int| 0 <= c < col ==> covered@[c],
        decreases nc - col,
    {
        col += 1;
    }
    if col == nc {
        return Some(chosen.clone());
    }
    let mut row: usize = 0;
    while row < m.len()
        invariant
            col < nc == covered@.len(),
            !covered@[col as int],
            mm == bool_rows(m@),
            forall|i: int| 0 <= i < m@.len() ==> (#[trigger] m@[i])@.len() == nc,
            cover_state(mm, chosen@, covered@),
            chosen@.no_duplicates(),
            row <= m@.len(),
            forall|s: Seq<usize>, j: int| #![trigger exact_cover(mm, chosen@ + s, nc as int), s[j]]
                exact_cover(mm, chosen@ + s, nc as int) && 0 <= j < s.len() && mm[s[j] as int][col as int]
                ==> s[j] >= row,
        decreases m@.len() - row,
    {
        if m[row][col] {
            let mut conflict = false;
            let mut c: usize = 0;
            while c < nc
                invariant
                    c <= nc,
                    row < m@.len(),
                    m@[row as int]@.len() == nc == covered@.len(),
                    !conflict ==> forall|q: int| 0 <= q < c ==> !(m@[row as int]@[q] && covered@[q]),
                    conflict ==> exists|q: int| 0 <= q < nc && m@[row as int]@[q] && covered@[q],
                decreases nc - c,
            {
                if m[row][c] && covered[c] {
                    conflict = true;
                }
                c += 1;
            }
            if conflict {
                proof {
                    let q = choose|q: int| 0 <= q < nc && m@[row as int]@[q] && covered@[q];
                    assert(mm[row as int] == m@[row as int]@);
                    assert forall|s: Seq<usize>, j: int| #![trigger exact_cover(mm, chosen@ + s, nc as int), s[j]]
                        exact_cover(mm, chosen@ + s, nc as int) && 0 <= j < s.len() && mm[s[j] as int][col as int]
                        implies s[j] >= row + 1 by {
                        if s[j] == row {
                            lemma_count_append(mm, chosen@, s, q);
                            lemma_count_remove(mm, s, j, q);
                            lemma_count_nonneg(mm, s.remove(j), q);
                            assert(col_count(mm, chosen@, q) == 1);
                            assert(col_count(mm, chosen@ + s, q) == 1);
                        }
                    }
                }
            } else {
                let mut cov2: Vec<bool> = covered.clone();
                let mut c2: usize = 0;
                while c2 < nc
                    invariant
                        c2 <= nc,
                        row < m@.len(),
                        m@[row as int]@.len() == nc == covered@.len(),
                        cov2@.len() == nc,
                        forall|q: int| 0 <= q < c2 ==> cov2@[q] == (covered@[q] || m@[row as int]@[q]),
                        forall|q: int| c2 <= q < nc ==> cov2@[q] == covered@[q],
                    decreases nc - c2,
                {
                    if m[row][c2] {
                        cov2.set(c2, true);
                    }
                    c2 += 1;
                }
                let mut ch2: Vec<usize> = chosen.clone();
                ch2.push(row);
                proof {
                    assert(mm[row as int] == m@[row as int]@);
                    assert(ch2@.drop_last() =~= chosen@);
                    assert forall|q: int| 0 <= q < chosen@.len() implies #[trigger] chosen@[q] != row by {
                        if chosen@[q] == row {
                            lemma_count_remove(mm, chosen@, q, col as int);
                            lemma_count_nonneg(mm, chosen@.remove(q), col as int);
                            assert(col_count(mm, chosen@, col as int) == 0);
                        }
                    }
                    assert(ch2@.no_duplicates()) by {
                        assert forall|x: int, y: int| 0 <= x < ch2@.len() && 0 <= y < ch2@.len() && x != y
                            implies ch2@[x] != ch2@[y] by {
                            if x < chosen@.len() && y < chosen@.len() {
                                assert(chosen@[x] != chosen@[y]);
                            }
                        }
                    }
                    assert forall|q: int| 0 <= q < cov2@.len() implies
                        #[trigger] col_count(mm, ch2@, q) == if cov2@[q] { 1int } else { 0int } by {
                        assert(col_count(mm, ch2@, q) == col_count(mm, chosen@, q)
                            + if mm[row as int][q] { 1int } else { 0int });
                    }
                    lemma_uncovered_less(covered@, cov2@, col as int);
                }
                if let Some(sol) = solve(m, nc, &cov2, &ch2) {
                    return Some(sol);
                }
                proof {
                    assert forall|s: Seq<usize>, j: int| #![trigger exact_cover(mm, chosen@ + s, nc as int), s[j]]
                        exact_cover(mm, chosen@ + s, nc as int) && 0 <= j < s.len() && mm[s[j] as int][col as int]
                        implies s[j] >= row + 1 by {
                        if s[j] == row {
                            let s2 = s.remove(j);
                            assert forall|i: int| 0 <= i < (ch2@ + s2).len() implies (#[trigger] (ch2@ + s2)[i]) < mm.len() by {
                                if i < ch2@.len() {
                                    if i < chosen@.len() {
                                        assert((ch2@ + s2)[i] == (chosen@ + s)[i]);
                                    }
                                } else {
                                    let k = i - ch2@.len();
                                    if k < j {
                                        assert(s2[k] == s[k]);
                                        assert((chosen@ + s)[chosen@.len() + k] == s[k]);
                                    } else {
                                        assert(s2[k] == s[k + 1]);
                                        assert((chosen@ + s)[chosen@.len() + k + 1] == s[k + 1]);
                                    }
                                }
                            }
                            assert forall|q: int| 0 <= q < nc implies #[trigger] col_count(mm, ch2@ + s2, q) == 1 by {
                                lemma_count_append(mm, chosen@, s, q);
                                lemma_count_remove(mm, s, j, q);
                                lemma_count_append(mm, ch2@, s2, q);
                                assert(col_count(mm, ch2@, q) == col_count(mm, chosen@, q)
                                    + if mm[row as int][q] { 1int } else { 0int });
                                assert(col_count(mm, chosen@ + s, q) == 1);
                            }
                            assert(exact_cover(mm, ch2@ + s2, nc as int));
                        }
                    }
                }
            }
        }
        row += 1;
    }
    proof {
        assert forall|s: Seq<usize>| !#[trigger] exact_cover(mm, chosen@ + s, nc as int) by {
            if exact_cover(mm, chosen@ + s, nc as int) {
                lemma_count_append(mm, chosen@, s, col as int);
                assert(col_count(mm, chosen@ + s, col as int) == 1);
                assert(col_count(mm, chosen@, col as int) == 0);
                let j = lemma_count_witness(mm, s, col as int);
                assert((chosen@ + s)[chosen@.len() + j] == s[j]);
                assert(s[j] < mm.len());
            }
        }
    }
    None
}

/// Distinct indices below `n` number at most `n`.
proof fn lemma_distinct_bounded(s: Seq<usize>, n: int)
    requires
        n >= 0,
        s.no_duplicates(),
        forall|i: int| 0 <= i < s.len() ==> (#[trigger] s[i]) < n,
    ensures
        s.len() <= n,
{
    let t = s.map_values(|x: usize| x as int);
    assert(t.no_duplicates()) by {
        assert forall|x: int, y: int| 0 <= x < t.len() && 0 <= y < t.len() && x != y implies t[x] != t[y] by {
            assert(s[x] != s[y]);
        }
    }
    t.unique_seq_to_set();
    vstd::set_lib::lemma_int_range(0, n);
    assert(t.to_set().subset_of(vstd::set_lib::set_int_range(0, n))) by {
        assert forall|x: int| #[trigger] t.to_set().contains(x) implies vstd::set_lib::set_int_range(0, n).contains(x) by {
            assert(t.contains(x));
            let i = choose|i: int| 0 <= i < t.len() && t[i] == x;
            assert(s[i] < n);
        }
    }
    vstd::set_lib::lemma_len_subset(t.to_set(), vstd::set_lib::set_int_range(0, n));
}

/// Whether integer cell `c` is nonzero.
pub open spec fn bool_of(c: Cell) -> bool {
    c matches Cell::Int(i) && i != 0
}

/// The boolean matrix of `rows` rows and `cols` columns held by cells.
pub open spec fn bool_matrix(s: Seq<Cell>, rows: int, cols: int) -> Seq<Seq<bool>> {
    Seq::new(rows as nat, |r: int| Seq::new(cols as nat, |c: int| bool_of(s[r * cols + c])))
}

/// `v` is the matrix of the rows `sol` of `m`, as 0 and 1.
pub open spec fn rows_value(m: Seq<Seq<bool>>, sol: Seq<usize>, cols: int, v: ValueP) -> bool {
    &&& v.dims() == seq![sol.len() as i64, cols as i64]
    &&& v.ravel().len() == sol.len() * cols
    &&& forall|i: int, c: int| 0 <= i < sol.len() && 0 <= c < cols ==>
            #[trigger] v.ravel()[i * cols + c] == Cell::Int(if m[sol[i] as int][c] { 1 } else { 0 })
}

/// The rows and columns of the matrix that `⎕DLX` reads from B: one row
/// for a vector, the two axes of a matrix (a scalar is one by one).
pub open spec fn dlx_dims(b: ValueP) -> (int, int) {
    if b.dims().len() == 1 {
        (1, b.dims()[0] as int)
    } else if b.dims().len() == 2 {
        (b.dims()[0] as int, b.dims()[1] as int)
    } else {
        (1, 1)
    }
}

/// `v` is the answer `sol`: a nonempty exact cover of the boolean matrix
/// held by B, as the matrix of its rows.
pub open spec fn dlx_answer(b: ValueP, sol: Seq<usize>, v: ValueP) -> bool {
    let m = bool_matrix(b.ravel(), dlx_dims(b).0, dlx_dims(b).1);
    &&& sol.len() > 0
    &&& exact_cover(m, sol, dlx_dims(b).1)
    &&& rows_value(m, sol, dlx_dims(b).1, v)
}

/// `⎕DLX B`: an exact cover of the boolean matrix B (a vector is one row):
/// a matrix of rows of B, as 0 and 1, that together hold exactly one 1 in
/// each column; an empty vector exactly when there is none. An empty B
/// gives an empty vector; B of rank above 2 is a DOMAIN ERROR.
pub fn quad_dlx(b: &ValueP) -> (r: AplResult<ValueP>)
    ensures
        b.ravel().len() == 0 ==> (r matches Ok(v) && is_vector_of(v, Seq::<Cell>::empty())),
        b.ravel().len() > 0 && b.dims().len() > 2 ==> r == Err::<ValueP, ErrorCode>(ErrorCode::DomainError),
        b.ravel().len() > 0 && b.dims().len() <= 2 ==> (r matches Ok(v) ==> ((is_vector_of(v, Seq::<Cell>::empty())
                && forall|sol: Seq<usize>| !#[trigger] exact_cover(
                    bool_matrix(b.ravel(), dlx_dims(*b).0, dlx_dims(*b).1), sol, dlx_dims(*b).1))
            || exists|sol: Seq<usize>| #[trigger] dlx_answer(*b, sol, v))),
        b.ravel().len() > 0 && b.dims().len() <= 2 ==> r is Ok,
{
    b.lemma_wf();
    let cells = b.cells();
    if cells.len() == 0 {
        let v = ValueP::int_vector(&[]);
        assert(v.ravel() =~= Seq::<Cell>::empty());
        return Ok(v);
    }
    let rank = b.rank();
    if rank > 2 {
        return Err(ErrorCode::DomainError);
    }
    let (rows_i, cols_i): (i64, i64) = if rank == 1 {
        (1, b.get_shape_item(0))
    } else if rank == 2 {
        (b.get_shape_item(0), b.get_shape_item(1))
    } else {
        (1, 1)
    };
    proof {
        let d = b.dims();
        if rank == 2 {
            let dl = d.drop_last();
            assert(dl.drop_last() =~= Seq::<i64>::empty());
            assert(prod(dl.drop_last()) == 1);
            assert(prod(dl) == prod(dl.drop_last()) * dl.last());
            assert(prod(dl) == d[0]);
            assert(prod(d) == prod(dl) * d.last());
            assert(prod(d) == d[0] * d[1]);
        } else if rank == 1 {
            assert(d.drop_last() =~= Seq::<i64>::empty());
            assert(prod(d.drop_last()) == 1);
            assert(prod(d) == prod(d.drop_last()) * d.last());
            assert(prod(d) == d[0]);
        } else {
            assert(d =~= Seq::<i64>::empty());
            assert(prod(d) == 1);
        }
        assert(rows_i * cols_i == cells@.len());
        assert(rows_i >= 1 && cols_i >= 1 && rows_i <= cells@.len() && cols_i <= cells@.len()) by (nonlinear_arith)
            requires rows_i >= 0, cols_i >= 0, rows_i * cols_i == cells@.len(), cells@.len() > 0;
    }
    let rows = rows_i as usize;
    let cols = cols_i as usize;
    let cn = cells.len();
    let mut m: Vec<Vec<bool>> = Vec::new();
    let mut r: usize = 0;
    while r < rows
        invariant
            cn == cells@.len(),
            r <= rows,
            rows * cols == cells@.len(),
            cells@ == b.ravel(),
            m@.len() == r,
            forall|i: int| 0 <= i < r ==> (#[trigger] m@[i])@ == bool_matrix(cells@, rows as int, cols as int)[i],
        decreases rows - r,
    {
        let mut row: Vec<bool> = Vec::new();
        let mut c: usize = 0;
        while c < cols
            invariant
                cn == cells@.len(),
                c <= cols,
                r < rows,
                rows * cols == cells@.len(),
                row@.len() == c,
                forall|q: int| 0 <= q < c ==> row@[q] == bool_of(#[trigger] cells@[r * cols + q]),
            decreases cols - c,
        {
            proof { crate::layout::lemma_rowmajor(r as int, c as int, cols as int, rows as int); }
            let x = match &cells[r * cols + c] {
                Cell::Int(i) => *i != 0,
                _ => false,
            };
            row.push(x);
            c += 1;
        }
        proof {
            assert(row@ =~= bool_matrix(cells@, rows as int, cols as int)[r as int]);
        }
        m.push(row);
        r += 1;
    }
    let ghost mm = bool_matrix(cells@, rows as int, cols as int);
    proof {
        assert(bool_rows(m@) =~= mm);
    }
    let mut covered: Vec<bool> = Vec::new();
    let mut k: usize = 0;
    while k < cols
        invariant
            k <= cols,
            covered@.len() == k,
            forall|q: int| 0 <= q < k ==> !(#[trigger] covered@[q]),
        decreases cols - k,
    {
        covered.push(false);
        k += 1;
    }
    let chosen: Vec<usize> = Vec::new();
    proof {
        assert forall|q: int| 0 <= q < covered@.len() implies
            #[trigger] col_count(mm, chosen@, q) == if covered@[q] { 1int } else { 0int } by {}
    }
    let sol = match solve(&m, cols, &covered, &chosen) {
        Some(s) => s,
        None => {
            let v = ValueP::int_vector(&[]);
            assert(v.ravel() =~= Seq::<Cell>::empty());
            proof {
                assert forall|sol: Seq<usize>| !#[trigger] exact_cover(mm, sol, cols as int) by {
                    assert(chosen@ + sol =~= sol);
                }
            }
            return Ok(v);
        },
    };
    if sol.len() == 0 {
        proof {
            assert(col_count(mm, sol@, 0) == 1);
        }
        let v = ValueP::int_vector(&[]);
        assert(v.ravel() =~= Seq::<Cell>::empty());
        return Ok(v);
    }
    let n = sol.len();
    proof {
        lemma_distinct_bounded(sol@, rows as int);
        assert(n * cols <= rows * cols) by (nonlinear_arith) requires n <= rows;
        assert(n * cols <= i64::MAX);
    }
    let mut flat: Vec<Cell> = Vec::new();
    let mut i: usize = 0;
    while i < n
        invariant
            mm == bool_matrix(cells@, rows as int, cols as int),
            i <= n == sol@.len(),
            n * cols <= i64::MAX,
            flat@.len() == i * cols,
            exact_cover(mm, sol@, cols as int),
            mm.len() == rows,
            forall|j: int| 0 <= j < rows ==> (#[trigger] m@[j])@ == mm[j],
            m@.len() == rows,
            forall|a: int, c: int| 0 <= a < i && 0 <= c < cols ==>
                #[trigger] flat@[a * cols + c] == Cell::Int(if mm[sol@[a] as int][c] { 1 } else { 0 }),
        decreases n - i,
    {
        let rw = sol[i];
        assert(rw < m@.len());
        assert(mm[rw as int].len() == cols);
        let mut c: usize = 0;
        while c < cols
            invariant
                c <= cols,
                i < n,
                rw < m@.len(),
                m@[rw as int]@ == mm[rw as int],
                mm[rw as int].len() == cols,
                flat@.len() == i * cols + c,
                forall|a: int, q: int| 0 <= a < i && 0 <= q < cols ==>
                    #[trigger] flat@[a * cols + q] == Cell::Int(if mm[sol@[a] as int][q] { 1 } else { 0 }),
                forall|q: int| 0 <= q < c ==>
                    #[trigger] flat@[i * cols + q] == Cell::Int(if mm[rw as int][q] { 1 } else { 0 }),
            decreases cols - c,
        {
            proof {
                assert((i * cols + c) as int == i as int * cols as int + c as int);
            }
            flat.push(Cell::Int(if m[rw][c] { 1 } else { 0 }));
            proof {
                assert forall|a: int, q: int| 0 <= a < i && 0 <= q < cols implies
                    #[trigger] flat@[a * cols + q] == Cell::Int(if mm[sol@[a] as int][q] { 1 } else { 0 }) by {
                    crate::layout::lemma_rowmajor(a, q, cols as int, i as int);
                }
            }
            c += 1;
        }
        proof {
            assert forall|a: int, q: int| 0 <= a < i + 1 && 0 <= q < cols implies
                #[trigger] flat@[a * cols + q] == Cell::Int(if mm[sol@[a] as int][q] { 1 } else { 0 }) by {
                if a == i {
                    assert(sol@[a] == rw);
                }
            }
            assert((i + 1) * cols == i * cols + cols) by (nonlinear_arith);
        }
        i += 1;
    }
    proof {
        assert(n <= n * cols) by (nonlinear_arith) requires cols >= 1, n >= 0;
        assert(n as i64 as int == n as int);
        assert(cols as i64 as int == cols as int);
        let d = seq![n as i64, cols as i64];
        assert(crate::shape::absprod(Seq::<i64>::empty()) == 1);
        assert(crate::shape::weight(n as i64) == n);
        assert(crate::shape::weight(cols as i64) == cols);
        assert(d.drop_last() =~= seq![n as i64]);
        assert(d.drop_last().drop_last() =~= Seq::<i64>::empty());
        assert(crate::shape::absprod(d.drop_last()) == crate::shape::absprod(d.drop_last().drop_last()) * crate::shape::weight(n as i64));
        assert(crate::shape::absprod(d) == crate::shape::absprod(d.drop_last()) * crate::shape::weight(cols as i64));
        assert(crate::shape::absprod(d) == n * cols);
    }
    let shape = crate::shape::Shape::matrix(n as i64, cols as i64);
    proof {
        assert(shape.spec_volume() == n * cols);
    }
    let v = match ValueP::from_parts(shape, flat) {
        Ok(v) => v,
        Err(_) => { return Err(ErrorCode::LimitError); },
    };
    proof {
        assert(rows_value(mm, sol@, cols as int, v));
        assert(dlx_answer(*b, sol@, v));
    }
    Ok(v)
}


/// The dimensions of the value `⎕RVAL` makes from parameters `s`: the
/// rank (at least 0) taken from the first cell, each axis as long as the
/// second cell says (at least 1).
pub open spec fn rval_dims(s: Seq<Cell>) -> Seq<i64> {
    let rank = if int_or(s, 0, 0) < 0 { 0 } else { int_or(s, 0, 0) };
    let len = if int_or(s, 1, 1) < 1 { 1 } else { int_or(s, 1, 1) };
    Seq::new(rank as nat, |i: int| len)
}

/// The cells are integers from -100 up to, not including, 100.
pub open spec fn small_ints(s: Seq<Cell>) -> bool {
    forall|i: int| 0 <= i < s.len() ==> ((#[trigger] s[i]) matches Cell::Int(k) && -100 <= k < 100)
}

/// `⎕RVAL B`: a random value with the rank and axis length of `rval_dims`
/// and the type in the third cell of B: type 1 gives random integers from
/// -100 up to 100; an unset type picks the type of each element at random.
/// Floating and complex elements (types 2 and 3, or picked at random) are
/// a NONCE ERROR, as this library holds integers only; an empty B is a
/// DOMAIN ERROR; dimensions that do not fit a shape are a LIMIT ERROR.
pub fn quad_rval(b: &ValueP) -> (r: AplResult<ValueP>)
    ensures
        b.ravel().len() == 0 ==> r == Err::<ValueP, ErrorCode>(ErrorCode::DomainError),
        r matches Ok(v) ==> v.dims() == rval_dims(b.ravel()) && small_ints(v.ravel()),
        b.ravel().len() > 0 && (int_or(b.ravel(), 2, 0) == 2 || int_or(b.ravel(), 2, 0) == 3) ==> r is Err,
        b.ravel().len() > 0 && int_or(b.ravel(), 2, 0) == 1 && rval_dims(b.ravel()).len() <= crate::types::MAX_RANK
            && crate::shape::absprod(rval_dims(b.ravel())) <= i64::MAX ==> r is Ok,
{
    let cells = b.cells();
    if cells.len() == 0 {
        return Err(ErrorCode::DomainError);
    }
    let r0 = int_or_exec(cells, 0, 0);
    let rank: i64 = if r0 < 0 { 0 } else { r0 };
    let l0 = int_or_exec(cells, 1, 1);
    let len: i64 = if l0 < 1 { 1 } else { l0 };
    let ty = int_or_exec(cells, 2, 0);
    if rank > crate::types::MAX_RANK as i64 {
        return Err(ErrorCode::LimitError);
    }
    let mut dims: Vec<i64> = Vec::new();
    let mut k: i64 = 0;
    while k < rank
        invariant
            0 <= k <= rank,
            dims@ == Seq::new(k as nat, |i: int| len),
        decreases rank - k,
    {
        dims.push(len);
        proof { assert(dims@ =~= Seq::new((k + 1) as nat, |i: int| len)); }
        k += 1;
    }
    assert(dims@ == rval_dims(b.ravel()));
    if !crate::take_drop::weight_fits(dims.as_slice()) {
        return Err(ErrorCode::LimitError);
    }
    let shape = crate::shape::Shape::from_dims(dims.as_slice())?;
    if ty == 2 || ty == 3 {
        return Err(ErrorCode::NonceError);
    }
    proof {
        use_type_invariant(shape);
        crate::shape::lemma_prod_nonneg(shape@);
        crate::take_drop::lemma_prod_le_absprod(shape@);
    }
    let vol = shape.get_volume();
    let mut rng = random_source();
    let mut ravel: Vec<Cell> = Vec::new();
    let mut n: i64 = 0;
    while n < vol
        invariant
            0 <= n <= vol,
            ravel@.len() == n,
            small_ints(ravel@),
            b.ravel().len() > 0,
            ty == int_or(b.ravel(), 2, 0),
            shape@ == rval_dims(b.ravel()),
            vol == shape.spec_volume(),
        decreases vol - n,
    {
        if ty != 1 {
            let pick = random_in(&mut rng, 0, 3);
            if pick != 0 {
                return Err(ErrorCode::NonceError);
            }
        }
        let x = random_in(&mut rng, -100, 100);
        ravel.push(Cell::Int(x));
        n += 1;
    }
    match ValueP::from_parts(shape, ravel) {
        Ok(v) => Ok(v),
        Err(e) => Err(e),
    }
}


/// The name `⎕MX` gives for operation `op`.
pub open spec fn mx_name(op: i64) -> Seq<char> {
    if op == 0 { seq!['D', 'E', 'T', 'E', 'R', 'M', 'I', 'N', 'A', 'N', 'T'] }
    else if op == 1 { seq!['I', 'N', 'V', 'E', 'R', 'S', 'E'] }
    else if op == 2 { seq!['E', 'I', 'G', 'E', 'N', 'V', 'A', 'L', 'U', 'E', 'S'] }
    else if op == 3 { seq!['T', 'R', 'A', 'C', 'E'] }
    else if op == 4 { seq!['R', 'A', 'N', 'K'] }
    else { seq!['U', 'N', 'K', 'N', 'O', 'W', 'N'] }
}

/// `⎕MX B`: a single integer names a matrix operation, whose name is
/// given; an operation followed by a matrix gives 0 for operations other
/// than the trace, and the trace, a floating number, is a NONCE ERROR, as
/// this library holds integers only. An empty B, and a first cell that is
/// not an integer, are a DOMAIN ERROR.
pub fn quad_mx(b: &ValueP) -> (r: AplResult<ValueP>)
    ensures
        b.ravel().len() == 0 || (b.ravel().len() > 0 && !(b.ravel()[0] is Int))
            ==> r == Err::<ValueP, ErrorCode>(ErrorCode::DomainError),
        b.ravel().len() == 1 && b.ravel()[0] is Int ==> (r matches Ok(v)
            && is_vector_of(v, codes_of(mx_name(b.ravel()[0]->Int_0)))),
        b.ravel().len() > 1 && b.ravel()[0] is Int && b.ravel()[0]->Int_0 != 3 ==> (r matches Ok(v)
            && v.dims() == Seq::<i64>::empty() && v.ravel() == seq![Cell::Int(0)]),
        b.ravel().len() > 1 && b.ravel()[0] == Cell::Int(3) ==> r == Err::<ValueP, ErrorCode>(ErrorCode::NonceError),
{
    let cells = b.cells();
    if cells.len() == 0 {
        return Err(ErrorCode::DomainError);
    }
    let op = cells[0].get_int_value()?;
    if cells.len() == 1 {
        let name: Vec<char> = if op == 0 {
            vec!['D', 'E', 'T', 'E', 'R', 'M', 'I', 'N', 'A', 'N', 'T']
        } else if op == 1 {
            vec!['I', 'N', 'V', 'E', 'R', 'S', 'E']
        } else if op == 2 {
            vec!['E', 'I', 'G', 'E', 'N', 'V', 'A', 'L', 'U', 'E', 'S']
        } else if op == 3 {
            vec!['T', 'R', 'A', 'C', 'E']
        } else if op == 4 {
            vec!['R', 'A', 'N', 'K']
        } else {
            vec!['U', 'N', 'K', 'N', 'O', 'W', 'N']
        };
        assert(name@ == mx_name(op));
        return Ok(char_value(name.as_slice()));
    }
    if op == 3 {
        return Err(ErrorCode::NonceError);
    }
    Ok(ValueP::scalar_from(Cell::Int(0)))
}

/// Trimming does not lengthen text.
proof fn lemma_trimmed_len(s: Seq<char>)
    ensures
        trimmed(s).len() <= s.len(),
    decreases s.len(),
{
    if s.len() > 0 {
        if white_space(s[0]) {
            lemma_trimmed_len(s.drop_first());
        } else if white_space(s.last()) {
            lemma_trimmed_len(s.drop_last());
        }
    }
}


/// `⎕UCS ⎕UCS B` is B for characters: the code points of characters, read
/// back as characters, are the characters again.
pub proof fn law_ucs_round_trip(s: Seq<Cell>)
    requires
        all_char_cells(s),
        forall|i: int| 0 <= i < s.len() ==> is_scalar_value(#[trigger] char_code(s[i])),
    ensures
        ({
            let codes = Seq::new(s.len(), |i: int| Cell::Int(char_code(s[i]) as i64));
            &&& all_int_cells(codes)
            &&& forall|i: int| 0 <= i < codes.len() ==> #[trigger] valid_int_code(codes[i])
            &&& Seq::new(codes.len(), |i: int| Cell::Char(int_code(codes[i]))) == s
        }),
{
    let codes = Seq::new(s.len(), |i: int| Cell::Int(char_code(s[i]) as i64));
    assert forall|i: int| 0 <= i < codes.len() implies #[trigger] int_code(codes[i]) == char_code(s[i])
        && valid_int_code(codes[i]) by {
        let u = char_code(s[i]);
        assert((u as i64) as u32 == u) by (bit_vector);
    }
    assert(Seq::new(codes.len(), |i: int| Cell::Char(int_code(codes[i]))) =~= s);
}

/// `⎕RL`: the link read after a write of `n` is `n` again.
pub proof fn law_rl_read_after_write(n: i64)
    ensures
        (n as u64) as i64 == n,
{
    assert((n as u64) as i64 == n) by (bit_vector);
}

/// The digits of a number read back as the number.
proof fn lemma_decimal_value(n: nat)
    ensures
        digits_value(crate::text::decimal(n)) == n,
        crate::text::decimal(n).len() >= 1,
        forall|i: int| 0 <= i < crate::text::decimal(n).len() ==> '0' <= #[trigger] crate::text::decimal(n)[i] <= '9',
    decreases n,
{
    let d = crate::text::decimal(n);
    if n >= 10 {
        lemma_decimal_value(n / 10);
        assert(d.drop_last() == crate::text::decimal(n / 10));
        assert(d.last() == ((n % 10) + 48) as char);
        assert(d.last() as int == (n % 10) + 48);
        assert((n / 10) * 10 + n % 10 == n) by (nonlinear_arith);
        assert(digits_value(d) == digits_value(d.drop_last()) * 10 + (d.last() as int - 48));
    } else {
        assert(d[0] == (n + 48) as char);
        assert(d.drop_last() =~= Seq::<char>::empty());
        assert(d.last() as int == n + 48);
        assert(digits_value(d) == digits_value(d.drop_last()) * 10 + (d.last() as int - 48));
    }
}

/// Reading the text of an integer gives the integer back: `str::parse`
/// inverts the way integers are written, so `⎕JSON ⎕JSON N` is N.
pub proof fn law_int_text_round_trip(n: i64)
    ensures
        i64_text(crate::text::int_display(n)) == Some(n),
{
    let t = crate::text::int_display(n);
    if n < 0 {
        let m = (-(n as int)) as nat;
        lemma_decimal_value(m);
        assert(t.drop_first() =~= crate::text::decimal(m));
        assert(t[0] == '-');
    } else {
        lemma_decimal_value(n as nat);
        let d = crate::text::decimal(n as nat);
        assert('0' <= d[0] <= '9');
    }
}

} // verus!
