//! The CDR interchange plugin.

use vstd::prelude::*;
use crate::cell::Cell;
use crate::plugin_system::PluginInfo;
use crate::types::{AplResult, ErrorCode};
use crate::value::ValueP;
use crate::quad::{char_of, lemma_char_of};
use crate::text::{char_from_u32, chars_to_string, is_scalar_value};

verus! {

/// The CDR interchange plugin: `⎕CDR` reads and writes values in the CDR binary format.
pub struct CdrPlugin;

impl CdrPlugin {
    /// the plugin
    pub fn new() -> Self {
        CdrPlugin
    }

    /// what the plugin tells of itself
    pub fn info(&self) -> (r: PluginInfo)
        ensures
            r.name@ == "cdr"@,
            r.version@ == "0.1.0"@,
            r.description@ == "CDR binary interchange (⎕CDR)"@,
    {
        PluginInfo::new("cdr", "0.1.0", "CDR binary interchange (⎕CDR)")
    }
}

/// The `n` low bytes of `x`, least significant first.
pub open spec fn le_bytes(x: nat, n: nat) -> Seq<i64>
    decreases n,
{
    if n == 0 {
        Seq::empty()
    } else {
        seq![(x % 256) as i64] + le_bytes(x / 256, (n - 1) as nat)
    }
}

/// The CDR record of one cell: tag 1 and the eight bytes of an integer,
/// tag 3 and the four bytes of a character; none for a nested value.
pub open spec fn cdr_cell(c: Cell) -> Option<Seq<i64>> {
    match c {
        Cell::Int(i) => Some(seq![1i64] + le_bytes((i as u64) as nat, 8)),
        Cell::Char(u) => Some(seq![3i64] + le_bytes(u as nat, 4)),
        _ => None,
    }
}

/// The CDR records of the first `n` cells, or none when one of them is
/// nested.
pub open spec fn cdr_cells(s: Seq<Cell>, n: nat) -> Option<Seq<i64>>
    decreases n,
{
    if n == 0 || n > s.len() {
        Some(Seq::empty())
    } else {
        match (cdr_cells(s, (n - 1) as nat), cdr_cell(s[n - 1])) {
            (Some(a), Some(b)) => Some(a + b),
            _ => None,
        }
    }
}

fn push_le(out: &mut Vec<i64>, x: u64, n: u64)
    ensures
        final(out)@ == old(out)@ + le_bytes(x as nat, n as nat),
    decreases n,
{
    if n > 0 {
        out.push((x % 256) as i64);
        push_le(out, x / 256, n - 1);
        assert(final(out)@ =~= old(out)@ + le_bytes(x as nat, n as nat)) by {
            assert(le_bytes(x as nat, n as nat) == seq![(x % 256) as i64] + le_bytes((x / 256) as nat, (n - 1) as nat));
        }
    } else {
        assert(out@ =~= old(out)@ + le_bytes(x as nat, n as nat));
    }
}

/// `⎕CDR B` for a value that is not a file name: the bytes of its cells in
/// the CDR format (see `cdr_cell`), as integers; a nested cell is a DOMAIN
/// ERROR.
pub fn cdr_encode(b: &ValueP) -> (r: AplResult<ValueP>)
    ensures
        match cdr_cells(b.ravel(), b.ravel().len()) {
            Some(bytes) => bytes.len() <= i64::MAX ==> (r matches Ok(v) && v.dims() == seq![bytes.len() as i64]
                && v.ravel() == crate::value::int_cells(bytes)),
            None => r == Err::<ValueP, ErrorCode>(ErrorCode::DomainError),
        },
{
    let cells = b.cells();
    let mut out: Vec<i64> = Vec::new();
    let mut i: usize = 0;
    while i < cells.len()
        invariant
            i <= cells@.len(),
            cells@ == b.ravel(),
            cdr_cells(cells@, i as nat) == Some(out@),
        decreases cells@.len() - i,
    {
        let ghost before = out@;
        match &cells[i] {
            Cell::Int(n) => {
                out.push(1);
                push_le(&mut out, *n as u64, 8);
            },
            Cell::Char(u) => {
                out.push(3);
                push_le(&mut out, *u as u64, 4);
            },
            _ => {
                proof { lemma_cdr_none(cells@, (i + 1) as nat, cells@.len()); }
                return Err(ErrorCode::DomainError);
            },
        }
        proof {
            assert(out@ =~= before + cdr_cell(cells@[i as int])->Some_0);
        }
        i += 1;
    }
    if out.len() as u128 > i64::MAX as u128 {
        return Err(ErrorCode::LimitError);
    }
    Ok(ValueP::int_vector(out.as_slice()))
}

/// A nested cell spoils every longer prefix.
proof fn lemma_cdr_none(s: Seq<Cell>, k: nat, n: nat)
    requires
        1 <= k <= n <= s.len(),
        cdr_cells(s, k) is None,
    ensures
        cdr_cells(s, n) is None,
    decreases n - k,
{
    if k < n {
        lemma_cdr_none(s, k + 1, n);
    }
}

/// B names a file: it has cells, and all of them are characters.
pub open spec fn names_file(b: ValueP) -> bool {
    b.ravel().len() > 0 && forall|i: int| 0 <= i < b.ravel().len() ==> b.ravel()[i] is Char
}

/// The characters of the cells that are valid character codes, in order.
pub open spec fn valid_chars(s: Seq<Cell>) -> Seq<char>
    decreases s.len(),
{
    if s.len() == 0 {
        Seq::empty()
    } else {
        let rest = valid_chars(s.drop_last());
        match s.last() {
            Cell::Char(u) => if is_scalar_value(u) { rest.push(char_of(u)) } else { rest },
            _ => rest,
        }
    }
}

/// The bytes as integers.
pub open spec fn byte_ints(d: Seq<u8>) -> Seq<i64> {
    Seq::new(d.len(), |i: int| d[i] as i64)
}

/// The name of the file that `⎕CDR B` reads when B names a file: its valid
/// characters, in order.
pub fn cdr_file_name(b: &ValueP) -> (r: Option<String>)
    ensures
        r is Some <==> names_file(*b),
        r matches Some(s) ==> s@ == valid_chars(b.ravel()),
{
    let cells = b.cells();
    if cells.len() == 0 {
        return None;
    }
    let mut out: Vec<char> = Vec::new();
    let mut i: usize = 0;
    while i < cells.len()
        invariant
            i <= cells@.len(),
            cells@ == b.ravel(),
            out@ == valid_chars(cells@.take(i as int)),
            forall|j: int| 0 <= j < i ==> cells@[j] is Char,
        decreases cells@.len() - i,
    {
        proof { assert(cells@.take(i as int + 1).drop_last() =~= cells@.take(i as int)); }
        match &cells[i] {
            Cell::Char(u) => {
                match char_from_u32(*u) {
                    Some(c) => {
                        proof { lemma_char_of(c); }
                        out.push(c);
                    },
                    None => {},
                }
            },
            _ => {
                return None;
            },
        }
        i += 1;
    }
    proof { assert(cells@.take(i as int) =~= cells@); }
    Some(chars_to_string(out.as_slice()))
}

/// `⎕CDR B`. When B names a file, `contents` is what reading that file
/// gave: its bytes become an integer vector, and a file that could not be
/// read is a DOMAIN ERROR. Any other B is encoded by `cdr_encode`.
pub fn quad_cdr(b: &ValueP, contents: Option<&[u8]>) -> (r: AplResult<ValueP>)
    ensures
        names_file(*b) ==> match contents {
            None => r == Err::<ValueP, ErrorCode>(ErrorCode::DomainError),
            Some(d) => d@.len() <= i64::MAX ==> (r matches Ok(v) && v.dims() == seq![d@.len() as i64]
                && v.ravel() == crate::value::int_cells(byte_ints(d@))),
        },
        !names_file(*b) ==> match cdr_cells(b.ravel(), b.ravel().len()) {
            Some(bytes) => bytes.len() <= i64::MAX ==> (r matches Ok(v) && v.dims() == seq![bytes.len() as i64]
                && v.ravel() == crate::value::int_cells(bytes)),
            None => r == Err::<ValueP, ErrorCode>(ErrorCode::DomainError),
        },
{
    match cdr_file_name(b) {
        Some(_) => match contents {
            None => Err(ErrorCode::DomainError),
            Some(d) => {
                let mut ints: Vec<i64> = Vec::new();
                let mut i: usize = 0;
                while i < d.len()
                    invariant
                        i <= d@.len(),
                        ints@ == byte_ints(d@).take(i as int),
                    decreases d@.len() - i,
                {
                    ints.push(d[i] as i64);
                    proof { assert(ints@ =~= byte_ints(d@).take(i as int + 1)); }
                    i += 1;
                }
                proof { assert(ints@ =~= byte_ints(d@)); }
                if ints.len() as u128 > i64::MAX as u128 {
                    return Err(ErrorCode::LimitError);
                }
                Ok(ValueP::int_vector(ints.as_slice()))
            },
        },
        None => cdr_encode(b),
    }
}

} // verus!
