//! `⎕RE B`: regular expressions. The first cell of B names the operation
//! (0 find, 1 replace, 2 split), the second is the pattern (one
//! character), and the characters from the third cell on are the text; for
//! a replacement, those from the fourth cell on are the replacement. The
//! matching itself is the `regex` crate's.

use vstd::prelude::*;
use crate::cell::Cell;
use crate::text::{chars_to_string, str_chars, is_scalar_value};
use crate::types::{AplResult, ErrorCode};
use crate::value::ValueP;
use crate::quad::{char_of, lemma_char_of};

verus! {

/// The matches of pattern `p` in text `t`, as byte ranges `(start, end)`
/// in order, or None when `p` is no valid pattern.
pub uninterp spec fn regex_find(p: Seq<char>, t: Seq<char>) -> Option<Seq<(usize, usize)>>;

/// Text `t` with every match of pattern `p` replaced by `rep`, or None
/// when `p` is no valid pattern.
pub uninterp spec fn regex_replace(p: Seq<char>, t: Seq<char>, rep: Seq<char>) -> Option<Seq<char>>;

/// The pieces of text `t` between the matches of pattern `p`, or None
/// when `p` is no valid pattern.
pub uninterp spec fn regex_split(p: Seq<char>, t: Seq<char>) -> Option<Seq<Seq<char>>>;

/// `Regex::new` and `Regex::find_iter`: a name for the matches.
#[verifier::external_body]
fn find_all(p: &str, t: &str) -> (r: Option<Vec<(usize, usize)>>)
    ensures
        match regex_find(p@, t@) {
            None => r is None,
            Some(ms) => r matches Some(v) && v@ == ms,
        },
{
    match regex::Regex::new(p) {
        Ok(re) => Some(re.find_iter(t).map(|m| (m.start(), m.end())).collect()),
        Err(_) => None,
    }
}

/// `Regex::new` and `Regex::replace_all`: a name for the result.
#[verifier::external_body]
fn replace_all(p: &str, t: &str, rep: &str) -> (r: Option<String>)
    ensures
        match regex_replace(p@, t@, rep@) {
            None => r is None,
            Some(s) => r matches Some(v) && v@ == s,
        },
{
    match regex::Regex::new(p) {
        Ok(re) => Some(re.replace_all(t, rep).into_owned()),
        Err(_) => None,
    }
}

/// `Regex::new` and `Regex::split`: a name for the pieces.
#[verifier::external_body]
fn split_all(p: &str, t: &str) -> (r: Option<Vec<String>>)
    ensures
        match regex_split(p@, t@) {
            None => r is None,
            Some(ps) => r matches Some(v) && v@.len() == ps.len()
                && forall|i: int| 0 <= i < ps.len() ==> #[trigger] v@[i]@ == ps[i],
        },
{
    match regex::Regex::new(p) {
        Ok(re) => Some(re.split(t).map(|s| s.to_string()).collect()),
        Err(_) => None,
    }
}

/// The character of a code point, `?` where it names none.
pub open spec fn char_or_query(u: u32) -> char {
    if is_scalar_value(u) { char_of(u) } else { '?' }
}

/// The text of the character cells among `cells`, in order.
pub open spec fn text_of_cells(cells: Seq<Cell>) -> Seq<char>
    decreases cells.len(),
{
    if cells.len() == 0 {
        Seq::empty()
    } else {
        text_of_cells(cells.drop_last()) + match cells.last() {
            Cell::Char(u) => seq![char_or_query(u)],
            _ => Seq::empty(),
        }
    }
}

/// Match ranges as a flat list of integers: start, end, start, end, …
pub open spec fn flat_ranges(ms: Seq<(usize, usize)>) -> Seq<Cell>
    decreases ms.len(),
{
    if ms.len() == 0 {
        Seq::empty()
    } else {
        flat_ranges(ms.drop_last()) + seq![Cell::Int(ms.last().0 as i64), Cell::Int(ms.last().1 as i64)]
    }
}

/// Pieces of text with a line break between each two.
pub open spec fn lines_joined(ps: Seq<Seq<char>>) -> Seq<char>
    decreases ps.len(),
{
    if ps.len() == 0 {
        Seq::empty()
    } else if ps.len() == 1 {
        ps[0]
    } else {
        lines_joined(ps.drop_last()) + seq!['\n'] + ps.last()
    }
}

/// The cells of a text.
pub open spec fn text_cells(t: Seq<char>) -> Seq<Cell> {
    Seq::new(t.len(), |i: int| Cell::Char(t[i] as u32))
}

/// What `⎕RE B` gives for the cells `c` of B.
pub open spec fn re_result(c: Seq<Cell>) -> AplResult<Seq<Cell>> {
    if c.len() < 3 || !(c[0] is Int) || !(c[1] is Char) {
        Err(ErrorCode::DomainError)
    } else {
        let op = c[0]->Int_0;
        let pat = seq![char_or_query(c[1]->Char_0)];
        let text = text_of_cells(c.skip(2));
        if op == 0 {
            match regex_find(pat, text) {
                None => Err(ErrorCode::DomainError),
                Some(ms) => Ok(flat_ranges(ms)),
            }
        } else if op == 1 {
            let rep = if c.len() > 3 { text_of_cells(c.skip(3)) } else { Seq::empty() };
            match regex_replace(pat, text, rep) {
                None => Err(ErrorCode::DomainError),
                Some(t) => Ok(text_cells(t)),
            }
        } else if op == 2 {
            match regex_split(pat, text) {
                None => Err(ErrorCode::DomainError),
                Some(ps) => Ok(text_cells(lines_joined(ps))),
            }
        } else {
            Err(ErrorCode::DomainError)
        }
    }
}

/// The character of a code point, `?` where it names none.
fn char_or_query_exec(u: u32) -> (r: char)
    ensures
        r == char_or_query(u),
{
    match crate::text::char_from_u32(u) {
        Some(c) => {
            proof { lemma_char_of(c); }
            c
        },
        None => '?',
    }
}

/// The text of the character cells of `cells` from `lo` on.
fn text_from(cells: &[Cell], lo: usize) -> (r: Vec<char>)
    requires
        lo <= cells@.len(),
    ensures
        r@ == text_of_cells(cells@.skip(lo as int)),
{
    let mut out: Vec<char> = Vec::new();
    let mut i: usize = lo;
    proof { assert(cells@.subrange(lo as int, lo as int) =~= Seq::<Cell>::empty()); }
    while i < cells.len()
        invariant
            lo <= i <= cells@.len(),
            out@ == text_of_cells(cells@.subrange(lo as int, i as int)),
        decreases cells@.len() - i,
    {
        let ghost before = out@;
        match &cells[i] {
            Cell::Char(u) => { out.push(char_or_query_exec(*u)); },
            _ => {},
        }
        proof {
            let s = cells@.subrange(lo as int, i as int + 1);
            assert(s.drop_last() =~= cells@.subrange(lo as int, i as int));
            assert(s.last() == cells@[i as int]);
            assert(out@ =~= text_of_cells(s));
        }
        i += 1;
    }
    proof { assert(cells@.subrange(lo as int, cells@.len() as int) =~= cells@.skip(lo as int)); }
    out
}

/// The cells of the characters of a text.
fn cells_of_text(t: &Vec<char>) -> (r: Vec<Cell>)
    ensures
        r@ == text_cells(t@),
{
    let mut out: Vec<Cell> = Vec::new();
    let mut i: usize = 0;
    while i < t.len()
        invariant
            i <= t@.len(),
            out@ == text_cells(t@.take(i as int)),
        decreases t@.len() - i,
    {
        out.push(Cell::Char(t[i] as u32));
        proof { assert(out@ =~= text_cells(t@.take(i as int + 1))); }
        i += 1;
    }
    proof { assert(t@.take(t@.len() as int) =~= t@); }
    out
}

/// `⎕RE B`: see `re_result`. Finding gives the byte ranges of the matches
/// flattened (empty when there is none); replacing and splitting give
/// text, the pieces of a split joined by line breaks; a short B, cells of
/// the wrong kind, an unknown operation or a pattern that does not compile
/// give a DOMAIN ERROR.
pub fn quad_re(b: &ValueP) -> (r: AplResult<ValueP>)
    ensures
        match re_result(b.ravel()) {
            Err(e) => r == Err::<ValueP, ErrorCode>(e),
            Ok(cs) => if cs.len() <= i64::MAX {
                r matches Ok(v) && v.dims() == seq![cs.len() as i64] && v.ravel() == cs
            } else {
                r == Err::<ValueP, ErrorCode>(ErrorCode::LimitError)
            },
        },
{
    b.lemma_wf();
    let cells = b.cells();
    if cells.len() < 3 {
        return Err(ErrorCode::DomainError);
    }
    let op = cells[0].get_int_value()?;
    let pc = cells[1].get_char_value()?;
    let mut pv: Vec<char> = Vec::new();
    pv.push(char_or_query_exec(pc));
    let pat = chars_to_string(pv.as_slice());
    let tv = text_from(cells, 2);
    let text = chars_to_string(tv.as_slice());
    proof {
        assert(pv@ =~= seq![char_or_query(cells@[1]->Char_0)]);
        assert(pat@ == seq![char_or_query(b.ravel()[1]->Char_0)]);
        assert(text@ == text_of_cells(b.ravel().skip(2)));
        assert(b.ravel()[0] == Cell::Int(op));
    }
    if op == 0 {
        match find_all(pat.as_str(), text.as_str()) {
            None => Err(ErrorCode::DomainError),
            Some(ms) => {
                let mut out: Vec<Cell> = Vec::new();
                let mut i: usize = 0;
                proof { assert(ms@.take(0) =~= Seq::<(usize, usize)>::empty()); }
                while i < ms.len()
                    invariant
                        i <= ms@.len(),
                        out@ == flat_ranges(ms@.take(i as int)),
                    decreases ms@.len() - i,
                {
                    let (s, e) = ms[i];
                    out.push(Cell::Int(s as i64));
                    out.push(Cell::Int(e as i64));
                    proof {
                        let q = ms@.take(i as int + 1);
                        assert(q.drop_last() =~= ms@.take(i as int));
                        assert(q.last() == ms@[i as int]);
                        assert(out@ =~= flat_ranges(q));
                    }
                    i += 1;
                }
                proof { assert(ms@.take(ms@.len() as int) =~= ms@); }
                crate::parser::vector_of(out)
            },
        }
    } else if op == 1 {
        let rv: Vec<char> = if cells.len() > 3 { text_from(cells, 3) } else { Vec::new() };
        let rep = chars_to_string(rv.as_slice());
        proof {
            assert(rep@ == (if b.ravel().len() > 3 { text_of_cells(b.ravel().skip(3)) } else { Seq::<char>::empty() }));
        }
        match replace_all(pat.as_str(), text.as_str(), rep.as_str()) {
            None => Err(ErrorCode::DomainError),
            Some(t) => {
                let tc = str_chars(t.as_str());
                proof { assert(tc@ == regex_replace(pat@, text@, rep@)->Some_0); }
                crate::parser::vector_of(cells_of_text(&tc))
            },
        }
    } else if op == 2 {
        match split_all(pat.as_str(), text.as_str()) {
            None => Err(ErrorCode::DomainError),
            Some(ps) => {
                let mut out: Vec<char> = Vec::new();
                let mut i: usize = 0;
                let ghost pv2 = Seq::new(ps@.len(), |k: int| ps@[k]@);
                proof { assert(pv2.take(0) =~= Seq::<Seq<char>>::empty()); }
                while i < ps.len()
                    invariant
                        i <= ps@.len(),
                        pv2 == Seq::new(ps@.len(), |k: int| ps@[k]@),
                        out@ == lines_joined(pv2.take(i as int)),
                    decreases ps@.len() - i,
                {
                    if i > 0 {
                        out.push('\n');
                    }
                    let pc2 = str_chars(ps[i].as_str());
                    let mut k: usize = 0;
                    let ghost before = out@;
                    while k < pc2.len()
                        invariant
                            k <= pc2@.len(),
                            out@ == before + pc2@.take(k as int),
                        decreases pc2@.len() - k,
                    {
                        out.push(pc2[k]);
                        proof { assert(pc2@.take(k as int + 1) =~= pc2@.take(k as int).push(pc2@[k as int])); }
                        k += 1;
                    }
                    proof {
                        assert(pc2@.take(pc2@.len() as int) =~= pc2@);
                        let q = pv2.take(i as int + 1);
                        assert(q.drop_last() =~= pv2.take(i as int));
                        assert(q.last() == pv2[i as int]);
                        if i == 0 {
                            assert(lines_joined(q) == q[0]);
                            assert(out@ =~= lines_joined(q));
                        } else {
                            assert(out@ =~= lines_joined(q));
                        }
                    }
                    i += 1;
                }
                proof {
                    assert(pv2.take(ps@.len() as int) =~= pv2);
                    assert(pv2 =~= regex_split(pat@, text@)->Some_0);
                }
                crate::parser::vector_of(cells_of_text(&out))
            },
        }
    } else {
        Err(ErrorCode::DomainError)
    }
}

} // verus!
