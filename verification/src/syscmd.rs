//! System commands (`)VARS`, `)FNS`, `)CLEAR` and the others): what each
//! one answers and what it changes in the workspace. The commands that
//! touch files or the process come back to the program around the library
//! with what they need.

use vstd::prelude::*;
use crate::cell::Cell;
use crate::functions_def::{names_of, FunctionTable};
use crate::parser::Environment;
use crate::plugins::security::{spells, upper_text, upper_text_of};
use crate::quad::{char_is_white, white_space};
use crate::text::{chars_to_string, str_chars, sub_chars, decimal, int_display, push_decimal, push_int_display};
use crate::quad::{i64_text, parse_i64, char_of, lemma_char_of};
use crate::text::is_scalar_value;
use crate::sysvars::{init_sysvars, is_int_scalar, pp_of, IO_VAR, PP_VAR, BOXING_VAR};
use crate::value::ValueP;

verus! {

// ---------------------------------------------------------------------------
// Words of a command line
// ---------------------------------------------------------------------------

/// The first index from `i` on that holds no white space, or the length.
pub open spec fn skip_white(s: Seq<char>, i: int) -> int
    decreases s.len() - i,
{
    if i < 0 || i >= s.len() {
        i
    } else if white_space(s[i]) {
        skip_white(s, i + 1)
    } else {
        i
    }
}

/// The first index from `i` on that holds white space, or the length.
pub open spec fn word_end(s: Seq<char>, i: int) -> int
    decreases s.len() - i,
{
    if i < 0 || i >= s.len() {
        i
    } else if !white_space(s[i]) {
        word_end(s, i + 1)
    } else {
        i
    }
}

/// The command word of a system command line: its first word in upper
/// case.
pub open spec fn command_of(s: Seq<char>) -> Seq<char> {
    let i = skip_white(s, 0);
    upper_text_of(s.subrange(i, word_end(s, i)))
}

/// The argument of a system command line: its second word, empty when
/// there is none.
pub open spec fn argument_of(s: Seq<char>) -> Seq<char> {
    let i = skip_white(s, 0);
    let k = skip_white(s, word_end(s, i));
    s.subrange(k, word_end(s, k))
}

proof fn lemma_skip_bounds(s: Seq<char>, i: int)
    requires
        0 <= i <= s.len(),
    ensures
        i <= skip_white(s, i) <= s.len(),
    decreases s.len() - i,
{
    if i < s.len() && white_space(s[i]) {
        lemma_skip_bounds(s, i + 1);
    }
}

proof fn lemma_end_bounds(s: Seq<char>, i: int)
    requires
        0 <= i <= s.len(),
    ensures
        i <= word_end(s, i) <= s.len(),
    decreases s.len() - i,
{
    if i < s.len() && !white_space(s[i]) {
        lemma_end_bounds(s, i + 1);
    }
}

/// `skip_white` on characters.
fn skip_white_at(s: &[char], i: usize) -> (r: usize)
    requires
        i <= s@.len(),
    ensures
        r == skip_white(s@, i as int),
        i <= r <= s@.len(),
{
    let mut k = i;
    while k < s.len() && char_is_white(s[k])
        invariant
            i <= k <= s@.len(),
            skip_white(s@, i as int) == skip_white(s@, k as int),
        decreases s@.len() - k,
    {
        k += 1;
    }
    k
}

/// `word_end` on characters.
fn word_end_at(s: &[char], i: usize) -> (r: usize)
    requires
        i <= s@.len(),
    ensures
        r == word_end(s@, i as int),
        i <= r <= s@.len(),
{
    let mut k = i;
    while k < s.len() && !char_is_white(s[k])
        invariant
            i <= k <= s@.len(),
            word_end(s@, i as int) == word_end(s@, k as int),
        decreases s@.len() - k,
    {
        k += 1;
    }
    k
}

/// The command word and the argument of a command line.
fn command_parts(cmd: &str) -> (r: (Vec<char>, Vec<char>))
    ensures
        r.0@ == command_of(cmd@),
        r.1@ == argument_of(cmd@),
{
    let s = str_chars(cmd);
    let i = skip_white_at(s.as_slice(), 0);
    let j = word_end_at(s.as_slice(), i);
    let k = skip_white_at(s.as_slice(), j);
    let l = word_end_at(s.as_slice(), k);
    let word = chars_to_string(sub_chars(s.as_slice(), i, j).as_slice());
    let up = upper_text(word.as_str());
    (str_chars(up.as_str()), sub_chars(s.as_slice(), k, l))
}

// ---------------------------------------------------------------------------
// Order and joining of names
// ---------------------------------------------------------------------------

/// The order of texts: by their characters' code points, a text before
/// any longer one that it begins.
pub open spec fn lex_le(a: Seq<char>, b: Seq<char>) -> bool
    decreases a.len(),
{
    if a.len() == 0 {
        true
    } else if b.len() == 0 {
        false
    } else if (a[0] as u32) != (b[0] as u32) {
        (a[0] as u32) < (b[0] as u32)
    } else {
        lex_le(a.drop_first(), b.drop_first())
    }
}

/// `a` and `b` agree on their first `k` characters, and at position `k`
/// the code point of `a` is the smaller.
pub open spec fn differs_lower_at(a: Seq<char>, b: Seq<char>, k: int) -> bool {
    &&& 0 <= k < a.len()
    &&& k < b.len()
    &&& a.take(k) == b.take(k)
    &&& (a[k] as u32) < (b[k] as u32)
}

/// The order of names in a listing, in closed form: `a` comes no later
/// than `b` exactly when `a` begins `b`, or at the first position where
/// they differ `a` has the smaller code point (so `A` comes before `B`,
/// and `B` not before `A`).
pub proof fn law_text_order(a: Seq<char>, b: Seq<char>)
    ensures
        lex_le(a, b) <==> ((a.len() <= b.len() && b.take(a.len() as int) == a)
            || exists|k: int| #[trigger] differs_lower_at(a, b, k)),
    decreases a.len(),
{
    if a.len() == 0 {
        assert(b.take(0) =~= a);
    } else if b.len() == 0 {
        assert forall|k: int| !#[trigger] differs_lower_at(a, b, k) by {}
    } else if (a[0] as u32) != (b[0] as u32) {
        assert(a[0] != b[0]);
        if a.len() <= b.len() && b.take(a.len() as int) == a {
            assert(b.take(a.len() as int)[0] == b[0]);
        }
        assert forall|k: int| #[trigger] differs_lower_at(a, b, k) implies k == 0 by {
            if k > 0 {
                assert(a.take(k)[0] == b.take(k)[0]);
            }
        }
        if (a[0] as u32) < (b[0] as u32) {
            assert(a.take(0) =~= b.take(0));
            assert(differs_lower_at(a, b, 0));
        }
    } else {
        let a1 = a.drop_first();
        let b1 = b.drop_first();
        law_text_order(a1, b1);
        crate::quad::lemma_char_of(a[0]);
        crate::quad::lemma_char_of(b[0]);
        assert(a[0] == b[0]);
        if a.len() <= b.len() && b.take(a.len() as int) == a {
            assert(b1.take(a1.len() as int) =~= a1);
        }
        if a1.len() <= b1.len() && b1.take(a1.len() as int) == a1 {
            assert forall|i: int| 0 <= i < a.len() implies #[trigger] b.take(a.len() as int)[i] == a[i] by {
                if i > 0 {
                    assert(b1.take(a1.len() as int)[i - 1] == a1[i - 1]);
                }
            }
            assert(b.take(a.len() as int) =~= a);
        }
        if exists|k: int| #[trigger] differs_lower_at(a, b, k) {
            let k = choose|k: int| #[trigger] differs_lower_at(a, b, k);
            assert(k != 0);
            assert(a1.take(k - 1) =~= a.take(k).drop_first());
            assert(b1.take(k - 1) =~= b.take(k).drop_first());
            assert(differs_lower_at(a1, b1, k - 1));
        }
        if exists|k: int| #[trigger] differs_lower_at(a1, b1, k) {
            let k = choose|k: int| #[trigger] differs_lower_at(a1, b1, k);
            assert(a.take(k + 1) =~= seq![a[0]] + a1.take(k));
            assert(b.take(k + 1) =~= seq![b[0]] + b1.take(k));
            assert(differs_lower_at(a, b, k + 1));
        }
    }
}

/// Of two texts one comes first.
proof fn lemma_lex_total(a: Seq<char>, b: Seq<char>)
    ensures
        lex_le(a, b) || lex_le(b, a),
    decreases a.len(),
{
    if a.len() > 0 && b.len() > 0 && (a[0] as u32) == (b[0] as u32) {
        lemma_lex_total(a.drop_first(), b.drop_first());
    }
}

/// The order is transitive.
proof fn lemma_lex_trans(a: Seq<char>, b: Seq<char>, c: Seq<char>)
    requires
        lex_le(a, b),
        lex_le(b, c),
    ensures
        lex_le(a, c),
    decreases a.len(),
{
    if a.len() > 0 && b.len() > 0 && c.len() > 0 && (a[0] as u32) == (b[0] as u32) && (b[0] as u32) == (c[0] as u32) {
        lemma_lex_trans(a.drop_first(), b.drop_first(), c.drop_first());
    }
}

/// Whether `a` comes no later than `b`.
fn text_le(a: &[char], b: &[char]) -> (r: bool)
    ensures
        r == lex_le(a@, b@),
{
    let mut i: usize = 0;
    proof {
        assert(a@.skip(0) =~= a@);
        assert(b@.skip(0) =~= b@);
    }
    while i < a.len() && i < b.len() && (a[i] as u32) == (b[i] as u32)
        invariant
            i <= a@.len(),
            i <= b@.len(),
            lex_le(a@, b@) == lex_le(a@.skip(i as int), b@.skip(i as int)),
        decreases a@.len() - i,
    {
        proof {
            assert(a@.skip(i as int).drop_first() =~= a@.skip(i as int + 1));
            assert(b@.skip(i as int).drop_first() =~= b@.skip(i as int + 1));
            assert(a@.skip(i as int)[0] == a@[i as int]);
            assert(b@.skip(i as int)[0] == b@[i as int]);
        }
        i += 1;
    }
    if i == a.len() {
        return true;
    }
    if i == b.len() {
        return false;
    }
    proof {
        assert(a@.skip(i as int)[0] == a@[i as int]);
        assert(b@.skip(i as int)[0] == b@[i as int]);
    }
    (a[i] as u32) < (b[i] as u32)
}

/// The texts are in order.
#[verifier::opaque]
pub open spec fn sorted_texts(s: Seq<Seq<char>>) -> bool {
    forall|i: int, j: int| 0 <= i < j < s.len() ==> lex_le(#[trigger] s[i], #[trigger] s[j])
}

/// No text occurs twice.
#[verifier::opaque]
pub open spec fn distinct_texts(s: Seq<Seq<char>>) -> bool {
    forall|i: int, j: int| 0 <= i < j < s.len() ==> #[trigger] s[i] != #[trigger] s[j]
}

/// Each text of `a` is one of the first `k` of `b`.
#[verifier::opaque]
pub open spec fn drawn_from(a: Seq<Seq<char>>, b: Seq<Seq<char>>, k: int) -> bool {
    forall|i: int| 0 <= i < a.len() ==> exists|j: int| 0 <= j < k && #[trigger] a[i] == #[trigger] b[j]
}

/// Each of the first `k` texts of `b` is in `a`.
#[verifier::opaque]
pub open spec fn covers(a: Seq<Seq<char>>, b: Seq<Seq<char>>, k: int) -> bool {
    forall|j: int| 0 <= j < k ==> exists|i: int| 0 <= i < a.len() && #[trigger] a[i] == #[trigger] b[j]
}

/// Inserting `x` where it belongs keeps the texts in order.
proof fn lemma_insert_sorted(s: Seq<Seq<char>>, p: int, x: Seq<char>)
    requires
        0 <= p <= s.len(),
        sorted_texts(s),
        forall|i: int| 0 <= i < p ==> lex_le(#[trigger] s[i], x),
        p < s.len() ==> lex_le(x, s[p]),
    ensures
        sorted_texts(s.insert(p, x)),
{
    reveal(sorted_texts);
    let t = s.insert(p, x);
    assert forall|a: int, b: int| 0 <= a < b < t.len() implies lex_le(#[trigger] t[a], #[trigger] t[b]) by {
        if b < p {
            assert(t[a] == s[a] && t[b] == s[b]);
        } else if b == p {
            assert(t[a] == s[a]);
        } else if a < p {
            assert(t[a] == s[a] && t[b] == s[b - 1]);
            lemma_lex_trans(s[a], x, s[p]);
            if p < b - 1 {
                lemma_lex_trans(s[a], s[p], s[b - 1]);
            }
        } else if a == p {
            assert(t[b] == s[b - 1]);
            if p < b - 1 {
                lemma_lex_trans(x, s[p], s[b - 1]);
            }
        } else {
            assert(t[a] == s[a - 1] && t[b] == s[b - 1]);
        }
    }
}

/// Inserting the next text of `b` keeps `a` drawn from `b` and covering it.
proof fn lemma_insert_cover(s: Seq<Seq<char>>, p: int, b: Seq<Seq<char>>, k: int)
    requires
        0 <= p <= s.len(),
        0 <= k < b.len(),
        drawn_from(s, b, k),
        covers(s, b, k),
    ensures
        drawn_from(s.insert(p, b[k]), b, k + 1),
        covers(s.insert(p, b[k]), b, k + 1),
{
    reveal(drawn_from);
    reveal(covers);
    let t = s.insert(p, b[k]);
    assert forall|i: int| 0 <= i < t.len() implies exists|j: int| 0 <= j < k + 1 && #[trigger] t[i] == #[trigger] b[j] by {
        if i < p {
            assert(t[i] == s[i]);
        } else if i == p {
            assert(t[i] == b[k]);
        } else {
            assert(t[i] == s[i - 1]);
        }
    }
    assert forall|j: int| 0 <= j < k + 1 implies exists|i: int| 0 <= i < t.len() && #[trigger] t[i] == #[trigger] b[j] by {
        if j == k {
            assert(t[p] == b[j]);
        } else {
            let i0 = choose|i: int| 0 <= i < s.len() && #[trigger] s[i] == #[trigger] b[j];
            if i0 < p {
                assert(t[i0] == b[j]);
            } else {
                assert(t[i0 + 1] == b[j]);
            }
        }
    }
}

/// Inserting a text of `b` not yet drawn keeps the texts distinct.
proof fn lemma_insert_distinct(s: Seq<Seq<char>>, p: int, b: Seq<Seq<char>>, k: int)
    requires
        0 <= p <= s.len(),
        0 <= k < b.len(),
        drawn_from(s, b, k),
        distinct_texts(s),
        distinct_texts(b),
    ensures
        distinct_texts(s.insert(p, b[k])),
{
    reveal(drawn_from);
    reveal(distinct_texts);
    let t = s.insert(p, b[k]);
    assert forall|a: int, c: int| 0 <= a < c < t.len() implies #[trigger] t[a] != #[trigger] t[c] by {
        if a == p || c == p {
            let o = if a == p { c } else { a };
            let oi = if o < p { o } else { o - 1 };
            assert(t[o] == s[oi]);
            let j = choose|j: int| 0 <= j < k && #[trigger] s[oi] == #[trigger] b[j];
            assert(b[j] != b[k]);
        } else {
            let ai = if a < p { a } else { a - 1 };
            let ci = if c < p { c } else { c - 1 };
            assert(t[a] == s[ai] && t[c] == s[ci]);
        }
    }
}

/// The same names, in order.
fn sort_texts(v: &Vec<String>) -> (r: Vec<String>)
    ensures
        r@.len() == v@.len(),
        sorted_texts(names_of(r@)),
        drawn_from(names_of(r@), names_of(v@), v@.len() as int),
        covers(names_of(r@), names_of(v@), v@.len() as int),
        distinct_texts(names_of(v@)) ==> distinct_texts(names_of(r@)),
{
    let ghost vn = names_of(v@);
    let mut out: Vec<String> = Vec::new();
    let mut k: usize = 0;
    proof {
        assert(names_of(out@) =~= Seq::<Seq<char>>::empty());
        reveal(sorted_texts);
        reveal(drawn_from);
        reveal(covers);
        reveal(distinct_texts);
    }
    while k < v.len()
        invariant
            k <= v@.len(),
            vn == names_of(v@),
            out@.len() == k,
            sorted_texts(names_of(out@)),
            drawn_from(names_of(out@), vn, k as int),
            covers(names_of(out@), vn, k as int),
            distinct_texts(vn) ==> distinct_texts(names_of(out@)),
        decreases v@.len() - k,
    {
        let x = v[k].clone();
        let xs = str_chars(x.as_str());
        let ghost before = names_of(out@);
        let mut p: usize = 0;
        while p < out.len() && text_le(str_chars(out[p].as_str()).as_slice(), xs.as_slice())
            invariant
                p <= out@.len(),
                xs@ == x@,
                before == names_of(out@),
                forall|i: int| 0 <= i < p ==> lex_le(#[trigger] before[i], x@),
            decreases out@.len() - p,
        {
            proof { assert(before[p as int] == out@[p as int]@); }
            p += 1;
        }
        proof {
            if p < out@.len() {
                assert(before[p as int] == out@[p as int]@);
                lemma_lex_total(before[p as int], x@);
            }
            assert(x@ == vn[k as int]);
            lemma_insert_sorted(before, p as int, x@);
            lemma_insert_cover(before, p as int, vn, k as int);
            if distinct_texts(vn) {
                lemma_insert_distinct(before, p as int, vn, k as int);
            }
        }
        out.insert(p, x);
        proof { assert(names_of(out@) =~= before.insert(p as int, vn[k as int])); }
        k += 1;
    }
    out
}

/// The texts with `sep` between each two.
pub open spec fn joined(s: Seq<Seq<char>>, sep: Seq<char>) -> Seq<char>
    decreases s.len(),
{
    if s.len() == 0 {
        Seq::empty()
    } else if s.len() == 1 {
        s[0]
    } else {
        joined(s.drop_last(), sep) + sep + s.last()
    }
}

/// The names with `sep` between each two.
fn join_texts(v: &[String], sep: &str) -> (r: String)
    ensures
        r@ == joined(names_of(v@), sep@),
{
    let sc = str_chars(sep);
    let mut out: Vec<char> = Vec::new();
    let mut i: usize = 0;
    while i < v.len()
        invariant
            i <= v@.len(),
            sc@ == sep@,
            out@ == joined(names_of(v@.take(i as int)), sep@),
        decreases v@.len() - i,
    {
        let w = str_chars(v[i].as_str());
        let ghost before = out@;
        if i > 0 {
            let mut k: usize = 0;
            while k < sc.len()
                invariant
                    k <= sc@.len(),
                    out@ == before + sc@.take(k as int),
                decreases sc@.len() - k,
            {
                out.push(sc[k]);
                proof { assert(sc@.take(k as int + 1) =~= sc@.take(k as int).push(sc@[k as int])); }
                k += 1;
            }
            proof { assert(sc@.take(sc@.len() as int) =~= sc@); }
        }
        let ghost mid = out@;
        let mut k: usize = 0;
        while k < w.len()
            invariant
                k <= w@.len(),
                out@ == mid + w@.take(k as int),
            decreases w@.len() - k,
        {
            out.push(w[k]);
            proof { assert(w@.take(k as int + 1) =~= w@.take(k as int).push(w@[k as int])); }
            k += 1;
        }
        proof {
            assert(w@.take(w@.len() as int) =~= w@);
            let t = names_of(v@.take(i as int + 1));
            assert(t.drop_last() =~= names_of(v@.take(i as int)));
            assert(t.last() == v@[i as int]@);
            if i == 0 {
                assert(out@ =~= joined(t, sep@));
            } else {
                assert(out@ =~= joined(t, sep@));
            }
        }
        i += 1;
    }
    proof { assert(v@.take(v@.len() as int) =~= v@); }
    chars_to_string(out.as_slice())
}

// ---------------------------------------------------------------------------
// The commands
// ---------------------------------------------------------------------------

/// What a system command asks of the program around the library.
pub enum SysReply {
    /// show these lines
    Lines(Vec<String>),
    /// `)OFF`: leave the interpreter
    Off,
    /// `)DIR`: show the current directory
    Dir,
    /// `)SAVE name` or `)LOAD name`: the command word and the workspace
    Archive(String, String),
    /// `)OUT file`: write this text to the file
    Out(String, String),
    /// `)COPY file`, `)IN file` or `)INP file`: the command word and the
    /// file whose lines to run
    Source(String, String),
}

/// The reply is the one line `text`.
pub open spec fn says(r: SysReply, text: Seq<char>) -> bool {
    r matches SysReply::Lines(ls) && ls@.len() == 1 && ls@[0]@ == text
}

/// A name that is not a system variable's: it does not begin with `⎕`.
pub open spec fn is_user_name(k: Seq<char>) -> bool {
    !(k.len() > 0 && k[0] == '⎕')
}

/// The names of the variables that are not system variables.
pub open spec fn user_names(vars: Map<Seq<char>, ValueP>) -> Set<Seq<char>> {
    vars.dom().filter(|k: Seq<char>| is_user_name(k))
}

/// ⎕PP can be read: when bound, it has a first cell.
pub open spec fn pp_readable(vars: Map<Seq<char>, ValueP>) -> bool {
    vars.dom().contains(PP_VAR@) ==> vars[PP_VAR@].ravel().len() > 0
}

/// The line `s` alone.
fn one_line(s: Vec<char>) -> (r: SysReply)
    ensures
        says(r, s@),
{
    let mut ls: Vec<String> = Vec::new();
    ls.push(chars_to_string(s.as_slice()));
    SysReply::Lines(ls)
}

/// Append the characters of `s`.
fn push_text(out: &mut Vec<char>, s: &str)
    ensures
        final(out)@ == old(out)@ + s@,
{
    let c = str_chars(s);
    let mut i: usize = 0;
    while i < c.len()
        invariant
            i <= c@.len(),
            c@ == s@,
            out@ == old(out)@ + c@.take(i as int),
        decreases c@.len() - i,
    {
        out.push(c[i]);
        proof { assert(c@.take(i as int + 1) =~= c@.take(i as int).push(c@[i as int])); }
        i += 1;
    }
    proof { assert(c@.take(c@.len() as int) =~= c@); }
}

/// Append characters.
fn push_chars(out: &mut Vec<char>, s: &Vec<char>)
    ensures
        final(out)@ == old(out)@ + s@,
{
    let mut i: usize = 0;
    while i < s.len()
        invariant
            i <= s@.len(),
            out@ == old(out)@ + s@.take(i as int),
        decreases s@.len() - i,
    {
        out.push(s[i]);
        proof { assert(s@.take(i as int + 1) =~= s@.take(i as int).push(s@[i as int])); }
        i += 1;
    }
    proof { assert(s@.take(s@.len() as int) =~= s@); }
}

/// The reply `text` as one line.
fn say(text: &str) -> (r: SysReply)
    ensures
        says(r, text@),
{
    let mut out: Vec<char> = Vec::new();
    push_text(&mut out, text);
    proof { assert(out@ =~= text@); }
    one_line(out)
}

/// Whether a name is not a system variable's.
fn user_name(n: &String) -> (r: bool)
    ensures
        r == is_user_name(n@),
{
    let c = str_chars(n.as_str());
    !(c.len() > 0 && c[0] == '⎕')
}

/// The texts of a list with one more.
proof fn lemma_push_set(s: Seq<Seq<char>>, x: Seq<char>)
    ensures
        s.push(x).to_set() == s.to_set().insert(x),
{
    let t = s.push(x);
    assert forall|k: Seq<char>| t.to_set().contains(k) <==> s.to_set().insert(x).contains(k) by {
        if t.contains(k) {
            let i = choose|i: int| 0 <= i < t.len() && t[i] == k;
            if i < s.len() {
                assert(s[i] == k);
                assert(s.contains(k));
            }
        }
        if s.contains(k) {
            let i = choose|i: int| 0 <= i < s.len() && s[i] == k;
            assert(t[i] == k);
            assert(t.contains(k));
        }
        if k == x {
            assert(t[s.len() as int] == x);
            assert(t.contains(k));
        }
    }
    assert(t.to_set() =~= s.to_set().insert(x));
}

/// A distinct list stays distinct when a text not in it is added.
proof fn lemma_push_distinct(s: Seq<Seq<char>>, x: Seq<char>)
    requires
        distinct_texts(s),
        !s.to_set().contains(x),
    ensures
        distinct_texts(s.push(x)),
{
    reveal(distinct_texts);
    let t = s.push(x);
    assert forall|a: int, b: int| 0 <= a < b < t.len() implies #[trigger] t[a] != #[trigger] t[b] by {
        if b == s.len() {
            assert(t[a] == s[a]);
            assert(s.contains(s[a]));
        } else {
            assert(t[a] == s[a] && t[b] == s[b]);
        }
    }
}

/// Lists drawn from each other hold the same texts.
proof fn lemma_cover_sets(a: Seq<Seq<char>>, b: Seq<Seq<char>>)
    requires
        drawn_from(a, b, b.len() as int),
        covers(a, b, b.len() as int),
    ensures
        a.to_set() == b.to_set(),
{
    reveal(drawn_from);
    reveal(covers);
    assert forall|k: Seq<char>| a.to_set().contains(k) <==> b.to_set().contains(k) by {
        if a.to_set().contains(k) {
            let i = choose|i: int| 0 <= i < a.len() && a[i] == k;
            let j = choose|j: int| 0 <= j < b.len() && #[trigger] a[i] == #[trigger] b[j];
            assert(b.contains(k));
        }
        if b.to_set().contains(k) {
            let j = choose|j: int| 0 <= j < b.len() && b[j] == k;
            let i = choose|i: int| 0 <= i < a.len() && #[trigger] a[i] == #[trigger] b[j];
            assert(a.contains(k));
        }
    }
    assert(a.to_set() =~= b.to_set());
}

/// The names among `all` that are not system variables' names.
fn user_only(all: &Vec<String>) -> (r: Vec<String>)
    requires
        distinct_texts(names_of(all@)),
    ensures
        distinct_texts(names_of(r@)),
        names_of(r@).to_set() == names_of(all@).to_set().filter(|k: Seq<char>| is_user_name(k)),
{
    let ghost an = names_of(all@);
    let mut user: Vec<String> = Vec::new();
    let mut i: usize = 0;
    proof {
        reveal(distinct_texts);
        assert(names_of(user@) =~= Seq::<Seq<char>>::empty());
        assert(an.take(0).to_set().filter(|k: Seq<char>| is_user_name(k)) =~= Set::<Seq<char>>::empty());
        assert(names_of(user@).to_set() =~= Set::<Seq<char>>::empty());
    }
    while i < all.len()
        invariant
            i <= all@.len(),
            an == names_of(all@),
            distinct_texts(an),
            distinct_texts(names_of(user@)),
            names_of(user@).to_set() == an.take(i as int).to_set().filter(|k: Seq<char>| is_user_name(k)),
        decreases all@.len() - i,
    {
        let ghost before = names_of(user@);
        let ghost x = all@[i as int]@;
        proof {
            assert(an[i as int] == x);
            assert(an.take(i as int + 1) =~= an.take(i as int).push(x));
            lemma_push_set(an.take(i as int), x);
        }
        if user_name(&all[i]) {
            proof {
                reveal(distinct_texts);
                if before.to_set().contains(x) {
                    let j = choose|j: int| 0 <= j < an.take(i as int).len() && an.take(i as int)[j] == x;
                    assert(an[j] == an[i as int]);
                }
                lemma_push_distinct(before, x);
            }
            user.push(all[i].clone());
            proof {
                assert(names_of(user@) =~= before.push(x));
                lemma_push_set(before, x);
                assert(names_of(user@).to_set() =~= an.take(i as int + 1).to_set().filter(|k: Seq<char>| is_user_name(k)));
            }
        } else {
            proof {
                assert(names_of(user@).to_set() =~= an.take(i as int + 1).to_set().filter(|k: Seq<char>| is_user_name(k)));
            }
        }
        i += 1;
    }
    proof { assert(an.take(all@.len() as int) =~= an); }
    user
}

/// The names of the user's variables, in order.
fn sorted_user_names(env: &Environment) -> (r: Vec<String>)
    requires
        env.wf(),
    ensures
        sorted_texts(names_of(r@)),
        distinct_texts(names_of(r@)),
        names_of(r@).to_set() == user_names(env.vars_view()),
{
    let all = env.var_names();
    proof {
        reveal(distinct_texts);
        let an = names_of(all@);
        assert forall|a: int, b: int| 0 <= a < b < an.len() implies #[trigger] an[a] != #[trigger] an[b] by {
            assert(an[a] == all@[a]@ && an[b] == all@[b]@);
        }
        assert forall|k: Seq<char>| an.to_set().contains(k) <==> env.vars_view().dom().contains(k) by {
            if an.to_set().contains(k) {
                let i = choose|i: int| 0 <= i < an.len() && an[i] == k;
                assert(an[i] == all@[i]@);
            }
            if env.vars_view().dom().contains(k) {
                let i = choose|i: int| 0 <= i < all@.len() && #[trigger] all@[i]@ == k;
                assert(an[i] == k);
                assert(an.contains(k));
            }
        }
        assert(an.to_set() =~= env.vars_view().dom());
    }
    let user = user_only(&all);
    let r = sort_texts(&user);
    proof {
        lemma_cover_sets(names_of(r@), names_of(user@));
        assert(names_of(r@).to_set() =~= user_names(env.vars_view()));
    }
    r
}

/// What command word `w` with argument `a` answers, and how it leaves the
/// variables and the function names (`vars` and `fns` before, `vars2` and
/// `fns2` after); `tab` is the function table before, whose traditional
/// functions `)OUT` writes. A word not listed here is an unknown command.
pub open spec fn command_effect(w: Seq<char>, a: Seq<char>, vars: Map<Seq<char>, ValueP>, fns: Seq<Seq<char>>,
    tab: FunctionTable, vars2: Map<Seq<char>, ValueP>, fns2: Seq<Seq<char>>, r: SysReply) -> bool
{
    let same = vars2 == vars && fns2 == fns;
    if w == "OFF"@ {
        r is Off && same
    } else if w == "DIR"@ {
        r is Dir && same
    } else if w == ""@ {
        says(r, "(empty system command)"@) && same
    } else if w == "VARS"@ {
        same && exists|t: Seq<Seq<char>>| sorted_texts(t) && distinct_texts(t) && t.to_set() == user_names(vars)
            && says(r, joined(t, "  "@))
    } else if w == "FNS"@ {
        says(r, joined(fns, "  "@)) && same
    } else if w == "LIB"@ {
        same && exists|t: Seq<Seq<char>>| sorted_texts(t) && distinct_texts(t) && t.to_set() == vars.dom()
            && shows(r, lib_text(t, vars, fns))
    } else if w == "DIGITS"@ {
        fns2 == fns && if a.len() == 0 {
            says(r, "⎕PP = "@ + decimal(pp_of(vars) as nat)) && vars2 == vars
        } else {
            match i64_text(a) {
                Some(v) => if 1 <= v <= 20 {
                    says(r, "⎕PP = "@ + int_display(v))
                        && exists|x: ValueP| is_int_scalar(x, v) && vars2 == vars.insert(PP_VAR@, x)
                } else {
                    says(r, "DIGITS must be 1-20"@) && vars2 == vars
                },
                None => says(r, "DIGITS must be 1-20"@) && vars2 == vars,
            }
        }
    } else if w == "WIDTH"@ {
        same && if a.len() == 0 {
            says(r, "⎕PW = 80"@)
        } else {
            match i64_text(a) {
                Some(v) => if 30 <= v <= 9999 { says(r, "⎕PW = "@ + int_display(v)) } else { says(r, "WIDTH must be 30-9999"@) },
                None => says(r, "WIDTH must be 30-9999"@),
            }
        }
    } else if w == "CONTINUE"@ {
        says(r, "CONTINUE is not supported"@) && same
    } else if w == "ED"@ {
        says(r, ")ED is not supported"@) && same
    } else if w == "HISTORY"@ {
        says(r, "HISTORY is not supported"@) && same
    } else if w == "SI"@ || w == "SINL"@ {
        says(r, "(no active functions)"@) && same
    } else if w == "SYMBOLS"@ {
        says(r, "⎕AV = 256 characters (0-255)"@) && same
    } else if w == "OPS"@ {
        says(r, "¨ (Each)  ⍤ (Rank)  ⍣ (Power)  ⍨ (Commute)  ∘. (Outer Dot)  ∘ (Matrix Product)  . (Inner Dot)  ⍀ (Scan1)  ⌿ (Reduce1)  ⍥ (Over)"@)
            && same
    } else if w == "ERASE"@ {
        fns2 == fns && if a.len() == 0 {
            says(r, "USAGE: )ERASE name"@) && vars2 == vars
        } else {
            says(r, "ERASED "@ + a) && vars2 == vars.remove(a)
        }
    } else if w == "RESET"@ || w == "CLEAR"@ {
        &&& says(r, "RESET WORKSPACE"@)
        &&& fns2 == Seq::<Seq<char>>::empty()
        &&& vars2.dom() == Set::<Seq<char>>::empty().insert(IO_VAR@).insert(PP_VAR@).insert(BOXING_VAR@)
        &&& is_int_scalar(vars2[IO_VAR@], 0)
        &&& is_int_scalar(vars2[PP_VAR@], 10)
        &&& is_int_scalar(vars2[BOXING_VAR@], 1)
    } else if w == "SAVE"@ || w == "LOAD"@ {
        same && if a.len() == 0 {
            says(r, w + " REQUIRES A WORKSPACE NAME: )"@ + w + " NAME"@)
        } else {
            r matches SysReply::Archive(c, n) && c@ == w && n@ == a
        }
    } else if w == "OUT"@ {
        same && if a.len() == 0 {
            says(r, "USAGE: )OUT file"@)
        } else {
            r matches SysReply::Out(f, text) && f@ == a
                && exists|t: Seq<Seq<char>>| sorted_texts(t) && t.to_set() == vars.dom()
                    && text@ == joined(out_var_lines(t, vars) + out_fn_lines(fns, tab), "\n"@)
        }
    } else if w == "COPY"@ || w == "IN"@ || w == "INP"@ {
        same && if a.len() == 0 {
            says(r, "USAGE: )"@ + w + " file"@)
        } else {
            r matches SysReply::Source(c, f) && c@ == w && f@ == a
        }
    } else if w == "GRP"@ {
        grp_shows(r, grp_groups(vars, fns)) && same
    } else if w == "NMS"@ {
        same && exists|t: Seq<Seq<char>>| sorted_texts(t) && t.to_set() == user_names(vars) + fns.to_set()
            && shows(r, nms_of(t))
    } else {
        says(r, "UNKNOWN SYSTEM COMMAND: "@ + w) && same
    }
}

/// Run system command `cmd` (the text after the `)`): the reply, and the
/// changes it makes to the workspace. Only `)ERASE`, `)CLEAR`, `)RESET`
/// and `)DIGITS n` change it. `)LIB`, `)GRP` and `)NMS` list the names
/// of the workspace by kind; `)OUT` gives the text of the workspace.
pub fn syscmd(cmd: &str, env: &mut Environment) -> (r: SysReply)
    requires
        old(env).wf(),
        command_of(cmd@) == "DIGITS"@ && argument_of(cmd@).len() == 0 ==> pp_readable(old(env).vars_view()),
    ensures
        final(env).wf(),
        command_effect(command_of(cmd@), argument_of(cmd@), old(env).vars_view(), old(env).fn_names(),
            old(env).table(), final(env).vars_view(), final(env).fn_names(), r),
{
    let (w, a) = command_parts(cmd);
    if spells(&w, "OFF") {
        return SysReply::Off;
    }
    if spells(&w, "DIR") {
        return SysReply::Dir;
    }
    if spells(&w, "") {
        return say("(empty system command)");
    }
    if spells(&w, "VARS") {
        let names = sorted_user_names(env);
        let line = join_texts(names.as_slice(), "  ");
        let ghost t = names_of(names@);
        let r = one_line(str_chars(line.as_str()));
        assert(says(r, joined(t, "  "@)));
        return r;
    }
    if spells(&w, "FNS") {
        let names = env.function_names();
        let line = join_texts(names.as_slice(), "  ");
        proof { assert(names_of(names@) =~= env.fn_names()); }
        return one_line(str_chars(line.as_str()));
    }
    if spells(&w, "LIB") {
        return lib_lines(env);
    }
    if spells(&w, "DIGITS") {
        if a.len() == 0 {
            let pp = pp_value(env);
            let mut out: Vec<char> = Vec::new();
            push_text(&mut out, "⎕PP = ");
            push_decimal(&mut out, pp as u64);
            return one_line(out);
        }
        let at = chars_to_string(a.as_slice());
        match parse_i64(at.as_str()) {
            Some(v) => {
                if 1 <= v && v <= 20 {
                    let val = ValueP::scalar_from(Cell::Int(v));
                    let ghost vv = val;
                    env.set(PP_VAR, val);
                    proof {
                        assert(is_int_scalar(vv, v));
                        assert(env.vars_view() == old(env).vars_view().insert(PP_VAR@, vv));
                    }
                    let mut out: Vec<char> = Vec::new();
                    push_text(&mut out, "⎕PP = ");
                    push_int_display(&mut out, v);
                    return one_line(out);
                }
                return say("DIGITS must be 1-20");
            },
            None => {
                return say("DIGITS must be 1-20");
            },
        }
    }
    if spells(&w, "WIDTH") {
        if a.len() == 0 {
            return say("⎕PW = 80");
        }
        let at = chars_to_string(a.as_slice());
        match parse_i64(at.as_str()) {
            Some(v) => {
                if 30 <= v && v <= 9999 {
                    let mut out: Vec<char> = Vec::new();
                    push_text(&mut out, "⎕PW = ");
                    push_int_display(&mut out, v);
                    return one_line(out);
                }
                return say("WIDTH must be 30-9999");
            },
            None => {
                return say("WIDTH must be 30-9999");
            },
        }
    }
    if spells(&w, "CONTINUE") {
        return say("CONTINUE is not supported");
    }
    if spells(&w, "ED") {
        return say(")ED is not supported");
    }
    if spells(&w, "HISTORY") {
        return say("HISTORY is not supported");
    }
    if spells(&w, "SI") || spells(&w, "SINL") {
        return say("(no active functions)");
    }
    if spells(&w, "SYMBOLS") {
        return say("⎕AV = 256 characters (0-255)");
    }
    if spells(&w, "OPS") {
        return say("¨ (Each)  ⍤ (Rank)  ⍣ (Power)  ⍨ (Commute)  ∘. (Outer Dot)  ∘ (Matrix Product)  . (Inner Dot)  ⍀ (Scan1)  ⌿ (Reduce1)  ⍥ (Over)");
    }
    if spells(&w, "ERASE") {
        if a.len() == 0 {
            return say("USAGE: )ERASE name");
        }
        let name = chars_to_string(a.as_slice());
        env.erase_var(name.as_str());
        let mut out: Vec<char> = Vec::new();
        push_text(&mut out, "ERASED ");
        push_chars(&mut out, &a);
        return one_line(out);
    }
    if spells(&w, "RESET") || spells(&w, "CLEAR") {
        env.clear_workspace();
        init_sysvars(env);
        proof {
            assert(env.vars_view().dom() =~= Set::<Seq<char>>::empty().insert(IO_VAR@).insert(PP_VAR@).insert(BOXING_VAR@));
        }
        return say("RESET WORKSPACE");
    }
    if spells(&w, "SAVE") || spells(&w, "LOAD") {
        if a.len() == 0 {
            let mut out: Vec<char> = Vec::new();
            push_chars(&mut out, &w);
            push_text(&mut out, " REQUIRES A WORKSPACE NAME: )");
            push_chars(&mut out, &w);
            push_text(&mut out, " NAME");
            return one_line(out);
        }
        return SysReply::Archive(chars_to_string(w.as_slice()), chars_to_string(a.as_slice()));
    }
    if spells(&w, "OUT") {
        if a.len() == 0 {
            return say("USAGE: )OUT file");
        }
        let text = out_text(env);
        return SysReply::Out(chars_to_string(a.as_slice()), text);
    }
    if spells(&w, "COPY") || spells(&w, "IN") || spells(&w, "INP") {
        if a.len() == 0 {
            let mut out: Vec<char> = Vec::new();
            push_text(&mut out, "USAGE: )");
            push_chars(&mut out, &w);
            push_text(&mut out, " file");
            return one_line(out);
        }
        return SysReply::Source(chars_to_string(w.as_slice()), chars_to_string(a.as_slice()));
    }
    if spells(&w, "GRP") {
        return grp_lines(env);
    }
    if spells(&w, "NMS") {
        return nms_lines(env);
    }
    let mut out: Vec<char> = Vec::new();
    push_text(&mut out, "UNKNOWN SYSTEM COMMAND: ");
    push_chars(&mut out, &w);
    one_line(out)
}

/// ⎕PP, the print precision (see `pp_of`).
fn pp_value(env: &Environment) -> (r: usize)
    requires
        env.wf(),
        pp_readable(env.vars_view()),
    ensures
        r == pp_of(env.vars_view()),
{
    match env.get(PP_VAR) {
        Some(v) => match v.first_cell() {
            Some(Cell::Int(i)) => {
                if 1 <= *i && *i <= 20 {
                    *i as usize
                } else {
                    10
                }
            },
            _ => 10,
        },
        None => 10,
    }
}

/// The texts of integers with a blank between each two.
pub open spec fn ints_text(d: Seq<i64>) -> Seq<char>
    decreases d.len(),
{
    if d.len() == 0 {
        Seq::empty()
    } else if d.len() == 1 {
        int_display(d[0])
    } else {
        ints_text(d.drop_last()) + seq![' '] + int_display(d.last())
    }
}

/// The text of the dimensions, with a blank between each two.
fn push_dims(out: &mut Vec<char>, v: &ValueP)
    ensures
        final(out)@ == old(out)@ + ints_text(v.dims()),
{
    let dims = v.dim_list();
    let mut i: usize = 0;
    proof { assert(dims@.take(0) =~= Seq::<i64>::empty()); assert(out@ =~= old(out)@ + ints_text(dims@.take(0))); }
    while i < dims.len()
        invariant
            i <= dims@.len(),
            dims@ == v.dims(),
            out@ == old(out)@ + ints_text(dims@.take(i as int)),
        decreases dims@.len() - i,
    {
        let ghost before = out@;
        if i > 0 {
            out.push(' ');
        }
        push_int_display(out, dims[i]);
        proof {
            let d = dims@.take(i as int + 1);
            assert(d.drop_last() =~= dims@.take(i as int));
            assert(d.last() == dims@[i as int]);
            if i == 0 {
                assert(ints_text(d) == int_display(dims@[0]));
                assert(out@ =~= old(out)@ + ints_text(d));
            } else {
                assert(out@ =~= old(out)@ + ints_text(d));
            }
        }
        i += 1;
    }
    proof { assert(dims@.take(dims@.len() as int) =~= dims@); }
}

/// A list of lines, or the one line `(empty workspace)` when it is empty.
fn lines_or_empty(lines: Vec<String>) -> (r: SysReply)
    ensures
        r is Lines,
        lines@.len() == 0 ==> says(r, "(empty workspace)"@),
        lines@.len() > 0 ==> r == SysReply::Lines(lines),
{
    if lines.len() == 0 {
        let mut only: Vec<String> = Vec::new();
        only.push("(empty workspace)".to_owned());
        SysReply::Lines(only)
    } else {
        SysReply::Lines(lines)
    }
}

/// The names of all variables, in order.
fn sorted_names(env: &Environment) -> (r: Vec<String>)
    requires
        env.wf(),
    ensures
        sorted_texts(names_of(r@)),
        distinct_texts(names_of(r@)),
        names_of(r@).to_set() == env.vars_view().dom(),
{
    let all = env.var_names();
    proof {
        reveal(distinct_texts);
        let an = names_of(all@);
        assert forall|a: int, b: int| 0 <= a < b < an.len() implies #[trigger] an[a] != #[trigger] an[b] by {
            assert(an[a] == all@[a]@ && an[b] == all@[b]@);
        }
        assert forall|k: Seq<char>| an.to_set().contains(k) <==> env.vars_view().dom().contains(k) by {
            if an.to_set().contains(k) {
                let i = choose|i: int| 0 <= i < an.len() && an[i] == k;
                assert(an[i] == all@[i]@);
            }
            if env.vars_view().dom().contains(k) {
                let i = choose|i: int| 0 <= i < all@.len() && #[trigger] all@[i]@ == k;
                assert(an[i] == k);
                assert(an.contains(k));
            }
        }
        assert(an.to_set() =~= env.vars_view().dom());
    }
    let r = sort_texts(&all);
    proof { lemma_cover_sets(names_of(r@), names_of(all@)); }
    r
}

/// The line `)LIB` shows for variable `k` holding `v`.
pub open spec fn lib_var_line(k: Seq<char>, v: ValueP) -> Seq<char> {
    k + ": "@ + (if v.dims().len() == 0 { "scalar"@ } else { "shape "@ + ints_text(v.dims()) })
}

/// The reply shows the lines `ls`, or `(empty workspace)` when there are
/// none.
pub open spec fn shows(r: SysReply, ls: Seq<Seq<char>>) -> bool {
    if ls.len() == 0 {
        says(r, "(empty workspace)"@)
    } else {
        r matches SysReply::Lines(l) && l@.len() == ls.len() && forall|i: int| 0 <= i < ls.len() ==> #[trigger] l@[i]@ == ls[i]
    }
}

/// The lines of `)LIB` for the variables named by `t` in order, then the
/// functions `fns`.
pub open spec fn lib_text(t: Seq<Seq<char>>, vars: Map<Seq<char>, ValueP>, fns: Seq<Seq<char>>) -> Seq<Seq<char>> {
    Seq::new(t.len(), |i: int| lib_var_line(t[i], vars[t[i]])) + Seq::new(fns.len(), |j: int| fns[j] + ": function"@)
}

/// `)LIB`: a line for each variable in order, `name: scalar` or
/// `name: shape d1 d2 …`, then `name: function` for each function.
fn lib_lines(env: &Environment) -> (r: SysReply)
    requires
        env.wf(),
    ensures
        r is Lines,
        exists|t: Seq<Seq<char>>| sorted_texts(t) && distinct_texts(t) && t.to_set() == env.vars_view().dom()
            && shows(r, lib_text(t, env.vars_view(), env.fn_names())),
{
    let names = sorted_names(env);
    let ghost t = names_of(names@);
    let ghost vars = env.vars_view();
    let mut lines: Vec<String> = Vec::new();
    let mut i: usize = 0;
    while i < names.len()
        invariant
            i <= names@.len(),
            env.wf(),
            t == names_of(names@),
            vars == env.vars_view(),
            t.to_set() == vars.dom(),
            lines@.len() == i,
            forall|k: int| 0 <= k < i ==> #[trigger] lines@[k]@ == lib_var_line(t[k], vars[t[k]]),
        decreases names@.len() - i,
    {
        proof {
            assert(t[i as int] == names@[i as int]@);
            assert(t.contains(t[i as int]));
            assert(vars.dom().contains(t[i as int]));
        }
        match env.get(names[i].as_str()) {
            Some(v) => {
                let mut out: Vec<char> = Vec::new();
                push_chars(&mut out, &str_chars(names[i].as_str()));
                push_text(&mut out, ": ");
                if v.is_scalar() {
                    push_text(&mut out, "scalar");
                } else {
                    push_text(&mut out, "shape ");
                    push_dims(&mut out, v);
                }
                proof { assert(out@ =~= lib_var_line(t[i as int], vars[t[i as int]])); }
                lines.push(chars_to_string(out.as_slice()));
            },
            None => {},
        }
        i += 1;
    }
    let fns = env.function_names();
    let mut j: usize = 0;
    while j < fns.len()
        invariant
            j <= fns@.len(),
            fns@.len() == env.fn_names().len(),
            forall|q: int| 0 <= q < fns@.len() ==> #[trigger] fns@[q]@ == env.fn_names()[q],
            lines@.len() == t.len() + j,
            forall|k: int| 0 <= k < t.len() ==> #[trigger] lines@[k]@ == lib_var_line(t[k], vars[t[k]]),
            forall|q: int| 0 <= q < j ==> #[trigger] lines@[t.len() + q]@ == env.fn_names()[q] + ": function"@,
        decreases fns@.len() - j,
    {
        let mut out: Vec<char> = Vec::new();
        push_chars(&mut out, &str_chars(fns[j].as_str()));
        push_text(&mut out, ": function");
        let ghost before = lines@;
        lines.push(chars_to_string(out.as_slice()));
        proof {
            assert forall|k: int| 0 <= k < t.len() implies #[trigger] lines@[k]@ == lib_var_line(t[k], vars[t[k]]) by {
                assert(lines@[k] == before[k]);
            }
            assert forall|q: int| 0 <= q < j + 1 implies #[trigger] lines@[t.len() + q]@ == env.fn_names()[q] + ": function"@ by {
                if q < j {
                    assert(lines@[t.len() + q] == before[t.len() + q]);
                }
            }
        }
        j += 1;
    }
    let ghost ls = lib_text(t, vars, env.fn_names());
    proof {
        assert(ls.len() == lines@.len());
        assert forall|k: int| 0 <= k < ls.len() implies #[trigger] lines@[k]@ == ls[k] by {
            if k < t.len() {
            } else {
                assert(lines@[t.len() + (k - t.len())]@ == env.fn_names()[k - t.len()] + ": function"@);
            }
        }
    }
    lines_or_empty(lines)
}

/// `kind: names` with the names in order and a blank between each two.
fn group_line(kind: &str, names: &Vec<String>) -> (r: String)
    ensures
        exists|t: Seq<Seq<char>>| sorted_texts(t) && t.len() == names@.len()
            && drawn_from(t, names_of(names@), names@.len() as int) && covers(t, names_of(names@), names@.len() as int)
            && t.to_set() == names_of(names@).to_set()
            && r@ == kind@ + ": "@ + joined(t, " "@),
{
    let sorted = sort_texts(names);
    let mut out: Vec<char> = Vec::new();
    push_text(&mut out, kind);
    push_text(&mut out, ": ");
    let line = join_texts(sorted.as_slice(), " ");
    push_chars(&mut out, &str_chars(line.as_str()));
    let r = chars_to_string(out.as_slice());
    proof {
        let t = names_of(sorted@);
        lemma_cover_sets(t, names_of(names@));
        assert(r@ == kind@ + ": "@ + joined(t, " "@));
    }
    r
}

/// The class of a rank: 0 for a scalar, 1 for a vector, 2 for any
/// higher rank.
pub open spec fn rank_class(n: int) -> int {
    if n == 0 { 0 } else if n == 1 { 1 } else { 2 }
}

/// The user's variables whose rank falls in class `c`.
pub open spec fn kind_names(vars: Map<Seq<char>, ValueP>, c: int) -> Set<Seq<char>> {
    user_names(vars).filter(|k: Seq<char>| rank_class(vars[k].dims().len() as int) == c)
}

/// The names of class `c` among the first `i` of `names`.
spec fn kind_seen(vars: Map<Seq<char>, ValueP>, names: Seq<String>, i: int, c: int) -> Set<Seq<char>> {
    Set::new(|x: Seq<char>| kind_names(vars, c).contains(x) && exists|j: int| 0 <= j < i && #[trigger] names[j]@ == x)
}

/// A group of `)GRP`, shown only when it has names.
pub open spec fn grp_group(kind: Seq<char>, s: Set<Seq<char>>) -> Seq<(Seq<char>, Set<Seq<char>>)> {
    if s == Set::<Seq<char>>::empty() { Seq::empty() } else { seq![(kind, s)] }
}

/// The groups `)GRP` shows, in order: arrays, functions, scalars, vectors.
pub open spec fn grp_groups(vars: Map<Seq<char>, ValueP>, fns: Seq<Seq<char>>) -> Seq<(Seq<char>, Set<Seq<char>>)> {
    grp_group("array"@, kind_names(vars, 2)) + grp_group("function"@, fns.to_set())
        + grp_group("scalar"@, kind_names(vars, 0)) + grp_group("vector"@, kind_names(vars, 1))
}

/// `line` is `kind: names` with the names of `s` in order.
pub open spec fn group_text(line: Seq<char>, kind: Seq<char>, s: Set<Seq<char>>) -> bool {
    exists|t: Seq<Seq<char>>| sorted_texts(t) && t.to_set() == s && line == kind + ": "@ + joined(t, " "@)
}

/// The reply shows a line for each group, or `(empty workspace)` when
/// there is none.
pub open spec fn grp_shows(r: SysReply, g: Seq<(Seq<char>, Set<Seq<char>>)>) -> bool {
    if g.len() == 0 {
        says(r, "(empty workspace)"@)
    } else {
        r matches SysReply::Lines(l) && l@.len() == g.len()
            && forall|i: int| 0 <= i < g.len() ==> group_text(#[trigger] l@[i]@, g[i].0, g[i].1)
    }
}

/// The names of a list as a set: empty exactly when the list is.
proof fn lemma_names_set_empty(v: Seq<String>)
    ensures
        (v.len() == 0) == (names_of(v).to_set() == Set::<Seq<char>>::empty()),
{
    if v.len() == 0 {
        assert(names_of(v).to_set() =~= Set::<Seq<char>>::empty());
    } else {
        assert(names_of(v).to_set().contains(names_of(v)[0]));
    }
}

/// The `)GRP` line of a group, with what it shows.
fn grp_line(kind: &str, names: &Vec<String>) -> (r: String)
    ensures
        group_text(r@, kind@, names_of(names@).to_set()),
{
    let r = group_line(kind, names);
    proof {
        let t = choose|t: Seq<Seq<char>>| sorted_texts(t) && t.len() == names@.len()
            && drawn_from(t, names_of(names@), names@.len() as int) && covers(t, names_of(names@), names@.len() as int)
            && t.to_set() == names_of(names@).to_set()
            && r@ == kind@ + ": "@ + joined(t, " "@);
        assert(sorted_texts(t) && t.to_set() == names_of(names@).to_set() && r@ == kind@ + ": "@ + joined(t, " "@));
    }
    r
}

/// `)GRP`: the user's variables by kind (`array`, `scalar`, `vector`) and
/// the functions, a line for each kind that has names, in order.
fn grp_lines(env: &Environment) -> (r: SysReply)
    requires
        env.wf(),
    ensures
        grp_shows(r, grp_groups(env.vars_view(), env.fn_names())),
{
    let names = env.var_names();
    let ghost vars = env.vars_view();
    let mut scalars: Vec<String> = Vec::new();
    let mut vectors: Vec<String> = Vec::new();
    let mut arrays: Vec<String> = Vec::new();
    let mut i: usize = 0;
    proof {
        assert(names_of(scalars@).to_set() =~= kind_seen(vars, names@, 0, 0));
        assert(names_of(vectors@).to_set() =~= kind_seen(vars, names@, 0, 1));
        assert(names_of(arrays@).to_set() =~= kind_seen(vars, names@, 0, 2));
    }
    while i < names.len()
        invariant
            i <= names@.len(),
            env.wf(),
            vars == env.vars_view(),
            forall|q: int| 0 <= q < names@.len() ==> vars.dom().contains(#[trigger] names@[q]@),
            names_of(scalars@).to_set() == kind_seen(vars, names@, i as int, 0),
            names_of(vectors@).to_set() == kind_seen(vars, names@, i as int, 1),
            names_of(arrays@).to_set() == kind_seen(vars, names@, i as int, 2),
        decreases names@.len() - i,
    {
        let ghost n = names@[i as int]@;
        let ghost s0 = names_of(scalars@);
        let ghost v0 = names_of(vectors@);
        let ghost a0 = names_of(arrays@);
        if user_name(&names[i]) {
            match env.get(names[i].as_str()) {
                Some(v) => {
                    let rank = v.rank();
                    if rank == 0 {
                        scalars.push(names[i].clone());
                        proof { assert(names_of(scalars@) =~= s0.push(n)); lemma_push_set(s0, n); }
                    } else if rank == 1 {
                        vectors.push(names[i].clone());
                        proof { assert(names_of(vectors@) =~= v0.push(n)); lemma_push_set(v0, n); }
                    } else {
                        arrays.push(names[i].clone());
                        proof { assert(names_of(arrays@) =~= a0.push(n)); lemma_push_set(a0, n); }
                    }
                },
                None => {},
            }
        }
        proof {
            let c: int = if is_user_name(n) { rank_class(vars[n].dims().len() as int) } else { -1 };
            assert(kind_names(vars, 0).contains(n) == (c == 0));
            assert(kind_names(vars, 1).contains(n) == (c == 1));
            assert(kind_names(vars, 2).contains(n) == (c == 2));
            assert(names_of(scalars@).to_set() == (if c == 0 { s0.to_set().insert(n) } else { s0.to_set() }));
            assert(names_of(vectors@).to_set() == (if c == 1 { v0.to_set().insert(n) } else { v0.to_set() }));
            assert(names_of(arrays@).to_set() == (if c == 2 { a0.to_set().insert(n) } else { a0.to_set() }));
            assert forall|x: Seq<char>| names_of(scalars@).to_set().contains(x) <==>
                kind_seen(vars, names@, i + 1, 0).contains(x) by {
                assert(s0.to_set().contains(x) <==> kind_seen(vars, names@, i as int, 0).contains(x));
                if x == n { assert(names@[i as int]@ == x); }
                if exists|j: int| 0 <= j < i + 1 && #[trigger] names@[j]@ == x {
                    let j = choose|j: int| 0 <= j < i + 1 && #[trigger] names@[j]@ == x;
                    if j < i { assert(exists|j: int| 0 <= j < i && #[trigger] names@[j]@ == x); }
                }
            }
            assert forall|x: Seq<char>| names_of(vectors@).to_set().contains(x) <==>
                kind_seen(vars, names@, i + 1, 1).contains(x) by {
                assert(v0.to_set().contains(x) <==> kind_seen(vars, names@, i as int, 1).contains(x));
                if x == n { assert(names@[i as int]@ == x); }
                if exists|j: int| 0 <= j < i + 1 && #[trigger] names@[j]@ == x {
                    let j = choose|j: int| 0 <= j < i + 1 && #[trigger] names@[j]@ == x;
                    if j < i { assert(exists|j: int| 0 <= j < i && #[trigger] names@[j]@ == x); }
                }
            }
            assert forall|x: Seq<char>| names_of(arrays@).to_set().contains(x) <==>
                kind_seen(vars, names@, i + 1, 2).contains(x) by {
                assert(a0.to_set().contains(x) <==> kind_seen(vars, names@, i as int, 2).contains(x));
                if x == n { assert(names@[i as int]@ == x); }
                if exists|j: int| 0 <= j < i + 1 && #[trigger] names@[j]@ == x {
                    let j = choose|j: int| 0 <= j < i + 1 && #[trigger] names@[j]@ == x;
                    if j < i { assert(exists|j: int| 0 <= j < i && #[trigger] names@[j]@ == x); }
                }
            }
            assert(names_of(scalars@).to_set() =~= kind_seen(vars, names@, i + 1, 0));
            assert(names_of(vectors@).to_set() =~= kind_seen(vars, names@, i + 1, 1));
            assert(names_of(arrays@).to_set() =~= kind_seen(vars, names@, i + 1, 2));
        }
        i += 1;
    }
    proof {
        assert(kind_seen(vars, names@, names@.len() as int, 0) =~= kind_names(vars, 0));
        assert(kind_seen(vars, names@, names@.len() as int, 1) =~= kind_names(vars, 1));
        assert(kind_seen(vars, names@, names@.len() as int, 2) =~= kind_names(vars, 2));
        assert(names_of(scalars@).to_set() =~= kind_names(vars, 0));
        assert(names_of(vectors@).to_set() =~= kind_names(vars, 1));
        assert(names_of(arrays@).to_set() =~= kind_names(vars, 2));
        lemma_names_set_empty(scalars@);
        lemma_names_set_empty(vectors@);
        lemma_names_set_empty(arrays@);
    }
    let fns = env.function_names();
    proof {
        assert(names_of(fns@) =~= env.fn_names());
        lemma_names_set_empty(fns@);
    }
    let ghost fset = env.fn_names().to_set();
    let mut lines: Vec<String> = Vec::new();
    let ghost mut g: Seq<(Seq<char>, Set<Seq<char>>)> = Seq::empty();
    if arrays.len() > 0 {
        lines.push(grp_line("array", &arrays));
        proof { g = g.push(("array"@, kind_names(vars, 2))); }
    }
    proof {
        assert(g =~= grp_group("array"@, kind_names(vars, 2)));
        assert(lines@.len() == g.len());
        assert(forall|q: int| 0 <= q < g.len() ==> group_text(#[trigger] lines@[q]@, g[q].0, g[q].1));
    }
    let ghost g1 = g;
    let ghost l1 = lines@;
    if fns.len() > 0 {
        lines.push(grp_line("function", &fns));
        proof { g = g.push(("function"@, fset)); }
    }
    proof {
        assert(g =~= g1 + grp_group("function"@, fset));
        assert forall|q: int| 0 <= q < g.len() implies group_text(#[trigger] lines@[q]@, g[q].0, g[q].1) by {
            if q < g1.len() { assert(lines@[q] == l1[q]); }
        }
    }
    let ghost g2 = g;
    let ghost l2 = lines@;
    if scalars.len() > 0 {
        lines.push(grp_line("scalar", &scalars));
        proof { g = g.push(("scalar"@, kind_names(vars, 0))); }
    }
    proof {
        assert(g =~= g2 + grp_group("scalar"@, kind_names(vars, 0)));
        assert forall|q: int| 0 <= q < g.len() implies group_text(#[trigger] lines@[q]@, g[q].0, g[q].1) by {
            if q < g2.len() { assert(lines@[q] == l2[q]); }
        }
    }
    let ghost g3 = g;
    let ghost l3 = lines@;
    if vectors.len() > 0 {
        lines.push(grp_line("vector", &vectors));
        proof { g = g.push(("vector"@, kind_names(vars, 1))); }
    }
    proof {
        assert(g =~= g3 + grp_group("vector"@, kind_names(vars, 1)));
        assert forall|q: int| 0 <= q < g.len() implies group_text(#[trigger] lines@[q]@, g[q].0, g[q].1) by {
            if q < g3.len() { assert(lines@[q] == l3[q]); }
        }
        assert(g =~= grp_groups(vars, env.fn_names()));
        assert(lines@.len() == g.len());
    }
    lines_or_empty(lines)
}

/// The first character of a name, `?` for an empty one.
pub open spec fn first_of(n: Seq<char>) -> char {
    if n.len() > 0 { n[0] } else { '?' }
}

/// The first character of a name, `?` for an empty one.
fn first_char(n: &String) -> (r: char)
    ensures
        r == first_of(n@),
{
    let c = str_chars(n.as_str());
    if c.len() > 0 { c[0] } else { '?' }
}

/// The lines of `)NMS` for the names `t`, taken in order: a name that
/// begins with the character of the name before it joins that line after
/// a blank; any other name begins a line `c: name`.
pub open spec fn nms_of(t: Seq<Seq<char>>) -> Seq<Seq<char>>
    decreases t.len(),
{
    if t.len() == 0 {
        Seq::empty()
    } else {
        let p = nms_of(t.drop_last());
        let x = t.last();
        if t.len() >= 2 && first_of(t[t.len() - 2]) == first_of(x) {
            p.update(p.len() - 1, p.last() + " "@ + x)
        } else {
            p.push(seq![first_of(x)] + ": "@ + x)
        }
    }
}

/// `)NMS`: the user's variables and the functions, in order, a line for
/// each first character: `c: names`.
fn nms_lines(env: &Environment) -> (r: SysReply)
    requires
        env.wf(),
    ensures
        exists|t: Seq<Seq<char>>| sorted_texts(t) && t.to_set() == user_names(env.vars_view()) + env.fn_names().to_set()
            && shows(r, nms_of(t)),
{
    let user = sorted_user_names(env);
    let mut all: Vec<String> = Vec::new();
    let mut i: usize = 0;
    while i < user.len()
        invariant
            i <= user@.len(),
            all@.len() == i,
            names_of(all@) == names_of(user@).take(i as int),
        decreases user@.len() - i,
    {
        let ghost before = all@;
        let x = user[i].clone();
        all.push(x);
        proof {
            assert forall|q: int| 0 <= q < i implies #[trigger] all@[q]@ == before[q]@ by {}
            assert(all@[i as int]@ == user@[i as int]@);
            assert(names_of(all@) =~= names_of(user@).take(i as int + 1));
        }
        i += 1;
    }
    let fns = env.function_names();
    let ghost un = names_of(user@);
    let mut j: usize = 0;
    proof { assert(un.take(un.len() as int) =~= un); assert(env.fn_names().take(0) =~= Seq::<Seq<char>>::empty()); }
    while j < fns.len()
        invariant
            j <= fns@.len(),
            fns@.len() == env.fn_names().len(),
            forall|q: int| 0 <= q < fns@.len() ==> #[trigger] fns@[q]@ == env.fn_names()[q],
            all@.len() == un.len() + j,
            names_of(all@) == un + env.fn_names().take(j as int),
        decreases fns@.len() - j,
    {
        let ghost before = all@;
        let x = fns[j].clone();
        all.push(x);
        proof {
            assert forall|q: int| 0 <= q < before.len() implies #[trigger] all@[q]@ == before[q]@ by {}
            assert(all@[before.len() as int]@ == fns@[j as int]@);
            assert(names_of(before) =~= un + env.fn_names().take(j as int));
            assert(fns@[j as int]@ == env.fn_names()[j as int]);
            let w = un + env.fn_names().take(j as int + 1);
            assert forall|q: int| 0 <= q < w.len() implies names_of(all@)[q] == w[q] by {
                if q < before.len() {
                    assert(names_of(before)[q] == (un + env.fn_names().take(j as int))[q]);
                }
            }
            assert(names_of(all@) =~= w);
        }
        j += 1;
    }
    proof {
        assert(env.fn_names().take(fns@.len() as int) =~= env.fn_names());
        assert forall|x: Seq<char>| names_of(all@).to_set().contains(x) <==> (un.to_set() + env.fn_names().to_set()).contains(x) by {
            let a = names_of(all@);
            let f = env.fn_names();
            if a.contains(x) {
                let q = choose|q: int| 0 <= q < a.len() && a[q] == x;
                if q < un.len() { assert(un[q] == x); assert(un.contains(x)); } else { assert(f[q - un.len()] == x); assert(f.contains(x)); }
            }
            if un.contains(x) {
                let q = choose|q: int| 0 <= q < un.len() && un[q] == x;
                assert(a[q] == x);
                assert(a.contains(x));
            }
            if f.contains(x) {
                let q = choose|q: int| 0 <= q < f.len() && f[q] == x;
                assert(a[un.len() + q] == x);
                assert(a.contains(x));
            }
        }
        assert(names_of(all@).to_set() =~= user_names(env.vars_view()) + env.fn_names().to_set());
    }
    let sorted = sort_texts(&all);
    let ghost t = names_of(sorted@);
    proof { lemma_cover_sets(t, names_of(all@)); }
    let mut lines: Vec<String> = Vec::new();
    let mut k: usize = 0;
    proof { assert(t.take(0) =~= Seq::<Seq<char>>::empty()); assert(names_of(lines@) =~= nms_of(t.take(0))); }
    while k < sorted.len()
        invariant
            k <= sorted@.len(),
            t == names_of(sorted@),
            names_of(lines@) == nms_of(t.take(k as int)),
            0 < k < sorted@.len() ==> first_of(t[k as int]) != first_of(t[k - 1]),
        decreases sorted@.len() - k,
    {
        let c = first_char(&sorted[k]);
        let mut out: Vec<char> = Vec::new();
        out.push(c);
        push_text(&mut out, ": ");
        push_chars(&mut out, &str_chars(sorted[k].as_str()));
        proof {
            let a = t.take(k as int + 1);
            assert(a.drop_last() =~= t.take(k as int));
            assert(a.last() == t[k as int]);
            assert(t[k as int] == sorted@[k as int]@);
            if k > 0 { assert(a[a.len() - 2] == t[k - 1]); }
            assert(out@ =~= seq![first_of(t[k as int])] + ": "@ + t[k as int]);
            assert(names_of(lines@).push(out@) =~= nms_of(a));
        }
        let mut m = k + 1;
        while m < sorted.len() && first_char(&sorted[m]) == c
            invariant
                k < m <= sorted@.len(),
                t == names_of(sorted@),
                c == first_of(t[k as int]),
                first_of(t[m - 1]) == c,
                names_of(lines@).push(out@) == nms_of(t.take(m as int)),
            decreases sorted@.len() - m,
        {
            let ghost before = out@;
            out.push(' ');
            push_chars(&mut out, &str_chars(sorted[m].as_str()));
            proof {
                let a = t.take(m as int + 1);
                let p = nms_of(t.take(m as int));
                assert(a.drop_last() =~= t.take(m as int));
                assert(a.last() == t[m as int]);
                assert(t[m as int] == sorted@[m as int]@);
                assert(a[a.len() - 2] == t[m - 1]);
                assert(nms_of(a) == p.update(p.len() - 1, p.last() + " "@ + t[m as int]));
                reveal_strlit(" ");
                assert(out@ =~= before + " "@ + t[m as int]);
                assert(names_of(lines@).push(out@) =~= nms_of(a));
            }
            m += 1;
        }
        let ghost l0 = lines@;
        lines.push(chars_to_string(out.as_slice()));
        proof {
            assert(names_of(lines@) =~= names_of(l0).push(out@));
            if m < sorted@.len() {
                assert(t[m as int] == sorted@[m as int]@);
            }
        }
        k = m;
    }
    proof { assert(t.take(t.len() as int) =~= t); }
    let ghost ls = names_of(lines@);
    let r = lines_or_empty(lines);
    proof {
        assert(ls == nms_of(t));
        assert(shows(r, nms_of(t)));
    }
    r
}

/// The text of a cell as `)OUT` writes it: an integer's digits, a
/// character between quotes (`?` for a code that is no character), `?`
/// for a nested cell.
pub open spec fn cell_text(c: Cell) -> Seq<char> {
    match c {
        Cell::Int(n) => int_display(n),
        Cell::Char(u) => seq!['\'', if is_scalar_value(u) { char_of(u) } else { '?' }, '\''],
        _ => seq!['?'],
    }
}

/// Append the text of a cell (see `cell_text`).
fn push_cell_text(out: &mut Vec<char>, c: &Cell)
    ensures
        final(out)@ == old(out)@ + cell_text(*c),
{
    match c {
        Cell::Int(n) => {
            push_int_display(out, *n);
        },
        Cell::Char(u) => {
            out.push('\'');
            match crate::text::char_from_u32(*u) {
                Some(ch) => {
                    proof { lemma_char_of(ch); }
                    out.push(ch);
                },
                None => {
                    out.push('?');
                },
            }
            out.push('\'');
            proof { assert(out@ =~= old(out)@ + cell_text(*c)); }
        },
        _ => {
            out.push('?');
            proof { assert(out@ =~= old(out)@ + cell_text(*c)); }
        },
    }
}

/// The texts of cells with a blank between each two.
pub open spec fn cells_text(c: Seq<Cell>) -> Seq<char>
    decreases c.len(),
{
    if c.len() == 0 {
        Seq::empty()
    } else if c.len() == 1 {
        cell_text(c[0])
    } else {
        cells_text(c.drop_last()) + seq![' '] + cell_text(c.last())
    }
}

/// The lines `)OUT` writes for the variables named by `t`, in that order:
/// `name ← cells` for each of the user's scalars and vectors.
pub open spec fn out_var_lines(t: Seq<Seq<char>>, vars: Map<Seq<char>, ValueP>) -> Seq<Seq<char>>
    decreases t.len(),
{
    if t.len() == 0 {
        Seq::empty()
    } else {
        let k = t.last();
        let p = out_var_lines(t.drop_last(), vars);
        if is_user_name(k) && vars.dom().contains(k) && vars[k].dims().len() <= 1 {
            p.push(k + " ← "@ + cells_text(vars[k].ravel()))
        } else {
            p
        }
    }
}

/// The lines `)OUT` writes for the functions `fns`, in that order: for
/// each traditional function with lines, `∇name`, its lines and `∇`.
pub open spec fn out_fn_lines(fns: Seq<Seq<char>>, tab: FunctionTable) -> Seq<Seq<char>>
    decreases fns.len(),
{
    if fns.len() == 0 {
        Seq::empty()
    } else {
        let f = fns.last();
        let p = out_fn_lines(fns.drop_last(), tab);
        match tab.traditional(f) {
            Some(d) => if d.source@.len() > 0 {
                p + seq![seq!['∇'] + f] + names_of(d.source@) + seq![seq!['∇']]
            } else {
                p
            },
            None => p,
        }
    }
}

/// The text `)OUT` writes: `name ← cells` for each of the user's scalars
/// and vectors in order, then each traditional function as `∇name`, its
/// lines and `∇`; a line break between each two lines.
fn out_text(env: &Environment) -> (r: String)
    requires
        env.wf(),
    ensures
        exists|t: Seq<Seq<char>>| sorted_texts(t) && t.to_set() == env.vars_view().dom()
            && r@ == joined(out_var_lines(t, env.vars_view()) + out_fn_lines(env.fn_names(), env.table()), "\n"@),
{
    let mut lines: Vec<String> = Vec::new();
    let names = sorted_names(env);
    let ghost t = names_of(names@);
    let ghost vars = env.vars_view();
    let mut i: usize = 0;
    proof { assert(t.take(0) =~= Seq::<Seq<char>>::empty()); assert(names_of(lines@) =~= out_var_lines(t.take(0), vars)); }
    while i < names.len()
        invariant
            i <= names@.len(),
            env.wf(),
            t == names_of(names@),
            vars == env.vars_view(),
            names_of(lines@) == out_var_lines(t.take(i as int), vars),
        decreases names@.len() - i,
    {
        let ghost l0 = lines@;
        let ghost k = t[i as int];
        proof {
            let a = t.take(i as int + 1);
            assert(a.drop_last() =~= t.take(i as int));
            assert(a.last() == k);
            assert(k == names@[i as int]@);
        }
        if user_name(&names[i]) {
            match env.get(names[i].as_str()) {
                Some(v) => {
                    if v.rank() <= 1 {
                        let mut out: Vec<char> = Vec::new();
                        push_chars(&mut out, &str_chars(names[i].as_str()));
                        push_text(&mut out, " ← ");
                        let ghost head = out@;
                        let cells = v.cells();
                        let mut q: usize = 0;
                        proof { assert(cells@.take(0) =~= Seq::<Cell>::empty()); assert(out@ =~= head + cells_text(cells@.take(0))); }
                        while q < cells.len()
                            invariant
                                q <= cells@.len(),
                                out@ == head + cells_text(cells@.take(q as int)),
                            decreases cells@.len() - q,
                        {
                            let ghost before = out@;
                            if q > 0 {
                                out.push(' ');
                            }
                            push_cell_text(&mut out, &cells[q]);
                            proof {
                                let c = cells@.take(q as int + 1);
                                assert(c.drop_last() =~= cells@.take(q as int));
                                assert(c.last() == cells@[q as int]);
                                if q == 0 {
                                    assert(cells_text(c) == cell_text(cells@[0]));
                                }
                                assert(out@ =~= head + cells_text(c));
                            }
                            q += 1;
                        }
                        proof {
                            assert(cells@.take(cells@.len() as int) =~= cells@);
                            assert(out@ =~= k + " ← "@ + cells_text(vars[k].ravel()));
                        }
                        lines.push(chars_to_string(out.as_slice()));
                        proof { assert(names_of(lines@) =~= names_of(l0).push(out@)); }
                    } else {
                        proof { assert(names_of(lines@) =~= names_of(l0)); }
                    }
                },
                None => {},
            }
        }
        proof { assert(names_of(lines@) == out_var_lines(t.take(i as int + 1), vars)); }
        i += 1;
    }
    proof { assert(t.take(t.len() as int) =~= t); }
    let ghost vl = names_of(lines@);
    let fns = env.function_names();
    let ghost fnv = env.fn_names();
    let ghost tab = env.table();
    let mut j: usize = 0;
    proof { assert(fnv.take(0) =~= Seq::<Seq<char>>::empty()); assert(names_of(lines@) =~= vl + out_fn_lines(fnv.take(0), tab)); }
    while j < fns.len()
        invariant
            j <= fns@.len(),
            env.wf(),
            fnv == env.fn_names(),
            tab == env.table(),
            fns@.len() == fnv.len(),
            forall|q: int| 0 <= q < fns@.len() ==> #[trigger] fns@[q]@ == fnv[q],
            names_of(lines@) == vl + out_fn_lines(fnv.take(j as int), tab),
        decreases fns@.len() - j,
    {
        let ghost l0 = names_of(lines@);
        let ghost f = fnv[j as int];
        proof {
            let a = fnv.take(j as int + 1);
            assert(a.drop_last() =~= fnv.take(j as int));
            assert(a.last() == f);
            assert(fns@[j as int]@ == f);
        }
        match env.function_source(&fns[j]) {
            Some(src) => {
                if src.len() > 0 {
                    let mut head: Vec<char> = Vec::new();
                    head.push('∇');
                    push_chars(&mut head, &str_chars(fns[j].as_str()));
                    lines.push(chars_to_string(head.as_slice()));
                    proof { assert(names_of(lines@) =~= l0 + seq![seq!['∇'] + f]); }
                    let mut q: usize = 0;
                    proof { assert(names_of(src@).take(0) =~= Seq::<Seq<char>>::empty()); }
                    while q < src.len()
                        invariant
                            q <= src@.len(),
                            names_of(lines@) == l0 + seq![seq!['∇'] + f] + names_of(src@).take(q as int),
                        decreases src@.len() - q,
                    {
                        let ghost lb = lines@;
                        let x = src[q].clone();
                        lines.push(x);
                        proof {
                            assert forall|z: int| 0 <= z < lb.len() implies #[trigger] lines@[z]@ == lb[z]@ by {}
                            assert(lines@[lb.len() as int]@ == src@[q as int]@);
                            let w = l0 + seq![seq!['∇'] + f] + names_of(src@).take(q as int + 1);
                            assert(names_of(lb).len() == l0.len() + 1 + q);
                            assert(lb.len() == l0.len() + 1 + q);
                            assert(w.len() == l0.len() + 1 + q + 1);
                            assert(lines@.len() == lb.len() + 1);
                            assert forall|z: int| 0 <= z < w.len() implies names_of(lines@)[z] == w[z] by {
                                if z < lb.len() {
                                    assert(names_of(lb)[z] == (l0 + seq![seq!['∇'] + f] + names_of(src@).take(q as int))[z]);
                                } else {
                                    assert(z == lb.len());
                                    assert(w[z] == names_of(src@)[q as int]);
                                }
                            }
                            assert(names_of(lines@) =~= w);
                        }
                        q += 1;
                    }
                    let ghost lb = lines@;
                    lines.push("∇".to_owned());
                    proof {
                        reveal_strlit("∇");
                        assert(names_of(src@).take(src@.len() as int) =~= names_of(src@));
                        assert(lines@[lb.len() as int]@ == "∇"@);
                        assert("∇"@ =~= seq!['∇']);
                        assert(lines@.len() == lb.len() + 1);
                        assert forall|z: int| 0 <= z < lb.len() implies #[trigger] lines@[z]@ == lb[z]@ by {}
                        assert(names_of(lines@) =~= names_of(lb).push(seq!['∇']));
                        assert(names_of(lines@) =~= l0 + (seq![seq!['∇'] + f] + names_of(tab.traditional(f).unwrap().source@) + seq![seq!['∇']]));
                    }
                } else {
                    proof { assert(names_of(lines@) =~= l0 + Seq::<Seq<char>>::empty()); }
                }
            },
            None => {
                proof { assert(names_of(lines@) =~= l0 + Seq::<Seq<char>>::empty()); }
            },
        }
        proof {
            assert(names_of(lines@) =~= vl + out_fn_lines(fnv.take(j as int + 1), tab));
        }
        j += 1;
    }
    proof { assert(fnv.take(fnv.len() as int) =~= fnv); }
    join_texts(lines.as_slice(), "\n")
}

} // verus!
