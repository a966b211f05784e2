//! The tokenizer: one line of APL text into tokens.
//!
//! Glyphs are single characters; names are runs of letters, digits, `_`,
//! `.`, `∆` and `⍙` (a `⎕` prefix makes a system name); numbers are decimal
//! integers with an optional high minus `¯` (or `−`); strings are quoted with
//! `'`, a doubled quote standing for one. `⍝` and `#` start a comment.
//! An operator glyph (`/ ⌿ \ ⍀ ¨ ⍤ ⍣ .`) combines with the function token
//! before it; `/` after a value is replicate. A function glyph before `←`
//! makes a modified assignment. Numbers with a fraction, exponent or
//! imaginary part are a DOMAIN ERROR: values hold integers only.

use vstd::prelude::*;
use crate::types::{AplResult, ErrorCode, Unicode};

verus! {

/// The primitive functions, one per glyph.
#[derive(Clone, Copy, Debug, PartialEq, Eq, Structural)]
pub enum Prim {
    Add, Subtract, Multiply, Divide, Factorial, Roll, Ceiling, Floor, Iota, Rho,
    Comma, Exponential, PiTimes, NatLog, Magnitude, Without, Union, Inter, Comma1,
    NotMatch, Left, Right, Nand, Nor, Squad, Rotate1, Format, Where, Execute, Find,
    Partition, Take, Drop, Reverse, GradeUp, GradeDown, Epsilon, Enclose, Disclose,
    Encode, Decode, Depth, LessEq, Less, Equal, GreaterEq, Greater, NotEqual, Not,
    Branch, Transpose, Domino, And, Or, Power, Replicate,
}

/// The function operand of a power operator.
#[derive(Clone, Debug, PartialEq)]
pub enum PowerFn {
    Prim(Prim),
    Name(String),
}

/// One token.
#[derive(Clone, Debug, PartialEq)]
pub enum Tok {
    /// an integer literal
    Num(i64),
    /// a name
    Name(String),
    /// a character string literal
    Str(Vec<Unicode>),
    /// a primitive function
    Prim(Prim),
    /// reduce `f/`
    Reduce(Prim),
    /// first-axis reduce `f⌿`
    Reduce1(Prim),
    /// scan `f\`
    Scan(Prim),
    /// first-axis scan `f⍀`
    Scan1(Prim),
    /// each `f¨`
    Each(Prim),
    /// each with a named function
    EachName(String),
    /// rank `f⍤`, the rank follows
    Rank(Prim),
    /// modified assignment `f←`
    ModifiedAssign(Prim),
    /// statement separator `⋄`
    Diamond,
    /// outer product `∘.f`
    OuterDot(Prim),
    /// matrix product `∘`
    MatrixProduct,
    /// inner product `f.g`
    InnerDot(Prim, Prim),
    /// commute `⍨`
    Commute,
    /// zilde `⍬`
    Zilde,
    /// power operator `f⍣`
    PowerOp(PowerFn),
    /// assignment `←`
    Assign,
    LParen,
    RParen,
    LBracket,
    RBracket,
    LBrace,
    RBrace,
    /// guard `:`
    Colon,
    /// axis separator `;`
    Semicolon,
    /// `⍺`
    Alpha,
    /// `⍵`
    Omega,
    /// `∇`
    SelfRef,
    /// `⍺⍺`
    AlphaAlpha,
    /// `⍵⍵`
    OmegaOmega,
    /// end of the line
    End,
}

/// A token as a mathematical value.
pub enum TokV {
    Num(i64),
    Name(Seq<char>),
    Str(Seq<Unicode>),
    Prim(Prim),
    Reduce(Prim),
    Reduce1(Prim),
    Scan(Prim),
    Scan1(Prim),
    Each(Prim),
    EachName(Seq<char>),
    Rank(Prim),
    ModifiedAssign(Prim),
    Diamond,
    OuterDot(Prim),
    MatrixProduct,
    InnerDot(Prim, Prim),
    Commute,
    Zilde,
    PowerPrim(Prim),
    PowerName(Seq<char>),
    Assign,
    LParen,
    RParen,
    LBracket,
    RBracket,
    LBrace,
    RBrace,
    Colon,
    Semicolon,
    Alpha,
    Omega,
    SelfRef,
    AlphaAlpha,
    OmegaOmega,
    End,
}

impl View for Tok {
    type V = TokV;

    open spec fn view(&self) -> TokV {
        match self {
            Tok::Num(n) => TokV::Num(*n),
            Tok::Name(s) => TokV::Name(s@),
            Tok::Str(s) => TokV::Str(s@),
            Tok::Prim(p) => TokV::Prim(*p),
            Tok::Reduce(p) => TokV::Reduce(*p),
            Tok::Reduce1(p) => TokV::Reduce1(*p),
            Tok::Scan(p) => TokV::Scan(*p),
            Tok::Scan1(p) => TokV::Scan1(*p),
            Tok::Each(p) => TokV::Each(*p),
            Tok::EachName(s) => TokV::EachName(s@),
            Tok::Rank(p) => TokV::Rank(*p),
            Tok::ModifiedAssign(p) => TokV::ModifiedAssign(*p),
            Tok::Diamond => TokV::Diamond,
            Tok::OuterDot(p) => TokV::OuterDot(*p),
            Tok::MatrixProduct => TokV::MatrixProduct,
            Tok::InnerDot(f, g) => TokV::InnerDot(*f, *g),
            Tok::Commute => TokV::Commute,
            Tok::Zilde => TokV::Zilde,
            Tok::PowerOp(PowerFn::Prim(p)) => TokV::PowerPrim(*p),
            Tok::PowerOp(PowerFn::Name(s)) => TokV::PowerName(s@),
            Tok::Assign => TokV::Assign,
            Tok::LParen => TokV::LParen,
            Tok::RParen => TokV::RParen,
            Tok::LBracket => TokV::LBracket,
            Tok::RBracket => TokV::RBracket,
            Tok::LBrace => TokV::LBrace,
            Tok::RBrace => TokV::RBrace,
            Tok::Colon => TokV::Colon,
            Tok::Semicolon => TokV::Semicolon,
            Tok::Alpha => TokV::Alpha,
            Tok::Omega => TokV::Omega,
            Tok::SelfRef => TokV::SelfRef,
            Tok::AlphaAlpha => TokV::AlphaAlpha,
            Tok::OmegaOmega => TokV::OmegaOmega,
            Tok::End => TokV::End,
        }
    }
}

/// The views of a sequence of tokens.
pub open spec fn toks_view(t: Seq<Tok>) -> Seq<TokV> {
    Seq::new(t.len(), |i: int| t[i]@)
}

// ---------------------------------------------------------------------------
// Characters
// ---------------------------------------------------------------------------

/// The primitive that a glyph stands for.
pub open spec fn glyph_prim(c: char) -> Option<Prim> {
    if c == '+' { Some(Prim::Add) }
    else if c == '-' || c == '−' { Some(Prim::Subtract) }
    else if c == '×' { Some(Prim::Multiply) }
    else if c == '÷' { Some(Prim::Divide) }
    else if c == '!' { Some(Prim::Factorial) }
    else if c == '?' { Some(Prim::Roll) }
    else if c == '⌈' { Some(Prim::Ceiling) }
    else if c == '⌊' { Some(Prim::Floor) }
    else if c == '⍳' { Some(Prim::Iota) }
    else if c == '⍴' { Some(Prim::Rho) }
    else if c == ',' { Some(Prim::Comma) }
    else if c == '⋆' { Some(Prim::Exponential) }
    else if c == '○' { Some(Prim::PiTimes) }
    else if c == '⍟' { Some(Prim::NatLog) }
    else if c == '∣' || c == '|' { Some(Prim::Magnitude) }
    else if c == '∼' { Some(Prim::Without) }
    else if c == '∪' { Some(Prim::Union) }
    else if c == '∩' { Some(Prim::Inter) }
    else if c == '⍪' { Some(Prim::Comma1) }
    else if c == '≢' { Some(Prim::NotMatch) }
    else if c == '⊣' { Some(Prim::Left) }
    else if c == '⊢' { Some(Prim::Right) }
    else if c == '⍲' { Some(Prim::Nand) }
    else if c == '⍱' { Some(Prim::Nor) }
    else if c == '⌷' { Some(Prim::Squad) }
    else if c == '⊖' { Some(Prim::Rotate1) }
    else if c == '⍕' { Some(Prim::Format) }
    else if c == '⍸' { Some(Prim::Where) }
    else if c == '⍎' { Some(Prim::Execute) }
    else if c == '⍷' { Some(Prim::Find) }
    else if c == '⊆' { Some(Prim::Partition) }
    else if c == '↑' { Some(Prim::Take) }
    else if c == '↓' { Some(Prim::Drop) }
    else if c == '⌽' { Some(Prim::Reverse) }
    else if c == '⍋' { Some(Prim::GradeUp) }
    else if c == '⍒' { Some(Prim::GradeDown) }
    else if c == '∈' || c == '∊' { Some(Prim::Epsilon) }
    else if c == '⊂' { Some(Prim::Enclose) }
    else if c == '⊃' { Some(Prim::Disclose) }
    else if c == '⊤' { Some(Prim::Encode) }
    else if c == '⊥' { Some(Prim::Decode) }
    else if c == '≡' { Some(Prim::Depth) }
    else if c == '≤' { Some(Prim::LessEq) }
    else if c == '<' { Some(Prim::Less) }
    else if c == '=' { Some(Prim::Equal) }
    else if c == '≥' { Some(Prim::GreaterEq) }
    else if c == '>' { Some(Prim::Greater) }
    else if c == '≠' { Some(Prim::NotEqual) }
    else if c == '~' { Some(Prim::Not) }
    else if c == '→' { Some(Prim::Branch) }
    else if c == '⍉' { Some(Prim::Transpose) }
    else if c == '⌹' { Some(Prim::Domino) }
    else if c == '∧' { Some(Prim::And) }
    else if c == '∨' { Some(Prim::Or) }
    else if c == '*' { Some(Prim::Power) }
    else { None }
}

/// The primitive that a glyph stands for.
pub fn prim_of(c: char) -> (r: Option<Prim>)
    ensures
        r == glyph_prim(c),
{
    if c == '+' { Some(Prim::Add) }
    else if c == '-' || c == '−' { Some(Prim::Subtract) }
    else if c == '×' { Some(Prim::Multiply) }
    else if c == '÷' { Some(Prim::Divide) }
    else if c == '!' { Some(Prim::Factorial) }
    else if c == '?' { Some(Prim::Roll) }
    else if c == '⌈' { Some(Prim::Ceiling) }
    else if c == '⌊' { Some(Prim::Floor) }
    else if c == '⍳' { Some(Prim::Iota) }
    else if c == '⍴' { Some(Prim::Rho) }
    else if c == ',' { Some(Prim::Comma) }
    else if c == '⋆' { Some(Prim::Exponential) }
    else if c == '○' { Some(Prim::PiTimes) }
    else if c == '⍟' { Some(Prim::NatLog) }
    else if c == '∣' || c == '|' { Some(Prim::Magnitude) }
    else if c == '∼' { Some(Prim::Without) }
    else if c == '∪' { Some(Prim::Union) }
    else if c == '∩' { Some(Prim::Inter) }
    else if c == '⍪' { Some(Prim::Comma1) }
    else if c == '≢' { Some(Prim::NotMatch) }
    else if c == '⊣' { Some(Prim::Left) }
    else if c == '⊢' { Some(Prim::Right) }
    else if c == '⍲' { Some(Prim::Nand) }
    else if c == '⍱' { Some(Prim::Nor) }
    else if c == '⌷' { Some(Prim::Squad) }
    else if c == '⊖' { Some(Prim::Rotate1) }
    else if c == '⍕' { Some(Prim::Format) }
    else if c == '⍸' { Some(Prim::Where) }
    else if c == '⍎' { Some(Prim::Execute) }
    else if c == '⍷' { Some(Prim::Find) }
    else if c == '⊆' { Some(Prim::Partition) }
    else if c == '↑' { Some(Prim::Take) }
    else if c == '↓' { Some(Prim::Drop) }
    else if c == '⌽' { Some(Prim::Reverse) }
    else if c == '⍋' { Some(Prim::GradeUp) }
    else if c == '⍒' { Some(Prim::GradeDown) }
    else if c == '∈' || c == '∊' { Some(Prim::Epsilon) }
    else if c == '⊂' { Some(Prim::Enclose) }
    else if c == '⊃' { Some(Prim::Disclose) }
    else if c == '⊤' { Some(Prim::Encode) }
    else if c == '⊥' { Some(Prim::Decode) }
    else if c == '≡' { Some(Prim::Depth) }
    else if c == '≤' { Some(Prim::LessEq) }
    else if c == '<' { Some(Prim::Less) }
    else if c == '=' { Some(Prim::Equal) }
    else if c == '≥' { Some(Prim::GreaterEq) }
    else if c == '>' { Some(Prim::Greater) }
    else if c == '≠' { Some(Prim::NotEqual) }
    else if c == '~' { Some(Prim::Not) }
    else if c == '→' { Some(Prim::Branch) }
    else if c == '⍉' { Some(Prim::Transpose) }
    else if c == '⌹' { Some(Prim::Domino) }
    else if c == '∧' { Some(Prim::And) }
    else if c == '∨' { Some(Prim::Or) }
    else if c == '*' { Some(Prim::Power) }
    else { None }
}

/// An ASCII decimal digit.
pub open spec fn is_digit(c: char) -> bool {
    '0' <= c && c <= '9'
}

/// Unicode's alphabetic property, as `char::is_alphabetic` reports it.
pub uninterp spec fn alphabetic(c: char) -> bool;

/// Unicode's alphanumeric property, as `char::is_alphanumeric` reports it.
pub uninterp spec fn alphanumeric(c: char) -> bool;

/// `char::is_alphabetic`: whether `c` has Unicode's alphabetic property.
#[verifier::external_body]
fn char_is_alphabetic(c: char) -> (r: bool)
    ensures
        r == alphabetic(c),
{
    c.is_alphabetic()
}

/// `char::is_alphanumeric`: whether `c` is alphabetic or numeric in Unicode.
#[verifier::external_body]
fn char_is_alphanumeric(c: char) -> (r: bool)
    ensures
        r == alphanumeric(c),
{
    c.is_alphanumeric()
}

/// A character that continues a name.
pub open spec fn name_char(c: char) -> bool {
    alphanumeric(c) || c == '_' || c == '.' || c == '∆' || c == '⍙'
}

/// The end of the run of name characters from `i`.
pub open spec fn name_end(s: Seq<char>, i: int) -> int
    decreases s.len() - i,
{
    if i < s.len() && name_char(s[i]) { name_end(s, i + 1) } else { i }
}

/// The end of the run of digits from `i`.
pub open spec fn digits_end(s: Seq<char>, i: int) -> int
    decreases s.len() - i,
{
    if i < s.len() && is_digit(s[i]) { digits_end(s, i + 1) } else { i }
}

/// The value of the decimal digits `s[i..j]`.
pub open spec fn digits_val(s: Seq<char>, i: int, j: int) -> int
    decreases j - i,
{
    if j <= i { 0 } else { digits_val(s, i, j - 1) * 10 + (s[j - 1] as int - '0' as int) }
}

/// The characters of a string literal whose body starts at `i`, and the
/// position after its closing quote; `None` when it is not closed.
pub open spec fn string_body(s: Seq<char>, i: int) -> Option<(Seq<Unicode>, int)>
    decreases s.len() - i,
{
    if i < 0 || i >= s.len() {
        None
    } else if s[i] == '\'' {
        if i + 1 < s.len() && s[i + 1] == '\'' {
            match string_body(s, i + 2) {
                Some((b, e)) => Some((seq!['\'' as Unicode] + b, e)),
                None => None,
            }
        } else {
            Some((Seq::empty(), i + 1))
        }
    } else {
        match string_body(s, i + 1) {
            Some((b, e)) => Some((seq![s[i] as Unicode] + b, e)),
            None => None,
        }
    }
}

/// A character that ends a number token: a fraction, an exponent or an
/// imaginary part would follow.
pub open spec fn non_integer_follows(s: Seq<char>, j: int) -> bool {
    j < s.len() && (s[j] == '.' || s[j] == 'J'
        || ((s[j] == 'e' || s[j] == 'E') && j + 1 < s.len()
            && (is_digit(s[j + 1]) || s[j + 1] == '¯' || s[j + 1] == '−' || s[j + 1] == '-')))
}

/// The number token starting at `i` (after an optional high minus) and the
/// position after it.
pub open spec fn number_tok(s: Seq<char>, i: int) -> Result<(TokV, int), ErrorCode> {
    let neg = s[i] == '¯' || s[i] == '−';
    let k = if neg { i + 1 } else { i };
    let j = digits_end(s, k);
    if j == k {
        Err(ErrorCode::SyntaxError)
    } else if non_integer_follows(s, j) {
        Err(ErrorCode::DomainError)
    } else {
        let v = if neg { -digits_val(s, k, j) } else { digits_val(s, k, j) };
        if v < i64::MIN || v > i64::MAX { Err(ErrorCode::LimitError) } else { Ok((TokV::Num(v as i64), j)) }
    }
}

/// The last token is a value: a `/` after it is replicate.
pub open spec fn after_value(t: Seq<TokV>) -> bool {
    t.len() > 0 && (t.last() is Num || t.last() is Str || t.last() is Name || t.last() is RParen)
}

/// Replace the last token.
pub open spec fn replace_last(t: Seq<TokV>, x: TokV) -> Seq<TokV> {
    t.drop_last().push(x)
}

/// One step of the scan at position `i < s.len()`: the next position and the
/// tokens so far, or the error.
pub open spec fn step(s: Seq<char>, i: int, t: Seq<TokV>) -> Result<(int, Seq<TokV>), ErrorCode> {
    let c = s[i];
    let next = if i + 1 < s.len() { s[i + 1] } else { ' ' };
    if c == ' ' || c == '\t' {
        Ok((i + 1, t))
    } else if c == '⍝' || c == '#' {
        Ok((s.len() as int, t))
    } else if c == '(' { Ok((i + 1, t.push(TokV::LParen))) }
    else if c == ')' { Ok((i + 1, t.push(TokV::RParen))) }
    else if c == '[' { Ok((i + 1, t.push(TokV::LBracket))) }
    else if c == ']' { Ok((i + 1, t.push(TokV::RBracket))) }
    else if c == ';' { Ok((i + 1, t.push(TokV::Semicolon))) }
    else if c == '{' { Ok((i + 1, t.push(TokV::LBrace))) }
    else if c == '}' { Ok((i + 1, t.push(TokV::RBrace))) }
    else if c == ':' { Ok((i + 1, t.push(TokV::Colon))) }
    else if c == '⍺' {
        if next == '⍺' { Ok((i + 2, t.push(TokV::AlphaAlpha))) } else { Ok((i + 1, t.push(TokV::Alpha))) }
    } else if c == '⍵' {
        if next == '⍵' { Ok((i + 2, t.push(TokV::OmegaOmega))) } else { Ok((i + 1, t.push(TokV::Omega))) }
    } else if c == '∇' { Ok((i + 1, t.push(TokV::SelfRef))) }
    else if c == '←' {
        if t.len() > 0 && t.last() is Prim {
            Ok((i + 1, replace_last(t, TokV::ModifiedAssign(t.last()->Prim_0))))
        } else {
            Ok((i + 1, t.push(TokV::Assign)))
        }
    } else if c == '⍨' { Ok((i + 1, t.push(TokV::Commute))) }
    else if c == '∘' {
        if next == '.' && i + 2 < s.len() && glyph_prim(s[i + 2]) is Some {
            Ok((i + 3, t.push(TokV::OuterDot(glyph_prim(s[i + 2])->Some_0))))
        } else {
            Ok((i + 1, t.push(TokV::MatrixProduct)))
        }
    } else if c == '⋄' { Ok((i + 1, t.push(TokV::Diamond))) }
    else if c == '\'' {
        match string_body(s, i + 1) {
            None => Err(ErrorCode::SyntaxError),
            Some((b, e)) => Ok((e, t.push(TokV::Str(b)))),
        }
    } else if ((c == '¯' || c == '−') && (i == 0 || !(is_digit(s[i - 1]) || s[i - 1] == '.'))) || is_digit(c) {
        match number_tok(s, i) {
            Err(e) => Err(e),
            Ok((tok, e)) => Ok((e, t.push(tok))),
        }
    } else if c == '⎕' {
        let e = name_end(s, i + 1);
        Ok((e, t.push(TokV::Name(s.subrange(i, e)))))
    } else if alphabetic(c) || c == '_' || c == '∆' || c == '⍙' {
        let e = name_end(s, i + 1);
        Ok((e, t.push(TokV::Name(s.subrange(i, e)))))
    } else if glyph_prim(c) is Some {
        Ok((i + 1, t.push(TokV::Prim(glyph_prim(c)->Some_0))))
    } else if c == '/' && after_value(t) {
        Ok((i + 1, t.push(TokV::Prim(Prim::Replicate))))
    } else if (c == '/' || c == '⌿' || c == '\\' || c == '⍀' || c == '⍤') {
        if t.len() > 0 && t.last() is Prim {
            let p = t.last()->Prim_0;
            let x = if c == '/' { TokV::Reduce(p) } else if c == '⌿' { TokV::Reduce1(p) }
                else if c == '\\' { TokV::Scan(p) } else if c == '⍀' { TokV::Scan1(p) } else { TokV::Rank(p) };
            Ok((i + 1, replace_last(t, x)))
        } else {
            Err(ErrorCode::SyntaxError)
        }
    } else if c == '.' && t.len() > 0 && t.last() is Prim && i + 1 < s.len() && glyph_prim(next) is Some {
        Ok((i + 2, replace_last(t, TokV::InnerDot(t.last()->Prim_0, glyph_prim(next)->Some_0))))
    } else if c == '¨' || c == '⍣' {
        if t.len() > 0 && t.last() is Prim {
            let p = t.last()->Prim_0;
            Ok((i + 1, replace_last(t, if c == '¨' { TokV::Each(p) } else { TokV::PowerPrim(p) })))
        } else if t.len() > 0 && t.last() is Name {
            let n = t.last()->Name_0;
            Ok((i + 1, replace_last(t, if c == '¨' { TokV::EachName(n) } else { TokV::PowerName(n) })))
        } else {
            Err(ErrorCode::SyntaxError)
        }
    } else if c == '⍬' {
        Ok((i + 1, t.push(TokV::Zilde)))
    } else {
        Err(ErrorCode::SyntaxError)
    }
}

/// The tokens of `s` from position `i` on, after the tokens `t`, ending with
/// the end token.
pub open spec fn scan(s: Seq<char>, i: int, t: Seq<TokV>) -> Result<Seq<TokV>, ErrorCode>
    decreases s.len() - i,
{
    if i < 0 || i >= s.len() {
        Ok(t.push(TokV::End))
    } else {
        match step(s, i, t) {
            Err(e) => Err(e),
            Ok((j, u)) => if j <= i || j > s.len() { Err(ErrorCode::SyntaxError) } else { scan(s, j, u) },
        }
    }
}

// ---------------------------------------------------------------------------
// Scanning
// ---------------------------------------------------------------------------

/// The end of the run of name characters from `i`.
fn name_end_exec(s: &[char], i: usize) -> (r: usize)
    requires
        i <= s@.len(),
    ensures
        r == name_end(s@, i as int),
        i <= r <= s@.len(),
{
    let n = s.len();
    let mut j: usize = i;
    while j < n
        invariant
            i <= j <= n == s@.len(),
            name_end(s@, i as int) == name_end(s@, j as int),
        decreases n - j,
    {
        let c = s[j];
        let ok = char_is_alphanumeric(c) || c == '_' || c == '.' || c == '∆' || c == '⍙';
        if !ok {
            return j;
        }
        j += 1;
    }
    j
}

/// The end of the run of digits from `k`, and their value unless it
/// exceeds `2^63`.
fn digits_exec(s: &[char], k: usize) -> (r: (usize, Option<i128>))
    requires
        k <= s@.len(),
    ensures
        r.0 == digits_end(s@, k as int),
        k <= r.0 <= s@.len(),
        r.1 matches Some(v) ==> v == digits_val(s@, k as int, r.0 as int) && 0 <= v <= 0x8000_0000_0000_0000,
        r.1 is None ==> digits_val(s@, k as int, r.0 as int) > 0x8000_0000_0000_0000,
{
    let n = s.len();
    let mut j: usize = k;
    let mut acc: i128 = 0;
    let mut big = false;
    while j < n && '0' <= s[j] && s[j] <= '9'
        invariant
            k <= j <= n == s@.len(),
            digits_end(s@, k as int) == digits_end(s@, j as int),
            !big ==> acc == digits_val(s@, k as int, j as int) && 0 <= acc <= 0x8000_0000_0000_0000,
            big ==> digits_val(s@, k as int, j as int) > 0x8000_0000_0000_0000,
        decreases n - j,
    {
        let d = (s[j] as u32 - '0' as u32) as i128;
        proof {
            assert(digits_val(s@, k as int, j as int + 1) == digits_val(s@, k as int, j as int) * 10 + d);
        }
        if !big {
            acc = acc * 10 + d;
            if acc > 0x8000_0000_0000_0000 {
                big = true;
            }
        }
        j += 1;
    }
    (j, if big { None } else { Some(acc) })
}

/// The number token starting at `i` and the position after it.
fn number_exec(s: &[char], i: usize) -> (r: Result<(Tok, usize), ErrorCode>)
    requires
        i < s@.len(),
    ensures
        match number_tok(s@, i as int) {
            Err(e) => r == Err::<(Tok, usize), ErrorCode>(e),
            Ok((t, j)) => r matches Ok((t2, j2)) && t2@ == t && j2 == j,
        },
{
    let n = s.len();
    let neg = s[i] == '¯' || s[i] == '−';
    let k = if neg { i + 1 } else { i };
    let (j, val) = digits_exec(s, k);
    if j == k {
        return Err(ErrorCode::SyntaxError);
    }
    if j < n {
        let c = s[j];
        if c == '.' || c == 'J' {
            return Err(ErrorCode::DomainError);
        }
        if (c == 'e' || c == 'E') && j + 1 < n {
            let d = s[j + 1];
            if ('0' <= d && d <= '9') || d == '¯' || d == '−' || d == '-' {
                return Err(ErrorCode::DomainError);
            }
        }
    }
    match val {
        None => Err(ErrorCode::LimitError),
        Some(v) => {
            let w: i128 = if neg { -v } else { v };
            if w < i64::MIN as i128 || w > i64::MAX as i128 {
                Err(ErrorCode::LimitError)
            } else {
                Ok((Tok::Num(w as i64), j))
            }
        },
    }
}

/// Prepend `acc` to the body of a string literal.
pub open spec fn prepend_body(acc: Seq<Unicode>, r: Option<(Seq<Unicode>, int)>) -> Option<(Seq<Unicode>, int)> {
    match r {
        Some((b, e)) => Some((acc + b, e)),
        None => None,
    }
}

/// The body of the string literal starting at `i` and the position after it.
fn string_exec(s: &[char], i: usize) -> (r: Option<(Vec<Unicode>, usize)>)
    requires
        i <= s@.len(),
    ensures
        match string_body(s@, i as int) {
            None => r is None,
            Some((b, e)) => r matches Some((b2, e2)) && b2@ == b && e2 == e,
        },
{
    let n = s.len();
    let mut acc: Vec<Unicode> = Vec::new();
    let mut j: usize = i;
    while j < n
        invariant
            i <= j <= n == s@.len(),
            string_body(s@, i as int) == prepend_body(acc@, string_body(s@, j as int)),
        decreases n - j,
    {
        let c = s[j];
        if c == '\'' {
            if j + 1 < n && s[j + 1] == '\'' {
                let ghost before = acc@;
                acc.push('\'' as Unicode);
                proof {
                    match string_body(s@, j as int + 2) {
                        Some((b, e)) => { assert(before + (seq!['\'' as Unicode] + b) =~= acc@ + b); },
                        None => {},
                    }
                }
                j += 2;
            } else {
                proof { assert(acc@ + Seq::<Unicode>::empty() =~= acc@); }
                return Some((acc, j + 1));
            }
        } else {
            let ghost before = acc@;
            acc.push(c as Unicode);
            proof {
                match string_body(s@, j as int + 1) {
                    Some((b, e)) => { assert(before + (seq![c as Unicode] + b) =~= acc@ + b); },
                    None => {},
                }
            }
            j += 1;
        }
    }
    None
}

/// A string literal body ends past its start.
proof fn lemma_string_body_advances(s: Seq<char>, i: int)
    ensures
        string_body(s, i) matches Some((b, e)) ==> i < e <= s.len(),
    decreases s.len() - i,
{
    if 0 <= i < s.len() {
        if s[i] == '\'' {
            if i + 1 < s.len() && s[i + 1] == '\'' {
                lemma_string_body_advances(s, i + 2);
            }
        } else {
            lemma_string_body_advances(s, i + 1);
        }
    }
}

proof fn lemma_digits_end(s: Seq<char>, i: int)
    requires
        0 <= i <= s.len(),
    ensures
        i <= digits_end(s, i) <= s.len(),
    decreases s.len() - i,
{
    if i < s.len() && is_digit(s[i]) {
        lemma_digits_end(s, i + 1);
    }
}

proof fn lemma_name_end(s: Seq<char>, i: int)
    requires
        0 <= i <= s.len(),
    ensures
        i <= name_end(s, i) <= s.len(),
    decreases s.len() - i,
{
    if i < s.len() && name_char(s[i]) {
        lemma_name_end(s, i + 1);
    }
}

/// Push one token.
fn push_tok(toks: &mut Vec<Tok>, x: Tok)
    ensures
        toks_view(final(toks)@) == toks_view(old(toks)@).push(x@),
{
    toks.push(x);
    assert(toks_view(toks@) =~= toks_view(old(toks)@).push(x@));
}

/// Replace the last token.
fn replace_last_tok(toks: &mut Vec<Tok>, x: Tok)
    requires
        old(toks)@.len() > 0,
    ensures
        toks_view(final(toks)@) == replace_last(toks_view(old(toks)@), x@),
{
    toks.pop();
    toks.push(x);
    assert(toks_view(toks@) =~= replace_last(toks_view(old(toks)@), x@));
}

/// The primitive of the last token, when it is a primitive function.
fn last_prim(toks: &Vec<Tok>) -> (r: Option<Prim>)
    ensures
        r matches Some(p) ==> toks@.len() > 0 && toks_view(toks@).last() == TokV::Prim(p),
        r is None ==> !(toks@.len() > 0 && toks_view(toks@).last() is Prim),
{
    let n = toks.len();
    if n == 0 {
        return None;
    }
    match &toks[n - 1] {
        Tok::Prim(p) => Some(*p),
        _ => None,
    }
}

/// One step of the scan at position `i`.
#[verifier::rlimit(80)]
fn step_exec(s: &[char], i: usize, toks: &mut Vec<Tok>) -> (r: Result<usize, ErrorCode>)
    requires
        i < s@.len(),
    ensures
        match step(s@, i as int, toks_view(old(toks)@)) {
            Err(e) => r == Err::<usize, ErrorCode>(e),
            Ok((j, u)) => r == Ok::<usize, ErrorCode>(j as usize) && toks_view(final(toks)@) == u
                && i < j <= s@.len(),
        },
{
    let n = s.len();
    let c = s[i];
    let next: char = if i + 1 < n { s[i + 1] } else { ' ' };
    if c == ' ' || c == '\t' {
        return Ok(i + 1);
    }
    if c == '⍝' || c == '#' {
        return Ok(n);
    }
    if c == '(' { push_tok(toks, Tok::LParen); return Ok(i + 1); }
    if c == ')' { push_tok(toks, Tok::RParen); return Ok(i + 1); }
    if c == '[' { push_tok(toks, Tok::LBracket); return Ok(i + 1); }
    if c == ']' { push_tok(toks, Tok::RBracket); return Ok(i + 1); }
    if c == ';' { push_tok(toks, Tok::Semicolon); return Ok(i + 1); }
    if c == '{' { push_tok(toks, Tok::LBrace); return Ok(i + 1); }
    if c == '}' { push_tok(toks, Tok::RBrace); return Ok(i + 1); }
    if c == ':' { push_tok(toks, Tok::Colon); return Ok(i + 1); }
    if c == '⍺' {
        if next == '⍺' { push_tok(toks, Tok::AlphaAlpha); return Ok(i + 2); }
        push_tok(toks, Tok::Alpha);
        return Ok(i + 1);
    }
    if c == '⍵' {
        if next == '⍵' { push_tok(toks, Tok::OmegaOmega); return Ok(i + 2); }
        push_tok(toks, Tok::Omega);
        return Ok(i + 1);
    }
    if c == '∇' { push_tok(toks, Tok::SelfRef); return Ok(i + 1); }
    if c == '←' {
        match last_prim(toks) {
            Some(p) => { replace_last_tok(toks, Tok::ModifiedAssign(p)); },
            None => { push_tok(toks, Tok::Assign); },
        }
        return Ok(i + 1);
    }
    if c == '⍨' { push_tok(toks, Tok::Commute); return Ok(i + 1); }
    if c == '∘' {
        if next == '.' && i + 2 < n {
            if let Some(g) = prim_of(s[i + 2]) {
                push_tok(toks, Tok::OuterDot(g));
                return Ok(i + 3);
            }
        }
        push_tok(toks, Tok::MatrixProduct);
        return Ok(i + 1);
    }
    if c == '⋄' { push_tok(toks, Tok::Diamond); return Ok(i + 1); }
    if c == '\'' {
        proof { lemma_string_body_advances(s@, i as int + 1); }
        match string_exec(s, i + 1) {
            None => { return Err(ErrorCode::SyntaxError); },
            Some((b, e)) => {
                push_tok(toks, Tok::Str(b));
                return Ok(e);
            },
        }
    }
    let prev_blocks = i > 0 && (('0' <= s[i - 1] && s[i - 1] <= '9') || s[i - 1] == '.');
    if ((c == '¯' || c == '−') && !prev_blocks) || ('0' <= c && c <= '9') {
        proof {
            lemma_digits_end(s@, i as int);
            if i + 1 <= s@.len() { lemma_digits_end(s@, i as int + 1); }
        }
        match number_exec(s, i) {
            Err(e) => { return Err(e); },
            Ok((t, e)) => {
                push_tok(toks, t);
                return Ok(e);
            },
        }
    }
    if c == '⎕' {
        let e = name_end_exec(s, i + 1);
        let cs = crate::text::sub_chars(s, i, e);
        push_tok(toks, Tok::Name(crate::text::chars_to_string(cs.as_slice())));
        return Ok(e);
    }
    if char_is_alphabetic(c) || c == '_' || c == '∆' || c == '⍙' {
        let e = name_end_exec(s, i + 1);
        let cs = crate::text::sub_chars(s, i, e);
        push_tok(toks, Tok::Name(crate::text::chars_to_string(cs.as_slice())));
        return Ok(e);
    }
    if let Some(p) = prim_of(c) {
        push_tok(toks, Tok::Prim(p));
        return Ok(i + 1);
    }
    let nt = toks.len();
    let after_val = nt > 0 && match &toks[nt - 1] {
        Tok::Num(_) | Tok::Str(_) | Tok::Name(_) | Tok::RParen => true,
        _ => false,
    };
    if c == '/' && after_val {
        push_tok(toks, Tok::Prim(Prim::Replicate));
        return Ok(i + 1);
    }
    if c == '/' || c == '⌿' || c == '\\' || c == '⍀' || c == '⍤' {
        match last_prim(toks) {
            Some(p) => {
                let x = if c == '/' { Tok::Reduce(p) } else if c == '⌿' { Tok::Reduce1(p) }
                    else if c == '\\' { Tok::Scan(p) } else if c == '⍀' { Tok::Scan1(p) } else { Tok::Rank(p) };
                replace_last_tok(toks, x);
                return Ok(i + 1);
            },
            None => { return Err(ErrorCode::SyntaxError); },
        }
    }
    if c == '.' && i + 1 < n {
        if let Some(f) = last_prim(toks) {
            if let Some(g) = prim_of(next) {
                replace_last_tok(toks, Tok::InnerDot(f, g));
                return Ok(i + 2);
            }
        }
    }
    if c == '¨' || c == '⍣' {
        if let Some(p) = last_prim(toks) {
            replace_last_tok(toks, if c == '¨' { Tok::Each(p) } else { Tok::PowerOp(PowerFn::Prim(p)) });
            return Ok(i + 1);
        }
        let last_name: Option<String> = if nt > 0 {
            match &toks[nt - 1] { Tok::Name(nm) => Some(nm.clone()), _ => None }
        } else { None };
        match last_name {
            Some(nm) => {
                replace_last_tok(toks, if c == '¨' { Tok::EachName(nm) } else { Tok::PowerOp(PowerFn::Name(nm)) });
                return Ok(i + 1);
            },
            None => { return Err(ErrorCode::SyntaxError); },
        }
    }
    if c == '⍬' { push_tok(toks, Tok::Zilde); return Ok(i + 1); }
    Err(ErrorCode::SyntaxError)
}

/// The tokens of one line of APL text, ending with the end token.
pub fn tokenize(line: &str) -> (r: AplResult<Vec<Tok>>)
    ensures
        match scan(line@, 0, Seq::empty()) {
            Ok(t) => r matches Ok(v) && toks_view(v@) == t,
            Err(e) => r == Err::<Vec<Tok>, ErrorCode>(e),
        },
{
    let chars = crate::text::str_chars(line);
    let s = chars.as_slice();
    let n = s.len();
    let mut toks: Vec<Tok> = Vec::new();
    assert(toks_view(toks@) =~= Seq::<TokV>::empty());
    let mut i: usize = 0;
    while i < n
        invariant
            i <= n == s@.len(),
            s@ == line@,
            scan(line@, 0, Seq::empty()) == scan(line@, i as int, toks_view(toks@)),
        decreases n - i,
    {
        let ghost before = toks_view(toks@);
        match step_exec(s, i, &mut toks) {
            Err(e) => {
                return Err(e);
            },
            Ok(j) => {
                i = j;
            },
        }
    }
    push_tok(&mut toks, Tok::End);
    Ok(toks)
}

/// A copy of a token.
pub fn copy_tok(t: &Tok) -> (r: Tok)
    ensures
        r@ == t@,
{
    match t {
        Tok::Num(n) => Tok::Num(*n),
        Tok::Name(s) => Tok::Name(s.clone()),
        Tok::Str(v) => {
            let mut w: Vec<Unicode> = Vec::new();
            let mut i: usize = 0;
            while i < v.len()
                invariant
                    i <= v@.len(),
                    w@ == v@.take(i as int),
                decreases v@.len() - i,
            {
                w.push(v[i]);
                proof { assert(w@ =~= v@.take(i as int + 1)); }
                i += 1;
            }
            proof { assert(v@.take(v@.len() as int) =~= v@); }
            Tok::Str(w)
        },
        Tok::Prim(p) => Tok::Prim(*p),
        Tok::Reduce(p) => Tok::Reduce(*p),
        Tok::Reduce1(p) => Tok::Reduce1(*p),
        Tok::Scan(p) => Tok::Scan(*p),
        Tok::Scan1(p) => Tok::Scan1(*p),
        Tok::Each(p) => Tok::Each(*p),
        Tok::EachName(s) => Tok::EachName(s.clone()),
        Tok::Rank(p) => Tok::Rank(*p),
        Tok::ModifiedAssign(p) => Tok::ModifiedAssign(*p),
        Tok::Diamond => Tok::Diamond,
        Tok::OuterDot(p) => Tok::OuterDot(*p),
        Tok::MatrixProduct => Tok::MatrixProduct,
        Tok::InnerDot(f, g) => Tok::InnerDot(*f, *g),
        Tok::Commute => Tok::Commute,
        Tok::Zilde => Tok::Zilde,
        Tok::PowerOp(PowerFn::Prim(p)) => Tok::PowerOp(PowerFn::Prim(*p)),
        Tok::PowerOp(PowerFn::Name(s)) => Tok::PowerOp(PowerFn::Name(s.clone())),
        Tok::Assign => Tok::Assign,
        Tok::LParen => Tok::LParen,
        Tok::RParen => Tok::RParen,
        Tok::LBracket => Tok::LBracket,
        Tok::RBracket => Tok::RBracket,
        Tok::LBrace => Tok::LBrace,
        Tok::RBrace => Tok::RBrace,
        Tok::Colon => Tok::Colon,
        Tok::Semicolon => Tok::Semicolon,
        Tok::Alpha => Tok::Alpha,
        Tok::Omega => Tok::Omega,
        Tok::SelfRef => Tok::SelfRef,
        Tok::AlphaAlpha => Tok::AlphaAlpha,
        Tok::OmegaOmega => Tok::OmegaOmega,
        Tok::End => Tok::End,
    }
}

} // verus!
