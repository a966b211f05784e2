//! Defined functions: the table of a workspace's functions, and traditional
//! functions built from a header such as `R←F A B` and lines of body, with
//! the control structures `:If`, `:While`, `:Repeat` and `:Leave`.

use vstd::prelude::*;
use crate::tokenizer::{Tok, TokV, scan, toks_view, tokenize};
use crate::types::{AplResult, ErrorCode};
use crate::security::same_text;

verus! {

/// One step inside a control structure.
pub enum Item {
    /// an ordinary line
    Code(Vec<Tok>),
    /// `:Leave`
    Leave,
    /// a nested control structure
    Nested(Box<Block>),
}

/// A control structure.
pub enum Block {
    /// `:If c`, the lines to run when c holds, and those after `:Else`
    If(Vec<Tok>, Vec<Item>, Option<Vec<Item>>),
    /// `:While c` and its body
    While(Vec<Tok>, Vec<Item>),
    /// `:Repeat`, its body and the condition of `:Until`
    Repeat(Vec<Item>, Option<Vec<Tok>>),
}

/// A line of a traditional function, as the body runs through it.
pub enum Line {
    /// an ordinary line
    Code(Vec<Tok>),
    /// the first line of a control structure: the structure, and the index
    /// of the line after its end
    Start(Block, usize),
    /// any other control line: it does nothing
    Marker,
    /// an empty line
    Blank,
}

/// A traditional function.
pub struct TradFn {
    /// the name of the result, `R` in `R←F A B`
    pub result: Option<String>,
    /// the name of the left argument
    pub left: Option<String>,
    /// the name of the right argument
    pub right: Option<String>,
    /// the body
    pub lines: Vec<Line>,
    /// the names local to a call: those of the header, then those assigned
    /// by a statement of the body
    pub locals: Vec<String>,
    /// the lines of the body as written
    pub source: Vec<String>,
}

/// The body of a defined function.
pub enum FnBody {
    /// a direct function `{…}`: the tokens between the braces
    Direct(Vec<Tok>),
    /// a traditional function
    Traditional(TradFn),
}

/// A defined function: its name and body.
pub struct DefinedFn {
    pub name: String,
    pub body: FnBody,
}

/// An optional name as text.
pub open spec fn opt_name(o: Option<String>) -> Option<Seq<char>> {
    match o {
        Some(s) => Some(s@),
        None => None,
    }
}

/// A list of names as texts.
pub open spec fn names_of(v: Seq<String>) -> Seq<Seq<char>> {
    Seq::new(v.len(), |i: int| v[i]@)
}

/// `b` is a copy of `a`: the same kind of body, and for a traditional
/// function the same header and locals.
pub open spec fn copy_of(b: FnBody, a: FnBody) -> bool {
    match (a, b) {
        (FnBody::Direct(x), FnBody::Direct(y)) => toks_view(y@) == toks_view(x@),
        (FnBody::Traditional(x), FnBody::Traditional(y)) => {
            &&& opt_name(y.result) == opt_name(x.result)
            &&& opt_name(y.left) == opt_name(x.left)
            &&& opt_name(y.right) == opt_name(x.right)
            &&& names_of(y.locals@) == names_of(x.locals@)
        },
        _ => false,
    }
}

/// The parts of a function header as tokens: the result, the left
/// argument, the name and the right argument. The header is the name,
/// then the arguments: `F`, `F B` or `F A B`, with `R←` before it when
/// the function has a result name.
pub open spec fn header_view(t: Seq<TokV>) -> Option<(Option<Seq<char>>, Option<Seq<char>>, Seq<char>, Option<Seq<char>>)> {
    let u = if t.len() > 0 && t.last() is End { t.drop_last() } else { t };
    let has_result = u.len() >= 2 && u[0] is Name && u[1] is Assign;
    let res = if has_result { Some(u[0]->Name_0) } else { None::<Seq<char>> };
    let rest = if has_result { u.skip(2) } else { u };
    if rest.len() == 1 && rest[0] is Name {
        Some((res, None, rest[0]->Name_0, None))
    } else if rest.len() == 2 && rest[0] is Name && rest[1] is Name {
        Some((res, None, rest[0]->Name_0, Some(rest[1]->Name_0)))
    } else if rest.len() == 3 && rest[0] is Name && rest[1] is Name && rest[2] is Name {
        Some((res, Some(rest[1]->Name_0), rest[0]->Name_0, Some(rest[2]->Name_0)))
    } else {
        None
    }
}

/// Copy a run of tokens.
pub fn copy_toks(t: &[Tok], lo: usize, hi: usize) -> (r: Vec<Tok>)
    requires
        lo <= hi <= t@.len(),
    ensures
        r@.len() == hi - lo,
        toks_view(r@) == toks_view(t@.subrange(lo as int, hi as int)),
{
    let mut out: Vec<Tok> = Vec::new();
    let mut j: usize = lo;
    while j < hi
        invariant
            lo <= j <= hi <= t@.len(),
            out@.len() == j - lo,
            toks_view(out@) == toks_view(t@.subrange(lo as int, j as int)),
        decreases hi - j,
    {
        let ghost before = out@;
        out.push(crate::tokenizer::copy_tok(&t[j]));
        proof {
            let x = toks_view(out@);
            let y = toks_view(t@.subrange(lo as int, j as int + 1));
            assert forall|k: int| 0 <= k < x.len() implies x[k] == y[k] by {
                if k < j - lo {
                    assert(toks_view(before)[k] == toks_view(t@.subrange(lo as int, j as int))[k]);
                    assert(out@[k] == before[k]);
                }
            }
            assert(x =~= y);
        }
        j += 1;
    }
    out
}

/// A copy of an optional name.
fn copy_name(o: &Option<String>) -> (r: Option<String>)
    ensures
        opt_name(r) == opt_name(*o),
{
    match o {
        Some(s) => Some(s.clone()),
        None => None,
    }
}

/// A copy of lines of text.
fn copy_lines_text(v: &[String]) -> (r: Vec<String>)
    ensures
        names_of(r@) == names_of(v@),
{
    let mut out: Vec<String> = Vec::new();
    let mut i: usize = 0;
    while i < v.len()
        invariant
            i <= v@.len(),
            out@.len() == i,
            forall|j: int| 0 <= j < i ==> #[trigger] out@[j]@ == v@[j]@,
        decreases v@.len() - i,
    {
        out.push(v[i].clone());
        i += 1;
    }
    assert(names_of(out@) =~= names_of(v@));
    out
}

/// A copy of a list of names.
fn copy_names(v: &Vec<String>) -> (r: Vec<String>)
    ensures
        names_of(r@) == names_of(v@),
{
    let mut out: Vec<String> = Vec::new();
    let mut i: usize = 0;
    while i < v.len()
        invariant
            i <= v@.len(),
            out@.len() == i,
            forall|j: int| 0 <= j < i ==> #[trigger] out@[j]@ == v@[j]@,
        decreases v@.len() - i,
    {
        out.push(v[i].clone());
        i += 1;
    }
    assert(names_of(out@) =~= names_of(v@));
    out
}

/// `b` holds the same step as `a`: the same kind, the same tokens and,
/// for a nested structure, the same structure.
pub open spec fn item_same(b: Item, a: Item) -> bool
    decreases a,
{
    match (a, b) {
        (Item::Code(x), Item::Code(y)) => toks_view(y@) == toks_view(x@),
        (Item::Leave, Item::Leave) => true,
        (Item::Nested(x), Item::Nested(y)) => block_same(*y, *x),
        _ => false,
    }
}

/// `b` holds the same steps as `a`, in the same order.
pub open spec fn items_same(b: Seq<Item>, a: Seq<Item>) -> bool
    decreases a,
{
    b.len() == a.len() && (a.len() == 0 || (items_same(b.drop_last(), a.drop_last()) && item_same(b.last(), a.last())))
}

/// `b` is the same control structure as `a`.
pub open spec fn block_same(b: Block, a: Block) -> bool
    decreases a,
{
    match (a, b) {
        (Block::If(c, th, el), Block::If(c2, th2, el2)) => {
            &&& toks_view(c2@) == toks_view(c@)
            &&& items_same(th2@, th@)
            &&& match (el, el2) {
                (Some(e), Some(e2)) => items_same(e2@, e@),
                (None, None) => true,
                _ => false,
            }
        },
        (Block::While(c, body), Block::While(c2, body2)) => toks_view(c2@) == toks_view(c@) && items_same(body2@, body@),
        (Block::Repeat(body, u), Block::Repeat(body2, u2)) => {
            &&& items_same(body2@, body@)
            &&& match (u, u2) {
                (Some(x), Some(y)) => toks_view(y@) == toks_view(x@),
                (None, None) => true,
                _ => false,
            }
        },
        _ => false,
    }
}

/// `b` is the same line as `a`.
pub open spec fn line_same(b: Line, a: Line) -> bool {
    match (a, b) {
        (Line::Code(x), Line::Code(y)) => toks_view(y@) == toks_view(x@),
        (Line::Start(x, e), Line::Start(y, e2)) => block_same(y, x) && e2 == e,
        (Line::Marker, Line::Marker) => true,
        (Line::Blank, Line::Blank) => true,
        _ => false,
    }
}

/// A copy of the steps of a control structure.
fn copy_items(v: &Vec<Item>) -> (r: Vec<Item>)
    ensures
        items_same(r@, v@),
    decreases *v,
{
    let mut out: Vec<Item> = Vec::new();
    let mut i: usize = 0;
    proof { assert(v@.take(0).len() == 0); }
    while i < v.len()
        invariant
            i <= v@.len(),
            items_same(out@, v@.take(i as int)),
        decreases v@.len() - i,
    {
        let it = match &v[i] {
            Item::Code(t) => Item::Code(copy_toks(t.as_slice(), 0, t.len())),
            Item::Leave => Item::Leave,
            Item::Nested(b) => {
                proof {
                    assert(decreases_to!(*v => v@));
                    assert(decreases_to!(v@ => v@[i as int]));
                    assert(decreases_to!(v@[i as int] => v@[i as int]->Nested_0));
                }
                Item::Nested(Box::new(copy_block(b)))
            },
        };
        proof {
            match v@[i as int] {
                Item::Code(t) => { assert(t@.subrange(0, t@.len() as int) =~= t@); },
                _ => {},
            }
            assert(item_same(it, v@[i as int]));
        }
        let ghost before = out@;
        out.push(it);
        proof {
            let a = v@.take(i as int + 1);
            assert(a.drop_last() =~= v@.take(i as int));
            assert(out@.drop_last() =~= before);
            assert(a.last() == v@[i as int]);
        }
        i += 1;
    }
    proof { assert(v@.take(v@.len() as int) =~= v@); }
    out
}

/// A copy of a control structure.
fn copy_block(b: &Block) -> (r: Block)
    ensures
        block_same(r, *b),
    decreases *b,
{
    match b {
        Block::If(c, th, el) => {
            let th2 = copy_items(th);
            let el2 = match el {
                Some(e) => Some(copy_items(e)),
                None => None,
            };
            let c2 = copy_toks(c.as_slice(), 0, c.len());
            proof { assert(c@.subrange(0, c@.len() as int) =~= c@); }
            Block::If(c2, th2, el2)
        },
        Block::While(c, body) => {
            let c2 = copy_toks(c.as_slice(), 0, c.len());
            proof { assert(c@.subrange(0, c@.len() as int) =~= c@); }
            Block::While(c2, copy_items(body))
        },
        Block::Repeat(body, until) => {
            let u = match until {
                Some(c) => {
                    proof { assert(c@.subrange(0, c@.len() as int) =~= c@); }
                    Some(copy_toks(c.as_slice(), 0, c.len()))
                },
                None => None,
            };
            Block::Repeat(copy_items(body), u)
        },
    }
}

/// A copy of the lines of a traditional function.
fn copy_lines(v: &Vec<Line>) -> (r: Vec<Line>)
    ensures
        r@.len() == v@.len(),
        forall|i: int| 0 <= i < v@.len() ==> line_same(#[trigger] r@[i], v@[i]),
{
    let mut out: Vec<Line> = Vec::new();
    let mut i: usize = 0;
    while i < v.len()
        invariant
            i <= v@.len(),
            out@.len() == i,
            forall|q: int| 0 <= q < i ==> line_same(#[trigger] out@[q], v@[q]),
        decreases v@.len() - i,
    {
        let ln = match &v[i] {
            Line::Code(t) => {
                proof { assert(t@.subrange(0, t@.len() as int) =~= t@); }
                Line::Code(copy_toks(t.as_slice(), 0, t.len()))
            },
            Line::Start(b, e) => Line::Start(copy_block(b), *e),
            Line::Marker => Line::Marker,
            Line::Blank => Line::Blank,
        };
        let ghost before = out@;
        out.push(ln);
        proof {
            assert forall|q: int| 0 <= q < i + 1 implies line_same(#[trigger] out@[q], v@[q]) by {
                if q < i {
                    assert(out@[q] == before[q]);
                }
            }
        }
        i += 1;
    }
    out
}

/// A copy of a function body.
fn copy_body(b: &FnBody) -> (r: FnBody)
    ensures
        copy_of(r, *b),
{
    match b {
        FnBody::Direct(t) => {
            let c = copy_toks(t.as_slice(), 0, t.len());
            assert(t@.subrange(0, t@.len() as int) =~= t@);
            FnBody::Direct(c)
        },
        FnBody::Traditional(f) => FnBody::Traditional(TradFn {
            result: copy_name(&f.result),
            left: copy_name(&f.left),
            right: copy_name(&f.right),
            lines: copy_lines(&f.lines),
            locals: copy_names(&f.locals),
            source: copy_names(&f.source),
        }),
    }
}

/// The defined functions of a workspace, in the order of their first
/// definition.
pub struct FunctionTable {
    fns: Vec<DefinedFn>,
}

impl FunctionTable {
    /// The names of the functions, in order.
    pub closed spec fn names_view(&self) -> Seq<Seq<char>> {
        Seq::new(self.fns@.len(), |i: int| self.fns@[i].name@)
    }

    /// No name is defined twice.
    pub closed spec fn wf(&self) -> bool {
        forall|i: int, j: int| 0 <= i < j < self.fns@.len() ==> (#[trigger] self.fns@[i]).name@ != (#[trigger] self.fns@[j]).name@
    }

    /// The body of function `name`.
    pub closed spec fn body_for(&self, name: Seq<char>) -> Option<FnBody> {
        if exists|i: int| 0 <= i < self.fns@.len() && (#[trigger] self.fns@[i]).name@ == name {
            let i = choose|i: int| 0 <= i < self.fns@.len() && (#[trigger] self.fns@[i]).name@ == name;
            Some(self.fns@[i].body)
        } else {
            None
        }
    }

    /// The traditional function `name`.
    pub open spec fn traditional(&self, name: Seq<char>) -> Option<TradFn> {
        match self.body_for(name) {
            Some(FnBody::Traditional(t)) => Some(t),
            _ => None,
        }
    }

    /// A function of the table is found under its name.
    proof fn lemma_body_at(&self, i: int)
        requires
            self.wf(),
            0 <= i < self.fns@.len(),
        ensures
            self.body_for(self.fns@[i].name@) == Some(self.fns@[i].body),
    {
        let name = self.fns@[i].name@;
        let j = choose|j: int| 0 <= j < self.fns@.len() && (#[trigger] self.fns@[j]).name@ == name;
        if j != i {
            if j < i {
                assert(self.fns@[j].name@ != self.fns@[i].name@);
            } else {
                assert(self.fns@[i].name@ != self.fns@[j].name@);
            }
        }
    }

    /// The names of a table are those of its functions.
    proof fn lemma_names(&self, name: Seq<char>)
        ensures
            self.names_view().contains(name) <==> self.body_for(name) is Some,
    {
        if self.names_view().contains(name) {
            let i = choose|i: int| 0 <= i < self.names_view().len() && self.names_view()[i] == name;
            assert(self.fns@[i].name@ == name);
        }
        if self.body_for(name) is Some {
            let i = choose|i: int| 0 <= i < self.fns@.len() && (#[trigger] self.fns@[i]).name@ == name;
            assert(self.names_view()[i] == name);
        }
    }

    /// an empty table
    pub fn new() -> (t: Self)
        ensures
            t.wf(),
            t.names_view() == Seq::<Seq<char>>::empty(),
    {
        let t = FunctionTable { fns: Vec::new() };
        assert(t.names_view() =~= Seq::<Seq<char>>::empty());
        t
    }

    /// The position of function `name`.
    pub(crate) fn position(&self, name: &String) -> (r: Option<usize>)
        ensures
            r matches Some(i) ==> i < self.names_view().len() && self.names_view()[i as int] == name@,
            r is None ==> !self.names_view().contains(name@),
            r is None <==> self.body_for(name@) is None,
    {
        proof { self.lemma_names(name@); }
        let mut i: usize = 0;
        while i < self.fns.len()
            invariant
                i <= self.fns@.len(),
                forall|j: int| 0 <= j < i ==> self.fns@[j].name@ != name@,
            decreases self.fns@.len() - i,
        {
            if self.fns[i].name == *name {
                return Some(i);
            }
            i += 1;
        }
        proof {
            if self.names_view().contains(name@) {
                let j = choose|j: int| 0 <= j < self.names_view().len() && self.names_view()[j] == name@;
                assert(self.fns@[j].name@ == name@);
            }
        }
        None
    }

    /// the function called `name`
    pub fn get(&self, name: &str) -> (r: Option<&DefinedFn>)
        ensures
            r matches Some(d) ==> d.name@ == name@ && self.names_view().contains(name@),
            r is None ==> !self.names_view().contains(name@),
    {
        let key = name.to_owned();
        match self.position(&key) {
            Some(i) => {
                proof { assert(self.names_view()[i as int] == self.fns@[i as int].name@); }
                Some(&self.fns[i])
            },
            None => None,
        }
    }

    /// the names of the functions, in order
    pub fn names(&self) -> (r: Vec<String>)
        ensures
            r@.len() == self.names_view().len(),
            forall|i: int| 0 <= i < r@.len() ==> #[trigger] r@[i]@ == self.names_view()[i],
    {
        let mut out: Vec<String> = Vec::new();
        let mut i: usize = 0;
        while i < self.fns.len()
            invariant
                i <= self.fns@.len(),
                out@.len() == i,
                forall|j: int| 0 <= j < i ==> #[trigger] out@[j]@ == self.fns@[j].name@,
            decreases self.fns@.len() - i,
        {
            out.push(self.fns[i].name.clone());
            i += 1;
        }
        out
    }

    /// the number of functions
    pub fn len(&self) -> (n: usize)
        ensures
            n == self.names_view().len(),
    {
        self.fns.len()
    }

    /// Define `name` with body `body`: a function already called `name`
    /// keeps its place and takes the new body; a new one comes last.
    pub fn define(&mut self, name: &String, body: FnBody)
        requires
            old(self).wf(),
        ensures
            final(self).wf(),
            old(self).names_view().contains(name@) ==> final(self).names_view() == old(self).names_view(),
            !old(self).names_view().contains(name@) ==> final(self).names_view() == old(self).names_view().push(name@),
            final(self).body_for(name@) == Some(body),
            forall|k: Seq<char>| k != name@ ==> #[trigger] final(self).body_for(k) == old(self).body_for(k),
    {
        let ghost b = body;
        match self.position(name) {
            Some(i) => {
                self.fns.set(i, DefinedFn { name: name.clone(), body });
                assert(self.names_view() =~= old(self).names_view());
                assert(self.wf()) by {
                    assert forall|a: int, c: int| 0 <= a < c < self.fns@.len() implies (#[trigger] self.fns@[a]).name@ != (#[trigger] self.fns@[c]).name@ by {
                        assert(self.fns@[a].name@ == old(self).fns@[a].name@);
                        assert(self.fns@[c].name@ == old(self).fns@[c].name@);
                        assert(old(self).fns@[a].name@ != old(self).fns@[c].name@);
                    }
                }
                proof {
                    self.lemma_body_at(i as int);
                    assert forall|k: Seq<char>| k != name@ implies #[trigger] self.body_for(k) == old(self).body_for(k) by {
                        self.lemma_same_elsewhere(*old(self), k, i as int);
                    }
                }
            },
            None => {
                self.fns.push(DefinedFn { name: name.clone(), body });
                assert(self.names_view() =~= old(self).names_view().push(name@));
                assert(self.wf()) by {
                    assert forall|a: int, c: int| 0 <= a < c < self.fns@.len() implies (#[trigger] self.fns@[a]).name@ != (#[trigger] self.fns@[c]).name@ by {
                        if c == self.fns@.len() - 1 {
                            assert(old(self).names_view()[a] == old(self).fns@[a].name@);
                        } else {
                            assert(old(self).fns@[a].name@ != old(self).fns@[c].name@);
                        }
                    }
                }
                proof {
                    self.lemma_body_at(self.fns@.len() - 1);
                    assert forall|k: Seq<char>| k != name@ implies #[trigger] self.body_for(k) == old(self).body_for(k) by {
                        self.lemma_same_elsewhere(*old(self), k, self.fns@.len() - 1);
                    }
                }
            },
        }
    }

    /// Two tables that differ only at position `i` agree on every other name.
    proof fn lemma_same_elsewhere(&self, other: Self, k: Seq<char>, i: int)
        requires
            self.wf(),
            other.wf(),
            0 <= i < self.fns@.len(),
            other.fns@.len() <= self.fns@.len() <= other.fns@.len() + 1,
            i == other.fns@.len() || self.fns@[i].name@ == other.fns@[i].name@,
            self.fns@.len() == other.fns@.len() + 1 ==> i == other.fns@.len(),
            forall|j: int| 0 <= j < other.fns@.len() && j != i ==> self.fns@[j] == other.fns@[j],
            k != self.fns@[i].name@,
        ensures
            self.body_for(k) == other.body_for(k),
    {
        if exists|j: int| 0 <= j < self.fns@.len() && (#[trigger] self.fns@[j]).name@ == k {
            let j = choose|j: int| 0 <= j < self.fns@.len() && (#[trigger] self.fns@[j]).name@ == k;
            assert(j != i);
            assert(j < other.fns@.len());
            assert(self.fns@[j] == other.fns@[j]);
            assert(other.fns@[j].name@ == k);
            other.lemma_body_at(j);
            self.lemma_body_at(j);
        } else {
            if exists|j: int| 0 <= j < other.fns@.len() && (#[trigger] other.fns@[j]).name@ == k {
                let j = choose|j: int| 0 <= j < other.fns@.len() && (#[trigger] other.fns@[j]).name@ == k;
                if j == i {
                    assert(other.fns@[j].name@ == self.fns@[i].name@);
                } else {
                    assert(self.fns@[j].name@ == k);
                }
            }
        }
    }

    /// a copy of the body of function `name`
    pub fn body_of(&self, name: &String) -> (r: Option<FnBody>)
        requires
            self.wf(),
        ensures
            r is Some <==> self.body_for(name@) is Some,
            r is Some <==> self.names_view().contains(name@),
            r matches Some(b) ==> copy_of(b, self.body_for(name@).unwrap()),
    {
        proof { self.lemma_names(name@); }
        match self.position(name) {
            Some(i) => {
                proof { self.lemma_body_at(i as int); }
                Some(copy_body(&self.fns[i].body))
            },
            None => None,
        }
    }

    /// The lines of traditional function `name` as written; none for a
    /// direct function or an unknown name.
    pub fn source_of(&self, name: &String) -> (r: Option<Vec<String>>)
        requires
            self.wf(),
        ensures
            r is Some <==> self.traditional(name@) is Some,
            r matches Some(v) ==> names_of(v@) == names_of(self.traditional(name@).unwrap().source@),
    {
        match self.position(name) {
            Some(i) => {
                proof { self.lemma_body_at(i as int); }
                match &self.fns[i].body {
                    FnBody::Traditional(t) => Some(copy_names(&t.source)),
                    FnBody::Direct(_) => None,
                }
            },
            None => None,
        }
    }

    /// Whether `name` is a traditional function without arguments.
    pub fn is_niladic(&self, name: &String) -> (r: bool)
        ensures
            self.wf() ==> r == (self.traditional(name@) matches Some(t) && t.right is None),
    {
        match self.position(name) {
            Some(i) => {
                proof { if self.wf() { self.lemma_body_at(i as int); } }
                match &self.fns[i].body {
                    FnBody::Traditional(t) => t.right.is_none(),
                    FnBody::Direct(_) => false,
                }
            },
            None => false,
        }
    }
}

/// The name in a name token.
fn tok_name(t: &Tok) -> (r: Option<String>)
    ensures
        (t@ is Name) <==> r is Some,
        r matches Some(s) ==> t@ == TokV::Name(s@),
{
    match t {
        Tok::Name(s) => Some(s.clone()),
        _ => None,
    }
}

/// Whether a token is the assignment arrow.
fn is_assign_tok(t: &Tok) -> (r: bool)
    ensures
        r == (t@ is Assign),
{
    match t {
        Tok::Assign => true,
        _ => false,
    }
}

/// Whether a token is the end of the line.
fn is_end_tok(t: &Tok) -> (r: bool)
    ensures
        r == (t@ is End),
{
    match t {
        Tok::End => true,
        _ => false,
    }
}

/// The parts of a header from its tokens: the result, the left argument,
/// the name and the right argument.
fn header_parts(t: &Vec<Tok>) -> (r: Option<(Option<String>, Option<String>, String, Option<String>)>)
    ensures
        match header_view(toks_view(t@)) {
            None => r is None,
            Some(h) => r matches Some(p) && opt_name(p.0) == h.0 && opt_name(p.1) == h.1 && p.2@ == h.2 && opt_name(p.3) == h.3,
        },
{
    let ghost tv = toks_view(t@);
    let n = t.len();
    let hi: usize = if n > 0 && is_end_tok(&t[n - 1]) { n - 1 } else { n };
    let ghost u = if tv.len() > 0 && tv.last() is End { tv.drop_last() } else { tv };
    assert(u.len() == hi);
    assert(forall|i: int| 0 <= i < hi ==> #[trigger] u[i] == t@[i]@);
    let mut lo: usize = 0;
    let mut res: Option<String> = None;
    if hi >= 2 && is_assign_tok(&t[1]) {
        if let Some(r0) = tok_name(&t[0]) {
            res = Some(r0);
            lo = 2;
        }
    }
    let ghost has_result = u.len() >= 2 && u[0] is Name && u[1] is Assign;
    assert(has_result == (lo == 2));
    assert(has_result ==> opt_name(res) == Some(u[0]->Name_0));
    let ghost rest = if has_result { u.skip(2) } else { u };
    assert(rest.len() == hi - lo);
    assert(forall|i: int| 0 <= i < hi - lo ==> #[trigger] rest[i] == t@[lo + i]@);
    let m = hi - lo;
    if m == 1 {
        assert(rest[0] == t@[lo as int]@);
        match tok_name(&t[lo]) {
            Some(f) => Some((res, None, f, None)),
            None => None,
        }
    } else if m == 2 {
        assert(rest[0] == t@[lo as int]@);
        assert(rest[1] == t@[lo + 1]@);
        match (tok_name(&t[lo]), tok_name(&t[lo + 1])) {
            (Some(f), Some(b)) => Some((res, None, f, Some(b))),
            _ => None,
        }
    } else if m == 3 {
        assert(rest[0] == t@[lo as int]@);
        assert(rest[1] == t@[lo + 1]@);
        assert(rest[2] == t@[lo + 2]@);
        match (tok_name(&t[lo]), tok_name(&t[lo + 1]), tok_name(&t[lo + 2])) {
            (Some(f), Some(a), Some(b)) => Some((res, Some(a), f, Some(b))),
            _ => None,
        }
    } else {
        None
    }
}

/// What a line of a traditional function is.
enum Kind {
    Code(Vec<Tok>),
    Blank,
    If(Vec<Tok>),
    Else,
    EndIf,
    While(Vec<Tok>),
    EndWhile,
    Repeat,
    Until(Vec<Tok>),
    EndRepeat,
    Leave,
    End,
}

/// A line with no control structure: code, a blank line or `:Leave`.
spec fn plain_kind(k: Kind) -> bool {
    k is Code || k is Blank || k is Leave
}

/// Every line from `i` on has no control structure.
spec fn all_plain(ks: Seq<Kind>, i: int) -> bool {
    forall|q: int| i <= q < ks.len() ==> plain_kind(#[trigger] ks[q])
}

/// The line a body holds for a line of kind `k` with no control
/// structure: the same code, a blank, or a marker for `:Leave`.
spec fn plain_line(k: Kind, l: Line) -> bool {
    match k {
        Kind::Code(t) => l matches Line::Code(u) && toks_view(u@) == toks_view(t@),
        Kind::Blank => l is Blank,
        _ => l is Marker,
    }
}

/// The tokens of a line without the end token.
pub open spec fn body_toks(tv: Seq<TokV>) -> Seq<TokV> {
    if tv.len() > 0 && tv.last() is End { tv.drop_last() } else { tv }
}

/// What a line of tokens `tv` (end token removed) is: `r` is the kind
/// `classify` gives, or its error.
spec fn kind_of(u: Seq<TokV>, r: AplResult<Kind>) -> bool {
    if u.len() == 0 {
        r matches Ok(Kind::Blank)
    } else if u.len() >= 2 && u[0] is Colon && u[1] is Name {
        let w = u[1]->Name_0;
        let c = u.skip(2);
        if w == "If"@ || w == "While"@ || w == "Until"@ {
            if u.len() == 2 {
                r == Err::<Kind, ErrorCode>(ErrorCode::SyntaxError)
            } else if w == "If"@ {
                r matches Ok(Kind::If(x)) && toks_view(x@) == c
            } else if w == "While"@ {
                r matches Ok(Kind::While(x)) && toks_view(x@) == c
            } else {
                r matches Ok(Kind::Until(x)) && toks_view(x@) == c
            }
        } else if u.len() != 2 {
            r == Err::<Kind, ErrorCode>(ErrorCode::SyntaxError)
        } else if w == "Else"@ {
            r matches Ok(Kind::Else)
        } else if w == "EndIf"@ {
            r matches Ok(Kind::EndIf)
        } else if w == "EndWhile"@ {
            r matches Ok(Kind::EndWhile)
        } else if w == "Repeat"@ {
            r matches Ok(Kind::Repeat)
        } else if w == "EndRepeat"@ {
            r matches Ok(Kind::EndRepeat)
        } else if w == "Leave"@ {
            r matches Ok(Kind::Leave)
        } else if w == "End"@ {
            r matches Ok(Kind::End)
        } else {
            r == Err::<Kind, ErrorCode>(ErrorCode::SyntaxError)
        }
    } else {
        r matches Ok(Kind::Code(x)) && toks_view(x@) == u
    }
}

/// The kind of a line of text, or the error met reading it.
spec fn line_kind(line: Seq<char>, r: AplResult<Kind>) -> bool {
    match scan(line, 0, Seq::empty()) {
        Err(e) => r == Err::<Kind, ErrorCode>(e),
        Ok(tv) => kind_of(body_toks(tv), r),
    }
}

/// Classify a line of a traditional function. A control line starts with
/// a colon and a keyword; `:If`, `:While` and `:Until` take a condition,
/// the others nothing.
fn classify(line: &str) -> (r: AplResult<Kind>)
    ensures
        line_kind(line@, r),
{
    let t = tokenize(line)?;
    let ghost u = body_toks(toks_view(t@));
    proof {
        let n = t@.len() as int;
        if n > 0 && t@[n - 1]@ is End {
            assert(u =~= toks_view(t@.subrange(0, n - 1)));
        } else {
            assert(u =~= toks_view(t@.subrange(0, n)));
        }
    }
    let n = t.len();
    let hi: usize = if n > 0 && is_end_tok(&t[n - 1]) { n - 1 } else { n };
    assert(u =~= toks_view(t@.subrange(0, hi as int)));
    if hi == 0 {
        return Ok(Kind::Blank);
    }
    if hi >= 2 {
        if let Tok::Colon = &t[0] {
            if let Tok::Name(k) = &t[1] {
                proof {
                    assert(u[0] == t@[0]@);
                    assert(u[1] == t@[1]@);
                    assert(u.skip(2) =~= toks_view(t@.subrange(2, hi as int)));
                }
                let word = k.as_str();
                let bare = hi == 2;
                if same_text(word, "If") || same_text(word, "While") || same_text(word, "Until") {
                    if bare {
                        return Err(ErrorCode::SyntaxError);
                    }
                    let cond = copy_toks(t.as_slice(), 2, hi);
                    if same_text(word, "If") {
                        return Ok(Kind::If(cond));
                    }
                    if same_text(word, "While") {
                        return Ok(Kind::While(cond));
                    }
                    return Ok(Kind::Until(cond));
                }
                if !bare {
                    return Err(ErrorCode::SyntaxError);
                }
                if same_text(word, "Else") {
                    return Ok(Kind::Else);
                }
                if same_text(word, "EndIf") {
                    return Ok(Kind::EndIf);
                }
                if same_text(word, "EndWhile") {
                    return Ok(Kind::EndWhile);
                }
                if same_text(word, "Repeat") {
                    return Ok(Kind::Repeat);
                }
                if same_text(word, "EndRepeat") {
                    return Ok(Kind::EndRepeat);
                }
                if same_text(word, "Leave") {
                    return Ok(Kind::Leave);
                }
                if same_text(word, "End") {
                    return Ok(Kind::End);
                }
                return Err(ErrorCode::SyntaxError);
            }
        }
    }
    proof {
        if hi >= 2 {
            assert(u[0] == t@[0]@);
            assert(u[1] == t@[1]@);
        }
    }
    Ok(Kind::Code(copy_toks(t.as_slice(), 0, hi)))
}

/// The steps from line `i` up to the first line that closes or divides a
/// structure (or the end), and the index of that line.
fn build_items(kinds: &Vec<Kind>, i: usize) -> (r: AplResult<(Vec<Item>, usize)>)
    requires
        i <= kinds@.len(),
    ensures
        r matches Ok((_, j)) ==> i <= j <= kinds@.len(),
        all_plain(kinds@, i as int) ==> (r matches Ok((_, j)) && j == kinds@.len()),
    decreases kinds@.len() - i, 1nat,
{
    let n = kinds.len();
    let mut items: Vec<Item> = Vec::new();
    let mut j: usize = i;
    while j < n
        invariant
            i <= j <= n == kinds@.len(),
            all_plain(kinds@, i as int) ==> all_plain(kinds@, j as int),
        decreases n - j,
    {
        match &kinds[j] {
            Kind::Code(t) => {
                items.push(Item::Code(copy_toks(t.as_slice(), 0, t.len())));
                j += 1;
            },
            Kind::Blank => {
                j += 1;
            },
            Kind::Leave => {
                items.push(Item::Leave);
                j += 1;
            },
            Kind::If(_) | Kind::While(_) | Kind::Repeat => {
                let (b, e) = build_block(kinds, j)?;
                items.push(Item::Nested(Box::new(b)));
                j = e;
            },
            _ => {
                return Ok((items, j));
            },
        }
    }
    Ok((items, j))
}

/// The control structure that starts at line `j`, and the index of the
/// line after its end.
fn build_block(kinds: &Vec<Kind>, j: usize) -> (r: AplResult<(Block, usize)>)
    requires
        j < kinds@.len(),
    ensures
        r matches Ok((_, e)) ==> j < e <= kinds@.len(),
    decreases kinds@.len() - j, 0nat,
{
    let n = kinds.len();
    match &kinds[j] {
        Kind::If(c) => {
            let (th, k) = build_items(kinds, j + 1)?;
            if k >= n {
                return Err(ErrorCode::SyntaxError);
            }
            match &kinds[k] {
                Kind::Else => {
                    let (el, k2) = build_items(kinds, k + 1)?;
                    if k2 < n {
                        match &kinds[k2] {
                            Kind::EndIf | Kind::End => {
                                return Ok((Block::If(copy_toks(c.as_slice(), 0, c.len()), th, Some(el)), k2 + 1));
                            },
                            _ => {},
                        }
                    }
                    Err(ErrorCode::SyntaxError)
                },
                Kind::EndIf | Kind::End => Ok((Block::If(copy_toks(c.as_slice(), 0, c.len()), th, None), k + 1)),
                _ => Err(ErrorCode::SyntaxError),
            }
        },
        Kind::While(c) => {
            let (body, k) = build_items(kinds, j + 1)?;
            if k < n {
                match &kinds[k] {
                    Kind::EndWhile | Kind::End => {
                        return Ok((Block::While(copy_toks(c.as_slice(), 0, c.len()), body), k + 1));
                    },
                    _ => {},
                }
            }
            Err(ErrorCode::SyntaxError)
        },
        Kind::Repeat => {
            let (body, k) = build_items(kinds, j + 1)?;
            if k >= n {
                return Err(ErrorCode::SyntaxError);
            }
            match &kinds[k] {
                Kind::Until(c) => {
                    let u = copy_toks(c.as_slice(), 0, c.len());
                    if k + 1 < n {
                        if let Kind::EndRepeat = &kinds[k + 1] {
                            return Ok((Block::Repeat(body, Some(u)), k + 2));
                        }
                    }
                    Ok((Block::Repeat(body, Some(u)), k + 1))
                },
                Kind::EndRepeat | Kind::End => Ok((Block::Repeat(body, None), k + 1)),
                _ => Err(ErrorCode::SyntaxError),
            }
        },
        _ => Err(ErrorCode::SyntaxError),
    }
}

/// `a` begins with `b`.
pub open spec fn extends(a: Seq<String>, b: Seq<String>) -> bool {
    a.len() >= b.len() && forall|k: int| 0 <= k < b.len() ==> a[k] == b[k]
}

/// Add `name` to `out` unless it is there already.
fn add_name(out: &mut Vec<String>, name: String)
    ensures
        extends(final(out)@, old(out)@),
        names_of(old(out)@).contains(name@) ==> final(out)@ == old(out)@,
        !names_of(old(out)@).contains(name@) ==> final(out)@ == old(out)@.push(name),
{
    let mut i: usize = 0;
    while i < out.len()
        invariant
            i <= out@.len(),
            out@ == old(out)@,
            forall|j: int| 0 <= j < i ==> (#[trigger] out@[j])@ != name@,
        decreases out@.len() - i,
    {
        if same_text(out[i].as_str(), name.as_str()) {
            proof { assert(names_of(out@)[i as int] == name@); }
            return;
        }
        i += 1;
    }
    proof {
        if names_of(out@).contains(name@) {
            let j = choose|j: int| 0 <= j < names_of(out@).len() && names_of(out@)[j] == name@;
            assert(out@[j]@ == name@);
        }
    }
    out.push(name);
}

/// The name that the statement `t[lo..hi]` assigns, if it is an
/// assignment: `N←…`, `N[…]←…` or `(… N)←…`.
pub open spec fn assigned_spec(t: Seq<Tok>, lo: int, hi: int) -> Option<Seq<char>> {
    if hi - lo < 2 {
        None
    } else if t[lo] is Name && t[lo + 1] is Assign {
        Some(t[lo]->Name_0@)
    } else if t[lo] is Name && t[lo + 1] is LBracket && (crate::parser::close_of(t, lo + 1, hi) matches Some(m)
        && m + 1 < hi && t[m + 1] is Assign) {
        Some(t[lo]->Name_0@)
    } else if t[lo] is LParen && (crate::parser::close_of(t, lo, hi) matches Some(m)
        && m + 1 < hi && lo + 1 < m && t[m + 1] is Assign && t[m - 1] is Name) {
        Some(t[crate::parser::close_of(t, lo, hi)->Some_0 - 1]->Name_0@)
    } else {
        None
    }
}

/// The name that the statement `t[lo..hi]` assigns (see `assigned_spec`).
fn assigned_name(t: &[Tok], lo: usize, hi: usize) -> (r: Option<String>)
    requires
        lo <= hi <= t@.len(),
    ensures
        r is None ==> assigned_spec(t@, lo as int, hi as int) is None,
        r matches Some(x) ==> assigned_spec(t@, lo as int, hi as int) == Some(x@),
{
    if hi - lo >= 2 {
        if let Tok::Name(n) = &t[lo] {
            match &t[lo + 1] {
                Tok::Assign => {
                    return Some(n.clone());
                },
                Tok::LBracket => {
                    if let Some(m) = crate::parser::find_close(t, lo + 1, hi) {
                        if m + 1 < hi {
                            if let Tok::Assign = &t[m + 1] {
                                return Some(n.clone());
                            }
                        }
                    }
                },
                _ => {},
            }
        }
        if let Tok::LParen = &t[lo] {
            if let Some(m) = crate::parser::find_close(t, lo, hi) {
                if m + 1 < hi && lo + 1 < m {
                    if let Tok::Assign = &t[m + 1] {
                        if let Tok::Name(n) = &t[m - 1] {
                            return Some(n.clone());
                        }
                    }
                }
            }
        }
    }
    None
}

/// The names `o` with those of `xs` added in order, each unless already
/// there.
pub open spec fn added(o: Seq<Seq<char>>, xs: Seq<Seq<char>>) -> Seq<Seq<char>>
    decreases xs.len(),
{
    if xs.len() == 0 {
        o
    } else {
        added(if o.contains(xs[0]) { o } else { o.push(xs[0]) }, xs.drop_first())
    }
}

/// Adding two lists in turn adds their concatenation.
proof fn lemma_added_concat(o: Seq<Seq<char>>, a: Seq<Seq<char>>, b: Seq<Seq<char>>)
    ensures
        added(o, a + b) == added(added(o, a), b),
    decreases a.len(),
{
    if a.len() == 0 {
        assert(a + b =~= b);
    } else {
        assert((a + b).drop_first() =~= a.drop_first() + b);
        assert((a + b)[0] == a[0]);
        lemma_added_concat(if o.contains(a[0]) { o } else { o.push(a[0]) }, a.drop_first(), b);
    }
}

/// The first separator found from `j` on lies from `j` on, before `hi`.
pub proof fn lemma_first_top_range(t: Seq<Tok>, lo: int, j: int, hi: int, which: u8)
    ensures
        crate::parser::first_top(t, lo, j, hi, which) matches Some(m) ==> j <= m < hi,
    decreases hi - j,
{
    if j < hi {
        lemma_first_top_range(t, lo, j + 1, hi, which);
    }
}

/// The names that the statements of `t[start..hi]` assign, in order; each
/// statement ends at a diamond at depth zero.
pub open spec fn locals_from(t: Seq<Tok>, start: int, hi: int) -> Seq<Seq<char>>
    decreases hi - start,
{
    if start < 0 || start > hi {
        Seq::empty()
    } else {
        let cut = crate::parser::first_top(t, start, start, hi, 0);
        let end = match cut { Some(m) => m, None => hi };
        let here = if start < end {
            match assigned_spec(t, start, end) { Some(x) => seq![x], None => Seq::empty() }
        } else {
            Seq::empty()
        };
        match cut {
            Some(m) => {
                proof { lemma_first_top_range(t, start, start, hi, 0); }
                if m < start { here } else { here + locals_from(t, m + 1, hi) }
            },
            None => here,
        }
    }
}

/// Add to `out` the names that the statements of a line assign.
fn collect_locals(t: &[Tok], out: &mut Vec<String>)
    ensures
        extends(final(out)@, old(out)@),
        names_of(final(out)@) == added(names_of(old(out)@), locals_from(t@, 0, t@.len() as int)),
{
    let hi = t.len();
    let mut start: usize = 0;
    loop
        invariant
            start <= hi == t@.len(),
            extends(out@, old(out)@),
            added(names_of(old(out)@), locals_from(t@, 0, hi as int))
                == added(names_of(out@), locals_from(t@, start as int, hi as int)),
        decreases hi - start,
    {
        let ghost o = names_of(out@);
        let cut = crate::parser::find_top(t, start, hi, 0);
        let end = match cut {
            Some(m) => m,
            None => hi,
        };
        let ghost here: Seq<Seq<char>> = if start < end {
            match assigned_spec(t@, start as int, end as int) { Some(x) => seq![x], None => Seq::empty() }
        } else {
            Seq::empty()
        };
        if start < end {
            match assigned_name(t, start, end) {
                Some(nm) => {
                    let ghost nv = nm@;
                    let ghost before = out@;
                    add_name(out, nm);
                    proof {
                        assert(here == seq![nv]);
                        let x = here[0];
                        assert(x == nv);
                        assert(here.drop_first() =~= Seq::<Seq<char>>::empty());
                        let o2 = if o.contains(x) { o } else { o.push(x) };
                        assert(added(o2, here.drop_first()) == o2);
                        assert(added(o, here) == added(o2, here.drop_first()));
                        if o.contains(x) {
                            assert(out@ == before);
                        } else {
                            assert(names_of(out@) =~= o.push(x));
                        }
                        assert(names_of(out@) == added(o, here));
                    }
                },
                None => {
                    proof { assert(here =~= Seq::<Seq<char>>::empty()); }
                },
            }
        }
        proof {
            if !(start < end) {
                assert(here =~= Seq::<Seq<char>>::empty());
            }
            assert(names_of(out@) == added(o, here));
        }
        match cut {
            Some(m) => {
                proof {
                    lemma_added_concat(o, here, locals_from(t@, m as int + 1, hi as int));
                }
                start = m + 1;
            },
            None => {
                return;
            },
        }
    }
}

/// A line that classifies without error.
spec fn line_classifies(line: Seq<char>) -> bool {
    exists|k: Kind| line_kind(line, Ok(k))
}

/// A line whose classification fails with the error `e`.
spec fn line_fails(line: Seq<char>, e: ErrorCode) -> bool {
    line_kind(line, Err(e))
}

/// The kinds of the lines of a body, or the error of the first line that
/// has none.
fn classify_all(lines: &[String]) -> (r: AplResult<Vec<Kind>>)
    ensures
        r matches Ok(ks) ==> ks@.len() == lines@.len()
            && forall|i: int| 0 <= i < lines@.len() ==> line_kind(lines@[i]@, Ok(#[trigger] ks@[i])),
        r matches Err(e) ==> exists|i: int| 0 <= i < lines@.len() && #[trigger] line_fails(lines@[i]@, e)
            && forall|j: int| 0 <= j < i ==> #[trigger] line_classifies(lines@[j]@),
{
    let mut kinds: Vec<Kind> = Vec::new();
    let mut i: usize = 0;
    while i < lines.len()
        invariant
            i <= lines@.len(),
            kinds@.len() == i,
            forall|q: int| 0 <= q < i ==> line_kind(lines@[q]@, Ok(#[trigger] kinds@[q])),
        decreases lines@.len() - i,
    {
        let k = match classify(lines[i].as_str()) {
            Ok(k) => k,
            Err(e) => {
                proof {
                    assert forall|j: int| 0 <= j < i implies #[trigger] line_classifies(lines@[j]@) by {
                        assert(line_kind(lines@[j]@, Ok(kinds@[j])));
                    }
                    assert(line_fails(lines@[i as int]@, e));
                }
                return Err(e);
            },
        };
        let ghost before = kinds@;
        kinds.push(k);
        proof {
            assert forall|q: int| 0 <= q < i + 1 implies line_kind(lines@[q]@, Ok(#[trigger] kinds@[q])) by {
                if q < i {
                    assert(kinds@[q] == before[q]);
                }
            }
        }
        i += 1;
    }
    Ok(kinds)
}

/// The lines of a body from their kinds: a SYNTAX ERROR when the control
/// lines do not nest.
fn build_lines(kinds: &Vec<Kind>) -> (r: AplResult<Vec<Line>>)
    ensures
        r matches Ok(body) ==> body@.len() == kinds@.len(),
        all_plain(kinds@, 0) ==> (r matches Ok(body) && forall|q: int| 0 <= q < kinds@.len()
            ==> plain_line(kinds@[q], #[trigger] body@[q])),
{
    let n = kinds.len();
    let (_, e) = build_items(kinds, 0)?;
    if e != n {
        return Err(ErrorCode::SyntaxError);
    }
    let mut body: Vec<Line> = Vec::new();
    let mut j: usize = 0;
    while j < n
        invariant
            j <= n == kinds@.len(),
            body@.len() == j,
            all_plain(kinds@, 0) ==> forall|q: int| 0 <= q < j ==> plain_line(kinds@[q], #[trigger] body@[q]),
        decreases n - j,
    {
        let line = match &kinds[j] {
            Kind::Code(t) => Line::Code(copy_toks(t.as_slice(), 0, t.len())),
            Kind::Blank => Line::Blank,
            Kind::If(_) | Kind::While(_) | Kind::Repeat => {
                let (b, e2) = build_block(kinds, j)?;
                Line::Start(b, e2)
            },
            _ => Line::Marker,
        };
        proof {
            if all_plain(kinds@, 0) {
                assert(plain_kind(kinds@[j as int]));
                match kinds@[j as int] {
                    Kind::Code(t) => { assert(t@.subrange(0, t@.len() as int) =~= t@); },
                    _ => {},
                }
                assert(plain_line(kinds@[j as int], line));
            }
        }
        let ghost before = body@;
        body.push(line);
        proof {
            if all_plain(kinds@, 0) {
                assert forall|q: int| 0 <= q < j + 1 implies plain_line(kinds@[q], #[trigger] body@[q]) by {
                    if q < j { assert(body@[q] == before[q]); }
                }
            }
        }
        j += 1;
    }
    Ok(body)
}

/// The names that the statements of the ordinary lines assign, in order.
spec fn code_locals(kinds: Seq<Kind>) -> Seq<Seq<char>>
    decreases kinds.len(),
{
    if kinds.len() == 0 {
        Seq::empty()
    } else {
        code_locals(kinds.drop_last()) + match kinds.last() {
            Kind::Code(t) => locals_from(t@, 0, t@.len() as int),
            _ => Seq::empty(),
        }
    }
}

/// Add to `out` the names that the ordinary lines assign.
fn gather_locals(kinds: &Vec<Kind>, out: &mut Vec<String>)
    ensures
        extends(final(out)@, old(out)@),
        names_of(final(out)@) == added(names_of(old(out)@), code_locals(kinds@)),
{
    let ghost start = out@;
    let mut j: usize = 0;
    proof { assert(kinds@.take(0) =~= Seq::<Kind>::empty()); }
    while j < kinds.len()
        invariant
            j <= kinds@.len(),
            extends(out@, start),
            start == old(out)@,
            names_of(out@) == added(names_of(start), code_locals(kinds@.take(j as int))),
        decreases kinds@.len() - j,
    {
        let ghost o = names_of(out@);
        proof {
            assert(kinds@.take(j as int + 1).drop_last() =~= kinds@.take(j as int));
            assert(kinds@.take(j as int + 1).last() == kinds@[j as int]);
        }
        if let Kind::Code(t) = &kinds[j] {
            collect_locals(t.as_slice(), out);
            proof {
                lemma_added_concat(names_of(start), code_locals(kinds@.take(j as int)), locals_from(t@, 0, t@.len() as int));
            }
        } else {
            proof {
                assert(code_locals(kinds@.take(j as int + 1)) =~= code_locals(kinds@.take(j as int)));
            }
        }
        j += 1;
    }
    proof { assert(kinds@.take(kinds@.len() as int) =~= kinds@); }
}

/// Define the traditional function whose header is `header` (`F`, `F B`
/// or `F A B`: the name, then the right argument, or the left and the
/// right; `R←` before it names the result) and whose body is `lines`. The lines
/// may hold the control structures `:If c … [:Else …] :EndIf`,
/// `:While c … :EndWhile`, `:Repeat … [:Until c] [:EndRepeat]` and
/// `:Leave`; `:End` closes any of them. A header of another shape, or
/// control lines that do not nest, are a SYNTAX ERROR, and the table is
/// left as it was. The names of the header, and those that a statement
/// of the body assigns, are local to each call.
pub fn define_function(funcs: &mut FunctionTable, header: &str, lines: &[String]) -> (r: AplResult<()>)
    requires
        old(funcs).wf(),
    ensures
        final(funcs).wf(),
        r is Err ==> *final(funcs) == *old(funcs),
        match scan(header@, 0, Seq::empty()) {
            Err(e) => r == Err::<(), ErrorCode>(e),
            Ok(t) => match header_view(t) {
                None => r == Err::<(), ErrorCode>(ErrorCode::SyntaxError),
                Some(h) => r is Ok ==> {
                    &&& (old(funcs).names_view().contains(h.2) ==> final(funcs).names_view() == old(funcs).names_view())
                    &&& (!old(funcs).names_view().contains(h.2) ==> final(funcs).names_view() == old(funcs).names_view().push(h.2))
                    &&& (final(funcs).traditional(h.2) matches Some(f) && opt_name(f.result) == h.0
                        && opt_name(f.left) == h.1 && opt_name(f.right) == h.3
                        && forall|x: Seq<char>| (h.0 == Some(x) || h.1 == Some(x) || h.3 == Some(x))
                            ==> #[trigger] names_of(f.locals@).contains(x))
                    &&& forall|k: Seq<char>| k != h.2 ==> #[trigger] final(funcs).body_for(k) == old(funcs).body_for(k)
                },
            },
        },
{
    let toks = tokenize(header)?;
    let parts = match header_parts(&toks) {
        Some(p) => p,
        None => {
            return Err(ErrorCode::SyntaxError);
        },
    };
    let (res, left, name, right) = parts;
    let kinds = classify_all(lines)?;
    let body = build_lines(&kinds)?;
    let mut locals: Vec<String> = Vec::new();
    if let Some(a) = &left {
        locals.push(a.clone());
    }
    if let Some(b) = &right {
        locals.push(b.clone());
    }
    if let Some(rn) = &res {
        locals.push(rn.clone());
    }
    let ghost hdr = locals@;
    assert forall|x: Seq<char>| (opt_name(res) == Some(x) || opt_name(left) == Some(x) || opt_name(right) == Some(x))
        implies exists|k: int| 0 <= k < hdr.len() && #[trigger] hdr[k]@ == x by {
        if opt_name(left) == Some(x) {
            assert(hdr[0]@ == x);
        } else if opt_name(right) == Some(x) {
            if left is Some {
                assert(hdr[1]@ == x);
            } else {
                assert(hdr[0]@ == x);
            }
        } else {
            assert(hdr[hdr.len() - 1]@ == x);
        }
    }
    gather_locals(&kinds, &mut locals);
    let source = copy_lines_text(lines);
    let f = TradFn { result: res, left, right, lines: body, locals, source };
    proof {
        assert forall|x: Seq<char>| (opt_name(f.result) == Some(x) || opt_name(f.left) == Some(x) || opt_name(f.right) == Some(x))
            implies #[trigger] names_of(f.locals@).contains(x) by {
            let k = choose|k: int| 0 <= k < hdr.len() && #[trigger] hdr[k]@ == x;
            assert(f.locals@[k] == hdr[k]);
            assert(names_of(f.locals@)[k] == x);
        }
    }
    funcs.define(&name, FnBody::Traditional(f));
    Ok(())
}

} // verus!
