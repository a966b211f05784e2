//! The workspace and the evaluator: variables and defined functions, the
//! parser from tokens to expressions, and their evaluation.

use vstd::prelude::*;
use crate::cell::{Cell, PointerCellData};
use crate::tokenizer::{toks_view, PowerFn, Prim, Tok, TokV};
use crate::functions_def::{FnBody, FunctionTable, TradFn, Block, Item, Line, names_of};
use crate::dispatch::{apply_dyadic, apply_monadic, scalar_fn_of};
use crate::types::{AplResult, ErrorCode};
use crate::value::ValueP;
use crate::shape::prod;

verus! {

// ---------------------------------------------------------------------------
// Variables
// ---------------------------------------------------------------------------

/// The variables held by a list of bindings; a later binding of a name
/// hides an earlier one.
pub open spec fn bindings_map(s: Seq<(String, ValueP)>) -> Map<Seq<char>, ValueP>
    decreases s.len(),
{
    if s.len() == 0 {
        Map::empty()
    } else {
        bindings_map(s.drop_last()).insert(s.last().0@, s.last().1)
    }
}

/// No name is bound twice.
pub open spec fn unique_names(s: Seq<(String, ValueP)>) -> bool {
    forall|i: int, j: int| 0 <= i < j < s.len() ==> (#[trigger] s[i]).0@ != (#[trigger] s[j]).0@
}

/// The bindings of `s` other than those of `k`.
pub open spec fn without_name(s: Seq<(String, ValueP)>, k: Seq<char>) -> Seq<(String, ValueP)>
    decreases s.len(),
{
    if s.len() == 0 {
        Seq::empty()
    } else {
        let rest = without_name(s.drop_last(), k);
        if s.last().0@ == k { rest } else { rest.push(s.last()) }
    }
}

proof fn lemma_without_name(s: Seq<(String, ValueP)>, k: Seq<char>)
    requires
        unique_names(s),
    ensures
        bindings_map(without_name(s, k)) == bindings_map(s).remove(k),
        unique_names(without_name(s, k)),
        forall|i: int| 0 <= i < without_name(s, k).len() ==> (#[trigger] without_name(s, k)[i]).0@ != k,
        forall|i: int| #![trigger without_name(s, k)[i]] 0 <= i < without_name(s, k).len() ==>
            exists|j: int| 0 <= j < s.len() && #[trigger] s[j] == without_name(s, k)[i],
    decreases s.len(),
{
    if s.len() > 0 {
        let t = s.drop_last();
        assert(unique_names(t));
        lemma_without_name(t, k);
        let rest = without_name(t, k);
        if s.last().0@ == k {
            assert(bindings_map(s).remove(k) =~= bindings_map(t).remove(k));
            assert forall|i: int| #![trigger rest[i]] 0 <= i < rest.len() implies
                exists|j: int| 0 <= j < s.len() && #[trigger] s[j] == rest[i] by {
                let j = choose|j: int| 0 <= j < t.len() && #[trigger] t[j] == rest[i];
                assert(s[j] == rest[i]);
            }
        } else {
            let w = rest.push(s.last());
            assert(bindings_map(w) =~= bindings_map(s).remove(k)) by {
                assert(w.drop_last() =~= rest);
                assert(!bindings_map(t).dom().contains(s.last().0@) || true);
            }
            assert forall|i: int, j: int| 0 <= i < j < w.len() implies (#[trigger] w[i]).0@ != (#[trigger] w[j]).0@ by {
                if j == w.len() - 1 {
                    let jj = choose|jj: int| 0 <= jj < t.len() && #[trigger] t[jj] == rest[i];
                    assert(s[jj] == t[jj]);
                    assert(jj < s.len() - 1);
                }
            }
            assert forall|i: int| #![trigger w[i]] 0 <= i < w.len() implies
                exists|j: int| 0 <= j < s.len() && #[trigger] s[j] == w[i] by {
                if i == w.len() - 1 {
                    assert(s[s.len() - 1] == w[i]);
                } else {
                    let j = choose|j: int| 0 <= j < t.len() && #[trigger] t[j] == rest[i];
                    assert(s[j] == w[i]);
                }
            }
        }
    }
}

/// The workspace: variables and defined functions.
pub struct Environment {
    vars: Vec<(String, ValueP)>,
    /// the defined functions
    pub funcs: FunctionTable,
    /// the last execute gave no value (a pure assignment)
    execute_was_shy: bool,
    /// the known namespaces
    namespaces: Vec<String>,
    /// the current namespace, empty for the root
    current_ns: String,
    /// how many `⍎` are running, one inside another
    execute_depth: usize,
}

impl Environment {
    /// How many `⍎` are running, one inside another.
    pub closed spec fn execute_depth_view(&self) -> usize {
        self.execute_depth
    }

    /// Whether the last `⍎` gave no value.
    pub closed spec fn shy_view(&self) -> bool {
        self.execute_was_shy
    }

    /// The variables of the workspace.
    pub closed spec fn vars_view(&self) -> Map<Seq<char>, ValueP> {
        bindings_map(self.vars@)
    }

    /// The defined functions.
    pub closed spec fn table(&self) -> FunctionTable {
        self.funcs
    }

    /// The names of the defined functions.
    pub closed spec fn fn_names(&self) -> Seq<Seq<char>> {
        self.funcs.names_view()
    }

    /// The workspace is well formed: no variable is bound twice, and the
    /// name of the current namespace fits a vector.
    pub closed spec fn wf(&self) -> bool {
        unique_names(self.vars@) && self.current_ns@.len() <= i64::MAX && self.funcs.wf()
    }

    /// The name of the current namespace of a well-formed workspace fits a
    /// vector.
    pub proof fn lemma_ns_len(&self)
        requires
            self.wf(),
        ensures
            self.current_ns_view().len() <= i64::MAX,
    {
    }

    /// The known namespaces.
    pub closed spec fn ns_view(&self) -> Set<Seq<char>> {
        Set::new(|k: Seq<char>| exists|i: int| 0 <= i < self.namespaces@.len() && #[trigger] self.namespaces@[i]@ == k)
    }

    /// The current namespace, empty for the root.
    pub closed spec fn current_ns_view(&self) -> Seq<char> {
        self.current_ns@
    }

    /// Whether `name` is a known namespace.
    pub fn has_namespace(&self, name: &String) -> (r: bool)
        ensures
            r == self.ns_view().contains(name@),
    {
        let mut i: usize = 0;
        while i < self.namespaces.len()
            invariant
                i <= self.namespaces@.len(),
                forall|k: int| 0 <= k < i ==> (#[trigger] self.namespaces@[k])@ != name@,
            decreases self.namespaces@.len() - i,
        {
            if self.namespaces[i] == *name {
                return true;
            }
            i += 1;
        }
        false
    }

    /// Make `name` a known namespace.
    pub fn add_namespace(&mut self, name: String)
        ensures
            final(self).ns_view() == old(self).ns_view().insert(name@),
            final(self).vars_view() == old(self).vars_view(),
            final(self).fn_names() == old(self).fn_names(),
            final(self).current_ns_view() == old(self).current_ns_view(),
            old(self).wf() ==> final(self).wf(),
    {
        if !self.has_namespace(&name) {
            let ghost n = name@;
            self.namespaces.push(name);
            proof {
                assert(self.namespaces@[self.namespaces@.len() - 1]@ == n);
                assert forall|k: Seq<char>| #[trigger] self.ns_view().contains(k) == old(self).ns_view().insert(n).contains(k) by {
                    if old(self).ns_view().contains(k) {
                        let i = choose|i: int| 0 <= i < old(self).namespaces@.len() && #[trigger] old(self).namespaces@[i]@ == k;
                        assert(self.namespaces@[i] == old(self).namespaces@[i]);
                    }
                    if self.ns_view().contains(k) {
                        let i = choose|i: int| 0 <= i < self.namespaces@.len() && #[trigger] self.namespaces@[i]@ == k;
                        if i < old(self).namespaces@.len() {
                            assert(self.namespaces@[i] == old(self).namespaces@[i]);
                        }
                    }
                }
                assert(self.ns_view() =~= old(self).ns_view().insert(n));
            }
        } else {
            assert(old(self).ns_view().insert(name@) =~= old(self).ns_view());
        }
    }

    /// Make `name` the current namespace; the one it replaces.
    pub fn switch_namespace(&mut self, name: String) -> (prev: String)
        requires
            name@.len() <= i64::MAX,
        ensures
            prev@ == old(self).current_ns_view(),
            final(self).current_ns_view() == name@,
            final(self).ns_view() == old(self).ns_view(),
            final(self).vars_view() == old(self).vars_view(),
            final(self).fn_names() == old(self).fn_names(),
            old(self).wf() ==> final(self).wf(),
    {
        let mut prev = name;
        std::mem::swap(&mut prev, &mut self.current_ns);
        prev
    }

    /// The names of the defined functions, in order.
    pub fn function_names(&self) -> (r: Vec<String>)
        ensures
            r@.len() == self.fn_names().len(),
            forall|i: int| 0 <= i < r@.len() ==> #[trigger] r@[i]@ == self.fn_names()[i],
    {
        self.funcs.names()
    }

    /// The lines of traditional function `name` as written.
    pub fn function_source(&self, name: &String) -> (r: Option<Vec<String>>)
        requires
            self.wf(),
        ensures
            r is Some <==> self.table().traditional(name@) is Some,
            r matches Some(v) ==> names_of(v@) == names_of(self.table().traditional(name@).unwrap().source@),
    {
        self.funcs.source_of(name)
    }

    /// Whether `name` is a defined function.
    pub fn has_fn(&self, name: &str) -> (r: bool)
        ensures
            r == self.fn_names().contains(name@),
    {
        self.funcs.get(name).is_some()
    }

    /// an empty workspace
    pub fn new() -> (env: Self)
        ensures
            env.wf(),
            env.vars_view() == Map::<Seq<char>, ValueP>::empty(),
            env.fn_names() == Seq::<Seq<char>>::empty(),
            env.ns_view() == Set::<Seq<char>>::empty(),
            env.current_ns_view() == Seq::<char>::empty(),
    {
        let env = Environment {
            vars: Vec::new(),
            funcs: FunctionTable::new(),
            execute_was_shy: false,
            namespaces: Vec::new(),
            current_ns: String::new(),
            execute_depth: 0,
        };
        assert(env.ns_view() =~= Set::<Seq<char>>::empty());
        env
    }

    /// The position of the binding of `name`.
    fn find_var(&self, name: &String) -> (r: Option<usize>)
        requires
            self.wf(),
        ensures
            r matches Some(i) ==> i < self.vars@.len() && self.vars@[i as int].0@ == name@,
            r is None ==> !self.vars_view().dom().contains(name@),
            r matches Some(i) ==> self.vars_view().dom().contains(name@)
                && self.vars_view()[name@] == self.vars@[i as int].1,
    {
        let mut i: usize = 0;
        while i < self.vars.len()
            invariant
                i <= self.vars@.len(),
                unique_names(self.vars@),
                forall|j: int| 0 <= j < i ==> (#[trigger] self.vars@[j]).0@ != name@,
            decreases self.vars@.len() - i,
        {
            if self.vars[i].0 == *name {
                proof { lemma_lookup(self.vars@, i as int); }
                return Some(i);
            }
            i += 1;
        }
        proof { lemma_absent(self.vars@, name@); }
        None
    }

    /// the value of variable `name`
    pub fn get(&self, name: &str) -> (r: Option<&ValueP>)
        requires
            self.wf(),
        ensures
            r matches Some(v) ==> self.vars_view().dom().contains(name@) && *v == self.vars_view()[name@],
            r is None ==> !self.vars_view().dom().contains(name@),
    {
        let key = name.to_owned();
        match self.find_var(&key) {
            Some(i) => Some(&self.vars[i].1),
            None => None,
        }
    }

    /// bind variable `name` to `val`
    /// The name under which `n` is stored in the current namespace.
    pub fn qualified(&self, n: &String) -> (r: String)
        ensures
            r@ == qual(self.current_ns_view(), n@),
    {
        let mut out: Vec<char> = crate::text::str_chars(self.current_ns.as_str());
        if out.len() == 0 {
            return n.clone();
        }
        out.push(':');
        out.push(':');
        let nc = crate::text::str_chars(n.as_str());
        let mut i: usize = 0;
        let ghost head = out@;
        while i < nc.len()
            invariant
                i <= nc@.len(),
                out@ == head + nc@.take(i as int),
            decreases nc@.len() - i,
        {
            out.push(nc[i]);
            proof { assert(nc@.take(i as int + 1) =~= nc@.take(i as int).push(nc@[i as int])); }
            i += 1;
        }
        proof {
            reveal_strlit("::");
            assert(nc@.take(nc@.len() as int) =~= nc@);
            assert(out@ =~= self.current_ns@ + "::"@ + n@);
        }
        crate::text::chars_to_string(out.as_slice())
    }

    /// The value of name `n` read in the current namespace (see `lookup`).
    pub fn lookup_var(&self, n: &String) -> (r: AplResult<ValueP>)
        requires
            self.wf(),
        ensures
            r == lookup(self.vars_view(), self.current_ns_view(), n@),
    {
        let q = self.qualified(n);
        match self.get(q.as_str()) {
            Some(v) => Ok(v.clone()),
            None => match self.get(n.as_str()) {
                Some(v) => Ok(v.clone()),
                None => Err(ErrorCode::ValueError),
            },
        }
    }

    pub fn set(&mut self, name: &str, val: ValueP)
        requires
            old(self).wf(),
        ensures
            final(self).wf(),
            final(self).vars_view() == old(self).vars_view().insert(name@, val),
            final(self).fn_names() == old(self).fn_names(),
            final(self).current_ns_view() == old(self).current_ns_view(),
            final(self).shy_view() == old(self).shy_view(),
    {
        self.insert_var(name.to_owned(), val);
    }

    /// the names of all variables, each once
    pub fn var_names(&self) -> (r: Vec<String>)
        requires
            self.wf(),
        ensures
            r@.len() == self.vars_view().dom().len(),
            forall|i: int| 0 <= i < r@.len() ==> self.vars_view().dom().contains(#[trigger] r@[i]@),
            forall|k: Seq<char>| self.vars_view().dom().contains(k) ==> exists|i: int| 0 <= i < r@.len() && #[trigger] r@[i]@ == k,
            forall|i: int, j: int| 0 <= i < j < r@.len() ==> (#[trigger] r@[i])@ != (#[trigger] r@[j])@,
    {
        let mut out: Vec<String> = Vec::new();
        let mut i: usize = 0;
        while i < self.vars.len()
            invariant
                i <= self.vars@.len(),
                unique_names(self.vars@),
                out@.len() == i,
                forall|j: int| 0 <= j < i ==> (#[trigger] out@[j])@ == self.vars@[j].0@,
            decreases self.vars@.len() - i,
        {
            out.push(self.vars[i].0.clone());
            i += 1;
        }
        proof { lemma_names(self.vars@, out@); }
        out
    }

    /// remove all variables and defined functions
    pub fn clear_workspace(&mut self)
        requires
            old(self).wf(),
        ensures
            final(self).wf(),
            final(self).vars_view() == Map::<Seq<char>, ValueP>::empty(),
            final(self).fn_names() == Seq::<Seq<char>>::empty(),
            final(self).ns_view() == Set::<Seq<char>>::empty(),
            final(self).current_ns_view() == Seq::<char>::empty(),
    {
        self.vars = Vec::new();
        self.funcs = FunctionTable::new();
        self.namespaces = Vec::new();
        self.current_ns = String::new();
        proof {
            assert(self.ns_view() =~= Set::<Seq<char>>::empty());
        }
    }

    /// remove variable `name`
    pub fn erase_var(&mut self, name: &str)
        requires
            old(self).wf(),
        ensures
            final(self).wf(),
            final(self).vars_view() == old(self).vars_view().remove(name@),
            final(self).fn_names() == old(self).fn_names(),
    {
        let key = name.to_owned();
        self.erase_key(&key);
    }

    fn erase_key(&mut self, key: &String)
        requires
            old(self).wf(),
        ensures
            final(self).wf(),
            final(self).vars@ == without_name(old(self).vars@, key@),
            final(self).vars_view() == old(self).vars_view().remove(key@),
            final(self).funcs == old(self).funcs,
            final(self).current_ns == old(self).current_ns,
            final(self).execute_was_shy == old(self).execute_was_shy,
    {
        let ghost s = self.vars@;
        let mut kept: Vec<(String, ValueP)> = Vec::new();
        let mut i: usize = 0;
        while i < self.vars.len()
            invariant
                i <= self.vars@.len(),
                self.vars@ == s,
                kept@ == without_name(s.take(i as int), key@),
            decreases self.vars@.len() - i,
        {
            proof { assert(s.take(i as int + 1).drop_last() =~= s.take(i as int)); }
            if self.vars[i].0 != *key {
                let pair = (self.vars[i].0.clone(), self.vars[i].1.clone());
                kept.push(pair);
            }
            i += 1;
        }
        proof {
            assert(s.take(i as int) =~= s);
            lemma_without_name(s, key@);
        }
        self.vars = kept;
    }

    /// bind variable `name` to `val`
    pub fn insert_var(&mut self, name: String, val: ValueP)
        requires
            old(self).wf(),
        ensures
            final(self).wf(),
            final(self).vars_view() == old(self).vars_view().insert(name@, val),
            final(self).fn_names() == old(self).fn_names(),
            final(self).current_ns_view() == old(self).current_ns_view(),
            final(self).shy_view() == old(self).shy_view(),
    {
        self.erase_key(&name);
        let ghost t = self.vars@;
        proof { lemma_without_name(old(self).vars@, name@); }
        self.vars.push((name, val));
        proof {
            assert(self.vars@.drop_last() =~= t);
            assert(self.vars_view() =~= old(self).vars_view().remove(name@).insert(name@, val));
            assert(old(self).vars_view().remove(name@).insert(name@, val) =~= old(self).vars_view().insert(name@, val));
        }
    }

    /// a copy of the value of variable `name`
    pub fn get_var(&self, name: &str) -> (r: Option<ValueP>)
        requires
            self.wf(),
        ensures
            r matches Some(v) ==> self.vars_view().dom().contains(name@) && v == self.vars_view()[name@],
            r is None ==> !self.vars_view().dom().contains(name@),
    {
        match self.get(name) {
            Some(v) => Some(v.clone()),
            None => None,
        }
    }
}

/// The binding at position `i` is the one a lookup of its name finds.
proof fn lemma_lookup(s: Seq<(String, ValueP)>, i: int)
    requires
        unique_names(s),
        0 <= i < s.len(),
    ensures
        bindings_map(s).dom().contains(s[i].0@),
        bindings_map(s)[s[i].0@] == s[i].1,
    decreases s.len(),
{
    if i < s.len() - 1 {
        assert(unique_names(s.drop_last()));
        lemma_lookup(s.drop_last(), i);
        assert(s[i].0@ != s.last().0@);
    }
}

/// A name bound nowhere in the list is not a variable.
proof fn lemma_absent(s: Seq<(String, ValueP)>, k: Seq<char>)
    requires
        forall|j: int| 0 <= j < s.len() ==> (#[trigger] s[j]).0@ != k,
    ensures
        !bindings_map(s).dom().contains(k),
    decreases s.len(),
{
    if s.len() > 0 {
        lemma_absent(s.drop_last(), k);
    }
}

/// The variables of a list of bindings are finitely many.
proof fn lemma_finite(s: Seq<(String, ValueP)>)
    ensures
        bindings_map(s).dom().finite(),
    decreases s.len(),
{
    if s.len() > 0 {
        lemma_finite(s.drop_last());
    }
}

/// The names of a list of unique bindings are the variables, each once.
proof fn lemma_names(s: Seq<(String, ValueP)>, names: Seq<String>)
    requires
        unique_names(s),
        names.len() == s.len(),
        forall|j: int| 0 <= j < s.len() ==> (#[trigger] names[j])@ == s[j].0@,
    ensures
        names.len() == bindings_map(s).dom().len(),
        forall|i: int| 0 <= i < names.len() ==> bindings_map(s).dom().contains(#[trigger] names[i]@),
        forall|k: Seq<char>| bindings_map(s).dom().contains(k) ==> exists|i: int| 0 <= i < names.len() && #[trigger] names[i]@ == k,
        forall|i: int, j: int| 0 <= i < j < names.len() ==> (#[trigger] names[i])@ != (#[trigger] names[j])@,
    decreases s.len(),
{
    if s.len() > 0 {
        let t = s.drop_last();
        assert(unique_names(t));
        lemma_names(t, names.drop_last());
        assert forall|i: int| 0 <= i < t.len() implies (#[trigger] t[i]).0@ != s.last().0@ by {
            assert(s[i] == t[i]);
        }
        lemma_absent(t, s.last().0@);
        lemma_finite(t);
        assert(bindings_map(s).dom() =~= bindings_map(t).dom().insert(s.last().0@));
        assert(bindings_map(s).dom().len() == bindings_map(t).dom().len() + 1);
        assert forall|k: Seq<char>| bindings_map(s).dom().contains(k) implies exists|i: int| 0 <= i < names.len() && #[trigger] names[i]@ == k by {
            if k == s.last().0@ {
                assert(names[names.len() - 1]@ == k);
            } else {
                let i = choose|i: int| 0 <= i < names.drop_last().len() && #[trigger] names.drop_last()[i]@ == k;
                assert(names[i]@ == k);
            }
        }
        assert forall|i: int| 0 <= i < names.len() implies bindings_map(s).dom().contains(#[trigger] names[i]@) by {
            if i < names.len() - 1 {
                assert(names.drop_last()[i] == names[i]);
            }
        }
    } else {
        assert(bindings_map(s).dom() =~= Set::<Seq<char>>::empty());
    }
}

// ---------------------------------------------------------------------------
// Expressions
// ---------------------------------------------------------------------------

/// A function in an expression.
pub enum FnRef {
    /// a primitive glyph
    Prim(Prim),
    /// `f/`
    Reduce(Prim),
    /// `f⌿`
    Reduce1(Prim),
    /// `f/[k]`
    ReduceAxis(Prim, Box<Expr>),
    /// `f\`
    Scan(Prim),
    /// `f¨`
    Each(Prim),
    /// `g¨` with a defined function
    EachName(String),
    /// `f⍨`
    Commute(Prim),
    /// `∘.f`
    Outer(Prim),
    /// `f.g`
    Inner(Prim, Prim),
    /// `f⍤k` or `f⍤kl kr`
    Rank(Prim, i64, i64),
    /// `f[k]`
    Axis(Prim, Box<Expr>),
    /// a defined function
    Named(String),
    /// a direct function `{…}`
    Dfn(Vec<Tok>),
    /// `f⍣n`
    Power(Prim, i64),
    /// `g⍣n` with a defined function
    PowerNamed(String, i64),
}

/// An expression.
pub enum Expr {
    /// a literal value
    Lit(ValueP),
    /// a variable
    Var(String),
    /// `⍺`
    Alpha,
    /// `⍵`
    Omega,
    /// a strand of two or more items; when one of them is written in
    /// parentheses, every item becomes a nested element
    Strand(Vec<Expr>, bool),
    /// bracket indexing, one optional index per axis
    Index(Box<Expr>, Vec<Option<Expr>>),
    /// a monadic function call
    Monadic(Box<FnRef>, Box<Expr>),
    /// a dyadic function call
    Dyadic(Box<FnRef>, Box<Expr>, Box<Expr>),
    /// `NAME←B`
    Assign(String, Box<Expr>),
    /// `NAME f←B`
    ModAssign(String, Prim, Box<Expr>),
    /// `NAME[i;…]←B`
    IndexAssign(String, Vec<Option<Expr>>, Box<Expr>),
    /// `NAME←{…}`
    DefFn(String, Vec<Tok>),
    /// `⎕EA G ⋄ F`: G, or F when G fails
    ErrorGuard(Box<Expr>, Box<Expr>),
    /// `(f NAME)←B`: assign B to the elements of NAME that `f` selects
    SelAssign(String, Box<Expr>, Box<Expr>),
    /// a call of a traditional function that takes no argument
    Niladic(String),
}

/// An expression built only from literals, variables, `⍺`, `⍵`,
/// primitive glyphs applied to one or two arguments (`⍎` and the indexing
/// `⌷` aside), `⍨` of a glyph, assignment and modified assignment: those
/// whose evaluation `evaluates` states.
pub open spec fn plain_expr(e: Expr) -> bool
    decreases e,
{
    match e {
        Expr::Lit(_) | Expr::Var(_) | Expr::Alpha | Expr::Omega => true,
        Expr::Monadic(f, x) => (*f matches FnRef::Prim(p) && p != Prim::Execute) && plain_expr(*x),
        Expr::Dyadic(f, a, b) => ((*f matches FnRef::Prim(p) && p != Prim::Squad) || *f is Commute)
            && plain_expr(*a) && plain_expr(*b),
        Expr::Assign(_, x) => plain_expr(*x),
        Expr::ModAssign(_, _, x) => plain_expr(*x),
        _ => false,
    }
}

/// What a glyph gives applied to `b` with the variables `vars`: the error
/// of reading ⎕IO, or the glyph's own result.
pub open spec fn glyph_monadic(vars: Map<Seq<char>, ValueP>, p: Prim, b: ValueP, r: AplResult<ValueP>) -> bool {
    match crate::sysvars::io_of(vars) {
        Err(e) => r == Err::<ValueP, ErrorCode>(e),
        Ok(io) => crate::dispatch::monadic_post(p, b, io, r),
    }
}

/// What a glyph gives applied to `a` and `b` with the variables `vars`.
pub open spec fn glyph_dyadic(vars: Map<Seq<char>, ValueP>, p: Prim, a: ValueP, b: ValueP, r: AplResult<ValueP>) -> bool {
    match crate::sysvars::io_of(vars) {
        Err(e) => r == Err::<ValueP, ErrorCode>(e),
        Ok(io) => crate::dispatch::dyadic_post(p, a, b, io, r),
    }
}

/// The name under which `n` is stored in namespace `ns`: `ns::n`, or `n`
/// itself in the root.
pub open spec fn qual(ns: Seq<char>, n: Seq<char>) -> Seq<char> {
    if ns.len() == 0 { n } else { ns + "::"@ + n }
}

/// The value of name `n` read in namespace `ns`: the namespace's own
/// binding, else the root's, else VALUE ERROR.
pub open spec fn lookup(vars: Map<Seq<char>, ValueP>, ns: Seq<char>, n: Seq<char>) -> AplResult<ValueP> {
    if vars.dom().contains(qual(ns, n)) {
        Ok(vars[qual(ns, n)])
    } else if vars.dom().contains(n) {
        Ok(vars[n])
    } else {
        Err(ErrorCode::ValueError)
    }
}

/// The intermediate results of an evaluation: for each argument
/// evaluated, the variables it left and what it gave, with its own trace.
pub enum EvalTrace {
    Done,
    Step(Map<Seq<char>, ValueP>, AplResult<ValueP>, Box<EvalTrace>),
    Steps(Map<Seq<char>, ValueP>, AplResult<ValueP>, Box<EvalTrace>, Map<Seq<char>, ValueP>, AplResult<ValueP>, Box<EvalTrace>),
}

/// Evaluating `e` with the variables `v0` and the arguments `fr` may
/// leave the variables `v1` and give `r`, with the intermediate results
/// `t`. A literal gives itself; a variable its value or VALUE ERROR; a
/// glyph applies to the values of its arguments (the left one evaluated
/// first; `⍨` swaps them); `NAME←B` binds NAME to the value of B and gives
/// it; `NAME f←B` binds NAME to `NAME f B` (the old value on the left) and
/// gives it. An error of a part is the error of the whole, with the
/// variables as that part left them.
pub open spec fn eval_trace(v0: Map<Seq<char>, ValueP>, ns: Seq<char>, e: Expr, fr: Frame, v1: Map<Seq<char>, ValueP>,
    r: AplResult<ValueP>, t: EvalTrace) -> bool
    decreases e,
{
    match e {
        Expr::Lit(v) => v1 == v0 && r == Ok::<ValueP, ErrorCode>(v),
        Expr::Var(n) => v1 == v0 && r == lookup(v0, ns, n@),
        Expr::Alpha => v1 == v0 && r == (match fr.alpha { Some(v) => Ok::<ValueP, ErrorCode>(v), None => Err(ErrorCode::ValueError) }),
        Expr::Omega => v1 == v0 && r == (match fr.omega { Some(v) => Ok::<ValueP, ErrorCode>(v), None => Err(ErrorCode::ValueError) }),
        Expr::Monadic(f, x) => match t {
            EvalTrace::Step(vm, rx, tx) => eval_trace(v0, ns, *x, fr, vm, rx, *tx) && match rx {
                Err(er) => v1 == vm && r == Err::<ValueP, ErrorCode>(er),
                Ok(xv) => v1 == vm && match *f {
                    FnRef::Prim(p) => glyph_monadic(vm, p, xv, r),
                    _ => true,
                },
            },
            _ => false,
        },
        Expr::Dyadic(f, a, b) => match t {
            EvalTrace::Step(va, ra, ta) => eval_trace(v0, ns, *a, fr, va, ra, *ta)
                && ra is Err && v1 == va && r == ra,
            EvalTrace::Steps(va, ra, ta, vb, rb, tb) => eval_trace(v0, ns, *a, fr, va, ra, *ta)
                && ra is Ok && eval_trace(va, ns, *b, fr, vb, rb, *tb) && v1 == vb && match rb {
                    Err(er) => r == Err::<ValueP, ErrorCode>(er),
                    Ok(bv) => match *f {
                        FnRef::Prim(p) => glyph_dyadic(vb, p, ra->Ok_0, bv, r),
                        FnRef::Commute(p) => glyph_dyadic(vb, p, bv, ra->Ok_0, r),
                        _ => true,
                    },
                },
            _ => false,
        },
        Expr::Assign(n, x) => match t {
            EvalTrace::Step(vm, rx, tx) => eval_trace(v0, ns, *x, fr, vm, rx, *tx) && match rx {
                Err(er) => v1 == vm && r == Err::<ValueP, ErrorCode>(er),
                Ok(xv) => v1 == vm.insert(qual(ns, n@), xv) && r == Ok::<ValueP, ErrorCode>(xv),
            },
            _ => false,
        },
        Expr::ModAssign(n, p, x) => match t {
            EvalTrace::Step(vm, rx, tx) => eval_trace(v0, ns, *x, fr, vm, rx, *tx) && match rx {
                Err(er) => v1 == vm && r == Err::<ValueP, ErrorCode>(er),
                Ok(xv) => match lookup(vm, ns, n@) {
                    Err(er) => v1 == vm && r == Err::<ValueP, ErrorCode>(er),
                    Ok(cur) => glyph_dyadic(vm, p, cur, xv, r) && match r {
                        Err(_) => v1 == vm,
                        Ok(nv) => v1 == vm.insert(qual(ns, n@), nv),
                    },
                },
            },
            _ => false,
        },
        _ => true,
    }
}

/// An operand whose evaluation changes nothing: a literal, a variable,
/// `⍺` or `⍵`.
pub open spec fn quiet_operand(x: Expr) -> bool {
    x is Lit || x is Var || x is Alpha || x is Omega
}

/// `NAME[i;…]←B` where B and every index are such operands.
pub open spec fn quiet_index_assign(e: Expr) -> bool {
    e matches Expr::IndexAssign(_, axes, rhs) && quiet_operand(*rhs)
        && forall|k: int| 0 <= k < axes@.len() ==> (#[trigger] axes@[k] matches Some(x) ==> quiet_operand(x))
}

/// Evaluating `e` may leave the variables `v1` and give `r` (see
/// `eval_trace`).
pub open spec fn evaluates(v0: Map<Seq<char>, ValueP>, ns: Seq<char>, e: Expr, fr: Frame, v1: Map<Seq<char>, ValueP>,
    r: AplResult<ValueP>) -> bool
{
    exists|t: EvalTrace| #[trigger] eval_trace(v0, ns, e, fr, v1, r, t)
}

/// The arguments of the direct function being evaluated.
pub struct Frame {
    pub alpha: Option<ValueP>,
    pub omega: Option<ValueP>,
}

/// A token that opens a bracketed group.
pub open spec fn is_open(t: Tok) -> bool {
    t is LParen || t is LBracket || t is LBrace
}

/// A token that closes a bracketed group.
pub open spec fn is_close(t: Tok) -> bool {
    t is RParen || t is RBracket || t is RBrace
}

fn open_tok(t: &Tok) -> (r: bool)
    ensures
        r == is_open(*t),
{
    match t { Tok::LParen | Tok::LBracket | Tok::LBrace => true, _ => false }
}

fn close_tok(t: &Tok) -> (r: bool)
    ensures
        r == is_close(*t),
{
    match t { Tok::RParen | Tok::RBracket | Tok::RBrace => true, _ => false }
}

/// The bracket depth after the tokens `t[lo..j]`: each opening token adds
/// one, each closing token takes one away, never below zero.
pub open spec fn depth_at(t: Seq<Tok>, lo: int, j: int) -> nat
    decreases j - lo,
{
    if j <= lo {
        0
    } else {
        let d = depth_at(t, lo, j - 1);
        if is_open(t[j - 1]) {
            d + 1
        } else if is_close(t[j - 1]) {
            if d > 0 { (d - 1) as nat } else { 0 }
        } else {
            d
        }
    }
}

/// The first position from `j` on, below `hi`, of a closing token at depth
/// at most one below the group opened at `i`.
pub open spec fn first_close(t: Seq<Tok>, i: int, j: int, hi: int) -> Option<int>
    decreases hi - j,
{
    if j >= hi {
        None
    } else if is_close(t[j]) && depth_at(t, i, j) <= 1 {
        Some(j)
    } else {
        first_close(t, i, j + 1, hi)
    }
}

/// The position of the token that closes the group opened at `i`, if `t[i]`
/// opens one and it closes before `hi`.
pub open spec fn close_of(t: Seq<Tok>, i: int, hi: int) -> Option<int> {
    if is_open(t[i]) { first_close(t, i, i + 1, hi) } else { None }
}

/// The token is the separator asked for: 0 a diamond, 1 a semicolon, 2 a
/// colon.
pub open spec fn is_sep(t: Tok, which: u8) -> bool {
    (t is Diamond && which == 0) || (t is Semicolon && which == 1) || (t is Colon && which == 2)
}

/// The first position from `j` on, below `hi`, of the separator asked for
/// at depth zero counted from `lo`.
pub open spec fn first_top(t: Seq<Tok>, lo: int, j: int, hi: int, which: u8) -> Option<int>
    decreases hi - j,
{
    if j >= hi {
        None
    } else if depth_at(t, lo, j) == 0 && is_sep(t[j], which) {
        Some(j)
    } else {
        first_top(t, lo, j + 1, hi, which)
    }
}

/// The dimensions of `B[s1;s2;…]`: for each axis, its length when its
/// index is elided, else the dimensions of the index.
pub open spec fn index_dims(d: Seq<i64>, sel: Seq<Option<ValueP>>) -> Seq<i64>
    decreases sel.len(),
{
    if sel.len() == 0 {
        Seq::empty()
    } else {
        index_dims(d, sel.drop_last()) + match sel.last() {
            None => seq![d[sel.len() - 1]],
            Some(v) => v.dims(),
        }
    }
}

/// The stretches `(start, end)` between the top-level `;` of an index
/// from `lo` to `hi`.
pub open spec fn axis_cuts(t: Seq<Tok>, lo: int, hi: int) -> Seq<(int, int)>
    decreases hi - lo,
{
    match first_top(t, lo, lo, hi, 1) {
        Some(m) => if lo <= m < hi { seq![(lo, m)] + axis_cuts(t, m + 1, hi) } else { Seq::empty() },
        None => seq![(lo, hi)],
    }
}

/// The position of the token that closes the group opened at `i`.
pub(crate) fn find_close(t: &[Tok], i: usize, hi: usize) -> (r: Option<usize>)
    requires
        i < hi <= t@.len(),
    ensures
        r matches Some(m) ==> i < m < hi,
        r matches Some(m) ==> close_of(t@, i as int, hi as int) == Some(m as int),
        r is None ==> close_of(t@, i as int, hi as int) is None,
{
    let mut depth: usize = 0;
    let mut j: usize = i;
    while j < hi
        invariant
            i <= j <= hi <= t@.len(),
            j > i ==> depth > 0,
            j == i ==> depth == 0,
            j > i ==> is_open(t@[i as int]),
            j > i ==> depth == depth_at(t@, i as int, j as int),
            j > i ==> first_close(t@, i as int, i as int + 1, hi as int) == first_close(t@, i as int, j as int, hi as int),
            depth <= j - i,
        decreases hi - j,
    {
        proof { assert(depth_at(t@, i as int, i as int) == 0); }
        if open_tok(&t[j]) {
            depth = if depth < usize::MAX { depth + 1 } else { depth };
        } else if close_tok(&t[j]) {
            if depth <= 1 {
                if j > i {
                    return Some(j);
                }
                return None;
            }
            depth -= 1;
        }
        if j == i && depth == 0 {
            return None;
        }
        proof {
            assert(depth == depth_at(t@, i as int, j as int + 1));
        }
        j += 1;
    }
    None
}

/// The first token at group depth 0 in `t[lo..hi]` that is a diamond
/// (or a semicolon or colon, as asked).
pub(crate) fn find_top(t: &[Tok], lo: usize, hi: usize, which: u8) -> (r: Option<usize>)
    requires
        lo <= hi <= t@.len(),
    ensures
        r matches Some(m) ==> lo <= m < hi,
        r matches Some(m) ==> first_top(t@, lo as int, lo as int, hi as int, which) == Some(m as int),
        r is None ==> first_top(t@, lo as int, lo as int, hi as int, which) is None,
{
    let mut depth: usize = 0;
    let mut j: usize = lo;
    while j < hi
        invariant
            lo <= j <= hi <= t@.len(),
            depth == depth_at(t@, lo as int, j as int),
            depth <= j - lo,
            first_top(t@, lo as int, lo as int, hi as int, which) == first_top(t@, lo as int, j as int, hi as int, which),
        decreases hi - j,
    {
        proof { assert(depth_at(t@, lo as int, lo as int) == 0); }
        let tk = &t[j];
        if open_tok(tk) {
            depth = if depth < usize::MAX { depth + 1 } else { depth };
        } else if close_tok(tk) {
            if depth > 0 { depth -= 1; }
        } else if depth == 0 {
            let hit = match tk {
                Tok::Diamond => which == 0,
                Tok::Semicolon => which == 1,
                Tok::Colon => which == 2,
                _ => false,
            };
            if hit {
                return Some(j);
            }
        }
        j += 1;
    }
    None
}

/// The value of a literal run of integers: a scalar for one, a vector for
/// several.
fn num_value(t: &[Tok], lo: usize, hi: usize) -> (r: AplResult<ValueP>)
    requires
        lo < hi <= t@.len(),
    ensures
        ({
            let w = num_vals(t@.subrange(lo as int, hi as int));
            &&& w.len() == 1 ==> (r matches Ok(v) && v.dims() == Seq::<i64>::empty() && v.ravel() == seq![Cell::Int(w[0])])
            &&& (w.len() != 1 && w.len() > i64::MAX) ==> r == Err::<ValueP, ErrorCode>(ErrorCode::LimitError)
            &&& (w.len() != 1 && w.len() <= i64::MAX) ==> (r matches Ok(v) && v.dims() == seq![w.len() as i64]
                && v.ravel() == crate::value::int_cells(w))
        }),
{
    let mut vals: Vec<i64> = Vec::new();
    let mut j: usize = lo;
    proof { assert(t@.subrange(lo as int, lo as int) =~= Seq::<Tok>::empty()); }
    while j < hi
        invariant
            lo <= j <= hi <= t@.len(),
            vals@ == num_vals(t@.subrange(lo as int, j as int)),
        decreases hi - j,
    {
        proof {
            assert(t@.subrange(lo as int, j as int + 1).drop_last() =~= t@.subrange(lo as int, j as int));
            assert(t@.subrange(lo as int, j as int + 1).last() == t@[j as int]);
        }
        if let Tok::Num(n) = &t[j] {
            vals.push(*n);
        }
        j += 1;
    }
    if vals.len() == 1 {
        Ok(ValueP::scalar_from(Cell::Int(vals[0])))
    } else if vals.len() as u128 > i64::MAX as u128 {
        Err(ErrorCode::LimitError)
    } else {
        Ok(ValueP::int_vector(vals.as_slice()))
    }
}

/// The value of a string literal: a scalar for one character.
fn str_value(s: &Vec<u32>) -> (r: ValueP)
    ensures
        s@.len() == 1 ==> r.dims() == Seq::<i64>::empty() && r.ravel() == seq![Cell::Char(s@[0])],
        s@.len() != 1 && s@.len() <= i64::MAX ==> r.dims() == seq![s@.len() as i64]
            && r.ravel() == crate::value::char_cells(s@),
        s@.len() > i64::MAX ==> r.dims() == seq![0i64],
{
    if s.len() == 1 {
        ValueP::scalar_from(Cell::Char(s[0]))
    } else {
        let n = s.len();
        if n as u128 > i64::MAX as u128 {
            return ValueP::char_vector(&[]);
        }
        ValueP::char_vector(s.as_slice())
    }
}

/// Whether a token is a number.
fn is_num_tok(t: &Tok) -> (r: bool)
    ensures
        r == (*t is Num),
{
    match t { Tok::Num(_) => true, _ => false }
}

/// Whether a token opens brackets.
fn is_lbracket(t: &Tok) -> (r: bool)
    ensures
        r == (*t is LBracket),
{
    match t { Tok::LBracket => true, _ => false }
}

/// A token that can begin an item of a strand.
pub open spec fn begins_item(t: Tok) -> bool {
    t is Num || t is Str || t is Zilde || t is Name || t is Alpha || t is Omega || t is LParen
}

/// A token that ends a strand.
pub open spec fn ends_strand(t: Tok) -> bool {
    t is Assign || t is RParen || t is RBracket || t is RBrace || t is End || t is Diamond
        || t is Colon || t is Semicolon
}

/// Whether a token can begin an item of a strand.
fn starts_item(t: &Tok) -> (r: bool)
    ensures
        r == begins_item(*t),
{
    match t { Tok::Num(_) | Tok::Str(_) | Tok::Zilde | Tok::Name(_) | Tok::Alpha | Tok::Omega
        | Tok::LParen => true, _ => false }
}

/// Whether a token ends a strand.
fn ends_noun(t: &Tok) -> (r: bool)
    ensures
        r == ends_strand(*t),
{
    match t { Tok::Assign | Tok::RParen | Tok::RBracket | Tok::RBrace | Tok::End | Tok::Diamond
        | Tok::Colon | Tok::Semicolon => true, _ => false }
}

/// Clone a run of tokens.
fn clone_toks(t: &[Tok], lo: usize, hi: usize) -> (r: Vec<Tok>)
    requires
        lo <= hi <= t@.len(),
    ensures
        crate::tokenizer::toks_view(r@) == crate::tokenizer::toks_view(t@.subrange(lo as int, hi as int)),
{
    let mut out: Vec<Tok> = Vec::new();
    let mut j: usize = lo;
    while j < hi
        invariant
            lo <= j <= hi <= t@.len(),
            out@.len() == j - lo,
            crate::tokenizer::toks_view(out@) == crate::tokenizer::toks_view(t@.subrange(lo as int, j as int)),
        decreases hi - j,
    {
        let ghost before = out@;
        out.push(crate::tokenizer::copy_tok(&t[j]));
        proof {
            let x = crate::tokenizer::toks_view(out@);
            let y = crate::tokenizer::toks_view(t@.subrange(lo as int, j as int + 1));
            assert forall|k: int| 0 <= k < x.len() implies x[k] == y[k] by {
                if k < j - lo {
                    assert(crate::tokenizer::toks_view(before)[k] == crate::tokenizer::toks_view(t@.subrange(lo as int, j as int))[k]);
                    assert(out@[k] == before[k]);
                }
            }
            assert(x =~= y);
        }
        j += 1;
    }
    out
}

/// A cell that holds a character.
pub open spec fn text_cell(c: Cell) -> bool {
    c matches Cell::Char(u) && crate::text::is_scalar_value(u)
}

/// Cells that are all characters.
pub open spec fn all_text(s: Seq<Cell>) -> bool {
    forall|i: int| 0 <= i < s.len() ==> text_cell(#[trigger] s[i])
}

/// Cells that are all white space (none at all included).
pub open spec fn all_blank(s: Seq<Cell>) -> bool {
    forall|i: int| 0 <= i < s.len() ==> (#[trigger] s[i] matches Cell::Char(u) && crate::quad::white_code(u))
}

/// A token that is an item of a line of numbers and glyphs: a number,
/// `⍺` or `⍵`.
pub open spec fn arith_item(x: Tok) -> bool {
    x is Num || x is Alpha || x is Omega
}

/// `x` is the expression of such an item: the literal number, `⍺` or `⍵`.
pub open spec fn item_lit(x: Expr, tok: Tok) -> bool {
    match tok {
        Tok::Num(n) => num_lit(x, n),
        Tok::Alpha => x is Alpha,
        Tok::Omega => x is Omega,
        _ => false,
    }
}

/// Token `i` is such an item standing alone before a glyph (or the end at
/// `hi`).
pub open spec fn lone_num(t: Seq<Tok>, i: int, hi: int) -> bool {
    arith_item(t[i]) && (i + 1 == hi || t[i + 1] is Prim)
}

/// `x` is the literal scalar integer `n`.
pub open spec fn num_lit(x: Expr, n: i64) -> bool {
    x matches Expr::Lit(v) && v.dims() == Seq::<i64>::empty() && v.ravel() == seq![Cell::Int(n)]
}

/// Tokens `lo`…`hi` are numbers and glyphs in turn, `n g n g … n`, and `x`
/// is their tree: APL evaluates right to left, so each glyph takes the
/// number before it on its left and everything after it on its right.
pub open spec fn arith_tree(t: Seq<Tok>, lo: int, hi: int, x: Expr) -> bool
    decreases hi - lo,
{
    if hi == lo + 1 {
        arith_item(t[lo]) && item_lit(x, t[lo])
    } else if hi >= lo + 3 {
        &&& arith_item(t[lo])
        &&& t[lo + 1] is Prim
        &&& x matches Expr::Dyadic(f, a, b) && *f == FnRef::Prim(t[lo + 1]->Prim_0)
            && item_lit(*a, t[lo]) && arith_tree(t, lo + 2, hi, *b)
    } else {
        false
    }
}

/// The tree of a line of numbers and glyphs is one whose evaluation
/// `evaluates` states, when no glyph is `⌷`: so `2×3+4` parses as
/// `2×(3+4)` and evaluates as the glyphs' contracts give, right to left.
pub proof fn law_arith_tree_evaluable(t: Seq<Tok>, lo: int, hi: int, x: Expr)
    requires
        arith_tree(t, lo, hi, x),
        forall|k: int| lo <= k < hi ==> !(#[trigger] t[k] matches Tok::Prim(p) && p == Prim::Squad),
    ensures
        plain_expr(x),
    decreases hi - lo,
{
    if hi >= lo + 3 {
        let f = x->Dyadic_0;
        let a = x->Dyadic_1;
        let b = x->Dyadic_2;
        assert(x == Expr::Dyadic(f, a, b));
        assert(!(t[lo + 1] matches Tok::Prim(p) && p == Prim::Squad));
        assert(t[lo + 1]->Prim_0 != Prim::Squad);
        assert(*f == FnRef::Prim(t[lo + 1]->Prim_0));
        assert(plain_expr(*a));
        law_arith_tree_evaluable(t, lo + 2, hi, *b);
        assert(plain_expr(*b));
    }
}

/// Tokens `lo`…`hi` are numbers and glyphs in turn, starting and ending
/// with a number.
pub open spec fn arith_line(t: Seq<Tok>, lo: int, hi: int) -> bool
    decreases hi - lo,
{
    if hi == lo + 1 {
        arith_item(t[lo])
    } else if hi >= lo + 3 {
        arith_item(t[lo]) && t[lo + 1] is Prim && arith_line(t, lo + 2, hi)
    } else {
        false
    }
}

/// Tokens `lo`…`hi` assign a line of numbers and glyphs to a name:
/// `NAME←n g … n`.
pub open spec fn arith_assign(t: Seq<Tok>, lo: int, hi: int) -> bool {
    hi >= lo + 3 && t[lo] is Name && t[lo + 1] is Assign && arith_line(t, lo + 2, hi)
}

/// `x` is the tree of the assignment `t[lo..hi]` (see `arith_assign`).
pub open spec fn assign_tree(t: Seq<Tok>, lo: int, hi: int, x: Expr) -> bool {
    x matches Expr::Assign(n, y) && n@ == t[lo]->Name_0@ && arith_tree(t, lo + 2, hi, *y)
}

/// Tokens `lo`…`hi` of a scanned line are numbers and glyphs in turn, `⌷`
/// not among them, starting and ending with a number.
pub open spec fn arith_line_v(t: Seq<TokV>, lo: int, hi: int) -> bool
    decreases hi - lo,
{
    if hi == lo + 1 {
        t[lo] is Num || t[lo] is Alpha || t[lo] is Omega
    } else if hi >= lo + 3 {
        (t[lo] is Num || t[lo] is Alpha || t[lo] is Omega)
            && (t[lo + 1] matches TokV::Prim(p) && p != Prim::Squad) && arith_line_v(t, lo + 2, hi)
    } else {
        false
    }
}

/// The tokens of a scanned line (its end token last) that hold one
/// statement: numbers and glyphs in turn, or their assignment to a name.
pub open spec fn simple_statement(tv: Seq<TokV>) -> bool {
    &&& tv.len() >= 2
    &&& arith_line_v(tv, 0, tv.len() - 1)
        || (tv.len() >= 4 && tv[0] is Name && tv[1] is Assign && arith_line_v(tv, 2, tv.len() - 1))
}

/// `e` is the tree of the one statement of the tokens `t` (see
/// `simple_statement`).
pub open spec fn statement_tree(t: Seq<Tok>, e: Expr) -> bool {
    if t[0] is Name {
        assign_tree(t, 0, t.len() - 1, e)
    } else {
        arith_tree(t, 0, t.len() - 1, e)
    }
}

/// What a line of one statement `e` gives when the statement gives `rv`:
/// its error, nothing for an assignment, else its value.
pub open spec fn statement_result(e: Expr, rv: AplResult<ValueP>) -> AplResult<Option<ValueP>> {
    match rv {
        Err(er) => Err(er),
        Ok(v) => Ok(if e is Assign { None } else { Some(v) }),
    }
}

/// The arguments of a direct function called with `alpha` and `omega`.
pub open spec fn dfn_frame(alpha: Option<ValueP>, omega: ValueP) -> Frame {
    Frame { alpha: alpha, omega: Some(omega) }
}

/// Calling a direct function whose body `body` is one line of numbers,
/// `⍺`, `⍵` and glyphs, with the variables `v0` in namespace `ns` and the
/// arguments `alpha` and `omega`, gives `r`: the body's tree evaluated with
/// those arguments.
pub open spec fn dfn_gives(v0: Map<Seq<char>, ValueP>, ns: Seq<char>, body: Seq<Tok>, alpha: Option<ValueP>,
    omega: ValueP, r: AplResult<ValueP>) -> bool
{
    exists|t: Seq<Tok>, e: Expr, v1: Map<Seq<char>, ValueP>, rv: AplResult<ValueP>|
        #![trigger arith_tree(t, 0, t.len() as int, e), evaluates(v0, ns, e, dfn_frame(alpha, omega), v1, rv)]
        toks_view(t) == toks_view(body) && arith_tree(t, 0, t.len() as int, e)
        && evaluates(v0, ns, e, dfn_frame(alpha, omega), v1, rv) && r == rv
}

/// The arguments of a line outside any function: none.
pub open spec fn no_frame() -> Frame {
    Frame { alpha: None, omega: None }
}

/// The text of character cells.
pub open spec fn text_of(s: Seq<Cell>) -> Seq<char> {
    Seq::new(s.len(), |i: int| crate::quad::char_of(s[i]->Char_0))
}

/// What `⍎` gives when the one statement `e` of its text gives `rv`, and
/// whether the result is quiet (`shy`): the error; a quiet scalar 0 for an
/// assignment; else the statement's value.
pub open spec fn executed(e: Expr, rv: AplResult<ValueP>, r: AplResult<ValueP>, shy: bool) -> bool {
    match rv {
        Err(er) => r == Err::<ValueP, ErrorCode>(er),
        Ok(v) => if e is Assign {
            r matches Ok(w) && w.dims() == Seq::<i64>::empty() && w.ravel() == seq![Cell::Int(0)] && shy
        } else {
            r == Ok::<ValueP, ErrorCode>(v) && !shy
        },
    }
}

/// The tokens behind scanned tokens of numbers and glyphs are numbers and
/// glyphs in turn, with no `⌷`, no `⋄` and no bracket among them.
proof fn lemma_arith_line_view(t: Seq<Tok>, lo: int, hi: int)
    requires
        0 <= lo < hi <= t.len(),
        arith_line_v(toks_view(t), lo, hi),
    ensures
        arith_line(t, lo, hi),
        forall|k: int| lo <= k < hi ==> (arith_item(#[trigger] t[k]) || (t[k] matches Tok::Prim(p) && p != Prim::Squad)),
    decreases hi - lo,
{
    assert(toks_view(t)[lo] == t[lo]@);
    if hi >= lo + 3 {
        assert(toks_view(t)[lo + 1] == t[lo + 1]@);
        lemma_arith_line_view(t, lo + 2, hi);
        assert forall|k: int| lo <= k < hi implies (arith_item(#[trigger] t[k]) || (t[k] matches Tok::Prim(p) && p != Prim::Squad)) by {
            if k >= lo + 2 {
            }
        }
    }
}

/// No token is the glyph `⌷`.
pub open spec fn no_index_glyph(t: Seq<Tok>) -> bool {
    forall|k: int| 0 <= k < t.len() ==> !(#[trigger] t[k] matches Tok::Prim(p) && p == Prim::Squad)
}

/// The tokens of a line of numbers and glyphs are items and glyphs.
proof fn lemma_arith_line_tokens(t: Seq<Tok>, lo: int, hi: int)
    requires
        arith_line(t, lo, hi),
    ensures
        forall|k: int| lo <= k < hi ==> (arith_item(#[trigger] t[k]) || t[k] is Prim),
    decreases hi - lo,
{
    if hi >= lo + 3 {
        lemma_arith_line_tokens(t, lo + 2, hi);
    }
}

/// No separator `⋄` among the tokens from `j` to `hi` (and no bracket):
/// there is none at the top.
proof fn lemma_no_top(t: Seq<Tok>, lo: int, j: int, hi: int, which: u8)
    requires
        lo <= j,
        hi <= t.len(),
        forall|k: int| j <= k < hi ==> (arith_item(#[trigger] t[k]) || t[k] is Prim || t[k] is Name || t[k] is Assign),
    ensures
        first_top(t, lo, j, hi, which) is None,
    decreases hi - j,
{
    if j < hi {
        lemma_no_top(t, lo, j + 1, hi, which);
    }
}

/// A token that is a whole item by itself: a string, `⍬`, a name, `⍺` or
/// `⍵`.
pub open spec fn single_item(x: Tok) -> bool {
    x is Str || x is Zilde || x is Name || x is Alpha || x is Omega
}

/// A token that is a value by itself and begins no function: a string,
/// `⍬`, `⍺` or `⍵`.
pub open spec fn lone_value(x: Tok) -> bool {
    x is Str || x is Zilde || x is Alpha || x is Omega
}

/// A token that always begins a function: a glyph, an operator, `{` or
/// `⍨`.
pub open spec fn fn_glyph(x: Tok) -> bool {
    ||| x is Prim
    ||| x is Reduce
    ||| x is Reduce1
    ||| x is Scan
    ||| x is Scan1
    ||| x is Each
    ||| x is EachName
    ||| x is Rank
    ||| x is OuterDot
    ||| x is InnerDot
    ||| x is MatrixProduct
    ||| x is PowerOp
    ||| x is LBrace
    ||| x is Commute
}

impl Environment {
    /// Whether `name` is a defined function.
    fn is_fn_name(&self, name: &String) -> (r: bool)
        ensures
            r ==> self.fn_names().contains(name@),
            self.funcs.wf() ==> r == (self.fn_names().contains(name@)
                && !(self.funcs.traditional(name@) matches Some(t) && t.right is None)),
    {
        self.funcs.position(name).is_some() && !self.funcs.is_niladic(name)
    }

    /// Whether the token at `i` starts a function.
    fn starts_fn(&self, t: &[Tok], i: usize, hi: usize) -> (r: bool)
        requires
            i < hi <= t@.len(),
        ensures
            fn_glyph(t@[i as int]) ==> r,
            !fn_glyph(t@[i as int]) && !(t@[i as int] is Name) && !(t@[i as int] is LParen) ==> !r,
            self.funcs.wf() && (t@[i as int] matches Tok::Name(n) && self.fn_names().contains(n@)
                && !(self.funcs.traditional(n@) matches Some(f) && f.right is None)) ==> r,
        decreases hi - i, 0nat,
    {
        match &t[i] {
            Tok::Prim(_) | Tok::Reduce(_) | Tok::Reduce1(_) | Tok::Scan(_) | Tok::Scan1(_)
            | Tok::Each(_) | Tok::EachName(_) | Tok::Rank(_) | Tok::OuterDot(_) | Tok::InnerDot(_, _)
            | Tok::MatrixProduct | Tok::PowerOp(_) | Tok::LBrace | Tok::Commute => true,
            Tok::Name(n) => {
                if self.is_fn_name(n) {
                    true
                } else if self.funcs.is_niladic(n) && i + 1 < hi {
                    // a function whose header names no argument takes one
                    // when a value follows it
                    starts_item(&t[i + 1]) && !self.starts_fn(t, i + 1, hi)
                } else {
                    false
                }
            },
            Tok::LParen => {
                match find_close(t, i, hi) {
                    Some(m) => {
                        if i + 1 < m && self.starts_fn(t, i + 1, m) {
                            match self.parse_fn(t, i + 1, m) {
                                Ok((_, j)) => j == m,
                                Err(_) => false,
                            }
                        } else {
                            false
                        }
                    },
                    None => false,
                }
            },
            _ => false,
        }
    }

    /// Parse the function starting at `i`; the position after it.
    fn parse_fn(&self, t: &[Tok], i: usize, hi: usize) -> (r: AplResult<(FnRef, usize)>)
        requires
            i < hi <= t@.len(),
        ensures
            r matches Ok((_, j)) ==> i < j <= hi,
            t@[i as int] matches Tok::Prim(p) ==> ((i + 1 == hi || !(t@[i + 1] is Commute || t@[i + 1] is LBracket))
                ==> r == Ok::<(FnRef, usize), ErrorCode>((FnRef::Prim(p), (i + 1) as usize))),
        decreases hi - i, 1nat,
    {
        match &t[i] {
            Tok::Prim(p) => {
                if i + 1 < hi {
                    match &t[i + 1] {
                        Tok::Commute => { return Ok((FnRef::Commute(*p), i + 2)); },
                        Tok::LBracket => {
                            if let Some(m) = find_close(t, i + 1, hi) {
                                let ax = self.parse_expr(t, i + 2, m)?;
                                return Ok((FnRef::Axis(*p, Box::new(ax)), m + 1));
                            }
                            return Err(ErrorCode::SyntaxError);
                        },
                        _ => {},
                    }
                }
                Ok((FnRef::Prim(*p), i + 1))
            },
            Tok::Reduce(p) => {
                if i + 1 < hi {
                    if let Tok::LBracket = &t[i + 1] {
                        if let Some(m) = find_close(t, i + 1, hi) {
                            let ax = self.parse_expr(t, i + 2, m)?;
                            return Ok((FnRef::ReduceAxis(*p, Box::new(ax)), m + 1));
                        }
                        return Err(ErrorCode::SyntaxError);
                    }
                }
                Ok((FnRef::Reduce(*p), i + 1))
            },
            Tok::Reduce1(p) => Ok((FnRef::Reduce1(*p), i + 1)),
            Tok::Scan(p) | Tok::Scan1(p) => Ok((FnRef::Scan(*p), i + 1)),
            Tok::Each(p) => Ok((FnRef::Each(*p), i + 1)),
            Tok::EachName(n) => Ok((FnRef::EachName(n.clone()), i + 1)),
            Tok::OuterDot(p) => Ok((FnRef::Outer(*p), i + 1)),
            Tok::InnerDot(f, g) => Ok((FnRef::Inner(*f, *g), i + 1)),
            Tok::MatrixProduct => Ok((FnRef::Inner(Prim::Add, Prim::Multiply), i + 1)),
            Tok::Rank(p) => {
                if i + 1 < hi {
                    if let Tok::Num(k1) = &t[i + 1] {
                        if i + 2 < hi {
                            if let Tok::Num(k2) = &t[i + 2] {
                                return Ok((FnRef::Rank(*p, *k1, *k2), i + 3));
                            }
                        }
                        return Ok((FnRef::Rank(*p, *k1, *k1), i + 2));
                    }
                }
                Err(ErrorCode::SyntaxError)
            },
            Tok::PowerOp(pf) => {
                if i + 1 < hi {
                    if let Tok::Num(n) = &t[i + 1] {
                        return match pf {
                            PowerFn::Prim(p) => Ok((FnRef::Power(*p, *n), i + 2)),
                            PowerFn::Name(nm) => Ok((FnRef::PowerNamed(nm.clone(), *n), i + 2)),
                        };
                    }
                }
                Err(ErrorCode::SyntaxError)
            },
            Tok::Name(n) => Ok((FnRef::Named(n.clone()), i + 1)),
            Tok::LBrace => {
                match find_close(t, i, hi) {
                    Some(m) => Ok((FnRef::Dfn(clone_toks(t, i + 1, m)), m + 1)),
                    None => Err(ErrorCode::SyntaxError),
                }
            },
            Tok::LParen => {
                match find_close(t, i, hi) {
                    Some(m) => {
                        if i + 1 < m {
                            let (f, j) = self.parse_fn(t, i + 1, m)?;
                            if j == m {
                                return Ok((f, m + 1));
                            }
                        }
                        Err(ErrorCode::SyntaxError)
                    },
                    None => Err(ErrorCode::SyntaxError),
                }
            },
            _ => Err(ErrorCode::SyntaxError),
        }
    }

    /// Parse the index list of brackets spanning `lo..hi` (inside).
    fn parse_axes(&self, t: &[Tok], lo: usize, hi: usize) -> (r: AplResult<Vec<Option<Expr>>>)
        requires
            lo <= hi <= t@.len(),
        ensures
            r matches Ok(v) ==> v@.len() == axis_cuts(t@, lo as int, hi as int).len()
                && forall|k: int| 0 <= k < v@.len() ==> ((#[trigger] v@[k]) is None
                    <==> axis_cuts(t@, lo as int, hi as int)[k].0 == axis_cuts(t@, lo as int, hi as int)[k].1),
        decreases hi - lo, 5nat,
    {
        let ghost cuts = axis_cuts(t@, lo as int, hi as int);
        let ghost mut done: Seq<(int, int)> = Seq::empty();
        let mut out: Vec<Option<Expr>> = Vec::new();
        let mut start: usize = lo;
        proof { assert(done + axis_cuts(t@, start as int, hi as int) =~= cuts); }
        loop
            invariant
                lo <= start <= hi <= t@.len(),
                cuts == axis_cuts(t@, lo as int, hi as int),
                done + axis_cuts(t@, start as int, hi as int) == cuts,
                out@.len() == done.len(),
                forall|k: int| 0 <= k < out@.len() ==> ((#[trigger] out@[k]) is None <==> done[k].0 == done[k].1),
            decreases hi - start,
        {
            let cut = find_top(t, start, hi, 1);
            let end = match cut { Some(m) => m, None => hi };
            let ghost piece = (start as int, end as int);
            proof {
                let rest = axis_cuts(t@, start as int, hi as int);
                match cut {
                    Some(m) => { assert(rest == seq![piece] + axis_cuts(t@, m + 1, hi as int)); },
                    None => { assert(rest == seq![piece]); },
                }
            }
            let ghost before = out@;
            if start == end {
                out.push(None);
            } else {
                let e = self.parse_expr(t, start, end)?;
                out.push(Some(e));
            }
            proof {
                assert forall|k: int| 0 <= k < out@.len() implies ((#[trigger] out@[k]) is None <==> done.push(piece)[k].0 == done.push(piece)[k].1) by {
                    if k < before.len() { assert(out@[k] == before[k]); }
                }
                done = done.push(piece);
            }
            match cut {
                Some(m) => {
                    proof {
                        let old_done = done.drop_last();
                        assert(old_done + (seq![piece] + axis_cuts(t@, m + 1, hi as int)) =~= done + axis_cuts(t@, m + 1, hi as int));
                    }
                    start = m + 1;
                },
                None => {
                    proof { assert(done.drop_last() + seq![piece] =~= done); }
                    return Ok(out);
                },
            }
        }
    }

    /// Parse one item of a strand at `i`, with any index that follows.
    fn parse_item(&self, t: &[Tok], i: usize, hi: usize) -> (r: AplResult<(Expr, usize)>)
        requires
            i < hi <= t@.len(),
        ensures
            r matches Ok((_, j)) ==> i < j <= hi,
            !(t@[i as int] is Num || t@[i as int] is LParen || single_item(t@[i as int]))
                ==> r == Err::<(Expr, usize), ErrorCode>(ErrorCode::SyntaxError),
            single_item(t@[i as int]) && (i + 1 == hi || !(t@[i + 1] is LBracket))
                ==> (r matches Ok((_, j)) && j == i + 1),
            lone_num(t@, i as int, hi as int) ==> (r matches Ok((x, j)) && j == i + 1
                && item_lit(x, t@[i as int])),
        decreases hi - i, 2nat,
    {
        let ghost alone = single_item(t@[i as int]) && (i + 1 == hi || !(t@[i + 1] is LBracket));
        let ghost lone = lone_num(t@, i as int, hi as int);
        let (item, mut j) = match &t[i] {
            Tok::Num(_) => {
                let mut k = i;
                while k < hi && is_num_tok(&t[k])
                    invariant
                        i <= k <= hi <= t@.len(),
                        lone == lone_num(t@, i as int, hi as int),
                        lone ==> k <= i + 1,
                    decreases hi - k,
                {
                    k += 1;
                }
                if k == i { k = i + 1; }
                proof {
                    if lone {
                        assert(k == i + 1);
                        let u = t@.subrange(i as int, k as int);
                        assert(u.len() == 1);
                        assert(u.drop_last() =~= Seq::<Tok>::empty());
                        assert(num_vals(u.drop_last()) == Seq::<i64>::empty());
                        assert(u.last() == t@[i as int]);
                        assert(num_vals(u) == seq![t@[i as int]->Num_0]);
                    }
                }
                (Expr::Lit(num_value(t, i, k)?), k)
            },
            Tok::Str(sv) => (Expr::Lit(str_value(sv)), i + 1),
            Tok::Zilde => (Expr::Lit(ValueP::int_vector(&[])), i + 1),
            Tok::Name(n) => {
                if self.funcs.is_niladic(n) {
                    (Expr::Niladic(n.clone()), i + 1)
                } else {
                    (Expr::Var(n.clone()), i + 1)
                }
            },
            Tok::Alpha => (Expr::Alpha, i + 1),
            Tok::Omega => (Expr::Omega, i + 1),
            Tok::LParen => {
                match find_close(t, i, hi) {
                    Some(m) => {
                        if i + 1 == m {
                            return Err(ErrorCode::SyntaxError);
                        }
                        let e = self.parse_expr(t, i + 1, m)?;
                        (e, m + 1)
                    },
                    None => { return Err(ErrorCode::SyntaxError); },
                }
            },
            _ => { return Err(ErrorCode::SyntaxError); },
        };
        let ghost item0 = item;
        proof {
            if lone { assert(j == i + 1 && item_lit(item0, t@[i as int])); }
        }
        let mut e = item;
        while j < hi && is_lbracket(&t[j])
            invariant
                i < j <= hi <= t@.len(),
                alone ==> j == i + 1,
                lone == lone_num(t@, i as int, hi as int),
                lone ==> (j == i + 1 && e == item0 && item_lit(item0, t@[i as int])),
                t@[i as int] is Num || t@[i as int] is LParen || single_item(t@[i as int]),
                alone == (single_item(t@[i as int]) && (i + 1 == hi || !(t@[i + 1] is LBracket))),
            decreases hi - j,
        {
            match find_close(t, j, hi) {
                Some(m) => {
                    let axes = self.parse_axes(t, j + 1, m)?;
                    e = Expr::Index(Box::new(e), axes);
                    j = m + 1;
                },
                None => { return Err(ErrorCode::SyntaxError); },
            }
        }
        Ok((e, j))
    }

    /// Parse a strand starting at `i`: the items up to the next function.
    fn parse_noun(&self, t: &[Tok], i: usize, hi: usize) -> (r: AplResult<(Expr, usize)>)
        requires
            i < hi <= t@.len(),
        ensures
            r matches Ok((_, j)) ==> i < j <= hi,
            ends_strand(t@[i as int]) ==> r == Err::<(Expr, usize), ErrorCode>(ErrorCode::SyntaxError),
            lone_value(t@[i as int]) && i + 1 == hi ==> (r matches Ok((_, j)) && j == hi),
            lone_num(t@, i as int, hi as int) ==> (r matches Ok((x, j)) && j == i + 1
                && item_lit(x, t@[i as int])),
        decreases hi - i, 3nat,
    {
        let ghost lone = lone_value(t@[i as int]) && i + 1 == hi;
        let ghost lnum = lone_num(t@, i as int, hi as int);
        let mut items: Vec<Expr> = Vec::new();
        let mut numeric_only = true;
        let mut nested = false;
        let mut j: usize = i;
        while j < hi && !self.starts_fn(t, j, hi) && !ends_noun(&t[j])
            invariant
                i <= j <= hi <= t@.len(),
                items@.len() == 0 <==> j == i,
                lone == (lone_value(t@[i as int]) && i + 1 == hi),
                lone ==> (j == i || (j == hi && items@.len() == 1)),
                ends_strand(t@[i as int]) ==> j == i,
                lnum == lone_num(t@, i as int, hi as int),
                lnum ==> (j == i || (j == i + 1 && items@.len() == 1 && item_lit(items@[0], t@[i as int]))),
            decreases hi - j,
        {
            if !is_num_tok(&t[j]) {
                numeric_only = false;
            }
            if let Tok::LParen = &t[j] {
                nested = true;
            }
            let (e, k) = self.parse_item(t, j, hi)?;
            items.push(e);
            j = k;
        }
        if items.len() == 0 {
            return Err(ErrorCode::SyntaxError);
        }
        if items.len() == 1 {
            let e = items.pop().unwrap();
            return Ok((e, j));
        }
        if numeric_only {
            return Ok((Expr::Lit(num_value(t, i, j)?), j));
        }
        Ok((Expr::Strand(items, nested), j))
    }

    /// Parse the expression `t[lo..hi]`.
    fn parse_expr(&self, t: &[Tok], lo: usize, hi: usize) -> (r: AplResult<Expr>)
        requires
            lo <= hi <= t@.len(),
        ensures
            lo == hi ==> r == Err::<Expr, ErrorCode>(ErrorCode::SyntaxError),
            lo < hi && ends_strand(t@[lo as int]) ==> r == Err::<Expr, ErrorCode>(ErrorCode::SyntaxError),
            hi == lo + 1 && lone_value(t@[lo as int]) ==> r is Ok,
            hi == lo + 2 && t@[lo as int] is Prim && lone_value(t@[lo + 1]) ==> (r matches Ok(Expr::Monadic(_, _))),
            arith_line(t@, lo as int, hi as int) ==> (r matches Ok(x) && arith_tree(t@, lo as int, hi as int, x)),
            arith_assign(t@, lo as int, hi as int) ==> (r matches Ok(x) && assign_tree(t@, lo as int, hi as int, x)),
        decreases hi - lo, 4nat,
    {
        if lo >= hi {
            return Err(ErrorCode::SyntaxError);
        }
        // selective assignment
        if let Tok::LParen = &t[lo] {
            if let Some(m) = find_close(t, lo, hi) {
                if m + 1 < hi && lo + 1 < m {
                    if let Tok::Assign = &t[m + 1] {
                        if let Tok::Name(n) = &t[m - 1] {
                            let target = self.parse_expr(t, lo + 1, m)?;
                            let rhs = self.parse_expr(t, m + 2, hi)?;
                            return Ok(Expr::SelAssign(n.clone(), Box::new(target), Box::new(rhs)));
                        }
                    }
                }
            }
        }
        // assignments
        if lo + 1 < hi {
            if let Tok::Name(n) = &t[lo] {
                match &t[lo + 1] {
                    Tok::Assign => {
                        if lo + 2 < hi {
                            if let Tok::LBrace = &t[lo + 2] {
                                if let Some(m) = find_close(t, lo + 2, hi) {
                                    if m + 1 == hi {
                                        return Ok(Expr::DefFn(n.clone(), clone_toks(t, lo + 3, m)));
                                    }
                                }
                            }
                        }
                        let rhs = self.parse_expr(t, lo + 2, hi)?;
                        let x = Expr::Assign(n.clone(), Box::new(rhs));
                        proof {
                            if arith_assign(t@, lo as int, hi as int) {
                                assert(assign_tree(t@, lo as int, hi as int, x));
                            }
                        }
                        return Ok(x);
                    },
                    Tok::ModifiedAssign(p) => {
                        let rhs = self.parse_expr(t, lo + 2, hi)?;
                        return Ok(Expr::ModAssign(n.clone(), *p, Box::new(rhs)));
                    },
                    Tok::LBracket => {
                        if let Some(m) = find_close(t, lo + 1, hi) {
                            if m + 1 < hi {
                                if let Tok::Assign = &t[m + 1] {
                                    let axes = self.parse_axes(t, lo + 2, m)?;
                                    let rhs = self.parse_expr(t, m + 2, hi)?;
                                    return Ok(Expr::IndexAssign(n.clone(), axes, Box::new(rhs)));
                                }
                            }
                        }
                    },
                    _ => {},
                }
            }
        }
        if self.starts_fn(t, lo, hi) {
            let (f, j) = self.parse_fn(t, lo, hi)?;
            if j >= hi {
                return Err(ErrorCode::SyntaxError);
            }
            let rhs = self.parse_expr(t, j, hi)?;
            return Ok(Expr::Monadic(Box::new(f), Box::new(rhs)));
        }
        let (left, j) = self.parse_noun(t, lo, hi)?;
        if j == hi {
            return Ok(left);
        }
        if !self.starts_fn(t, j, hi) {
            return Err(ErrorCode::SyntaxError);
        }
        proof {
            if arith_line(t@, lo as int, hi as int) {
                assert(arith_item(t@[lo as int]));
                assert(j == lo + 1);
                assert(hi >= lo + 3 && t@[lo + 1] is Prim && arith_line(t@, lo + 2, hi as int));
                assert(arith_item(t@[lo + 2]));
            }
        }
        let (f, k) = self.parse_fn(t, j, hi)?;
        if k >= hi {
            return Err(ErrorCode::SyntaxError);
        }
        let rhs = self.parse_expr(t, k, hi)?;
        let x = Expr::Dyadic(Box::new(f), Box::new(left), Box::new(rhs));
        proof {
            if arith_line(t@, lo as int, hi as int) {
                assert(k == lo + 2);
                assert(arith_tree(t@, lo as int, hi as int, x));
            }
        }
        Ok(x)
    }
}


/// How many lines and loop turns one call of a traditional function may
/// run.
pub const MAX_STEPS: u64 = 10000000;

/// The value bound to `k`, if any.
pub open spec fn binding(m: Map<Seq<char>, ValueP>, k: Seq<char>) -> Option<ValueP> {
    if m.dom().contains(k) {
        Some(m[k])
    } else {
        None
    }
}

/// A call with these arguments does not fit the header of `t`: it names
/// an argument and none is given, or it names a left argument and not
/// both are given.
pub open spec fn arity_mismatch(t: TradFn, has_left: bool, has_right: bool) -> bool {
    ((t.left is Some || t.right is Some) && !has_left && !has_right) || (t.left is Some && !(has_left && has_right))
}

/// Where a branch asks the body of a traditional function to go.
enum Target {
    /// to line n (counted from 1); 0 leaves the function
    Jump(i64),
    /// on to the next line
    Stay,
    /// out of the innermost loop
    Leave,
}

/// Whether the last target asks to leave a loop.
fn leave_on_top(targets: &Vec<Target>) -> (r: bool)
    ensures
        r == (targets@.len() > 0 && targets@.last() is Leave),
{
    let k = targets.len();
    if k == 0 {
        return false;
    }
    match &targets[k - 1] {
        Target::Leave => true,
        _ => false,
    }
}

/// Whether a function is the branch arrow.
fn is_branch(g: &FnRef) -> (r: bool)
    ensures
        r == (*g matches FnRef::Prim(p) && p == Prim::Branch),
{
    match g {
        FnRef::Prim(Prim::Branch) => true,
        _ => false,
    }
}

/// How many nested calls of direct functions and executes may be active.
pub const MAX_DEPTH: u32 = 512;

/// The deepest nesting of `⍎` inside `⍎`.
pub const MAX_EXECUTE_DEPTH: usize = 64;

/// The zero-based position that index cell `c` names in a range of
/// length `n` with index origin `io`: a DOMAIN ERROR for a cell that is
/// not an integer, an INDEX ERROR for one out of range.
pub open spec fn position_in(c: Cell, n: int, io: i64) -> Result<int, ErrorCode> {
    match c {
        Cell::Int(x) => if 0 <= x - io < n { Ok(x - io) } else { Err(ErrorCode::IndexError) },
        _ => Err(ErrorCode::DomainError),
    }
}

/// The positions that the index cells `ic` name, or the first error met.
pub open spec fn positions_of(ic: Seq<Cell>, n: int, io: i64) -> Result<Seq<int>, ErrorCode>
    decreases ic.len(),
{
    if ic.len() == 0 {
        Ok(Seq::empty())
    } else {
        match positions_of(ic.drop_last(), n, io) {
            Err(e) => Err(e),
            Ok(ps) => match position_in(ic.last(), n, io) {
                Err(e) => Err(e),
                Ok(z) => Ok(ps.push(z)),
            },
        }
    }
}

/// The positions of a prefix one longer.
proof fn lemma_positions_step(ic: Seq<Cell>, n: int, io: i64, j: int)
    requires
        0 <= j < ic.len(),
    ensures
        positions_of(ic.take(j + 1), n, io) == (match positions_of(ic.take(j), n, io) {
            Err(e) => Err(e),
            Ok(ps) => match position_in(ic[j], n, io) {
                Err(e) => Err(e),
                Ok(z) => Ok(ps.push(z)),
            },
        }),
{
    assert(ic.take(j + 1).drop_last() =~= ic.take(j));
    assert(ic.take(j + 1).last() == ic[j]);
}

/// An error in a prefix is the error of every longer prefix.
proof fn lemma_positions_err(ic: Seq<Cell>, n: int, io: i64, k: int, m: int)
    requires
        0 <= k <= m <= ic.len(),
        positions_of(ic.take(k), n, io) is Err,
    ensures
        positions_of(ic.take(m), n, io) == positions_of(ic.take(k), n, io),
    decreases m - k,
{
    if k < m {
        lemma_positions_err(ic, n, io, k, m - 1);
        lemma_positions_step(ic, n, io, m - 1);
    }
}

/// The cells of `cells` at positions `ps`.
pub open spec fn cells_at(cells: Seq<Cell>, ps: Seq<int>) -> Seq<Cell> {
    Seq::new(ps.len(), |k: int| cells[ps[k]])
}

/// `cells` with the element at each position of `ps` replaced, in order,
/// by the matching element of `vc` (or by its one element).
pub open spec fn scattered(cells: Seq<Cell>, ps: Seq<int>, vc: Seq<Cell>) -> Seq<Cell>
    decreases ps.len(),
{
    if ps.len() == 0 {
        cells
    } else {
        scattered(cells, ps.drop_last(), vc).update(ps.last(), if vc.len() == 1 { vc[0] } else { vc[ps.len() - 1] })
    }
}

/// The cells 0, 1, 2, … as integers.
pub open spec fn counting(n: nat) -> Seq<Cell> {
    Seq::new(n, |k: int| Cell::Int(k as i64))
}

/// The target of a selective assignment to `name` is `A⊃name`.
pub open spec fn picks_name(target: Expr, name: Seq<char>) -> bool {
    match target {
        Expr::Dyadic(f, _, b) => (*f matches FnRef::Prim(p) && p == Prim::Disclose)
            && (*b matches Expr::Var(bn) && bn@ == name),
        _ => false,
    }
}

/// The values of the number tokens of `t`, in order.
pub open spec fn num_vals(t: Seq<Tok>) -> Seq<i64>
    decreases t.len(),
{
    if t.len() == 0 {
        Seq::empty()
    } else {
        match t.last() {
            Tok::Num(n) => num_vals(t.drop_last()).push(n),
            _ => num_vals(t.drop_last()),
        }
    }
}

/// A value as one cell of a strand or an each: a single-element value gives
/// its cell, any other is enclosed.
fn as_item_cell(v: &ValueP) -> (r: Cell)
    ensures
        v.ravel().len() == 1 ==> r == v.ravel()[0],
        v.ravel().len() != 1 ==> (r matches Cell::Pointer(p) && p.value == v.inner),
{
    let cells = v.cells();
    if cells.len() == 1 {
        cells[0].clone()
    } else {
        Cell::Pointer(PointerCellData { value: crate::cell::share(&v.inner) })
    }
}

/// A value as one nested element: a scalar that already holds a nested
/// value is that element; anything else is enclosed.
fn enclose_item(v: &ValueP) -> (r: Cell)
    ensures
        (v.dims().len() == 0 && v.ravel().len() == 1 && v.ravel()[0] is Pointer) ==> r == v.ravel()[0],
        !(v.dims().len() == 0 && v.ravel().len() == 1 && v.ravel()[0] is Pointer)
            ==> (r matches Cell::Pointer(p) && p.value == v.inner),
{
    let cells = v.cells();
    if v.rank() == 0 && cells.len() == 1 && cells[0].is_pointer_cell() {
        cells[0].clone()
    } else {
        Cell::Pointer(PointerCellData { value: crate::cell::share(&v.inner) })
    }
}

/// A cell as a value: its nested value, or a scalar holding it.
fn cell_value(c: &Cell) -> (r: ValueP)
    ensures
        *c matches Cell::Pointer(p) ==> r.inner == p.value,
        !(*c is Pointer) ==> r.dims() == Seq::<i64>::empty() && r.ravel() == seq![*c],
{
    match c {
        Cell::Pointer(p) => ValueP { inner: crate::cell::share(&p.value) },
        _ => ValueP::scalar_from(c.clone()),
    }
}

/// A vector of the given cells.
pub(crate) fn vector_of(cells: Vec<Cell>) -> (r: AplResult<ValueP>)
    ensures
        cells@.len() > i64::MAX ==> r == Err::<ValueP, ErrorCode>(ErrorCode::LimitError),
        cells@.len() <= i64::MAX ==> (r matches Ok(v) && v.dims() == seq![cells@.len() as i64] && v.ravel() == cells@),
{
    let n = cells.len();
    if n as u128 > i64::MAX as u128 {
        return Err(ErrorCode::LimitError);
    }
    ValueP::from_parts(crate::shape::Shape::vector(n as i64), cells)
}

/// `B[I]` with a single index on a value that is not a vector: the cells
/// of the ravel of B at the positions in I, in the shape of I.
fn ravel_index(b: &ValueP, v: &ValueP, io: i64) -> (r: AplResult<ValueP>)
    ensures
        match positions_of(v.ravel(), b.ravel().len() as int, io) {
            Err(e) => r == Err::<ValueP, ErrorCode>(e),
            Ok(ps) => r matches Ok(z) && z.dims() == v.dims() && z.ravel() == cells_at(b.ravel(), ps),
        },
{
    v.lemma_wf();
    let cells = b.cells();
    let ic = v.cells();
    let n = cells.len();
    let mut out: Vec<Cell> = Vec::new();
    let mut j: usize = 0;
    let ghost mut ps: Seq<int> = Seq::empty();
    proof { assert(ic@.take(0) =~= Seq::<Cell>::empty()); }
    while j < ic.len()
        invariant
            j <= ic@.len(),
            ic@ == v.ravel(),
            cells@ == b.ravel(),
            n == cells@.len(),
            positions_of(ic@.take(j as int), n as int, io) == Ok::<Seq<int>, ErrorCode>(ps),
            ps.len() == j,
            ic@.len() == prod(v.dims()),
            out@ == cells_at(cells@, ps),
        decreases ic@.len() - j,
    {
        proof { lemma_positions_step(ic@, n as int, io, j as int); }
        let x = match &ic[j] {
            Cell::Int(x) => *x,
            _ => {
                proof { lemma_positions_err(ic@, n as int, io, j as int + 1, ic@.len() as int); assert(ic@.take(ic@.len() as int) =~= ic@); }
                return Err(ErrorCode::DomainError);
            },
        };
        let z: i128 = x as i128 - io as i128;
        if z < 0 || z >= n as i128 {
            proof { lemma_positions_err(ic@, n as int, io, j as int + 1, ic@.len() as int); assert(ic@.take(ic@.len() as int) =~= ic@); }
            return Err(ErrorCode::IndexError);
        }
        out.push(cells[z as usize].clone());
        proof {
            ps = ps.push(z as int);
            assert(out@ =~= cells_at(cells@, ps));
        }
        j += 1;
    }
    proof { assert(ic@.take(ic@.len() as int) =~= ic@); }
    Ok(ValueP::from_ravel_like(v, out))
}

/// The left argument of a pick `A⊃NAME` written as the target of a
/// selective assignment to NAME.
fn pick_path<'a>(target: &'a Expr, name: &String) -> (r: Option<&'a Expr>)
    ensures
        r matches Some(a) ==> (*target matches Expr::Dyadic(_, x, _) && *a == *x),
        r is Some <==> picks_name(*target, name@),
{
    match target {
        Expr::Dyadic(f, a, b) => {
            match (&**f, &**b) {
                (FnRef::Prim(Prim::Disclose), Expr::Var(bn)) => {
                    if *bn == *name { Some(&**a) } else { None }
                },
                _ => None,
            }
        },
        _ => None,
    }
}

/// A value of the shape of `v` whose elements are their own ravel
/// positions, 0, 1, 2, …
fn positions_like(v: &ValueP) -> (r: AplResult<ValueP>)
    ensures
        r matches Ok(z) && z.dims() == v.dims() && z.ravel() == counting(v.ravel().len()),
{
    v.lemma_wf();
    let n = v.cells().len();
    if n as u128 > i64::MAX as u128 {
        return Err(ErrorCode::LimitError);
    }
    let mut cells: Vec<Cell> = Vec::new();
    let mut k: usize = 0;
    while k < n
        invariant
            k <= n <= i64::MAX,
            cells@ == counting(k as nat),
        decreases n - k,
    {
        cells.push(Cell::Int(k as i64));
        proof { assert(cells@ =~= counting(k as nat + 1)); }
        k += 1;
    }
    Ok(ValueP::from_ravel_like(v, cells))
}

/// `cur` with the elements at the positions held by `picked` replaced, in
/// order, by the elements of `v` (or all by its single element). Elements
/// of `v` beyond the positions are not used.
fn scatter(cur: &ValueP, picked: &ValueP, v: &ValueP) -> (r: AplResult<ValueP>)
    ensures
        (v.ravel().len() != 1 && v.ravel().len() < picked.ravel().len()) ==> r == Err::<ValueP, ErrorCode>(ErrorCode::LengthError),
        !(v.ravel().len() != 1 && v.ravel().len() < picked.ravel().len()) ==> match positions_of(picked.ravel(), cur.ravel().len() as int, 0) {
            Err(e) => r == Err::<ValueP, ErrorCode>(e),
            Ok(ps) => r matches Ok(z) && z.dims() == cur.dims() && z.ravel() == scattered(cur.ravel(), ps, v.ravel()),
        },
{
    cur.lemma_wf();
    let pc = picked.cells();
    let vc = v.cells();
    let mut cells = crate::value::clone_cells(cur.cells());
    let n = cells.len();
    if vc.len() != 1 && vc.len() < pc.len() {
        return Err(ErrorCode::LengthError);
    }
    let mut k: usize = 0;
    let ghost mut ps: Seq<int> = Seq::empty();
    proof { assert(pc@.take(0) =~= Seq::<Cell>::empty()); }
    while k < pc.len()
        invariant
            k <= pc@.len(),
            pc@ == picked.ravel(),
            vc@ == v.ravel(),
            n == cur.ravel().len(),
            cells@.len() == n,
            vc@.len() == 1 || vc@.len() >= pc@.len(),
            positions_of(pc@.take(k as int), n as int, 0) == Ok::<Seq<int>, ErrorCode>(ps),
            ps.len() == k,
            cells@ == scattered(cur.ravel(), ps, vc@),
        decreases pc@.len() - k,
    {
        proof { lemma_positions_step(pc@, n as int, 0, k as int); }
        let pos = match &pc[k] {
            Cell::Int(x) => *x,
            _ => {
                proof { lemma_positions_err(pc@, n as int, 0, k as int + 1, pc@.len() as int); assert(pc@.take(pc@.len() as int) =~= pc@); }
                return Err(ErrorCode::DomainError);
            },
        };
        if pos < 0 || pos as u128 >= n as u128 {
            proof { lemma_positions_err(pc@, n as int, 0, k as int + 1, pc@.len() as int); assert(pc@.take(pc@.len() as int) =~= pc@); }
            return Err(ErrorCode::IndexError);
        }
        let c = if vc.len() == 1 { vc[0].clone() } else { vc[k].clone() };
        cells.set(pos as usize, c);
        proof {
            let ps2 = ps.push(pos as int);
            assert(ps2.drop_last() =~= ps);
            ps = ps2;
        }
        k += 1;
    }
    proof { assert(pc@.take(pc@.len() as int) =~= pc@); }
    Ok(ValueP::from_ravel_like(cur, cells))
}

/// The token `⎕EA`, which guards the statement after it.
fn is_guard_name(tok: &Tok) -> (r: bool)
    ensures
        r == (*tok matches Tok::Name(n) && n@ == "⎕EA"@),
{
    match tok {
        Tok::Name(n) => {
            let guard: String = "⎕EA".to_owned();
            *n == guard
        },
        _ => false,
    }
}

/// The zero-based positions selected along one axis of length `n`, with
/// index origin `io`.
fn axis_positions(sel: &Option<ValueP>, n: i64, io: i64) -> (r: AplResult<Vec<i64>>)
    requires
        n >= 0,
    ensures
        r matches Ok(v) ==> forall|k: int| 0 <= k < v@.len() ==> 0 <= #[trigger] v@[k] < n,
        sel is None ==> (r matches Ok(w) && w@ == Seq::new(n as nat, |k: int| k as i64)),
        sel matches Some(v) ==> (match positions_of(v.ravel(), n as int, io) {
            Err(e) => r == Err::<Vec<i64>, ErrorCode>(e),
            Ok(ps) => r matches Ok(w) && w@.len() == ps.len()
                && forall|k: int| 0 <= k < ps.len() ==> #[trigger] w@[k] as int == ps[k],
        }),
{
    let mut out: Vec<i64> = Vec::new();
    match sel {
        None => {
            let mut k: i64 = 0;
            while k < n
                invariant
                    0 <= k <= n,
                    out@ == Seq::new(k as nat, |q: int| q as i64),
                decreases n - k,
            {
                out.push(k);
                proof { assert(out@ =~= Seq::new(k as nat + 1, |q: int| q as i64)); }
                k += 1;
            }
        },
        Some(v) => {
            let cells = v.cells();
            let mut j: usize = 0;
            let ghost mut ps: Seq<int> = Seq::empty();
            proof { assert(cells@.take(0) =~= Seq::<Cell>::empty()); }
            while j < cells.len()
                invariant
                    j <= cells@.len(),
                    cells@ == v.ravel(),
                    sel is Some,
                    *sel == Some(*v),
                    n >= 0,
                    positions_of(cells@.take(j as int), n as int, io) == Ok::<Seq<int>, ErrorCode>(ps),
                    out@.len() == ps.len(),
                    forall|q: int| 0 <= q < ps.len() ==> #[trigger] out@[q] as int == ps[q],
                    forall|q: int| 0 <= q < out@.len() ==> 0 <= #[trigger] out@[q] < n,
                decreases cells@.len() - j,
            {
                proof { lemma_positions_step(cells@, n as int, io, j as int); }
                let x = match &cells[j] {
                    Cell::Int(x) => *x,
                    _ => {
                        proof { lemma_positions_err(cells@, n as int, io, j as int + 1, cells@.len() as int); assert(cells@.take(cells@.len() as int) =~= cells@); }
                        return Err(ErrorCode::DomainError);
                    },
                };
                let z: i128 = x as i128 - io as i128;
                if z < 0 || z >= n as i128 {
                    proof { lemma_positions_err(cells@, n as int, io, j as int + 1, cells@.len() as int); assert(cells@.take(cells@.len() as int) =~= cells@); }
                    return Err(ErrorCode::IndexError);
                }
                out.push(z as i64);
                proof { ps = ps.push(z as int); }
                j += 1;
            }
            proof { assert(cells@.take(cells@.len() as int) =~= cells@); }
        },
    }
    Ok(out)
}

/// Numbers as integers.
pub open spec fn as_ints(v: Seq<u64>) -> Seq<int> {
    Seq::new(v.len(), |k: int| v[k] as int)
}

/// Each position of `out` followed, within an axis of length `n`, by each
/// position of `list`, in order.
pub open spec fn expand_positions(out: Seq<int>, list: Seq<i64>, n: int) -> Seq<int>
    decreases out.len(),
{
    if out.len() == 0 {
        Seq::empty()
    } else {
        expand_positions(out.drop_last(), list, n) + Seq::new(list.len(), |q: int| out.last() * n + list[q])
    }
}

/// The ravel positions, within the first `ax` axes of dimensions `d`,
/// that the first `ax` lists select, in row-major order.
pub open spec fn selection(lists: Seq<Seq<i64>>, d: Seq<i64>, ax: int) -> Seq<int>
    decreases ax,
{
    if ax <= 0 {
        seq![0int]
    } else {
        expand_positions(selection(lists, d, ax - 1), lists[ax - 1], d[ax - 1] as int)
    }
}

/// The lists as sequences.
pub open spec fn lists_view(lists: Seq<Vec<i64>>) -> Seq<Seq<i64>> {
    Seq::new(lists.len(), |k: int| lists[k]@)
}

/// The ravel positions selected by one list of positions per axis, in
/// row-major order of the selections.
fn selected_positions(b: &ValueP, lists: &Vec<Vec<i64>>) -> (r: AplResult<Vec<u64>>)
    requires
        lists@.len() == b.dims().len(),
        forall|k: int, q: int| 0 <= k < lists@.len() && 0 <= q < lists@[k]@.len()
            ==> 0 <= #[trigger] lists@[k]@[q] < b.dims()[k],
    ensures
        r matches Ok(v) ==> forall|k: int| 0 <= k < v@.len() ==> #[trigger] v@[k] < b.ravel().len(),
        r matches Ok(v) && as_ints(v@) == selection(lists_view(lists@), b.dims(), b.dims().len() as int),
{
    b.lemma_wf();
    let mut out: Vec<u64> = Vec::new();
    out.push(0);
    let rank = lists.len();
    let mut ax: usize = 0;
    let ghost d = b.dims();
    let ghost lv = lists_view(lists@);
    proof {
        assert(d.take(0) =~= Seq::<i64>::empty());
        assert(as_ints(out@) =~= selection(lv, d, 0));
    }
    while ax < rank
        invariant
            ax <= rank == lists@.len() == d.len(),
            d == b.dims(),
            lv == lists_view(lists@),
            crate::shape::nonneg(d),
            crate::shape::dims_ok(d),
            b.ravel().len() == prod(d),
            forall|k: int, q: int| 0 <= k < lists@.len() && 0 <= q < lists@[k]@.len()
                ==> 0 <= #[trigger] lists@[k]@[q] < d[k],
            forall|k: int| 0 <= k < out@.len() ==> #[trigger] out@[k] < prod(d.take(ax as int)),
            as_ints(out@) == selection(lv, d, ax as int),
        decreases rank - ax,
    {
        let n = b.get_shape_item(ax as i16);
        let list = &lists[ax];
        let mut next: Vec<u64> = Vec::new();
        let ghost oi = as_ints(out@);
        proof {
            assert(d.take(ax as int + 1).drop_last() =~= d.take(ax as int));
            crate::take_drop::lemma_prod_le_absprod(d.take(ax as int + 1));
            crate::shape::lemma_absprod_take(d, ax as int + 1);
            crate::shape::lemma_prod_nonneg(d.take(ax as int));
            assert(oi.take(0) =~= Seq::<int>::empty());
            assert(as_ints(next@) =~= expand_positions(oi.take(0), list@, n as int));
        }
        let mut i: usize = 0;
        while i < out.len()
            invariant
                i <= out@.len(),
                oi == as_ints(out@),
                n == d[ax as int],
                n >= 0,
                ax < d.len(),
                prod(d.take(ax as int + 1)) == prod(d.take(ax as int)) * n,
                prod(d.take(ax as int + 1)) <= i64::MAX,
                prod(d.take(ax as int)) >= 0,
                forall|q: int| 0 <= q < list@.len() ==> 0 <= #[trigger] list@[q] < n,
                forall|k: int| 0 <= k < out@.len() ==> #[trigger] out@[k] < prod(d.take(ax as int)),
                forall|k: int| 0 <= k < next@.len() ==> #[trigger] next@[k] < prod(d.take(ax as int + 1)),
                as_ints(next@) == expand_positions(oi.take(i as int), list@, n as int),
            decreases out@.len() - i,
        {
            let ghost start = as_ints(next@);
            let ghost f = |q: int| oi[i as int] * (n as int) + list@[q];
            let mut q: usize = 0;
            proof { assert(as_ints(next@) =~= start + Seq::new(0, f)); }
            while q < list.len()
                invariant
                    q <= list@.len(),
                    i < out@.len(),
                    ax < d.len(),
                    oi == as_ints(out@),
                    n == d[ax as int],
                    prod(d.take(ax as int + 1)) == prod(d.take(ax as int)) * n,
                    prod(d.take(ax as int + 1)) <= i64::MAX,
                    prod(d.take(ax as int)) >= 0,
                    forall|q2: int| 0 <= q2 < list@.len() ==> 0 <= #[trigger] list@[q2] < n,
                    forall|k: int| 0 <= k < out@.len() ==> #[trigger] out@[k] < prod(d.take(ax as int)),
                    forall|k: int| 0 <= k < next@.len() ==> #[trigger] next@[k] < prod(d.take(ax as int + 1)),
                    f == (|q2: int| oi[i as int] * (n as int) + list@[q2]),
                    as_ints(next@) == start + Seq::new(q as nat, f),
                decreases list@.len() - q,
            {
                let base = out[i];
                let pos = list[q];
                proof {
                    crate::layout::lemma_rowmajor(base as int, pos as int, n as int, prod(d.take(ax as int)));
                }
                let ghost before = next@;
                let v: u64 = base * (n as u64) + pos as u64;
                next.push(v);
                proof {
                    assert(oi[i as int] == base as int);
                    assert(v as int == (base as int) * (n as int) + (pos as int));
                    assert(f(q as int) == oi[i as int] * (n as int) + list@[q as int]);
                    let x = as_ints(next@);
                    let y = start + Seq::new(q as nat + 1, f);
                    assert(as_ints(before).len() == start.len() + q);
                    assert forall|k: int| 0 <= k < x.len() implies x[k] == y[k] by {
                        if k < before.len() {
                            assert(next@[k] == before[k]);
                            assert(as_ints(before)[k] == (start + Seq::new(q as nat, f))[k]);
                        }
                    }
                    assert(x =~= y);
                }
                q += 1;
            }
            proof {
                let t = oi.take(i as int + 1);
                assert(t.drop_last() =~= oi.take(i as int));
                assert(t.last() == oi[i as int]);
                assert(Seq::new(list@.len() as nat, f) =~= Seq::new(list@.len(), |q2: int| t.last() * (n as int) + list@[q2]));
                assert(as_ints(next@) =~= expand_positions(t, list@, n as int));
            }
            i += 1;
        }
        proof {
            assert(oi.take(out@.len() as int) =~= oi);
            assert(lv[ax as int] == list@);
            assert(selection(lv, d, ax as int + 1) == expand_positions(selection(lv, d, ax as int), lv[ax as int], d[ax as int] as int));
        }
        out = next;
        ax += 1;
    }
    proof { assert(d.take(rank as int) =~= d); }
    Ok(out)
}

impl Environment {
    /// ⎕IO: 0 when unset; otherwise the integer in its first cell, and a
    /// DOMAIN ERROR when that is not an integer or the value is empty.
    pub fn get_io(&self) -> (r: AplResult<i64>)
        requires
            self.wf(),
        ensures
            r == crate::sysvars::io_of(self.vars_view()),
    {
        match self.get(crate::sysvars::IO_VAR) {
            None => Ok(0),
            Some(v) => match v.first_cell() {
                Some(c) => c.get_near_int(),
                None => Err(ErrorCode::DomainError),
            },
        }
    }

    /// Define (or redefine) function `name`.
    fn define_fn(&mut self, name: &String, body: Vec<Tok>)
        requires
            old(self).wf(),
        ensures
            final(self).wf(),
            final(self).vars_view() == old(self).vars_view(),
            final(self).fn_names().contains(name@),
    {
        self.funcs.define(name, FnBody::Direct(body));
        proof {
            if !old(self).fn_names().contains(name@) {
                assert(self.fn_names()[self.fn_names().len() - 1] == name@);
            }
        }
    }

    /// A copy of the variables.
    fn save_vars(&self) -> (r: Vec<(String, ValueP)>)
        ensures
            r@ == self.vars@,
    {
        let mut out: Vec<(String, ValueP)> = Vec::new();
        let mut i: usize = 0;
        while i < self.vars.len()
            invariant
                i <= self.vars@.len(),
                out@ == self.vars@.take(i as int),
            decreases self.vars@.len() - i,
        {
            let pair = (self.vars[i].0.clone(), self.vars[i].1.clone());
            out.push(pair);
            proof { assert(out@ =~= self.vars@.take(i as int + 1)); }
            i += 1;
        }
        assert(self.vars@.take(i as int) =~= self.vars@);
        out
    }

    /// `B[i;…]` with one optional index value per axis.
    fn index_axes(&self, b: &ValueP, sel: &Vec<Option<ValueP>>, io: i64) -> (r: AplResult<ValueP>)
        ensures
            sel@.len() != b.dims().len() && !(sel@.len() == 1 && sel@[0] is Some)
                ==> r == Err::<ValueP, ErrorCode>(ErrorCode::RankError),
            sel@.len() == b.dims().len() && !(sel@.len() == 1 && b.dims().len() != 1 && sel@[0] is Some)
                ==> (r matches Ok(v) ==> v.dims() == index_dims(b.dims(), sel@)),
    {
        b.lemma_wf();
        let rank = b.rank() as usize;
        if sel.len() == 1 && rank != 1 {
            if let Some(v) = &sel[0] {
                return ravel_index(b, v, io);
            }
        }
        if sel.len() != rank {
            return Err(ErrorCode::RankError);
        }
        let mut lists: Vec<Vec<i64>> = Vec::new();
        let mut dims: Vec<i64> = Vec::new();
        let mut k: usize = 0;
        proof { assert(sel@.take(0) =~= Seq::<Option<ValueP>>::empty()); }
        while k < rank
            invariant
                k <= rank == sel@.len() == b.dims().len(),
                dims@ == index_dims(b.dims(), sel@.take(k as int)),
                crate::shape::dims_ok(b.dims()),
                crate::shape::nonneg(b.dims()),
                lists@.len() == k,
                forall|a: int, q: int| 0 <= a < lists@.len() && 0 <= q < lists@[a]@.len()
                    ==> 0 <= #[trigger] lists@[a]@[q] < b.dims()[a],
            decreases rank - k,
        {
            let n = b.get_shape_item(k as i16);
            b.lemma_wf();
            assert(n >= 0);
            let list = axis_positions(&sel[k], n, io)?;
            let ghost d0 = dims@;
            proof {
                let a = sel@.take(k as int + 1);
                assert(a.drop_last() =~= sel@.take(k as int));
                assert(a.last() == sel@[k as int]);
            }
            match &sel[k] {
                None => {
                    dims.push(n);
                    proof { assert(dims@ =~= index_dims(b.dims(), sel@.take(k as int + 1))); }
                },
                Some(v) => {
                    let vd = v.dim_list();
                    let mut q: usize = 0;
                    proof { assert(vd@.take(0) =~= Seq::<i64>::empty()); assert(dims@ =~= d0 + vd@.take(0)); }
                    while q < vd.len()
                        invariant
                            q <= vd@.len(),
                            dims@ == d0 + vd@.take(q as int),
                        decreases vd@.len() - q,
                    {
                        dims.push(vd[q]);
                        proof { assert(vd@.take(q as int + 1) =~= vd@.take(q as int).push(vd@[q as int])); assert(dims@ =~= d0 + vd@.take(q as int + 1)); }
                        q += 1;
                    }
                    proof {
                        assert(vd@.take(vd@.len() as int) =~= vd@);
                        assert(dims@ =~= index_dims(b.dims(), sel@.take(k as int + 1)));
                    }
                },
            }
            lists.push(list);
            k += 1;
        }
        proof { assert(sel@.take(rank as int) =~= sel@); }
        let pos = selected_positions(b, &lists)?;
        let cells = b.cells();
        let mut out: Vec<Cell> = Vec::new();
        let mut i: usize = 0;
        while i < pos.len()
            invariant
                i <= pos@.len(),
                cells@ == b.ravel(),
                forall|k2: int| 0 <= k2 < pos@.len() ==> #[trigger] pos@[k2] < b.ravel().len(),
            decreases pos@.len() - i,
        {
            out.push(cells[pos[i] as usize].clone());
            i += 1;
        }
        if dims.len() > crate::types::MAX_RANK || !crate::take_drop::weight_fits(dims.as_slice()) {
            return Err(ErrorCode::LimitError);
        }
        match crate::shape::Shape::from_dims(dims.as_slice()) {
            Ok(s) => ValueP::from_parts(s, out),
            Err(e) => Err(e),
        }
    }

    /// `B[i;…]←V`: B with the selected cells replaced by those of V (or by
    /// its single cell).
    fn index_assign(&self, b: &ValueP, sel: &Vec<Option<ValueP>>, v: &ValueP, io: i64) -> (r: AplResult<ValueP>)
        ensures
            sel@.len() != b.dims().len() ==> r == Err::<ValueP, ErrorCode>(ErrorCode::RankError),
            r matches Ok(w) ==> w.dims() == b.dims() && w.ravel().len() == b.ravel().len(),
    {
        b.lemma_wf();
        let rank = b.rank() as usize;
        if sel.len() != rank {
            return Err(ErrorCode::RankError);
        }
        let mut lists: Vec<Vec<i64>> = Vec::new();
        let mut k: usize = 0;
        while k < rank
            invariant
                k <= rank == sel@.len() == b.dims().len(),
                crate::shape::dims_ok(b.dims()),
                crate::shape::nonneg(b.dims()),
                lists@.len() == k,
                forall|a: int, q: int| 0 <= a < lists@.len() && 0 <= q < lists@[a]@.len()
                    ==> 0 <= #[trigger] lists@[a]@[q] < b.dims()[a],
            decreases rank - k,
        {
            let n = b.get_shape_item(k as i16);
            assert(n >= 0);
            let list = axis_positions(&sel[k], n, io)?;
            lists.push(list);
            k += 1;
        }
        let pos = selected_positions(b, &lists)?;
        let vc = v.cells();
        if vc.len() != 1 && vc.len() != pos.len() {
            return Err(ErrorCode::LengthError);
        }
        let mut cells = crate::value::clone_cells(b.cells());
        let mut i: usize = 0;
        while i < pos.len()
            invariant
                i <= pos@.len(),
                cells@.len() == b.ravel().len(),
                vc@.len() == 1 || vc@.len() == pos@.len(),
                forall|k2: int| 0 <= k2 < pos@.len() ==> #[trigger] pos@[k2] < b.ravel().len(),
            decreases pos@.len() - i,
        {
            let c = if vc.len() == 1 { vc[0].clone() } else { vc[i].clone() };
            cells.set(pos[i] as usize, c);
            i += 1;
        }
        Ok(ValueP::from_ravel_like(b, cells))
    }

    /// Evaluate an expression.
    fn eval(&mut self, e: &Expr, fr: &Frame, depth: u32) -> (r: AplResult<ValueP>)
        requires
            old(self).wf(),
        ensures
            final(self).wf(),
            *e matches Expr::Lit(v) ==> (r == Ok::<ValueP, ErrorCode>(v) && *final(self) == *old(self)),
            *e matches Expr::Var(n) ==> (*final(self) == *old(self)
                && r == lookup(old(self).vars_view(), old(self).current_ns_view(), n@)),
            *e is Alpha ==> (*final(self) == *old(self) && r == (match fr.alpha {
                Some(v) => Ok::<ValueP, ErrorCode>(v),
                None => Err(ErrorCode::ValueError),
            })),
            *e is Omega ==> (*final(self) == *old(self) && r == (match fr.omega {
                Some(v) => Ok::<ValueP, ErrorCode>(v),
                None => Err(ErrorCode::ValueError),
            })),
            plain_expr(*e) ==> evaluates(old(self).vars_view(), old(self).current_ns_view(), *e, *fr, final(self).vars_view(), r),
            plain_expr(*e) ==> final(self).current_ns_view() == old(self).current_ns_view(),
            plain_expr(*e) ==> final(self).shy_view() == old(self).shy_view(),
            quiet_index_assign(*e) && r is Err ==> final(self).vars_view() == old(self).vars_view(),
            quiet_index_assign(*e) && r is Ok ==> (lookup(old(self).vars_view(), old(self).current_ns_view(), e->IndexAssign_0@)
                matches Ok(cur) && exists|nv: ValueP| nv.dims() == cur.dims()
                && final(self).vars_view() == old(self).vars_view().insert(qual(old(self).current_ns_view(), e->IndexAssign_0@), nv)),
        decreases depth, 2nat, e,
    {
        proof {
            if *e is Lit || *e is Var || *e is Alpha || *e is Omega {
                assert(eval_trace(old(self).vars_view(), old(self).current_ns_view(), *e, *fr, old(self).vars_view(),
                    match *e {
                        Expr::Lit(v) => Ok::<ValueP, ErrorCode>(v),
                        Expr::Var(n) => lookup(old(self).vars_view(), old(self).current_ns_view(), n@),
                        Expr::Alpha => match fr.alpha { Some(v) => Ok::<ValueP, ErrorCode>(v), None => Err(ErrorCode::ValueError) },
                        _ => match fr.omega { Some(v) => Ok::<ValueP, ErrorCode>(v), None => Err(ErrorCode::ValueError) },
                    }, EvalTrace::Done));
            }
        }
        match e {
            Expr::Lit(v) => Ok(v.clone()),
            Expr::Var(n) => self.lookup_var(n),
            Expr::Alpha => match &fr.alpha {
                Some(v) => Ok(v.clone()),
                None => Err(ErrorCode::ValueError),
            },
            Expr::Omega => match &fr.omega {
                Some(v) => Ok(v.clone()),
                None => Err(ErrorCode::ValueError),
            },
            Expr::Strand(items, nested) => {
                let mut cells: Vec<Cell> = Vec::new();
                let mut i: usize = 0;
                while i < items.len()
                    invariant
                        i <= items@.len(),
                        *e == Expr::Strand(*items, *nested),
                        self.wf(),
                    decreases items@.len() - i,
                {
                    proof {
                        assert(decreases_to!(*e => (*e)->Strand_0));
                        assert(decreases_to!(*items => items@));
                        assert(decreases_to!(items@ => items@[i as int]));
                    }
                    let v = self.eval(&items[i], fr, depth)?;
                    cells.push(if *nested { enclose_item(&v) } else { as_item_cell(&v) });
                    i += 1;
                }
                vector_of(cells)
            },
            Expr::Index(base, axes) => {
                let bv = self.eval(base, fr, depth)?;
                let mut sel: Vec<Option<ValueP>> = Vec::new();
                let mut i: usize = 0;
                while i < axes.len()
                    invariant
                        i <= axes@.len(),
                        *e == Expr::Index(*base, *axes),
                        self.wf(),
                    decreases axes@.len() - i,
                {
                    match &axes[i] {
                        None => { sel.push(None); },
                        Some(x) => {
                            proof {
                                assert(decreases_to!(*e => (*e)->Index_1));
                                assert(decreases_to!(*axes => axes@));
                                assert(decreases_to!(axes@ => axes@[i as int]));
                                assert(decreases_to!(axes@[i as int] => axes@[i as int]->Some_0));
                            }
                            let v = self.eval(x, fr, depth)?;
                            sel.push(Some(v));
                        },
                    }
                    i += 1;
                }
                let io = self.get_io()?;
                self.index_axes(&bv, &sel, io)
            },
            Expr::Monadic(f, b) => {
                assert(*e == Expr::Monadic(*f, *b));
                let rb = self.eval(b, fr, depth);
                let ghost vm = self.vars_view();
                let ghost tb = choose|t: EvalTrace| eval_trace(old(self).vars_view(), old(self).current_ns_view(), **b, *fr, vm, rb, t);
                let bv = match rb {
                    Ok(bv) => bv,
                    Err(er) => {
                        proof {
                            if plain_expr(*e) {
                                assert(eval_trace(old(self).vars_view(), old(self).current_ns_view(), *e, *fr, vm, Err::<ValueP, ErrorCode>(er), EvalTrace::Step(vm, rb, Box::new(tb))));
                            }
                        }
                        return Err(er);
                    },
                };
                let r = self.apply_monadic_fn(f, bv, fr, depth);
                proof {
                    if plain_expr(*e) {
                        assert(eval_trace(old(self).vars_view(), old(self).current_ns_view(), *e, *fr, self.vars_view(), r, EvalTrace::Step(vm, rb, Box::new(tb))));
                    }
                }
                r
            },
            Expr::Dyadic(f, a, b) => {
                assert(*e == Expr::Dyadic(*f, *a, *b));
                let ra = self.eval(a, fr, depth);
                let ghost va = self.vars_view();
                let ghost ta = choose|t: EvalTrace| eval_trace(old(self).vars_view(), old(self).current_ns_view(), **a, *fr, va, ra, t);
                let av = match ra {
                    Ok(av) => av,
                    Err(er) => {
                        proof {
                            if plain_expr(*e) {
                                assert(eval_trace(old(self).vars_view(), old(self).current_ns_view(), *e, *fr, va, Err::<ValueP, ErrorCode>(er), EvalTrace::Step(va, ra, Box::new(ta))));
                            }
                        }
                        return Err(er);
                    },
                };
                let rb = self.eval(b, fr, depth);
                let ghost vb = self.vars_view();
                let ghost tb = choose|t: EvalTrace| eval_trace(va, old(self).current_ns_view(), **b, *fr, vb, rb, t);
                let ghost tr = EvalTrace::Steps(va, ra, Box::new(ta), vb, rb, Box::new(tb));
                let bv = match rb {
                    Ok(bv) => bv,
                    Err(er) => {
                        proof {
                            if plain_expr(*e) {
                                assert(eval_trace(old(self).vars_view(), old(self).current_ns_view(), *e, *fr, vb, Err::<ValueP, ErrorCode>(er), tr));
                            }
                        }
                        return Err(er);
                    },
                };
                let r = self.apply_dyadic_fn(f, av, bv, fr, depth);
                proof {
                    if plain_expr(*e) {
                        assert(eval_trace(old(self).vars_view(), old(self).current_ns_view(), *e, *fr, self.vars_view(), r, tr));
                    }
                }
                r
            },
            Expr::Assign(n, rhs) => {
                assert(*e == Expr::Assign(*n, *rhs));
                let rx = self.eval(rhs, fr, depth);
                let ghost vm = self.vars_view();
                let ghost tr = EvalTrace::Step(vm, rx, Box::new(choose|t: EvalTrace| eval_trace(old(self).vars_view(), old(self).current_ns_view(), **rhs, *fr, vm, rx, t)));
                let v = match rx {
                    Ok(v) => v,
                    Err(er) => {
                        proof { if plain_expr(*e) { assert(eval_trace(old(self).vars_view(), old(self).current_ns_view(), *e, *fr, vm, Err::<ValueP, ErrorCode>(er), tr)); } }
                        return Err(er);
                    },
                };
                let key = self.qualified(n);
                self.set(key.as_str(), v.clone());
                proof { if plain_expr(*e) { assert(eval_trace(old(self).vars_view(), old(self).current_ns_view(), *e, *fr, self.vars_view(), Ok::<ValueP, ErrorCode>(v), tr)); } }
                Ok(v)
            },
            Expr::ModAssign(n, p, rhs) => {
                assert(*e == Expr::ModAssign(*n, *p, *rhs));
                let rx = self.eval(rhs, fr, depth);
                let ghost vm = self.vars_view();
                let ghost tr = EvalTrace::Step(vm, rx, Box::new(choose|t: EvalTrace| eval_trace(old(self).vars_view(), old(self).current_ns_view(), **rhs, *fr, vm, rx, t)));
                let v = match rx {
                    Ok(v) => v,
                    Err(er) => {
                        proof { if plain_expr(*e) { assert(eval_trace(old(self).vars_view(), old(self).current_ns_view(), *e, *fr, vm, Err::<ValueP, ErrorCode>(er), tr)); } }
                        return Err(er);
                    },
                };
                let cur = match self.lookup_var(n) {
                    Ok(c) => c,
                    Err(er) => {
                        proof { if plain_expr(*e) { assert(eval_trace(old(self).vars_view(), old(self).current_ns_view(), *e, *fr, vm, Err::<ValueP, ErrorCode>(er), tr)); } }
                        return Err(er);
                    },
                };
                let io = match self.get_io() {
                    Ok(io) => io,
                    Err(er) => {
                        proof { if plain_expr(*e) { assert(eval_trace(old(self).vars_view(), old(self).current_ns_view(), *e, *fr, vm, Err::<ValueP, ErrorCode>(er), tr)); } }
                        return Err(er);
                    },
                };
                let rr = apply_dyadic(*p, &cur, &v, io);
                let nv = match rr {
                    Ok(nv) => nv,
                    Err(er) => {
                        proof { if plain_expr(*e) { assert(eval_trace(old(self).vars_view(), old(self).current_ns_view(), *e, *fr, vm, Err::<ValueP, ErrorCode>(er), tr)); } }
                        return Err(er);
                    },
                };
                let key = self.qualified(n);
                self.set(key.as_str(), nv.clone());
                proof { if plain_expr(*e) { assert(eval_trace(old(self).vars_view(), old(self).current_ns_view(), *e, *fr, self.vars_view(), Ok::<ValueP, ErrorCode>(nv), tr)); } }
                Ok(nv)
            },
            Expr::IndexAssign(n, axes, rhs) => {
                let ghost quiet = quiet_index_assign(*e);
                let v = self.eval(rhs, fr, depth)?;
                let mut sel: Vec<Option<ValueP>> = Vec::new();
                let mut i: usize = 0;
                while i < axes.len()
                    invariant
                        i <= axes@.len(),
                        *e == Expr::IndexAssign(*n, *axes, *rhs),
                        self.wf(),
                        quiet == quiet_index_assign(*e),
                        quiet ==> *self == *old(self),
                    decreases axes@.len() - i,
                {
                    match &axes[i] {
                        None => { sel.push(None); },
                        Some(x) => {
                            proof {
                                assert(decreases_to!(*e => (*e)->IndexAssign_1));
                                assert(decreases_to!(*axes => axes@));
                                assert(decreases_to!(axes@ => axes@[i as int]));
                                assert(decreases_to!(axes@[i as int] => axes@[i as int]->Some_0));
                            }
                            let xv = self.eval(x, fr, depth)?;
                            sel.push(Some(xv));
                        },
                    }
                    i += 1;
                }
                let cur = self.lookup_var(n)?;
                let io = self.get_io()?;
                let nv = self.index_assign(&cur, &sel, &v, io)?;
                let key = self.qualified(n);
                self.set(key.as_str(), nv);
                proof {
                    if quiet {
                        assert(self.vars_view() == old(self).vars_view().insert(qual(old(self).current_ns_view(), n@), nv));
                    }
                }
                Ok(v)
            },
            Expr::SelAssign(n, target, rhs) => {
                let v = self.eval(rhs, fr, depth)?;
                let cur = match self.get(n.as_str()) {
                    Some(c) => c.clone(),
                    None => { return Err(ErrorCode::ValueError); },
                };
                if let Some(path) = pick_path(target, n) {
                    proof {
                        assert(decreases_to!(*e => (*e)->SelAssign_1));
                    }
                    let av = self.eval(path, fr, depth)?;
                    let levels = crate::value::int_values(av.cells())?;
                    let mut nv = cur.clone();
                    crate::pick::pick_assign(&mut nv, levels.as_slice(), &as_item_cell(&v))?;
                    self.set(n.as_str(), nv);
                    return Ok(v);
                }
                let ids = positions_like(&cur)?;
                self.set(n.as_str(), ids);
                let picked = self.eval(target, fr, depth);
                self.set(n.as_str(), cur.clone());
                let picked = picked?;
                let nv = scatter(&cur, &picked, &v)?;
                self.set(n.as_str(), nv);
                Ok(v)
            },
            Expr::ErrorGuard(g, f) => {
                match self.eval(g, fr, depth) {
                    Ok(v) => Ok(v),
                    Err(_) => self.eval(f, fr, depth),
                }
            },
            Expr::DefFn(n, body) => {
                let b = clone_toks(body.as_slice(), 0, body.len());
                self.define_fn(n, b);
                Ok(ValueP::scalar())
            },
            Expr::Niladic(n) => self.call_named(n, None, None, depth),
        }
    }

    /// Apply a function to one argument.
    fn apply_monadic_fn(&mut self, f: &FnRef, b: ValueP, fr: &Frame, depth: u32) -> (r: AplResult<ValueP>)
        requires
            old(self).wf(),
        ensures
            final(self).wf(),
            *f matches FnRef::Prim(p) ==> (p != Prim::Execute ==> (*final(self) == *old(self)
                && (crate::sysvars::io_of(old(self).vars_view()) matches Err(e) ==> r == Err::<ValueP, ErrorCode>(e))
                && (crate::sysvars::io_of(old(self).vars_view()) matches Ok(io) ==> crate::dispatch::monadic_post(p, b, io, r)))),
        decreases depth, 2nat, f,
    {
        match f {
            FnRef::Prim(Prim::Execute) => self.execute_at(&b, depth),
            FnRef::Prim(p) => {
                let io = self.get_io()?;
                apply_monadic(*p, &b, io)
            },
            FnRef::Reduce(p) => match scalar_fn_of(*p) {
                Some(sf) => crate::prims::reduce(sf, &b),
                None => Err(ErrorCode::NonceError),
            },
            FnRef::Reduce1(p) => match scalar_fn_of(*p) {
                Some(sf) => reduce_first(sf, &b),
                None => Err(ErrorCode::NonceError),
            },
            FnRef::ReduceAxis(p, ax) => {
                let av = self.eval(ax, fr, depth)?;
                let io = self.get_io()?;
                let k = match av.first_cell() {
                    Some(Cell::Int(k)) => *k as i128 - io as i128,
                    _ => { return Err(ErrorCode::DomainError); },
                };
                let rank = b.rank() as i128;
                match scalar_fn_of(*p) {
                    Some(sf) => {
                        if rank > 0 && k == rank - 1 {
                            crate::prims::reduce(sf, &b)
                        } else if k == 0 {
                            reduce_first(sf, &b)
                        } else if k < 0 || k >= rank {
                            Err(ErrorCode::RankError)
                        } else {
                            Err(ErrorCode::NonceError)
                        }
                    },
                    None => Err(ErrorCode::NonceError),
                }
            },
            FnRef::Each(p) => {
                let io = self.get_io()?;
                let cells = b.cells();
                let mut out: Vec<Cell> = Vec::new();
                let mut i: usize = 0;
                while i < cells.len()
                    invariant
                        !(*f is Prim) && !(*f is Commute),
                        i <= cells@.len(),
                        out@.len() == i,
                        self.wf(),
                    decreases cells@.len() - i,
                {
                    let item = cell_value(&cells[i]);
                    let r = apply_monadic(*p, &item, io)?;
                    out.push(enclose_item(&r));
                    i += 1;
                }
                b.lemma_wf();
                Ok(ValueP::from_ravel_like(&b, out))
            },
            FnRef::EachName(n) => {
                let cells = crate::value::clone_cells(b.cells());
                let mut out: Vec<Cell> = Vec::new();
                let mut i: usize = 0;
                while i < cells.len()
                    invariant
                        !(*f is Prim) && !(*f is Commute),
                        i <= cells@.len(),
                        out@.len() == i,
                        self.wf(),
                    decreases cells@.len() - i,
                {
                    let item = cell_value(&cells[i]);
                    let r = self.call_named(n, None, Some(item), depth)?;
                    out.push(enclose_item(&r));
                    i += 1;
                }
                b.lemma_wf();
                proof { assert(cells@.len() == b.ravel().len()); }
                Ok(ValueP::from_ravel_like(&b, out))
            },
            FnRef::Commute(p) => {
                let io = self.get_io()?;
                apply_dyadic(*p, &b, &b, io)
            },
            FnRef::Rank(p, _kl, kr) => {
                let io = self.get_io()?;
                let p = *p;
                crate::rank::rank_monadic(&b, *kr, |c: &ValueP| apply_monadic(p, c, io))
            },
            FnRef::Named(n) => self.call_named(n, None, Some(b), depth),
            FnRef::Dfn(body) => self.call_dfn(body, None, b, depth),
            FnRef::Power(p, n) => {
                if *n < 0 {
                    return Err(ErrorCode::DomainError);
                }
                let io = self.get_io()?;
                let mut v = b;
                let mut k: i64 = 0;
                while k < *n
                    invariant
                        !(*f is Prim) && !(*f is Commute),
                        0 <= k <= *n,
                        self.wf(),
                    decreases *n - k,
                {
                    v = apply_monadic(*p, &v, io)?;
                    k += 1;
                }
                Ok(v)
            },
            FnRef::PowerNamed(name, n) => {
                if *n < 0 {
                    return Err(ErrorCode::DomainError);
                }
                let mut v = b;
                let mut k: i64 = 0;
                while k < *n
                    invariant
                        !(*f is Prim) && !(*f is Commute),
                        0 <= k <= *n,
                        self.wf(),
                    decreases *n - k,
                {
                    v = self.call_named(name, None, Some(v), depth)?;
                    k += 1;
                }
                Ok(v)
            },
            FnRef::Scan(p) => match scalar_fn_of(*p) {
                Some(sf) => scan_last(sf, &b),
                None => Err(ErrorCode::NonceError),
            },
            FnRef::Axis(_, _) => Err(ErrorCode::NonceError),
            FnRef::Outer(_) | FnRef::Inner(_, _) => Err(ErrorCode::SyntaxError),
        }
    }

    /// Apply a function to two arguments.
    fn apply_dyadic_fn(&mut self, f: &FnRef, a: ValueP, b: ValueP, fr: &Frame, depth: u32) -> (r: AplResult<ValueP>)
        requires
            old(self).wf(),
        ensures
            final(self).wf(),
            *f matches FnRef::Prim(p) ==> (p != Prim::Squad ==> (*final(self) == *old(self)
                && (crate::sysvars::io_of(old(self).vars_view()) matches Err(e) ==> r == Err::<ValueP, ErrorCode>(e))
                && (crate::sysvars::io_of(old(self).vars_view()) matches Ok(io) ==> crate::dispatch::dyadic_post(p, a, b, io, r)))),
            *f matches FnRef::Commute(p) ==> (*final(self) == *old(self)
                && (crate::sysvars::io_of(old(self).vars_view()) matches Err(e) ==> r == Err::<ValueP, ErrorCode>(e))
                && (crate::sysvars::io_of(old(self).vars_view()) matches Ok(io) ==> crate::dispatch::dyadic_post(p, b, a, io, r))),
        decreases depth, 2nat, f,
    {
        match f {
            FnRef::Prim(p) => {
                let io = self.get_io()?;
                match p {
                    Prim::Squad if io != 0 => {
                        let shifted = crate::scalar::scalar_dyadic(crate::scalar::ScalarFn::Subtract,
                            &a, &ValueP::scalar_from(Cell::Int(io)))?;
                        crate::squad::squad(&shifted, &b)
                    },
                    _ => apply_dyadic(*p, &a, &b, io),
                }
            },
            FnRef::Commute(p) => {
                let io = self.get_io()?;
                apply_dyadic(*p, &b, &a, io)
            },
            FnRef::Each(p) => {
                let io = self.get_io()?;
                each_dyadic(*p, &a, &b, io)
            },
            FnRef::Outer(p) => {
                let io = self.get_io()?;
                outer_product(*p, &a, &b, io)
            },
            FnRef::Inner(f1, g1) => {
                let io = self.get_io()?;
                inner_product(*f1, *g1, &a, &b, io)
            },
            FnRef::Rank(p, kl, kr) => {
                let io = self.get_io()?;
                let p = *p;
                crate::rank::rank_dyadic(&a, &b, *kl, *kr, |x: &ValueP, y: &ValueP| apply_dyadic(p, x, y, io))
            },
            FnRef::Axis(p, ax) => {
                let axv = self.eval(ax, fr, depth)?;
                let io = self.get_io()?;
                let k = match axv.first_cell() {
                    Some(Cell::Int(k)) => *k as i128 - io as i128,
                    _ => { return Err(ErrorCode::DomainError); },
                };
                if k < 0 || k > i64::MAX as i128 {
                    return Err(ErrorCode::RankError);
                }
                let k = k as i64;
                match p {
                    Prim::Take => take_axis_checked(&a, &b, k),
                    Prim::Drop => crate::take_drop::drop_axis(&a, &b, k),
                    Prim::Reverse | Prim::Rotate1 => {
                        b.lemma_wf();
                        if k >= b.rank() as i64 {
                            return Err(ErrorCode::RankError);
                        }
                        if a.cells().len() == 0 {
                            return Err(ErrorCode::LengthError);
                        }
                        if b.cells().len() == 0 {
                            return Ok(b.clone());
                        }
                        crate::rotate::rotate_axis(&a, &b, k)
                    },
                    _ => Err(ErrorCode::NonceError),
                }
            },
            FnRef::Named(n) => self.call_named(n, Some(a), Some(b), depth),
            FnRef::Dfn(body) => self.call_dfn(body, Some(a), b, depth),
            FnRef::EachName(n) => {
                let ac = crate::value::clone_cells(a.cells());
                let bc = crate::value::clone_cells(b.cells());
                if ac.len() != 1 && bc.len() != 1 && ac.len() != bc.len() {
                    return Err(ErrorCode::LengthError);
                }
                let n_out = if ac.len() == 1 { bc.len() } else { ac.len() };
                let mut out: Vec<Cell> = Vec::new();
                let mut i: usize = 0;
                while i < n_out
                    invariant
                        !(*f is Prim) && !(*f is Commute),
                        i <= n_out,
                        ac@.len() == 1 || ac@.len() == n_out,
                        bc@.len() == 1 || bc@.len() == n_out,
                        self.wf(),
                    decreases n_out - i,
                {
                    let x = cell_value(if ac.len() == 1 { &ac[0] } else { &ac[i] });
                    let y = cell_value(if bc.len() == 1 { &bc[0] } else { &bc[i] });
                    let r = self.call_named(n, Some(x), Some(y), depth)?;
                    out.push(as_item_cell(&r));
                    i += 1;
                }
                let model = if ac.len() == 1 { b } else { a };
                model.lemma_wf();
                if out.len() as u128 != model.cells().len() as u128 {
                    return vector_of(out);
                }
                Ok(ValueP::from_ravel_like(&model, out))
            },
            _ => Err(ErrorCode::NonceError),
        }
    }

    /// Call defined function `name`.
    fn call_named(&mut self, name: &String, alpha: Option<ValueP>, omega: Option<ValueP>, depth: u32) -> (r: AplResult<ValueP>)
        requires
            old(self).wf(),
        ensures
            final(self).wf(),
            old(self).funcs.body_for(name@) is None ==> r == Err::<ValueP, ErrorCode>(ErrorCode::ValueError),
            old(self).funcs.body_for(name@) matches Some(FnBody::Direct(_)) ==> final(self).vars_view() == old(self).vars_view(),
            old(self).funcs.body_for(name@) matches Some(FnBody::Direct(_)) && omega is None
                ==> r == Err::<ValueP, ErrorCode>(ErrorCode::SyntaxError),
            old(self).funcs.body_for(name@) matches Some(FnBody::Direct(b)) ==> (omega matches Some(w) ==> (depth > 0
                && arith_line_v(toks_view(b@), 0, b@.len() as int)
                ==> dfn_gives(old(self).vars_view(), old(self).current_ns_view(), b@, alpha, w, r))),
            old(self).funcs.traditional(name@) matches Some(t) && arity_mismatch(t, alpha is Some, omega is Some)
                ==> r == Err::<ValueP, ErrorCode>(ErrorCode::SyntaxError) && final(self).vars_view() == old(self).vars_view(),
            old(self).funcs.traditional(name@) matches Some(t) ==> forall|j: int| 0 <= j < t.locals@.len()
                ==> #[trigger] binding(final(self).vars_view(), t.locals@[j]@) == binding(old(self).vars_view(), t.locals@[j]@),
        decreases depth, 1nat, Expr::Alpha,
    {
        match self.funcs.body_of(name) {
            Some(FnBody::Direct(body)) => match omega {
                Some(w) => {
                    let ghost a0 = alpha;
                    let r = self.call_dfn(&body, alpha, w, depth);
                    proof {
                        let b = old(self).funcs.body_for(name@)->Some_0->Direct_0;
                        assert(toks_view(body@) == toks_view(b@));
                        assert(toks_view(body@).len() == body@.len());
                        assert(toks_view(b@).len() == b@.len());
                        if depth > 0 && arith_line_v(toks_view(b@), 0, b@.len() as int) {
                            assert(dfn_gives(old(self).vars_view(), old(self).current_ns_view(), body@, a0, w, r));
                            let (t, e, v1, rv) = choose|t: Seq<Tok>, e: Expr, v1: Map<Seq<char>, ValueP>, rv: AplResult<ValueP>|
                                #![trigger arith_tree(t, 0, t.len() as int, e), evaluates(old(self).vars_view(), old(self).current_ns_view(), e, dfn_frame(a0, w), v1, rv)]
                                toks_view(t) == toks_view(body@) && arith_tree(t, 0, t.len() as int, e)
                                && evaluates(old(self).vars_view(), old(self).current_ns_view(), e, dfn_frame(a0, w), v1, rv) && r == rv;
                            assert(toks_view(t) == toks_view(b@) && arith_tree(t, 0, t.len() as int, e)
                                && evaluates(old(self).vars_view(), old(self).current_ns_view(), e, dfn_frame(a0, w), v1, rv));
                        }
                    }
                    r
                },
                None => Err(ErrorCode::SyntaxError),
            },
            Some(FnBody::Traditional(f)) => {
                let r = self.call_trad(&f, alpha, omega, depth);
                proof {
                    match old(self).funcs.traditional(name@) {
                        Some(t) => {
                            assert forall|j: int| 0 <= j < t.locals@.len() implies
                                #[trigger] binding(self.vars_view(), t.locals@[j]@) == binding(old(self).vars_view(), t.locals@[j]@) by {
                                assert(names_of(f.locals@).len() == names_of(t.locals@).len());
                                assert(names_of(f.locals@)[j] == names_of(t.locals@)[j]);
                                assert(f.locals@[j]@ == t.locals@[j]@);
                                assert(binding(self.vars_view(), f.locals@[j]@) == binding(old(self).vars_view(), f.locals@[j]@));
                            }
                        },
                        None => {},
                    }
                }
                r
            },
            None => Err(ErrorCode::ValueError),
        }
    }

    /// Call a direct function with body tokens `body`. Its assignments are
    /// local: the variables are restored afterwards.
    fn call_dfn(&mut self, body: &Vec<Tok>, alpha: Option<ValueP>, omega: ValueP, depth: u32) -> (r: AplResult<ValueP>)
        requires
            old(self).wf(),
        ensures
            final(self).wf(),
            final(self).vars_view() == old(self).vars_view(),
            depth == 0 ==> r == Err::<ValueP, ErrorCode>(ErrorCode::LimitError),
            depth > 0 && body@.len() == 0 ==> r == Err::<ValueP, ErrorCode>(ErrorCode::ValueError),
            depth > 0 && arith_line_v(toks_view(body@), 0, body@.len() as int)
                ==> dfn_gives(old(self).vars_view(), old(self).current_ns_view(), body@, alpha, omega, r),
        decreases depth, 0nat, Expr::Alpha,
    {
        if depth == 0 {
            return Err(ErrorCode::LimitError);
        }
        let ghost a0 = alpha;
        let ghost w0 = omega;
        let saved = self.save_vars();
        let fr = Frame { alpha, omega: Some(omega) };
        proof {
            if arith_line_v(toks_view(body@), 0, body@.len() as int) {
                lemma_arith_line_view(body@, 0, body@.len() as int);
                assert(no_index_glyph(body@));
            }
        }
        let r = self.run_body(body.as_slice(), &fr, depth - 1);
        let ghost v1 = self.vars_view();
        proof {
            if arith_line_v(toks_view(body@), 0, body@.len() as int) {
                assert(fr == dfn_frame(a0, w0));
                let (e, rv) = choose|e: Expr, rv: AplResult<ValueP>|
                    #![trigger arith_tree(body@, 0, body@.len() as int, e), evaluates(old(self).vars_view(), old(self).current_ns_view(), e, fr, v1, rv)]
                    arith_tree(body@, 0, body@.len() as int, e)
                    && evaluates(old(self).vars_view(), old(self).current_ns_view(), e, fr, v1, rv) && r == rv;
                assert(arith_tree(body@, 0, body@.len() as int, e));
                assert(evaluates(old(self).vars_view(), old(self).current_ns_view(), e, dfn_frame(a0, w0), v1, rv));
            }
        }
        self.vars = saved;
        r
    }

    /// Call traditional function `f`. The names local to it are saved, the
    /// arguments bound to the names of its header, the body run, and the
    /// locals restored; the result is the value of the result name, else
    /// that of the last line run. A call whose arguments do not fit the
    /// header is a SYNTAX ERROR.
    fn call_trad(&mut self, f: &TradFn, left: Option<ValueP>, right: Option<ValueP>, depth: u32) -> (r: AplResult<ValueP>)
        requires
            old(self).wf(),
        ensures
            final(self).wf(),
            arity_mismatch(*f, left is Some, right is Some)
                ==> r == Err::<ValueP, ErrorCode>(ErrorCode::SyntaxError) && final(self).vars_view() == old(self).vars_view(),
            forall|j: int| 0 <= j < f.locals@.len()
                ==> #[trigger] binding(final(self).vars_view(), f.locals@[j]@) == binding(old(self).vars_view(), f.locals@[j]@),
        decreases depth, 0nat, Expr::Alpha,
    {
        let has_left = left.is_some();
        let has_right = right.is_some();
        let takes_left = f.left.is_some();
        let takes_right = f.right.is_some();
        if ((takes_left || takes_right) && !has_left && !has_right) || (takes_left && !(has_left && has_right)) {
            return Err(ErrorCode::SyntaxError);
        }
        if depth == 0 {
            return Err(ErrorCode::LimitError);
        }
        let ghost before = self.vars_view();
        let saved = self.save_locals(&f.locals);
        match (&f.left, &left) {
            (Some(n), Some(v)) => {
                self.set(n.as_str(), v.clone());
            },
            _ => {},
        }
        match (&f.right, &right) {
            (Some(n), Some(v)) => {
                self.set(n.as_str(), v.clone());
            },
            _ => {},
        }
        let fr = if !takes_left && !takes_right {
            Frame { alpha: left, omega: right }
        } else {
            Frame { alpha: None, omega: None }
        };
        let mut fuel: u64 = MAX_STEPS;
        let run = self.run_program(f, &fr, &mut fuel, depth - 1);
        match run {
            Err((e, _)) => {
                self.restore(&saved, Ghost(before));
                proof {
                    assert forall|j: int| 0 <= j < f.locals@.len() implies
                        #[trigger] binding(self.vars_view(), f.locals@[j]@) == binding(before, f.locals@[j]@) by {
                        assert(saved@[j].0@ == f.locals@[j]@);
                    }
                }
                Err(e)
            },
            Ok(last) => {
                let explicit = match &f.result {
                    Some(rn) => self.get_var(rn.as_str()),
                    None => None,
                };
                self.restore(&saved, Ghost(before));
                proof {
                    assert forall|j: int| 0 <= j < f.locals@.len() implies
                        #[trigger] binding(self.vars_view(), f.locals@[j]@) == binding(before, f.locals@[j]@) by {
                        assert(saved@[j].0@ == f.locals@[j]@);
                    }
                }
                match explicit {
                    Some(v) => Ok(v),
                    None => match last {
                        Some(v) => Ok(v),
                        None => Err(ErrorCode::SyntaxError),
                    },
                }
            },
        }
    }

    /// The bindings of `names`, in order.
    fn save_locals(&self, names: &Vec<String>) -> (r: Vec<(String, Option<ValueP>)>)
        requires
            self.wf(),
        ensures
            r@.len() == names@.len(),
            forall|j: int| 0 <= j < r@.len() ==> (#[trigger] r@[j]).0@ == names@[j]@
                && r@[j].1 == binding(self.vars_view(), names@[j]@),
    {
        let mut out: Vec<(String, Option<ValueP>)> = Vec::new();
        let mut i: usize = 0;
        while i < names.len()
            invariant
                i <= names@.len(),
                self.wf(),
                out@.len() == i,
                forall|j: int| 0 <= j < i ==> (#[trigger] out@[j]).0@ == names@[j]@
                    && out@[j].1 == binding(self.vars_view(), names@[j]@),
            decreases names@.len() - i,
        {
            let v = self.get_var(names[i].as_str());
            out.push((names[i].clone(), v));
            i += 1;
        }
        out
    }

    /// Bind again the names of `saved` as they were bound in `before`.
    fn restore(&mut self, saved: &Vec<(String, Option<ValueP>)>, Ghost(before): Ghost<Map<Seq<char>, ValueP>>)
        requires
            old(self).wf(),
            forall|j: int| 0 <= j < saved@.len() ==> (#[trigger] saved@[j]).1 == binding(before, saved@[j].0@),
        ensures
            final(self).wf(),
            forall|j: int| 0 <= j < saved@.len() ==> binding(final(self).vars_view(), (#[trigger] saved@[j]).0@) == saved@[j].1,
    {
        let mut i: usize = 0;
        while i < saved.len()
            invariant
                i <= saved@.len(),
                self.wf(),
                forall|j: int| 0 <= j < saved@.len() ==> (#[trigger] saved@[j]).1 == binding(before, saved@[j].0@),
                forall|j: int| 0 <= j < i ==> binding(self.vars_view(), (#[trigger] saved@[j]).0@) == saved@[j].1,
            decreases saved@.len() - i,
        {
            let ghost m0 = self.vars_view();
            match &saved[i].1 {
                Some(v) => {
                    self.set(saved[i].0.as_str(), v.clone());
                },
                None => {
                    self.erase_var(saved[i].0.as_str());
                },
            }
            proof {
                assert forall|j: int| 0 <= j < i + 1 implies binding(self.vars_view(), (#[trigger] saved@[j]).0@) == saved@[j].1 by {
                    if saved@[j].0@ == saved@[i as int].0@ {
                        assert(saved@[j].1 == binding(before, saved@[j].0@));
                        assert(saved@[i as int].1 == binding(before, saved@[i as int].0@));
                    } else {
                        assert(binding(self.vars_view(), saved@[j].0@) == binding(m0, saved@[j].0@));
                    }
                }
            }
            i += 1;
        }
    }

    /// Run the lines of traditional function `f`. A line `→n` jumps to line
    /// n (counted from 1) when n is in range, leaves the function when n is
    /// 0 or out of range, and goes on when n is empty. Gives the value of the
    /// last line run, or the error that stopped the body with whether it
    /// arose inside a control structure.
    fn run_program(&mut self, f: &TradFn, fr: &Frame, fuel: &mut u64, depth: u32) -> (r: Result<Option<ValueP>, (ErrorCode, bool)>)
        requires
            old(self).wf(),
        ensures
            final(self).wf(),
            f.lines@.len() == 0 ==> (r == Ok::<Option<ValueP>, (ErrorCode, bool)>(None) && *final(self) == *old(self)
                && *final(fuel) == *old(fuel)),
        decreases depth, 5nat, Expr::Alpha,
    {
        let n = f.lines.len();
        let mut targets: Vec<Target> = Vec::new();
        let mut last: Option<ValueP> = None;
        let mut pc: usize = 0;
        while pc < n
            invariant
                n == f.lines@.len(),
                self.wf(),
                n == 0 ==> (*self == *old(self) && *fuel == *old(fuel) && last is None),
            decreases *fuel,
        {
            if *fuel == 0 {
                return Err((ErrorCode::LimitError, false));
            }
            *fuel = *fuel - 1;
            let v = match &f.lines[pc] {
                Line::Start(b, end) => {
                    match self.run_block(b, fr, &mut targets, fuel, depth) {
                        Ok(()) => {},
                        Err(e) => {
                            return Err((e, true));
                        },
                    }
                    pc = *end;
                    continue;
                },
                Line::Blank => {
                    pc += 1;
                    continue;
                },
                Line::Marker => ValueP::scalar_from(Cell::Int(0)),
                Line::Code(t) => match self.exec_line(t, fr, &mut targets, depth) {
                    Ok(v) => v,
                    Err(e) => {
                        return Err((e, false));
                    },
                },
            };
            match targets.pop() {
                Some(Target::Jump(t)) => {
                    if t == 0 {
                        return Ok(last);
                    }
                    if t >= 1 && ((t - 1) as u64) < (n as u64) {
                        pc = (t - 1) as usize;
                    } else {
                        pc = n;
                    }
                },
                Some(Target::Leave) => {
                    pc = n;
                },
                _ => {
                    last = Some(v);
                    pc += 1;
                },
            }
        }
        Ok(last)
    }

    /// Run a control structure.
    fn run_block(&mut self, b: &Block, fr: &Frame, targets: &mut Vec<Target>, fuel: &mut u64, depth: u32) -> (r: AplResult<()>)
        requires
            old(self).wf(),
        ensures
            final(self).wf(),
            *final(fuel) <= *old(fuel),
            (*b is While || *b is Repeat) && *old(fuel) == 0 ==> (r == Err::<(), ErrorCode>(ErrorCode::LimitError)
                && *final(self) == *old(self) && final(targets)@ == old(targets)@ && *final(fuel) == 0),
        decreases depth, 4nat, *b,
    {
        let ghost f0 = *fuel;
        match b {
            Block::If(c, th, el) => {
                if self.cond_holds(c, fr, depth)? {
                    proof { assert(decreases_to!(*b => (*b)->If_1)); }
                    self.run_items(th, fr, targets, fuel, depth)
                } else {
                    match el {
                        Some(e) => {
                            proof {
                                assert(decreases_to!(*b => (*b)->If_2));
                                assert(decreases_to!((*b)->If_2 => (*b)->If_2->Some_0));
                            }
                            self.run_items(e, fr, targets, fuel, depth)
                        },
                        None => Ok(()),
                    }
                }
            },
            Block::While(c, body) => {
                loop
                    invariant
                        self.wf(),
                        *fuel <= f0,
                        f0 == *old(fuel),
                        *b == Block::While(*c, *body),
                        f0 == 0 ==> (*self == *old(self) && targets@ == old(targets)@),
                    decreases *fuel,
                {
                    if *fuel == 0 {
                        return Err(ErrorCode::LimitError);
                    }
                    *fuel = *fuel - 1;
                    if !self.cond_holds(c, fr, depth)? {
                        return Ok(());
                    }
                    proof { assert(decreases_to!(*b => (*b)->While_1)); }
                    self.run_items(body, fr, targets, fuel, depth)?;
                    if leave_on_top(targets) {
                        targets.pop();
                        return Ok(());
                    }
                }
            },
            Block::Repeat(body, until) => {
                loop
                    invariant
                        self.wf(),
                        *fuel <= f0,
                        f0 == *old(fuel),
                        *b == Block::Repeat(*body, *until),
                        f0 == 0 ==> (*self == *old(self) && targets@ == old(targets)@),
                    decreases *fuel,
                {
                    if *fuel == 0 {
                        return Err(ErrorCode::LimitError);
                    }
                    *fuel = *fuel - 1;
                    proof { assert(decreases_to!(*b => (*b)->Repeat_0)); }
                    self.run_items(body, fr, targets, fuel, depth)?;
                    if leave_on_top(targets) {
                        targets.pop();
                        return Ok(());
                    }
                    match until {
                        Some(u) => {
                            if self.cond_holds(u, fr, depth)? {
                                return Ok(());
                            }
                        },
                        None => {},
                    }
                }
            },
        }
    }

    /// Run the steps of a control structure; `:Leave` stops them and asks
    /// the loop around to end.
    fn run_items(&mut self, items: &Vec<Item>, fr: &Frame, targets: &mut Vec<Target>, fuel: &mut u64, depth: u32) -> (r: AplResult<()>)
        requires
            old(self).wf(),
        ensures
            final(self).wf(),
            *final(fuel) <= *old(fuel),
            items@.len() == 0 ==> (r == Ok::<(), ErrorCode>(()) && *final(self) == *old(self)
                && final(targets)@ == old(targets)@ && *final(fuel) == *old(fuel)),
        decreases depth, 4nat, *items,
    {
        let ghost f0 = *fuel;
        let mut i: usize = 0;
        while i < items.len()
            invariant
                i <= items@.len(),
                self.wf(),
                *fuel <= f0,
                f0 == *old(fuel),
                items@.len() == 0 ==> (*self == *old(self) && targets@ == old(targets)@ && *fuel == *old(fuel)),
            decreases items@.len() - i,
        {
            match &items[i] {
                Item::Code(t) => {
                    self.exec_line(t, fr, targets, depth)?;
                },
                Item::Leave => {
                    targets.push(Target::Leave);
                    return Ok(());
                },
                Item::Nested(nb) => {
                    proof {
                        assert(decreases_to!(*items => items@));
                        assert(decreases_to!(items@ => items@[i as int]));
                        assert(decreases_to!(items@[i as int] => items@[i as int]->Nested_0));
                    }
                    self.run_block(nb, fr, targets, fuel, depth)?;
                },
            }
            i += 1;
        }
        Ok(())
    }

    /// Run one line of a traditional function: its statements in turn, a
    /// branch `→n` noting where to go. Gives the value of the last statement.
    fn exec_line(&mut self, t: &Vec<Tok>, fr: &Frame, targets: &mut Vec<Target>, depth: u32) -> (r: AplResult<ValueP>)
        requires
            old(self).wf(),
        ensures
            final(self).wf(),
            old(targets)@.len() <= final(targets)@.len(),
            final(targets)@.take(old(targets)@.len() as int) == old(targets)@,
            t@.len() == 0 ==> (r == Err::<ValueP, ErrorCode>(ErrorCode::SyntaxError) && *final(self) == *old(self)
                && final(targets)@ == old(targets)@),
        decreases depth, 3nat, Expr::Alpha,
    {
        let s = t.as_slice();
        let hi = s.len();
        let mut start: usize = 0;
        let mut last: Option<ValueP> = None;
        proof { assert(targets@.take(old(targets)@.len() as int) =~= old(targets)@); }
        loop
            invariant
                start <= hi == s@.len(),
                s@ == t@,
                self.wf(),
                old(targets)@.len() <= targets@.len(),
                targets@.take(old(targets)@.len() as int) == old(targets)@,
                hi == 0 ==> (*self == *old(self) && targets@ == old(targets)@ && last is None),
            decreases hi - start,
        {
            let cut = find_top(s, start, hi, 0);
            let end = match cut {
                Some(m) => m,
                None => hi,
            };
            if start < end {
                let e = self.parse_expr(s, start, end)?;
                let v = match &e {
                    Expr::Monadic(g, x) => {
                        if is_branch(g) {
                            let xv = self.eval(x, fr, depth)?;
                            match xv.first_cell() {
                                None => {
                                    let ghost tb = targets@;
                                    targets.push(Target::Stay);
                                    proof { assert(targets@.take(old(targets)@.len() as int) =~= tb.take(old(targets)@.len() as int)); }
                                },
                                Some(c) => {
                                    let k = c.get_near_int()?;
                                    let ghost tb = targets@;
                                    targets.push(Target::Jump(k));
                                    proof { assert(targets@.take(old(targets)@.len() as int) =~= tb.take(old(targets)@.len() as int)); }
                                },
                            }
                            ValueP::scalar_from(Cell::Int(0))
                        } else {
                            self.eval(&e, fr, depth)?
                        }
                    },
                    _ => self.eval(&e, fr, depth)?,
                };
                last = Some(v);
            }
            match cut {
                Some(m) => {
                    start = m + 1;
                },
                None => {
                    return match last {
                        Some(v) => Ok(v),
                        None => Err(ErrorCode::SyntaxError),
                    };
                },
            }
        }
    }

    /// Whether the condition of a control line holds: its first element is
    /// a nonzero integer. Anything else but zero is a DOMAIN ERROR.
    fn cond_holds(&mut self, c: &Vec<Tok>, fr: &Frame, depth: u32) -> (r: AplResult<bool>)
        requires
            old(self).wf(),
        ensures
            final(self).wf(),
            c@.len() == 0 ==> (r == Err::<bool, ErrorCode>(ErrorCode::SyntaxError) && *final(self) == *old(self)),
        decreases depth, 3nat, Expr::Alpha,
    {
        let s = c.as_slice();
        let e = self.parse_expr(s, 0, s.len())?;
        let v = self.eval(&e, fr, depth)?;
        match v.first_cell() {
            Some(Cell::Int(k)) => Ok(*k != 0),
            _ => Err(ErrorCode::DomainError),
        }
    }

    /// Run the statements of a direct function body: the first guard that
    /// holds, or the first statement that is not an assignment, gives the
    /// result.
    fn run_body(&mut self, t: &[Tok], fr: &Frame, depth: u32) -> (r: AplResult<ValueP>)
        requires
            old(self).wf(),
        ensures
            final(self).wf(),
            t@.len() == 0 ==> (r == Err::<ValueP, ErrorCode>(ErrorCode::ValueError) && *final(self) == *old(self)),
            arith_line(t@, 0, t@.len() as int) && no_index_glyph(t@) ==> exists|e: Expr, rv: AplResult<ValueP>|
                #![trigger arith_tree(t@, 0, t@.len() as int, e), evaluates(old(self).vars_view(), old(self).current_ns_view(), e, *fr, final(self).vars_view(), rv)]
                arith_tree(t@, 0, t@.len() as int, e)
                && evaluates(old(self).vars_view(), old(self).current_ns_view(), e, *fr, final(self).vars_view(), rv)
                && r == rv,
        decreases depth, 3nat, Expr::Alpha,
    {
        let hi = t.len();
        let mut start: usize = 0;
        let mut last: Option<ValueP> = None;
        let ghost simple = arith_line(t@, 0, t@.len() as int) && no_index_glyph(t@);
        loop
            invariant
                start <= hi == t@.len(),
                self.wf(),
                hi == 0 ==> (*self == *old(self) && last is None),
                simple == (arith_line(t@, 0, t@.len() as int) && no_index_glyph(t@)),
                simple ==> (start == 0 && *self == *old(self)),
            decreases hi - start,
        {
            proof {
                if simple {
                    lemma_arith_line_tokens(t@, 0, hi as int);
                    lemma_no_top(t@, 0, 0, hi as int, 0);
                    lemma_no_top(t@, 0, 0, hi as int, 2);
                }
            }
            let cut = find_top(t, start, hi, 0);
            let end = match cut { Some(m) => m, None => hi };
            if start < end {
                match find_top(t, start, end, 2) {
                    Some(c) => {
                        let ce = self.parse_expr(t, start, c)?;
                        let cv = self.eval(&ce, fr, depth)?;
                        let hold = match cv.first_cell() {
                            Some(Cell::Int(1)) => true,
                            Some(Cell::Int(0)) => false,
                            _ => { return Err(ErrorCode::DomainError); },
                        };
                        if hold {
                            let re = self.parse_expr(t, c + 1, end)?;
                            return self.eval(&re, fr, depth);
                        }
                    },
                    None => {
                        let se = self.parse_expr(t, start, end)?;
                        proof {
                            if simple {
                                law_arith_tree_evaluable(t@, 0, hi as int, se);
                            }
                        }
                        let rv = self.eval(&se, fr, depth);
                        let v = match rv {
                            Ok(v) => v,
                            Err(er) => {
                                proof {
                                    if simple {
                                        assert(arith_tree(t@, 0, t@.len() as int, se)
                                            && evaluates(old(self).vars_view(), old(self).current_ns_view(), se, *fr, self.vars_view(), rv));
                                    }
                                }
                                return Err(er);
                            },
                        };
                        proof {
                            if simple {
                                assert(arith_tree(t@, 0, t@.len() as int, se)
                                    && evaluates(old(self).vars_view(), old(self).current_ns_view(), se, *fr, self.vars_view(), rv));
                                assert(!(se is Assign || se is ModAssign || se is IndexAssign || se is DefFn || se is SelAssign));
                            }
                        }
                        match se {
                            Expr::Assign(_, _) | Expr::ModAssign(_, _, _) | Expr::IndexAssign(_, _, _) | Expr::DefFn(_, _) | Expr::SelAssign(_, _, _) => {
                                last = Some(v);
                            },
                            _ => { return Ok(v); },
                        }
                    },
                }
            }
            match cut {
                Some(m) => { start = m + 1; },
                None => {
                    return match last {
                        Some(v) => Ok(v),
                        None => Err(ErrorCode::ValueError),
                    };
                },
            }
        }
    }

    /// `⍎B` at nesting depth `depth`.
    fn execute_at(&mut self, b: &ValueP, depth: u32) -> (r: AplResult<ValueP>)
        requires
            old(self).wf(),
        ensures
            final(self).wf(),
            !all_text(b.ravel()) ==> r == Err::<ValueP, ErrorCode>(ErrorCode::DomainError),
            all_blank(b.ravel()) ==> (r matches Ok(v) && v.dims() == Seq::<i64>::empty() && v.ravel() == seq![Cell::Int(0)]
                && final(self).shy_view()),
            final(self).execute_depth_view() == old(self).execute_depth_view(),
            all_text(b.ravel()) && !all_blank(b.ravel()) && old(self).execute_depth_view() >= MAX_EXECUTE_DEPTH
                ==> r == Err::<ValueP, ErrorCode>(ErrorCode::LimitError),
            all_text(b.ravel()) && !all_blank(b.ravel()) && old(self).execute_depth_view() < MAX_EXECUTE_DEPTH && depth > 0
                ==> (crate::tokenizer::scan(text_of(b.ravel()), 0, Seq::empty()) matches Err(er) ==> r == Err::<ValueP, ErrorCode>(er)),
            all_text(b.ravel()) && !all_blank(b.ravel()) && old(self).execute_depth_view() < MAX_EXECUTE_DEPTH && depth > 0
                ==> (crate::tokenizer::scan(text_of(b.ravel()), 0, Seq::empty()) matches Ok(tv) ==> (simple_statement(tv)
                ==> exists|t: Seq<Tok>, e: Expr, rv: AplResult<ValueP>|
                    #![trigger statement_tree(t, e), evaluates(old(self).vars_view(), old(self).current_ns_view(), e, no_frame(), final(self).vars_view(), rv)]
                    toks_view(t) == tv && statement_tree(t, e)
                    && evaluates(old(self).vars_view(), old(self).current_ns_view(), e, no_frame(), final(self).vars_view(), rv)
                    && executed(e, rv, r, final(self).shy_view()))),
        decreases depth, 0nat, Expr::Alpha,
    {
        let cells = b.cells();
        let mut chars: Vec<char> = Vec::new();
        let mut blank = true;
        let mut i: usize = 0;
        while i < cells.len()
            invariant
                i <= cells@.len(),
                self.wf(),
                cells@ == b.ravel(),
                forall|q: int| 0 <= q < i ==> text_cell(#[trigger] cells@[q]),
                all_blank(b.ravel()) ==> blank,
                blank ==> forall|q: int| 0 <= q < i ==> (#[trigger] cells@[q] matches Cell::Char(u) && crate::quad::white_code(u)),
                chars@.len() == i,
                forall|q: int| 0 <= q < i ==> #[trigger] chars@[q] == crate::quad::char_of(cells@[q]->Char_0),
            decreases cells@.len() - i,
        {
            match &cells[i] {
                Cell::Char(u) => {
                    match crate::text::char_from_u32(*u) {
                        Some(c) => {
                            proof { crate::quad::lemma_char_of(c); }
                            if !crate::quad::char_is_white(c) { blank = false; }
                            chars.push(c);
                        },
                        None => { return Err(ErrorCode::DomainError); },
                    }
                },
                _ => { return Err(ErrorCode::DomainError); },
            }
            i += 1;
        }
        if blank {
            self.execute_was_shy = true;
            return Ok(ValueP::scalar_from(Cell::Int(0)));
        }
        if self.execute_depth >= MAX_EXECUTE_DEPTH || depth == 0 {
            return Err(ErrorCode::LimitError);
        }
        let text = crate::text::chars_to_string(chars.as_slice());
        proof { assert(text@ =~= text_of(b.ravel())); }
        let saved = self.execute_depth;
        self.execute_depth = saved + 1;
        let ghost mid = *self;
        let run = self.run_line(text.as_str(), depth - 1);
        self.execute_depth = saved;
        let ghost after = self.vars_view();
        let ghost simple = crate::tokenizer::scan(text@, 0, Seq::empty()) matches Ok(tv) && simple_statement(tv);
        proof {
            if simple {
                assert(exists|t: Seq<Tok>, e: Expr, rv: AplResult<ValueP>|
                    #![trigger statement_tree(t, e), evaluates(mid.vars_view(), mid.current_ns_view(), e, no_frame(), after, rv)]
                    toks_view(t) == crate::tokenizer::scan(text@, 0, Seq::empty())->Ok_0 && statement_tree(t, e)
                    && evaluates(mid.vars_view(), mid.current_ns_view(), e, no_frame(), after, rv)
                    && run == statement_result(e, rv));
                assert(mid.vars_view() == old(self).vars_view());
                assert(mid.current_ns_view() == old(self).current_ns_view());
            }
        }
        let ghost (wt, we, wrv) = choose|t: Seq<Tok>, e: Expr, rv: AplResult<ValueP>|
            #![trigger statement_tree(t, e), evaluates(mid.vars_view(), mid.current_ns_view(), e, no_frame(), after, rv)]
            toks_view(t) == crate::tokenizer::scan(text@, 0, Seq::empty())->Ok_0 && statement_tree(t, e)
            && evaluates(mid.vars_view(), mid.current_ns_view(), e, no_frame(), after, rv)
            && run == statement_result(e, rv);
        let result = match run {
            Ok(x) => x,
            Err(er) => {
                proof {
                    if simple {
                        assert(executed(we, wrv, Err::<ValueP, ErrorCode>(er), self.shy_view()));
                        assert(evaluates(old(self).vars_view(), old(self).current_ns_view(), we, no_frame(), self.vars_view(), wrv));
                        assert(statement_tree(wt, we));
                        assert(toks_view(wt) == crate::tokenizer::scan(text_of(b.ravel()), 0, Seq::empty())->Ok_0);
                    }
                }
                return Err(er);
            },
        };
        match result {
            Some(v) => {
                self.execute_was_shy = false;
                proof {
                    if simple {
                        assert(executed(we, wrv, Ok::<ValueP, ErrorCode>(v), self.shy_view()));
                        assert(evaluates(old(self).vars_view(), old(self).current_ns_view(), we, no_frame(), self.vars_view(), wrv));
                        assert(statement_tree(wt, we));
                        assert(toks_view(wt) == crate::tokenizer::scan(text_of(b.ravel()), 0, Seq::empty())->Ok_0);
                    }
                }
                Ok(v)
            },
            None => {
                self.execute_was_shy = true;
                let z = ValueP::scalar_from(Cell::Int(0));
                proof {
                    if simple {
                        assert(executed(we, wrv, Ok::<ValueP, ErrorCode>(z), self.shy_view()));
                        assert(evaluates(old(self).vars_view(), old(self).current_ns_view(), we, no_frame(), self.vars_view(), wrv));
                        assert(statement_tree(wt, we));
                        assert(toks_view(wt) == crate::tokenizer::scan(text_of(b.ravel()), 0, Seq::empty())->Ok_0);
                    }
                }
                Ok(z)
            },
        }
    }

    /// Run the statements of one line at nesting depth `depth`: the value
    /// of the last, or nothing when it was an assignment.
    fn run_line(&mut self, line: &str, depth: u32) -> (r: AplResult<Option<ValueP>>)
        requires
            old(self).wf(),
        ensures
            final(self).wf(),
            crate::tokenizer::scan(line@, 0, Seq::empty()) matches Err(e) ==> r == Err::<Option<ValueP>, ErrorCode>(e),
            crate::tokenizer::scan(line@, 0, Seq::empty()) matches Ok(tv) ==> (tv.len() <= 1
                ==> (r == Ok::<Option<ValueP>, ErrorCode>(None) && *final(self) == *old(self))),
            crate::tokenizer::scan(line@, 0, Seq::empty()) matches Ok(tv) ==> (simple_statement(tv)
                ==> exists|t: Seq<Tok>, e: Expr, rv: AplResult<ValueP>|
                    #![trigger statement_tree(t, e), evaluates(old(self).vars_view(), old(self).current_ns_view(), e, no_frame(), final(self).vars_view(), rv)]
                    toks_view(t) == tv && statement_tree(t, e)
                    && evaluates(old(self).vars_view(), old(self).current_ns_view(), e, no_frame(), final(self).vars_view(), rv)
                    && r == statement_result(e, rv)),
        decreases depth, 3nat, Expr::Alpha,
    {
        let toks = crate::tokenizer::tokenize(line)?;
        let t = toks.as_slice();
        let ghost tv = crate::tokenizer::scan(line@, 0, Seq::empty())->Ok_0;
        let ghost simple = simple_statement(tv);
        let n = t.len();
        let hi = if n > 0 { n - 1 } else { 0 };
        let mut start: usize = 0;
        let mut last: Option<ValueP> = None;
        loop
            invariant
                start <= hi <= t@.len(),
                self.wf(),
                n == t@.len(),
                hi == (if n > 0 { n - 1 } else { 0 }),
                n <= 1 ==> (start == 0 && *self == *old(self) && last is None),
                crate::tokenizer::scan(line@, 0, Seq::empty()) is Ok,
                crate::tokenizer::scan(line@, 0, Seq::empty())->Ok_0.len() == n,
                tv == crate::tokenizer::scan(line@, 0, Seq::empty())->Ok_0,
                toks_view(t@) == tv,
                simple == simple_statement(tv),
                simple ==> (start == 0 && *self == *old(self)),
            decreases hi - start,
        {
            proof {
                if simple {
                    if arith_line_v(tv, 0, hi as int) {
                        lemma_arith_line_view(t@, 0, hi as int);
                    } else {
                        lemma_arith_line_view(t@, 2, hi as int);
                        assert(toks_view(t@)[0] == t@[0]@);
                        assert(toks_view(t@)[1] == t@[1]@);
                        assert(arith_assign(t@, 0, hi as int));
                    }
                    lemma_no_top(t@, 0, 0, hi as int, 0);
                }
            }
            let first_cut = find_top(t, start, hi, 0);
            let guarded = match first_cut {
                Some(m) => m > start && is_guard_name(&t[start]),
                None => false,
            };
            let (seg_end, cut) = match first_cut {
                Some(m) => {
                    if guarded {
                        let second = find_top(t, m + 1, hi, 0);
                        (match second { Some(m2) => m2, None => hi }, second)
                    } else {
                        (m, first_cut)
                    }
                },
                None => (hi, first_cut),
            };
            if start < seg_end {
                let e = match first_cut {
                    Some(m) => {
                        if guarded && start < m {
                            let g = self.parse_expr(t, start + 1, m)?;
                            let f = self.parse_expr(t, m + 1, seg_end)?;
                            Expr::ErrorGuard(Box::new(g), Box::new(f))
                        } else {
                            self.parse_expr(t, start, seg_end)?
                        }
                    },
                    None => self.parse_expr(t, start, seg_end)?,
                };
                let outer_shy = self.execute_was_shy;
                self.execute_was_shy = false;
                let fr = Frame { alpha: None, omega: None };
                let ghost before = self.vars_view();
                proof {
                    if simple {
                        if t@[0] is Name {
                            assert(toks_view(t@)[0] == t@[0]@);
                            assert(!arith_line_v(tv, 0, hi as int));
                            assert(arith_assign(t@, 0, hi as int));
                            assert(assign_tree(t@, 0, hi as int, e));
                            law_arith_tree_evaluable(t@, 2, hi as int, *e->Assign_1);
                            assert(plain_expr(e));
                        } else {
                            assert(arith_tree(t@, 0, hi as int, e));
                            law_arith_tree_evaluable(t@, 0, hi as int, e);
                        }
                        assert(statement_tree(t@, e));
                    }
                }
                let rv = self.eval(&e, &fr, depth);
                let v = match rv {
                    Ok(v) => v,
                    Err(er) => {
                        proof {
                            if simple {
                                assert(fr == no_frame());
                                assert(statement_result(e, rv) == Err::<Option<ValueP>, ErrorCode>(er));
                                assert(toks_view(t@) == tv && statement_tree(t@, e)
                                    && evaluates(old(self).vars_view(), old(self).current_ns_view(), e, no_frame(), self.vars_view(), rv));
                            }
                        }
                        return Err(er);
                    },
                };
                let executed_shy = self.execute_was_shy;
                self.execute_was_shy = outer_shy;
                let is_assign = match e {
                    Expr::Assign(_, _) | Expr::ModAssign(_, _, _) | Expr::IndexAssign(_, _, _) | Expr::DefFn(_, _) | Expr::SelAssign(_, _, _) => true,
                    _ => false,
                };
                last = if is_assign || executed_shy { None } else { Some(v) };
                proof {
                    if simple {
                        assert(fr == no_frame());
                        assert(Ok::<Option<ValueP>, ErrorCode>(last) == statement_result(e, rv));
                        assert(toks_view(t@) == tv && statement_tree(t@, e)
                            && evaluates(old(self).vars_view(), old(self).current_ns_view(), e, no_frame(), self.vars_view(), rv));
                    }
                }
            }
            match cut {
                Some(m) => { start = m + 1; },
                None => { return Ok(last); },
            }
        }
    }

    /// Call defined function `name` with the arguments given. A direct
    /// function needs a right argument and keeps its assignments to itself;
    /// a traditional function takes the arguments its header names (a
    /// SYNTAX ERROR otherwise), and the names local to it are bound again as
    /// before once a call succeeds. An unknown name is a VALUE ERROR.
    pub fn call_function(&mut self, name: &str, left: Option<ValueP>, right: Option<ValueP>) -> (r: AplResult<ValueP>)
        requires
            old(self).wf(),
        ensures
            final(self).wf(),
            old(self).table().body_for(name@) is None ==> r == Err::<ValueP, ErrorCode>(ErrorCode::ValueError),
            old(self).table().body_for(name@) matches Some(FnBody::Direct(_)) ==> final(self).vars_view() == old(self).vars_view(),
            old(self).table().body_for(name@) matches Some(FnBody::Direct(_)) && right is None
                ==> r == Err::<ValueP, ErrorCode>(ErrorCode::SyntaxError),
            old(self).table().body_for(name@) matches Some(FnBody::Direct(b)) ==> (right matches Some(w)
                ==> (arith_line_v(toks_view(b@), 0, b@.len() as int)
                ==> dfn_gives(old(self).vars_view(), old(self).current_ns_view(), b@, left, w, r))),
            old(self).table().traditional(name@) matches Some(t) && arity_mismatch(t, left is Some, right is Some)
                ==> r == Err::<ValueP, ErrorCode>(ErrorCode::SyntaxError) && final(self).vars_view() == old(self).vars_view(),
            old(self).table().traditional(name@) matches Some(t) ==> forall|j: int| 0 <= j < t.locals@.len()
                ==> #[trigger] binding(final(self).vars_view(), t.locals@[j]@) == binding(old(self).vars_view(), t.locals@[j]@),
    {
        let key = name.to_owned();
        self.call_named(&key, left, right, MAX_DEPTH)
    }

    /// Evaluate one line: the value of its last statement, or nothing when
    /// that is an assignment or the line is empty.
    pub fn eval_line(&mut self, line: &str) -> (r: AplResult<Option<ValueP>>)
        requires
            old(self).wf(),
        ensures
            final(self).wf(),
            crate::tokenizer::scan(line@, 0, Seq::empty()) matches Err(e) ==> r == Err::<Option<ValueP>, ErrorCode>(e),
            crate::tokenizer::scan(line@, 0, Seq::empty()) matches Ok(tv) ==> (tv.len() <= 1
                ==> (r == Ok::<Option<ValueP>, ErrorCode>(None) && *final(self) == *old(self))),
            crate::tokenizer::scan(line@, 0, Seq::empty()) matches Ok(tv) ==> (simple_statement(tv)
                ==> exists|t: Seq<Tok>, e: Expr, rv: AplResult<ValueP>|
                    #![trigger statement_tree(t, e), evaluates(old(self).vars_view(), old(self).current_ns_view(), e, no_frame(), final(self).vars_view(), rv)]
                    toks_view(t) == tv && statement_tree(t, e)
                    && evaluates(old(self).vars_view(), old(self).current_ns_view(), e, no_frame(), final(self).vars_view(), rv)
                    && r == statement_result(e, rv)),
    {
        self.run_line(line, MAX_DEPTH)
    }

    /// `⍎B`: evaluate the characters of B as a line. An empty or blank B
    /// gives a quiet 0, as does a line that is an assignment; non-characters
    /// are a DOMAIN ERROR; executes nested too deeply are a LIMIT ERROR.
    pub fn execute_value(&mut self, b: &ValueP) -> (r: AplResult<ValueP>)
        requires
            old(self).wf(),
        ensures
            final(self).wf(),
            !all_text(b.ravel()) ==> r == Err::<ValueP, ErrorCode>(ErrorCode::DomainError),
            all_blank(b.ravel()) ==> (r matches Ok(v) && v.dims() == Seq::<i64>::empty() && v.ravel() == seq![Cell::Int(0)]
                && final(self).shy_view()),
            final(self).execute_depth_view() == old(self).execute_depth_view(),
            all_text(b.ravel()) && !all_blank(b.ravel()) && old(self).execute_depth_view() >= MAX_EXECUTE_DEPTH
                ==> r == Err::<ValueP, ErrorCode>(ErrorCode::LimitError),
            all_text(b.ravel()) && !all_blank(b.ravel()) && old(self).execute_depth_view() < MAX_EXECUTE_DEPTH
                ==> (crate::tokenizer::scan(text_of(b.ravel()), 0, Seq::empty()) matches Err(er) ==> r == Err::<ValueP, ErrorCode>(er)),
            all_text(b.ravel()) && !all_blank(b.ravel()) && old(self).execute_depth_view() < MAX_EXECUTE_DEPTH
                ==> (crate::tokenizer::scan(text_of(b.ravel()), 0, Seq::empty()) matches Ok(tv) ==> (simple_statement(tv)
                ==> exists|t: Seq<Tok>, e: Expr, rv: AplResult<ValueP>|
                    #![trigger statement_tree(t, e), evaluates(old(self).vars_view(), old(self).current_ns_view(), e, no_frame(), final(self).vars_view(), rv)]
                    toks_view(t) == tv && statement_tree(t, e)
                    && evaluates(old(self).vars_view(), old(self).current_ns_view(), e, no_frame(), final(self).vars_view(), rv)
                    && executed(e, rv, r, final(self).shy_view()))),
    {
        self.execute_at(b, MAX_DEPTH)
    }
}

/// `f⌿B`: reduce along the first axis.
/// The cells of the transpose (axes reversed) of cells `c` of dimensions `d`.
pub open spec fn reversed_cells(c: Seq<Cell>, d: Seq<i64>) -> Seq<Cell> {
    crate::transpose::transposed(c, d, Seq::new(d.len(), |k: int| d.len() - 1 - k), d.reverse())
}

fn reduce_first(f: crate::scalar::ScalarFn, b: &ValueP) -> (r: AplResult<ValueP>)
    ensures
        b.dims().len() == 0 ==> r == Ok::<ValueP, ErrorCode>(*b),
        b.dims().len() == 1 ==> (crate::prims::reduce_outcome(f, *b) matches Err(e) ==> r == Err::<ValueP, ErrorCode>(e)),
        b.dims().len() == 1 ==> (crate::prims::reduce_outcome(f, *b) matches Ok(cells) ==> (r matches Ok(v)
            && v.dims() == b.dims().drop_last() && v.ravel() == cells)),
        b.dims().len() >= 2 ==> ({
            let rd = b.dims().reverse();
            match crate::prims::fold_rows(f, reversed_cells(b.ravel(), b.dims()), rd.last() as int, prod(rd.drop_last())) {
                Err(e) => r == Err::<ValueP, ErrorCode>(e),
                Ok(cells) => r matches Ok(v) && v.dims() == rd.drop_last().reverse()
                    && v.ravel() == (if rd.drop_last().len() < 2 { cells } else { reversed_cells(cells, rd.drop_last()) }),
            }
        }),
{
    if b.rank() <= 1 {
        return crate::prims::reduce(f, b);
    }
    let t = crate::transpose::transpose(b)?;
    let red = crate::prims::reduce(f, &t)?;
    proof {
        assert(red.dims() == b.dims().reverse().drop_last());
    }
    crate::transpose::transpose(&red)
}

/// `X↑[k]B`, with a LIMIT ERROR in place of a result too large for a shape.
fn take_axis_checked(x: &ValueP, b: &ValueP, k: i64) -> (r: AplResult<ValueP>)
    ensures
        crate::take_drop::single_int_spec(*x) matches Err(e) ==> r == Err::<ValueP, ErrorCode>(e),
        crate::take_drop::single_int_spec(*x) is Ok && !(0 <= k < b.spec_rank())
            ==> r == Err::<ValueP, ErrorCode>(ErrorCode::RankError),
        crate::take_drop::single_int_spec(*x) matches Ok(c) ==> (0 <= k < b.spec_rank()
            && crate::shape::absprod(b.dims().update(k as int, c)) > i64::MAX ==> r == Err::<ValueP, ErrorCode>(ErrorCode::LimitError)),
        crate::take_drop::single_int_spec(*x) matches Ok(c) ==> (0 <= k < b.spec_rank()
            && crate::shape::absprod(b.dims().update(k as int, c)) <= i64::MAX ==> (r matches Ok(v)
            && v.dims() == b.dims().update(k as int, crate::take_drop::mag(c) as i64)
            && exists|p: Cell| crate::value::proto_ok(p, b.spec_proto())
                && v.ravel() == crate::take_drop::take_spec(b.ravel(), b.dims(), b.dims().update(k as int, c), p))),
{
    b.lemma_wf();
    let xc = x.cells();
    if xc.len() == 1 {
        if let Cell::Int(count) = &xc[0] {
            if 0 <= k && k < b.rank() as i64 {
                let mut d = b.dim_list();
                d.set(k as usize, *count);
                if !crate::take_drop::weight_fits(d.as_slice()) {
                    return Err(ErrorCode::LimitError);
                }
            }
        }
    }
    crate::take_drop::take_axis(x, b, k)
}

/// `f\\B` for a scalar function: along the last axis, each cell is the
/// reduction of the cells of its row up to it. A scalar is itself.
fn scan_last(f: crate::scalar::ScalarFn, b: &ValueP) -> (r: AplResult<ValueP>)
    ensures
        b.dims().len() == 0 ==> r == Ok::<ValueP, ErrorCode>(*b),
        r matches Ok(v) ==> v.dims() == b.dims(),
{
    b.lemma_wf();
    let rank = b.rank();
    if rank == 0 {
        return Ok(b.clone());
    }
    let cells = b.cells();
    let total = cells.len();
    let d = b.get_shape_item((rank - 1) as i16);
    if d <= 0 || total == 0 {
        let mut empty: Vec<Cell> = Vec::new();
        let mut i: usize = 0;
        while i < total
            invariant
                i <= total == cells@.len(),
                empty@.len() == i,
            decreases total - i,
        {
            empty.push(cells[i].clone());
            i += 1;
        }
        return Ok(ValueP::from_ravel_like(b, empty));
    }
    let n: usize = if d as u128 > total as u128 { total } else { d as usize };
    let mut out: Vec<Cell> = Vec::new();
    let mut i: usize = 0;
    let mut k: usize = 0;
    while i < total
        invariant
            i <= total == cells@.len(),
            b.dims().len() > 0,
            n > 0,
            k <= i,
            k < n,
            out@.len() == i,
        decreases total - i,
    {
        let start = i - k;
        let mut prefix: Vec<Cell> = Vec::new();
        let mut j: usize = start;
        while j <= i
            invariant
                start <= j <= i + 1,
                i < total == cells@.len(),
            decreases i + 1 - j,
        {
            prefix.push(cells[j].clone());
            j += 1;
        }
        let row = vector_of(prefix)?;
        let red = crate::prims::reduce(f, &row)?;
        let c = match red.first_cell() {
            Some(c) => c.clone(),
            None => { return Err(ErrorCode::DomainError); },
        };
        out.push(c);
        i += 1;
        k = if k + 1 == n { 0 } else { k + 1 };
    }
    Ok(ValueP::from_ravel_like(b, out))
}

/// `A f¨B` for a glyph: pairwise, a single element pairing with all.
fn each_dyadic(p: Prim, a: &ValueP, b: &ValueP, io: i64) -> (r: AplResult<ValueP>)
    ensures
        a.ravel().len() != 1 && b.ravel().len() != 1 && a.ravel().len() != b.ravel().len()
            ==> r == Err::<ValueP, ErrorCode>(ErrorCode::LengthError),
        r matches Ok(v) ==> v.dims() == (if a.ravel().len() == 1 { b.dims() } else { a.dims() })
            && v.ravel().len() == (if a.ravel().len() == 1 { b.ravel().len() } else { a.ravel().len() }),
{
    a.lemma_wf();
    b.lemma_wf();
    let ac = a.cells();
    let bc = b.cells();
    if ac.len() != 1 && bc.len() != 1 && ac.len() != bc.len() {
        return Err(ErrorCode::LengthError);
    }
    let n = if ac.len() == 1 { bc.len() } else { ac.len() };
    let mut out: Vec<Cell> = Vec::new();
    let mut i: usize = 0;
    while i < n
        invariant
            i <= n,
            out@.len() == i,
            ac@.len() == 1 || ac@.len() == n,
            bc@.len() == 1 || bc@.len() == n,
            ac@ == a.ravel(),
            bc@ == b.ravel(),
            !(ac@.len() != 1 && bc@.len() != 1 && ac@.len() != bc@.len()),
        decreases n - i,
    {
        let x = cell_value(if ac.len() == 1 { &ac[0] } else { &ac[i] });
        let y = cell_value(if bc.len() == 1 { &bc[0] } else { &bc[i] });
        let r = apply_dyadic(p, &x, &y, io)?;
        out.push(as_item_cell(&r));
        i += 1;
    }
    let model = if ac.len() == 1 { b } else { a };
    if ac.len() == 1 && bc.len() == 1 {
        return Ok(ValueP::from_ravel_like(b, out));
    }
    Ok(ValueP::from_ravel_like(model, out))
}

/// `A∘.fB`: `f` applied to every pair of a cell of A and a cell of B; the
/// result has the dimensions of A followed by those of B.
fn outer_product(p: Prim, a: &ValueP, b: &ValueP, io: i64) -> (r: AplResult<ValueP>)
    ensures
        r matches Ok(v) ==> v.dims() == a.dims() + b.dims() && v.ravel().len() == a.ravel().len() * b.ravel().len(),
        a.dims().len() + b.dims().len() > crate::types::MAX_RANK ==> r is Err,
{
    a.lemma_wf();
    b.lemma_wf();
    let ac = a.cells();
    let bc = b.cells();
    let mut out: Vec<Cell> = Vec::new();
    let mut i: usize = 0;
    while i < ac.len()
        invariant
            i <= ac@.len(),
            out@.len() == i * bc@.len(),
        decreases ac@.len() - i,
    {
        let x = cell_value(&ac[i]);
        let mut j: usize = 0;
        while j < bc.len()
            invariant
                j <= bc@.len(),
                i < ac@.len(),
                out@.len() == i * bc@.len() + j,
            decreases bc@.len() - j,
        {
            let y = cell_value(&bc[j]);
            let r = apply_dyadic(p, &x, &y, io)?;
            out.push(as_item_cell(&r));
            j += 1;
        }
        proof {
            assert(i * bc@.len() + bc@.len() == (i + 1) * bc@.len()) by (nonlinear_arith);
        }
        i += 1;
    }
    let ad = a.dim_list();
    let bd = b.dim_list();
    let mut dims = ad;
    let mut k: usize = 0;
    while k < bd.len()
        invariant
            k <= bd@.len(),
            bd@ == b.dims(),
            dims@ == a.dims() + bd@.take(k as int),
        decreases bd@.len() - k,
    {
        dims.push(bd[k]);
        proof { assert(bd@.take(k as int + 1) =~= bd@.take(k as int).push(bd@[k as int])); }
        k += 1;
    }
    proof { assert(bd@.take(bd@.len() as int) =~= bd@); }
    if dims.len() > crate::types::MAX_RANK || !crate::take_drop::weight_fits(dims.as_slice()) {
        return Err(ErrorCode::LimitError);
    }
    match crate::shape::Shape::from_dims(dims.as_slice()) {
        Ok(s) => ValueP::from_parts(s, out),
        Err(e) => Err(e),
    }
}

/// The dimensions of an inner product of values of rank at most 2: the
/// rows of A when it is a matrix, then the columns of B when it is one.
pub open spec fn inner_dims(a: Seq<i64>, b: Seq<i64>) -> Seq<i64> {
    (if a.len() == 2 { seq![a[0]] } else { Seq::empty() }) + (if b.len() == 2 { seq![b[1]] } else { Seq::empty() })
}

/// `Af.gB` for values of rank at most 2: `f/` of `g` applied along the last
/// axis of A and the first axis of B.
fn inner_product(f: Prim, g: Prim, a: &ValueP, b: &ValueP, io: i64) -> (r: AplResult<ValueP>)
    ensures
        crate::dispatch::scalar_fn_spec(f) is None || a.dims().len() > 2 || b.dims().len() > 2
            ==> r == Err::<ValueP, ErrorCode>(ErrorCode::NonceError),
        crate::dispatch::scalar_fn_spec(f) is Some && a.dims().len() <= 2 && b.dims().len() <= 2
            && a.dims().len() > 0 && b.dims().len() > 0 && a.dims().last() != b.dims()[0]
            ==> r == Err::<ValueP, ErrorCode>(ErrorCode::LengthError),
        r matches Ok(v) ==> v.dims() == inner_dims(a.dims(), b.dims()),
{
    a.lemma_wf();
    b.lemma_wf();
    let sf = match scalar_fn_of(f) {
        Some(sf) => sf,
        None => { return Err(ErrorCode::NonceError); },
    };
    if a.rank() > 2 || b.rank() > 2 {
        return Err(ErrorCode::NonceError);
    }
    let ra = a.rank();
    let rb = b.rank();
    let n: i64 = if ra == 0 { 1 } else { a.get_shape_item((ra - 1) as i16) };
    let nb: i64 = if rb == 0 { 1 } else { b.get_shape_item(0) };
    if ra > 0 && rb > 0 && n != nb {
        return Err(ErrorCode::LengthError);
    }
    let len: i64 = if ra == 0 { nb } else { n };
    let rows: i64 = if ra == 2 { a.get_shape_item(0) } else { 1 };
    let cols: i64 = if rb == 2 { b.get_shape_item(1) } else { 1 };
    let ac = a.cells();
    let bc = b.cells();
    if len < 0 || rows < 0 || cols < 0 {
        return Err(ErrorCode::DomainError);
    }
    let mut out: Vec<Cell> = Vec::new();
    let mut i: i64 = 0;
    while i < rows
        invariant
            0 <= i <= rows,
            crate::dispatch::scalar_fn_spec(f) is Some, a.dims().len() <= 2, b.dims().len() <= 2,
                !(a.dims().len() > 0 && b.dims().len() > 0 && a.dims().last() != b.dims()[0]),
            0 <= cols,
            0 <= len,
        decreases rows - i,
    {
        let mut j: i64 = 0;
        while j < cols
            invariant
                0 <= j <= cols,
                crate::dispatch::scalar_fn_spec(f) is Some, a.dims().len() <= 2, b.dims().len() <= 2,
                !(a.dims().len() > 0 && b.dims().len() > 0 && a.dims().last() != b.dims()[0]),
                0 <= i < rows,
                0 <= len,
            decreases cols - j,
        {
            let mut pairs: Vec<Cell> = Vec::new();
            let mut k: i64 = 0;
            while k < len
                invariant
                    0 <= k <= len,
                    crate::dispatch::scalar_fn_spec(f) is Some, a.dims().len() <= 2, b.dims().len() <= 2,
                !(a.dims().len() > 0 && b.dims().len() > 0 && a.dims().last() != b.dims()[0]),
                    0 <= i < rows,
                    0 <= j < cols,
                decreases len - k,
            {
                proof {
                    assert((i as u128) * (len as u128) <= 0x4000_0000_0000_0000_0000_0000_0000_0000u128)
                        by (nonlinear_arith) requires 0 <= i <= i64::MAX, 0 <= len <= i64::MAX;
                    assert((k as u128) * (cols as u128) <= 0x4000_0000_0000_0000_0000_0000_0000_0000u128)
                        by (nonlinear_arith) requires 0 <= k <= i64::MAX, 0 <= cols <= i64::MAX;
                }
                let ia = if ra == 0 { 0 } else { i as u128 * len as u128 + k as u128 };
                let ib = if rb == 0 { 0 } else if rb == 1 { k as u128 } else { k as u128 * cols as u128 + j as u128 };
                if ia >= ac.len() as u128 || ib >= bc.len() as u128 {
                    return Err(ErrorCode::LengthError);
                }
                let x = ValueP::scalar_from(ac[ia as usize].clone());
                let y = ValueP::scalar_from(bc[ib as usize].clone());
                let c = apply_dyadic(g, &x, &y, io)?;
                match c.first_cell() {
                    Some(c) => { pairs.push(c.clone()); },
                    None => { return Err(ErrorCode::DomainError); },
                }
                k += 1;
            }
            let row = vector_of(pairs)?;
            let red = crate::prims::reduce(sf, &row)?;
            match red.first_cell() {
                Some(c) => { out.push(c.clone()); },
                None => { return Err(ErrorCode::DomainError); },
            }
            j += 1;
        }
        i += 1;
    }
    let mut dims: Vec<i64> = Vec::new();
    if ra == 2 { dims.push(rows); }
    if rb == 2 { dims.push(cols); }
    proof { assert(dims@ =~= inner_dims(a.dims(), b.dims())); }
    if !crate::take_drop::weight_fits(dims.as_slice()) {
        return Err(ErrorCode::LimitError);
    }
    match crate::shape::Shape::from_dims(dims.as_slice()) {
        Ok(s) => ValueP::from_parts(s, out),
        Err(e) => Err(e),
    }
}


/// A read gives back what a write wrote: after variable `name` is bound to
/// `v`, it holds `v`, and every other variable holds what it held before.
pub proof fn law_get_after_set(before: Map<Seq<char>, ValueP>, after: Map<Seq<char>, ValueP>, name: Seq<char>, v: ValueP)
    requires
        after == before.insert(name, v),
    ensures
        after.dom().contains(name),
        after[name] == v,
        forall|k: Seq<char>| k != name ==> (after.dom().contains(k) == before.dom().contains(k)),
        forall|k: Seq<char>| k != name && before.dom().contains(k) ==> after[k] == before[k],
{
}

/// An erased variable is gone, and every other variable holds what it held
/// before.
pub proof fn law_erase(before: Map<Seq<char>, ValueP>, after: Map<Seq<char>, ValueP>, name: Seq<char>)
    requires
        after == before.remove(name),
    ensures
        !after.dom().contains(name),
        forall|k: Seq<char>| k != name ==> (after.dom().contains(k) == before.dom().contains(k)),
        forall|k: Seq<char>| k != name && before.dom().contains(k) ==> after[k] == before[k],
{
}

} // verus!
