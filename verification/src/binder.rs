//! Declarative name binding.
//!
//! From a file's syntax and its profile's binding matches, the binder
//! extracts import/export facts and a local symbol table, then resolves each
//! call and member read to an identity, so rules can match sinks and sources
//! by what a name refers to (an imported `child_process.exec` reached
//! through `import {exec as run}`) rather than by its spelling. A profile
//! without binding queries yields empty bindings, and every callee resolves
//! to [`CalleeId::Unresolved`], its raw text.

use vstd::prelude::*;
use crate::findings::Span;
use crate::paths::{AccessPath, PathView, parse_path};
use crate::sorting::{Located, views, ssort, dedup_loc, stable_sort, dedup_located};
use crate::state::opt_view;
use crate::structure::{RawUse, RawUseV, keep_maximal, keep_maximal_uses, matches_fit, check_fit,
    named_spans, named_child_spans, node_span, node_text, lemma_capture_fits};
use crate::syntax::{SyntaxTree, QueryMatch, capture_spec, capture_named};
use crate::text::{chars_of, string_of, str_is, cat, cat3};

verus! {

/// What a local name refers to within a file.
#[derive(Debug)]
pub enum LocalBinding {
    /// A named import: the local refers to `name` from `module`; a
    /// whole-module import uses name `*`.
    Imported { module: String, name: String },
    /// A function declared in this file.
    LocalFunction,
    /// A one-hop alias to another local name.
    AliasOf(String),
}

pub enum LocalBindingV {
    Imported { module: Seq<char>, name: Seq<char> },
    LocalFunction,
    AliasOf(Seq<char>),
}

impl View for LocalBinding {
    type V = LocalBindingV;

    open spec fn view(&self) -> LocalBindingV {
        match self {
            LocalBinding::Imported { module, name } => LocalBindingV::Imported { module: module@, name: name@ },
            LocalBinding::LocalFunction => LocalBindingV::LocalFunction,
            LocalBinding::AliasOf(t) => LocalBindingV::AliasOf(t@),
        }
    }
}

impl LocalBinding {
    pub fn duplicate(&self) -> (r: LocalBinding)
        ensures
            r@ == self@,
    {
        match self {
            LocalBinding::Imported { module, name } => LocalBinding::Imported { module: module.clone(), name: name.clone() },
            LocalBinding::LocalFunction => LocalBinding::LocalFunction,
            LocalBinding::AliasOf(t) => LocalBinding::AliasOf(t.clone()),
        }
    }
}

/// A resolved call identity.
#[derive(Debug)]
pub enum CalleeId {
    /// A function defined in this file.
    LocalFn(String),
    /// A function or symbol imported from `module`.
    External { module: String, name: String },
    /// A method invoked on receiver expression `base`.
    Member { base: String, method: String },
    /// Unresolved: the raw callee text.
    Unresolved(String),
}

pub enum CalleeIdV {
    LocalFn(Seq<char>),
    External { module: Seq<char>, name: Seq<char> },
    Member { base: Seq<char>, method: Seq<char> },
    Unresolved(Seq<char>),
}

impl View for CalleeId {
    type V = CalleeIdV;

    open spec fn view(&self) -> CalleeIdV {
        match self {
            CalleeId::LocalFn(n) => CalleeIdV::LocalFn(n@),
            CalleeId::External { module, name } => CalleeIdV::External { module: module@, name: name@ },
            CalleeId::Member { base, method } => CalleeIdV::Member { base: base@, method: method@ },
            CalleeId::Unresolved(t) => CalleeIdV::Unresolved(t@),
        }
    }
}

/// The text after the last `c` in `s` (all of `s` if there is none).
pub open spec fn after_last(s: Seq<char>, c: char) -> Seq<char>
    decreases s.len(),
{
    if s.len() == 0 {
        s
    } else if s.last() == c {
        Seq::empty()
    } else {
        after_last(s.drop_last(), c).push(s.last())
    }
}

fn after_last_chars(s: &str, c: char) -> (r: String)
    ensures
        r@ == after_last(s@, c),
{
    let cs = chars_of(s);
    let n = cs.len();
    let mut i = n;
    assert(cs@.take(n as int) =~= cs@);
    assert(cs@.subrange(n as int, n as int) =~= Seq::<char>::empty());
    while i > 0 && cs[i - 1] != c
        invariant
            i <= n,
            n == cs@.len(),
            after_last(cs@, c) == after_last(cs@.take(i as int), c) + cs@.subrange(i as int, n as int),
        decreases i,
    {
        assert(cs@.take(i as int).drop_last() =~= cs@.take(i - 1));
        assert(cs@.subrange(i - 1, n as int) =~= seq![cs@[i - 1]] + cs@.subrange(i as int, n as int));
        assert(after_last(cs@.take(i as int), c) =~= after_last(cs@.take(i - 1), c).push(cs@[i - 1]));
        i -= 1;
    }
    if i > 0 {
        assert(after_last(cs@.take(i as int), c) =~= Seq::<char>::empty());
    } else {
        assert(after_last(cs@.take(0), c) =~= Seq::<char>::empty());
    }
    assert(after_last(cs@, c) =~= cs@.subrange(i as int, n as int));
    let tail = crate::text::slice_chars(&cs, i, n);
    string_of(tail.as_slice())
}

impl CalleeIdV {
    pub open spec fn terminal_spec(self) -> Seq<char> {
        match self {
            CalleeIdV::LocalFn(n) => n,
            CalleeIdV::External { name, .. } => name,
            CalleeIdV::Member { method, .. } => method,
            CalleeIdV::Unresolved(t) => after_last(t, '.'),
        }
    }

    pub open spec fn describe_spec(self) -> Seq<char> {
        match self {
            CalleeIdV::LocalFn(n) => "local function `"@ + n + "`"@,
            CalleeIdV::External { module, name } => "`"@ + name + "` imported from `"@ + module + "`"@,
            CalleeIdV::Member { base, method } => "method `"@ + method + "` on `"@ + base + "`"@,
            CalleeIdV::Unresolved(t) => "unresolved: no import or local function binds `"@ + t + "`"@,
        }
    }
}

impl CalleeId {
    /// The terminal name a `resolved:` matcher's `name` compares against:
    /// the function, symbol or method name, or the text after the last `.`
    /// of an unresolved callee.
    pub fn terminal(&self) -> (r: String)
        ensures
            r@ == self@.terminal_spec(),
    {
        match self {
            CalleeId::LocalFn(n) => n.clone(),
            CalleeId::External { name, .. } => name.clone(),
            CalleeId::Member { method, .. } => method.clone(),
            CalleeId::Unresolved(t) => after_last_chars(t.as_str(), '.'),
        }
    }

    /// A human-readable account of how this callee resolved.
    pub fn describe(&self) -> (r: String)
        ensures
            r@ == self@.describe_spec(),
    {
        match self {
            CalleeId::LocalFn(n) => cat3("local function `", n.as_str(), "`"),
            CalleeId::External { module, name } => {
                let a = cat3("`", name.as_str(), "` imported from `");
                let r = cat3(a.as_str(), module.as_str(), "`");
                assert(r@ =~= "`"@ + name@ + "` imported from `"@ + module@ + "`"@);
                r
            },
            CalleeId::Member { base, method } => {
                let a = cat3("method `", method.as_str(), "` on `");
                let r = cat3(a.as_str(), base.as_str(), "`");
                assert(r@ =~= "method `"@ + method@ + "` on `"@ + base@ + "`"@);
                r
            },
            CalleeId::Unresolved(t) => cat3("unresolved: no import or local function binds `", t.as_str(), "`"),
        }
    }

    pub fn duplicate(&self) -> (r: CalleeId)
        ensures
            r@ == self@,
    {
        match self {
            CalleeId::LocalFn(n) => CalleeId::LocalFn(n.clone()),
            CalleeId::External { module, name } => CalleeId::External { module: module.clone(), name: name.clone() },
            CalleeId::Member { base, method } => CalleeId::Member { base: base.clone(), method: method.clone() },
            CalleeId::Unresolved(t) => CalleeId::Unresolved(t.clone()),
        }
    }
}

/// A call with its resolved identity and argument spans.
#[derive(Debug)]
pub struct ResolvedCall {
    pub callee: CalleeId,
    pub call_span: Span,
    pub arg_spans: Vec<Span>,
}

pub struct ResolvedCallV {
    pub callee: CalleeIdV,
    pub call_span: Span,
    pub arg_spans: Seq<Span>,
}

impl View for ResolvedCall {
    type V = ResolvedCallV;

    open spec fn view(&self) -> ResolvedCallV {
        ResolvedCallV { callee: self.callee@, call_span: self.call_span, arg_spans: self.arg_spans@ }
    }
}

impl Located for ResolvedCall {
    open spec fn loc_of(v: ResolvedCallV) -> Span {
        v.call_span
    }

    /// Start, then end, ascending.
    open spec fn key_of(v: ResolvedCallV) -> u64 {
        (v.call_span.start_byte as int * 4294967296 + v.call_span.end_byte) as u64
    }

    fn loc(&self) -> (r: Span) {
        self.call_span
    }

    fn key(&self) -> (r: u64) {
        (self.call_span.start_byte as u64) * 4294967296u64 + (self.call_span.end_byte as u64)
    }
}

/// A member (field) read, e.g. `req.query.id`.
#[derive(Debug)]
pub struct ResolvedRead {
    pub path: AccessPath,
    pub span: Span,
    /// Module the base identifier resolves to, if it is an import.
    pub base_module: Option<String>,
}

pub struct ResolvedReadV {
    pub path: PathView,
    pub span: Span,
    pub base_module: Option<Seq<char>>,
}

impl View for ResolvedRead {
    type V = ResolvedReadV;

    open spec fn view(&self) -> ResolvedReadV {
        ResolvedReadV { path: self.path@, span: self.span, base_module: opt_view(self.base_module) }
    }
}

/// An import fact.
#[derive(Debug)]
pub struct ImportFact {
    pub module: String,
    pub name: String,
    pub local: String,
    pub span: Span,
}

pub struct ImportFactV {
    pub module: Seq<char>,
    pub name: Seq<char>,
    pub local: Seq<char>,
    pub span: Span,
}

impl View for ImportFact {
    type V = ImportFactV;

    open spec fn view(&self) -> ImportFactV {
        ImportFactV { module: self.module@, name: self.name@, local: self.local@, span: self.span }
    }
}

/// All binding facts for one file.
#[derive(Debug)]
pub struct FileBindings {
    pub module_decl: Option<String>,
    pub imports: Vec<ImportFact>,
    pub exports: Vec<String>,
    /// Local names and what they refer to; each name occurs once.
    pub locals: Vec<(String, LocalBinding)>,
    pub calls: Vec<ResolvedCall>,
    pub reads: Vec<ResolvedRead>,
}

/// The local table as (name, binding) pairs.
pub open spec fn table_view(v: Seq<(String, LocalBinding)>) -> Seq<(Seq<char>, LocalBindingV)> {
    v.map_values(|e: (String, LocalBinding)| (e.0@, e.1@))
}

/// The position of `name` in a table.
pub open spec fn tpos(tbl: Seq<(Seq<char>, LocalBindingV)>, name: Seq<char>) -> Option<int>
    decreases tbl.len(),
{
    if tbl.len() == 0 {
        None
    } else {
        match tpos(tbl.drop_last(), name) {
            Some(i) => Some(i),
            None => if tbl.last().0 == name { Some(tbl.len() - 1) } else { None },
        }
    }
}

/// What `name` is bound to in a table.
pub open spec fn tget(tbl: Seq<(Seq<char>, LocalBindingV)>, name: Seq<char>) -> Option<LocalBindingV> {
    match tpos(tbl, name) {
        Some(i) => Some(tbl[i].1),
        None => None,
    }
}

/// Bind `name` to `b`, replacing an earlier binding.
pub open spec fn tinsert(tbl: Seq<(Seq<char>, LocalBindingV)>, name: Seq<char>, b: LocalBindingV) -> Seq<(Seq<char>, LocalBindingV)> {
    match tpos(tbl, name) {
        Some(i) => tbl.update(i, (name, b)),
        None => tbl.push((name, b)),
    }
}

/// Bind `name` to `b` unless it is bound already.
pub open spec fn tinsert_absent(tbl: Seq<(Seq<char>, LocalBindingV)>, name: Seq<char>, b: LocalBindingV) -> Seq<(Seq<char>, LocalBindingV)> {
    match tpos(tbl, name) {
        Some(i) => tbl,
        None => tbl.push((name, b)),
    }
}

/// Resolve a name through at most one alias hop.
pub open spec fn resolve_spec(tbl: Seq<(Seq<char>, LocalBindingV)>, name: Seq<char>) -> Option<LocalBindingV> {
    match tget(tbl, name) {
        Some(LocalBindingV::AliasOf(target)) => tget(tbl, target),
        other => other,
    }
}

proof fn lemma_tpos_prefix(tbl: Seq<(Seq<char>, LocalBindingV)>, k: int, name: Seq<char>)
    requires
        0 <= k <= tbl.len(),
    ensures
        tpos(tbl.take(k), name) is Some ==> tpos(tbl, name) == tpos(tbl.take(k), name),
        (tpos(tbl.take(k), name) is None && k < tbl.len() && tbl[k].0 == name) ==> tpos(tbl, name) == Some(k),
        tpos(tbl, name) matches Some(i) ==> 0 <= i < tbl.len() && tbl[i].0 == name,
    decreases tbl.len() - k,
{
    if k < tbl.len() {
        assert(tbl.take(k + 1).drop_last() =~= tbl.take(k));
        lemma_tpos_prefix(tbl, k + 1, name);
    } else {
        assert(tbl.take(k) =~= tbl);
        lemma_tpos_in(tbl, name);
    }
}

proof fn lemma_tpos_in(tbl: Seq<(Seq<char>, LocalBindingV)>, name: Seq<char>)
    ensures
        tpos(tbl, name) matches Some(i) ==> 0 <= i < tbl.len() && tbl[i].0 == name,
    decreases tbl.len(),
{
    if tbl.len() > 0 {
        lemma_tpos_in(tbl.drop_last(), name);
    }
}

/// The position of `name` among the table entries.
fn table_pos(tbl: &Vec<(String, LocalBinding)>, name: &str) -> (r: Option<usize>)
    ensures
        match r {
            Some(i) => tpos(table_view(tbl@), name@) == Some(i as int) && i < tbl@.len(),
            None => tpos(table_view(tbl@), name@) is None,
        },
{
    let ghost tv = table_view(tbl@);
    let n = tbl.len();
    for i in 0..n
        invariant
            n == tbl@.len(),
            tv == table_view(tbl@),
            tpos(tv.take(i as int), name@) is None,
    {
        assert(tv[i as int].0 == tbl@[i as int].0@);
        if str_is(tbl[i].0.as_str(), name) {
            proof { lemma_tpos_prefix(tv, i as int, name@); }
            return Some(i);
        }
        assert(tv.take(i + 1).drop_last() =~= tv.take(i as int));
    }
    assert(tv.take(n as int) =~= tv);
    None
}

fn table_insert(tbl: &mut Vec<(String, LocalBinding)>, name: String, b: LocalBinding)
    ensures
        table_view(final(tbl)@) == tinsert(table_view(old(tbl)@), name@, b@),
{
    let ghost tv = table_view(tbl@);
    let ghost e = (name@, b@);
    match table_pos(tbl, name.as_str()) {
        Some(i) => {
            tbl.set(i, (name, b));
            assert(table_view(tbl@) =~= tv.update(i as int, e));
        },
        None => {
            tbl.push((name, b));
            assert(table_view(tbl@) =~= tv.push(e));
        },
    }
}

fn table_insert_absent(tbl: &mut Vec<(String, LocalBinding)>, name: String, b: LocalBinding)
    ensures
        table_view(final(tbl)@) == tinsert_absent(table_view(old(tbl)@), name@, b@),
{
    let ghost tv = table_view(tbl@);
    let ghost e = (name@, b@);
    match table_pos(tbl, name.as_str()) {
        Some(i) => {},
        None => {
            tbl.push((name, b));
            assert(table_view(tbl@) =~= tv.push(e));
        },
    }
}

/// Resolve `name` through one alias hop in a local table.
pub fn lookup<'a>(tbl: &'a Vec<(String, LocalBinding)>, name: &str) -> (r: Option<&'a LocalBinding>)
    ensures
        match r {
            Some(b) => resolve_spec(table_view(tbl@), name@) == Some(b@),
            None => resolve_spec(table_view(tbl@), name@) is None,
        },
{
    let ghost tv = table_view(tbl@);
    match table_pos(tbl, name) {
        Some(i) => {
            assert(tv[i as int] == (tbl@[i as int].0@, tbl@[i as int].1@));
            match &tbl[i].1 {
                LocalBinding::AliasOf(target) => {
                    match table_pos(tbl, target.as_str()) {
                        Some(j) => {
                            assert(tv[j as int] == (tbl@[j as int].0@, tbl@[j as int].1@));
                            Some(&tbl[j].1)
                        },
                        None => None,
                    }
                },
                other => Some(other),
            }
        },
        None => None,
    }
}

impl FileBindings {
    /// Resolve a base identifier through one alias hop into a binding.
    pub fn resolve_local(&self, name: &str) -> (r: Option<&LocalBinding>)
        ensures
            match r {
                Some(b) => resolve_spec(table_view(self.locals@), name@) == Some(b@),
                None => resolve_spec(table_view(self.locals@), name@) is None,
            },
    {
        lookup(&self.locals, name)
    }
}

pub open spec fn is_quote(c: char) -> bool {
    c == '"' || c == '\'' || c == '`'
}

pub open spec fn strip_quotes_start(s: Seq<char>) -> Seq<char>
    decreases s.len(),
{
    if s.len() > 0 && is_quote(s[0]) { strip_quotes_start(s.drop_first()) } else { s }
}

pub open spec fn strip_quotes_end(s: Seq<char>) -> Seq<char>
    decreases s.len(),
{
    if s.len() > 0 && is_quote(s.last()) { strip_quotes_end(s.drop_last()) } else { s }
}

/// A module string literal without its surrounding quotes or backticks.
pub open spec fn unquote_spec(s: Seq<char>) -> Seq<char> {
    strip_quotes_end(strip_quotes_start(s))
}

/// Strip surrounding quotes/backticks from a module string literal.
pub fn unquote(s: &str) -> (r: String)
    ensures
        r@ == unquote_spec(s@),
{
    let cs = chars_of(s);
    let n = cs.len();
    let mut lo: usize = 0;
    assert(cs@.subrange(0, n as int) =~= cs@);
    while lo < n && (cs[lo] == '"' || cs[lo] == '\'' || cs[lo] == '`')
        invariant
            lo <= n,
            n == cs@.len(),
            strip_quotes_start(cs@) == strip_quotes_start(cs@.subrange(lo as int, n as int)),
        decreases n - lo,
    {
        assert(cs@.subrange(lo as int, n as int).drop_first() =~= cs@.subrange(lo + 1, n as int));
        lo += 1;
    }
    let mut hi: usize = n;
    assert(strip_quotes_start(cs@) == cs@.subrange(lo as int, n as int));
    while hi > lo && (cs[hi - 1] == '"' || cs[hi - 1] == '\'' || cs[hi - 1] == '`')
        invariant
            lo <= hi <= n,
            n == cs@.len(),
            unquote_spec(cs@) == strip_quotes_end(cs@.subrange(lo as int, hi as int)),
        decreases hi - lo,
    {
        assert(cs@.subrange(lo as int, hi as int).drop_last() =~= cs@.subrange(lo as int, hi - 1));
        hi -= 1;
    }
    let t = crate::text::slice_chars(&cs, lo, hi);
    string_of(t.as_slice())
}

/// The text of the node captured as `name`, if any.
pub open spec fn cap_text(t: SyntaxTree, cs: Seq<crate::syntax::Capture>, name: Seq<char>) -> Option<Seq<char>> {
    match capture_spec(cs, name) {
        Some(x) => Some(node_text(t, x)),
        None => None,
    }
}

/// The import an import match declares: the unquoted module, the imported
/// name (`*` for a whole-module import), and the local name (the alias,
/// else the imported name, else the module's last path segment).
pub open spec fn import_of(t: SyntaxTree, m: QueryMatch) -> Option<ImportFactV> {
    let cs = m.captures@;
    match capture_spec(cs, "module"@) {
        None => None,
        Some(mn) => {
            let module = unquote_spec(node_text(t, mn));
            let name = cap_text(t, cs, "name"@);
            let local = match cap_text(t, cs, "alias"@) {
                Some(a) => a,
                None => match name {
                    Some(n) => n,
                    None => after_last(module, '/'),
                },
            };
            let imported = match name {
                Some(n) => n,
                None => "*"@,
            };
            Some(ImportFactV { module, name: imported, local, span: node_span(t, mn) })
        },
    }
}

pub open spec fn imports_spec(t: SyntaxTree, ms: Seq<QueryMatch>) -> Seq<ImportFactV>
    decreases ms.len(),
{
    if ms.len() == 0 {
        Seq::empty()
    } else {
        let prev = imports_spec(t, ms.drop_last());
        match import_of(t, ms.last()) {
            Some(f) => prev.push(f),
            None => prev,
        }
    }
}

pub open spec fn exports_spec(t: SyntaxTree, ms: Seq<QueryMatch>) -> Seq<Seq<char>>
    decreases ms.len(),
{
    if ms.len() == 0 {
        Seq::empty()
    } else {
        let prev = exports_spec(t, ms.drop_last());
        match cap_text(t, ms.last().captures@, "name"@) {
            Some(n) => prev.push(n),
            None => prev,
        }
    }
}

/// Bind each import's local name, later imports replacing earlier ones.
pub open spec fn bind_imports(tbl: Seq<(Seq<char>, LocalBindingV)>, imps: Seq<ImportFactV>) -> Seq<(Seq<char>, LocalBindingV)>
    decreases imps.len(),
{
    if imps.len() == 0 {
        tbl
    } else {
        let f = imps.last();
        tinsert(bind_imports(tbl, imps.drop_last()), f.local, LocalBindingV::Imported { module: f.module, name: f.name })
    }
}

/// Bind each declared function name not bound already (imports take
/// precedence).
pub open spec fn bind_functions(tbl: Seq<(Seq<char>, LocalBindingV)>, t: SyntaxTree, ms: Seq<QueryMatch>) -> Seq<(Seq<char>, LocalBindingV)>
    decreases ms.len(),
{
    if ms.len() == 0 {
        tbl
    } else {
        let prev = bind_functions(tbl, t, ms.drop_last());
        match cap_text(t, ms.last().captures@, "name"@) {
            Some(n) => tinsert_absent(prev, n, LocalBindingV::LocalFunction),
            None => prev,
        }
    }
}

/// The query matches of a profile's binding sections on one file.
#[derive(Debug)]
pub struct BindingMatches {
    pub imports: Vec<QueryMatch>,
    pub exports: Vec<QueryMatch>,
    pub functions: Vec<QueryMatch>,
    pub calls: Vec<QueryMatch>,
    pub method_calls: Vec<QueryMatch>,
    pub member_access: Vec<QueryMatch>,
}

impl BindingMatches {
    pub open spec fn fits(&self, t: SyntaxTree) -> bool {
        let n = t.nodes@.len() as int;
        &&& matches_fit(self.imports@, n)
        &&& matches_fit(self.exports@, n)
        &&& matches_fit(self.functions@, n)
        &&& matches_fit(self.calls@, n)
        &&& matches_fit(self.method_calls@, n)
        &&& matches_fit(self.member_access@, n)
    }

    /// Check `fits`.
    pub fn fits_tree(&self, t: &SyntaxTree) -> (r: bool)
        ensures
            r == self.fits(*t),
    {
        let n = t.nodes.len();
        check_fit(&self.imports, n) && check_fit(&self.exports, n) && check_fit(&self.functions, n)
            && check_fit(&self.calls, n) && check_fit(&self.method_calls, n) && check_fit(&self.member_access, n)
    }
}

/// The local table of a file.
pub open spec fn locals_spec(t: SyntaxTree, m: BindingMatches) -> Seq<(Seq<char>, LocalBindingV)> {
    bind_functions(bind_imports(Seq::empty(), imports_spec(t, m.imports@)), t, m.functions@)
}

/// A bare callee name resolved through the local table.
pub open spec fn resolve_bare_spec(tbl: Seq<(Seq<char>, LocalBindingV)>, name: Seq<char>) -> CalleeIdV {
    match resolve_spec(tbl, name) {
        Some(LocalBindingV::Imported { module, name: n }) => if n != "*"@ {
            CalleeIdV::External { module, name: n }
        } else {
            CalleeIdV::Unresolved(name)
        },
        Some(LocalBindingV::LocalFunction) => CalleeIdV::LocalFn(name),
        _ => CalleeIdV::Unresolved(name),
    }
}

/// A method on a whole-module import resolves to that module's symbol;
/// any other is a member call on its receiver text.
pub open spec fn method_callee(tbl: Seq<(Seq<char>, LocalBindingV)>, receiver: Seq<char>, method: Seq<char>) -> CalleeIdV {
    let whole = match parse_path(receiver) {
        Some(p) => match resolve_spec(tbl, p.base) {
            Some(LocalBindingV::Imported { module, name }) => if name == "*"@ { Some(module) } else { None },
            _ => None,
        },
        None => None,
    };
    match whole {
        Some(module) => CalleeIdV::External { module, name: method },
        None => CalleeIdV::Member { base: receiver, method },
    }
}

/// The argument spans of a call match.
pub open spec fn args_of(t: SyntaxTree, cs: Seq<crate::syntax::Capture>) -> Seq<Span> {
    match capture_spec(cs, "args"@) {
        Some(a) => named_spans(t, t.nodes@[a as int].children@),
        None => Seq::empty(),
    }
}

pub open spec fn bare_calls(t: SyntaxTree, tbl: Seq<(Seq<char>, LocalBindingV)>, ms: Seq<QueryMatch>) -> Seq<ResolvedCallV>
    decreases ms.len(),
{
    if ms.len() == 0 {
        Seq::empty()
    } else {
        let prev = bare_calls(t, tbl, ms.drop_last());
        let cs = ms.last().captures@;
        match (capture_spec(cs, "call"@), cap_text(t, cs, "callee"@)) {
            (Some(c), Some(name)) => prev.push(ResolvedCallV { callee: resolve_bare_spec(tbl, name), call_span: node_span(t, c), arg_spans: args_of(t, cs) }),
            _ => prev,
        }
    }
}

pub open spec fn method_calls(t: SyntaxTree, tbl: Seq<(Seq<char>, LocalBindingV)>, ms: Seq<QueryMatch>) -> Seq<ResolvedCallV>
    decreases ms.len(),
{
    if ms.len() == 0 {
        Seq::empty()
    } else {
        let prev = method_calls(t, tbl, ms.drop_last());
        let cs = ms.last().captures@;
        match (capture_spec(cs, "call"@), cap_text(t, cs, "method"@)) {
            (Some(c), Some(method)) => {
                let receiver = match cap_text(t, cs, "receiver"@) {
                    Some(r) => r,
                    None => Seq::empty(),
                };
                prev.push(ResolvedCallV { callee: method_callee(tbl, receiver, method), call_span: node_span(t, c), arg_spans: args_of(t, cs) })
            },
            _ => prev,
        }
    }
}

/// The resolved calls of a file: bare calls then method calls, ordered by
/// span, one per span.
pub open spec fn calls_spec(t: SyntaxTree, tbl: Seq<(Seq<char>, LocalBindingV)>, m: BindingMatches) -> Seq<ResolvedCallV> {
    dedup_loc::<ResolvedCall>(ssort::<ResolvedCall>(bare_calls(t, tbl, m.calls@) + method_calls(t, tbl, m.method_calls@)))
}

/// Member-access candidates: captured accesses whose text is a chain.
pub open spec fn access_raw(t: SyntaxTree, ms: Seq<QueryMatch>) -> Seq<RawUseV>
    decreases ms.len(),
{
    if ms.len() == 0 {
        Seq::empty()
    } else {
        let prev = access_raw(t, ms.drop_last());
        match capture_spec(ms.last().captures@, "access"@) {
            Some(a) => match parse_path(node_text(t, a)) {
                Some(p) => prev.push(RawUseV { span: node_span(t, a), path: p }),
                None => prev,
            },
            None => prev,
        }
    }
}

/// A read with the module its base resolves to, if an import.
pub open spec fn read_of(tbl: Seq<(Seq<char>, LocalBindingV)>, r: RawUseV) -> ResolvedReadV {
    ResolvedReadV {
        path: r.path,
        span: r.span,
        base_module: match resolve_spec(tbl, r.path.base) {
            Some(LocalBindingV::Imported { module, .. }) => Some(module),
            _ => None,
        },
    }
}

/// The member reads of a file: maximal chains, outer first.
pub open spec fn reads_spec(t: SyntaxTree, tbl: Seq<(Seq<char>, LocalBindingV)>, ms: Seq<QueryMatch>) -> Seq<ResolvedReadV> {
    keep_maximal(ssort::<RawUse>(access_raw(t, ms))).0.map_values(|r: RawUseV| read_of(tbl, r))
}

/// Every capture of `m` names a node of a tree with `n` nodes.
pub open spec fn match_fits(m: QueryMatch, n: int) -> bool {
    forall|j: int| 0 <= j < m.captures@.len() ==> (#[trigger] m.captures@[j]).node < n
}

proof fn lemma_match_fits(ms: Seq<QueryMatch>, i: int, n: int)
    requires
        matches_fit(ms, n),
        0 <= i < ms.len(),
    ensures
        match_fits(ms[i], n),
{
    assert forall|j: int| 0 <= j < ms[i].captures@.len() implies (#[trigger] ms[i].captures@[j]).node < n by {
        assert(ms[i].captures@[j] == ms[i].captures@[j]);
    }
}

/// The node captured as `name`, known to be a node of the tree.
fn cap_node(t: &SyntaxTree, m: &QueryMatch, name: &str) -> (r: Option<usize>)
    requires
        match_fits(*m, t.nodes@.len() as int),
    ensures
        r == capture_spec(m.captures@, name@),
        r matches Some(x) ==> x < t.nodes@.len(),
{
    let r = capture_named(m, name);
    proof {
        if r is Some {
            let j = choose|j: int| 0 <= j < m.captures@.len() && (#[trigger] m.captures@[j]).node == r->0;
        }
    }
    r
}

/// The text of the node captured as `name`.
fn cap_string(t: &SyntaxTree, m: &QueryMatch, name: &str) -> (r: Option<String>)
    requires
        match_fits(*m, t.nodes@.len() as int),
    ensures
        opt_view(r) == cap_text(*t, m.captures@, name@),
{
    match cap_node(t, m, name) {
        Some(x) => Some(t.nodes[x].text.clone()),
        None => None,
    }
}

fn collect_imports(t: &SyntaxTree, ms: &Vec<QueryMatch>) -> (r: Vec<ImportFact>)
    requires
        matches_fit(ms@, t.nodes@.len() as int),
    ensures
        views(r@) == imports_spec(*t, ms@),
{
    let mut r: Vec<ImportFact> = Vec::new();
    let n = ms.len();
    for i in 0..n
        invariant
            matches_fit(ms@, t.nodes@.len() as int),
            n == ms@.len(),
            views(r@) == imports_spec(*t, ms@.take(i as int)),
    {
        let m = &ms[i];
        assert(ms@.take(i + 1).drop_last() =~= ms@.take(i as int));
        assert(ms@.take(i + 1).last() == *m);
        proof { lemma_match_fits(ms@, i as int, t.nodes@.len() as int); }
        match cap_node(t, m, "module") {
            Some(mn) => {
                let module = unquote(t.nodes[mn].text.as_str());
                let name = cap_string(t, m, "name");
                let alias = cap_string(t, m, "alias");
                let local = match alias {
                    Some(a) => a,
                    None => match &name {
                        Some(nm) => nm.clone(),
                        None => after_last_chars(module.as_str(), '/'),
                    },
                };
                let imported = match name {
                    Some(nm) => nm,
                    None => "*".to_owned(),
                };
                let f = ImportFact { module, name: imported, local, span: t.nodes[mn].span };
                let ghost before = views(r@);
                let ghost fv = f@;
                r.push(f);
                assert(views(r@) =~= before.push(fv));
            },
            None => {},
        }
    }
    assert(ms@.take(n as int) =~= ms@);
    r
}

fn collect_exports(t: &SyntaxTree, ms: &Vec<QueryMatch>) -> (r: Vec<String>)
    requires
        matches_fit(ms@, t.nodes@.len() as int),
    ensures
        crate::paths::strings_view(r@) == exports_spec(*t, ms@),
{
    let mut r: Vec<String> = Vec::new();
    let n = ms.len();
    for i in 0..n
        invariant
            matches_fit(ms@, t.nodes@.len() as int),
            n == ms@.len(),
            crate::paths::strings_view(r@) == exports_spec(*t, ms@.take(i as int)),
    {
        let m = &ms[i];
        assert(ms@.take(i + 1).drop_last() =~= ms@.take(i as int));
        assert(ms@.take(i + 1).last() == *m);
        proof { lemma_match_fits(ms@, i as int, t.nodes@.len() as int); }
        match cap_string(t, m, "name") {
            Some(nm) => {
                let ghost before = crate::paths::strings_view(r@);
                let ghost nv = nm@;
                r.push(nm);
                assert(crate::paths::strings_view(r@) =~= before.push(nv));
            },
            None => {},
        }
    }
    assert(ms@.take(n as int) =~= ms@);
    r
}

fn bind_import_facts(tbl: &mut Vec<(String, LocalBinding)>, imps: &Vec<ImportFact>)
    ensures
        table_view(final(tbl)@) == bind_imports(table_view(old(tbl)@), views(imps@)),
{
    let ghost t0 = table_view(tbl@);
    let n = imps.len();
    for i in 0..n
        invariant
            n == imps@.len(),
            table_view(tbl@) == bind_imports(t0, views(imps@).take(i as int)),
    {
        let f = &imps[i];
        assert(views(imps@).take(i + 1).drop_last() =~= views(imps@).take(i as int));
        assert(views(imps@).take(i + 1).last() == f@);
        table_insert(tbl, f.local.clone(), LocalBinding::Imported { module: f.module.clone(), name: f.name.clone() });
    }
    assert(views(imps@).take(n as int) =~= views(imps@));
}

fn bind_function_names(tbl: &mut Vec<(String, LocalBinding)>, t: &SyntaxTree, ms: &Vec<QueryMatch>)
    requires
        matches_fit(ms@, t.nodes@.len() as int),
    ensures
        table_view(final(tbl)@) == bind_functions(table_view(old(tbl)@), *t, ms@),
{
    let ghost t0 = table_view(tbl@);
    let n = ms.len();
    for i in 0..n
        invariant
            matches_fit(ms@, t.nodes@.len() as int),
            n == ms@.len(),
            table_view(tbl@) == bind_functions(t0, *t, ms@.take(i as int)),
    {
        let m = &ms[i];
        assert(ms@.take(i + 1).drop_last() =~= ms@.take(i as int));
        assert(ms@.take(i + 1).last() == *m);
        proof { lemma_match_fits(ms@, i as int, t.nodes@.len() as int); }
        match cap_string(t, m, "name") {
            Some(nm) => table_insert_absent(tbl, nm, LocalBinding::LocalFunction),
            None => {},
        }
    }
    assert(ms@.take(n as int) =~= ms@);
}

/// Resolve a bare callee name through the local table.
pub fn resolve_bare(name: &str, tbl: &Vec<(String, LocalBinding)>) -> (r: CalleeId)
    ensures
        r@ == resolve_bare_spec(table_view(tbl@), name@),
{
    proof { reveal_strlit("*"); }
    match lookup(tbl, name) {
        Some(LocalBinding::Imported { module, name: n }) => {
            if !str_is(n.as_str(), "*") {
                CalleeId::External { module: module.clone(), name: n.clone() }
            } else {
                CalleeId::Unresolved(name.to_owned())
            }
        },
        Some(LocalBinding::LocalFunction) => CalleeId::LocalFn(name.to_owned()),
        _ => CalleeId::Unresolved(name.to_owned()),
    }
}

fn resolve_method(tbl: &Vec<(String, LocalBinding)>, receiver: String, method: String) -> (r: CalleeId)
    ensures
        r@ == method_callee(table_view(tbl@), receiver@, method@),
{
    proof { reveal_strlit("*"); }
    let whole: Option<String> = match AccessPath::parse(receiver.as_str()) {
        Some(p) => match lookup(tbl, p.base.as_str()) {
            Some(LocalBinding::Imported { module, name }) => if str_is(name.as_str(), "*") { Some(module.clone()) } else { None },
            _ => None,
        },
        None => None,
    };
    match whole {
        Some(module) => CalleeId::External { module, name: method },
        None => CalleeId::Member { base: receiver, method },
    }
}

fn call_args(t: &SyntaxTree, m: &QueryMatch) -> (r: Vec<Span>)
    requires
        t.wf(),
        match_fits(*m, t.nodes@.len() as int),
    ensures
        r@ == args_of(*t, m.captures@),
{
    match cap_node(t, m, "args") {
        Some(a) => named_child_spans(t, a),
        None => Vec::new(),
    }
}

fn collect_calls(t: &SyntaxTree, tbl: &Vec<(String, LocalBinding)>, m: &BindingMatches) -> (r: Vec<ResolvedCall>)
    requires
        t.wf(),
        m.fits(*t),
    ensures
        views(r@) == calls_spec(*t, table_view(tbl@), *m),
{
    let ghost tv = table_view(tbl@);
    let mut v: Vec<ResolvedCall> = Vec::new();
    let n = m.calls.len();
    for i in 0..n
        invariant
            t.wf(),
            m.fits(*t),
            n == m.calls@.len(),
            tv == table_view(tbl@),
            views(v@) == bare_calls(*t, tv, m.calls@.take(i as int)),
    {
        let q = &m.calls[i];
        assert(m.calls@.take(i + 1).drop_last() =~= m.calls@.take(i as int));
        assert(m.calls@.take(i + 1).last() == *q);
        proof { lemma_match_fits(m.calls@, i as int, t.nodes@.len() as int); }
        match (cap_node(t, q, "call"), cap_string(t, q, "callee")) {
            (Some(c), Some(name)) => {
                let rc = ResolvedCall { callee: resolve_bare(name.as_str(), tbl), call_span: t.nodes[c].span, arg_spans: call_args(t, q) };
                let ghost before = views(v@);
                let ghost rv = rc@;
                v.push(rc);
                assert(views(v@) =~= before.push(rv));
            },
            _ => {},
        }
    }
    assert(m.calls@.take(n as int) =~= m.calls@);
    let ghost bare = views(v@);
    let k = m.method_calls.len();
    for i in 0..k
        invariant
            t.wf(),
            m.fits(*t),
            k == m.method_calls@.len(),
            tv == table_view(tbl@),
            views(v@) == bare + method_calls(*t, tv, m.method_calls@.take(i as int)),
    {
        let q = &m.method_calls[i];
        assert(m.method_calls@.take(i + 1).drop_last() =~= m.method_calls@.take(i as int));
        assert(m.method_calls@.take(i + 1).last() == *q);
        proof { lemma_match_fits(m.method_calls@, i as int, t.nodes@.len() as int); }
        match (cap_node(t, q, "call"), cap_string(t, q, "method")) {
            (Some(c), Some(method)) => {
                let receiver = match cap_string(t, q, "receiver") {
                    Some(r) => r,
                    None => String::new(),
                };
                let rc = ResolvedCall { callee: resolve_method(tbl, receiver, method), call_span: t.nodes[c].span, arg_spans: call_args(t, q) };
                let ghost before = views(v@);
                let ghost rv = rc@;
                v.push(rc);
                assert(views(v@) =~= before.push(rv));
            },
            _ => {},
        }
    }
    assert(m.method_calls@.take(k as int) =~= m.method_calls@);
    let sorted = stable_sort(v);
    dedup_located(sorted)
}

fn collect_reads(t: &SyntaxTree, tbl: &Vec<(String, LocalBinding)>, ms: &Vec<QueryMatch>) -> (r: Vec<ResolvedRead>)
    requires
        matches_fit(ms@, t.nodes@.len() as int),
    ensures
        views(r@) == reads_spec(*t, table_view(tbl@), ms@),
{
    let ghost tv = table_view(tbl@);
    let mut raw: Vec<RawUse> = Vec::new();
    let n = ms.len();
    for i in 0..n
        invariant
            matches_fit(ms@, t.nodes@.len() as int),
            n == ms@.len(),
            views(raw@) == access_raw(*t, ms@.take(i as int)),
    {
        let q = &ms[i];
        assert(ms@.take(i + 1).drop_last() =~= ms@.take(i as int));
        assert(ms@.take(i + 1).last() == *q);
        proof { lemma_match_fits(ms@, i as int, t.nodes@.len() as int); }
        match cap_node(t, q, "access") {
            Some(a) => match AccessPath::parse(t.nodes[a].text.as_str()) {
                Some(p) => {
                    let ru = RawUse { span: t.nodes[a].span, path: p };
                    let ghost before = views(raw@);
                    let ghost rv = ru@;
                    raw.push(ru);
                    assert(views(raw@) =~= before.push(rv));
                },
                None => {},
            },
            None => {},
        }
    }
    assert(ms@.take(n as int) =~= ms@);
    let sorted = stable_sort(raw);
    let kept = keep_maximal_uses(sorted);
    let ghost kv = views(kept@);
    let ghost f = |r: RawUseV| read_of(tv, r);
    let mut kept = kept;
    let mut reads: Vec<ResolvedRead> = Vec::new();
    let total = kept.len();
    let mut i: usize = 0;
    while kept.len() > 0
        invariant
            i + kept@.len() == total,
            kv.len() == total,
            views(kept@) == kv.skip(i as int),
            tv == table_view(tbl@),
            f == (|r: RawUseV| read_of(tv, r)),
            views(reads@) == kv.take(i as int).map_values(f),
        decreases kept@.len(),
    {
        let ghost rest = views(kept@);
        let ghost vv = kept@;
        let x = kept.remove(0);
        assert(views(kept@) =~= rest.drop_first());
        assert(rest[0] == vv[0]@);
        assert(x@ == kv[i as int]);
        let base_module = match lookup(tbl, x.path.base.as_str()) {
            Some(LocalBinding::Imported { module, .. }) => Some(module.clone()),
            _ => None,
        };
        let rd = ResolvedRead { path: x.path, span: x.span, base_module };
        let ghost before = views(reads@);
        let ghost rv = rd@;
        reads.push(rd);
        assert(views(reads@) =~= before.push(rv));
        assert(kv.take(i + 1).map_values(f) =~= kv.take(i as int).map_values(f).push(f(kv[i as int])));
        assert(kv.skip(i + 1) =~= kv.skip(i as int).drop_first());
        i += 1;
    }
    assert(kv.take(total as int) =~= kv);
    reads
}

/// `b` holds the bindings of tree `t` under the binding matches `m`.
pub open spec fn bound_from(b: FileBindings, t: SyntaxTree, m: BindingMatches) -> bool {
    &&& b.module_decl is None
    &&& views(b.imports@) == imports_spec(t, m.imports@)
    &&& crate::paths::strings_view(b.exports@) == exports_spec(t, m.exports@)
    &&& table_view(b.locals@) == locals_spec(t, m)
    &&& views(b.calls@) == calls_spec(t, locals_spec(t, m), m)
    &&& views(b.reads@) == reads_spec(t, locals_spec(t, m), m.member_access@)
}

impl FileBindings {
    /// Bindings for a file: imports, exports, the local table (imports,
    /// then declared functions not shadowing an import), calls resolved
    /// through the table, and member reads with the module their base
    /// resolves to.
    pub fn build(tree: &SyntaxTree, matches: &BindingMatches) -> (r: FileBindings)
        requires
            tree.wf(),
            matches.fits(*tree),
        ensures
            bound_from(r, *tree, *matches),
            r.module_decl is None,
            views(r.imports@) == imports_spec(*tree, matches.imports@),
            crate::paths::strings_view(r.exports@) == exports_spec(*tree, matches.exports@),
            table_view(r.locals@) == locals_spec(*tree, *matches),
            views(r.calls@) == calls_spec(*tree, locals_spec(*tree, *matches), *matches),
            views(r.reads@) == reads_spec(*tree, locals_spec(*tree, *matches), matches.member_access@),
    {
        let imports = collect_imports(tree, &matches.imports);
        let exports = collect_exports(tree, &matches.exports);
        let mut locals: Vec<(String, LocalBinding)> = Vec::new();
        assert(table_view(locals@) =~= Seq::<(Seq<char>, LocalBindingV)>::empty());
        bind_import_facts(&mut locals, &imports);
        bind_function_names(&mut locals, tree, &matches.functions);
        let calls = collect_calls(tree, &locals, matches);
        let reads = collect_reads(tree, &locals, &matches.member_access);
        FileBindings { module_decl: None, imports, exports, locals, calls, reads }
    }
}

pub proof fn lemma_match_fits_pub(ms: Seq<QueryMatch>, i: int, n: int)
    requires
        matches_fit(ms, n),
        0 <= i < ms.len(),
    ensures
        match_fits(ms[i], n),
{
    lemma_match_fits(ms, i, n);
}

} // verus!
