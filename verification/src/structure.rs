//! Structural facts extracted once per (file, profile): scopes, path uses,
//! assignments, parameters, calls, and returns.

use vstd::prelude::*;
use crate::findings::Span;
use crate::paths::{AccessPath, PathView, parse_path};
use crate::sorting::{Located, views, ssort, dedup_loc, stable_sort, dedup_located, ins_pos};
use crate::state::opt_view;
use crate::syntax::{SyntaxTree, QueryMatch, capture_spec, capture_named};

verus! {

#[derive(Debug)]
pub struct Scope {
    pub span: Span,
    pub parent: Option<usize>,
    pub name: Option<String>,
}

/// An occurrence of an access path being read.
#[derive(Debug)]
pub struct PathUse {
    pub path: AccessPath,
    pub span: Span,
    pub scope: usize,
}

#[derive(Debug)]
pub struct Assign {
    pub path: AccessPath,
    pub lhs_span: Span,
    pub rhs_span: Span,
    pub scope: usize,
    /// Byte at which the write becomes visible to later same-scope uses.
    pub write_byte: u32,
}

#[derive(Debug)]
pub struct Param {
    pub name: String,
    pub span: Span,
    pub scope: usize,
    pub index: usize,
}

#[derive(Debug)]
pub struct CallSite {
    pub span: Span,
    pub callee: Option<String>,
    pub args: Vec<Span>,
}

#[derive(Debug)]
pub struct Return {
    pub value_span: Span,
    pub scope: usize,
}

#[derive(Debug)]
pub struct Structure {
    pub scopes: Vec<Scope>,
    /// Sorted by start byte.
    pub path_uses: Vec<PathUse>,
    pub assigns: Vec<Assign>,
    pub params: Vec<Param>,
    pub calls: Vec<CallSite>,
    pub returns: Vec<Return>,
}

/// The scope chain from `s` to the root, innermost first.
pub open spec fn scope_chain(scopes: Seq<Scope>, s: int) -> Seq<usize>
    decreases s,
{
    if 0 <= s < scopes.len() {
        match scopes[s].parent {
            Some(p) => if p < s { seq![s as usize] + scope_chain(scopes, p as int) } else { seq![s as usize] },
            None => seq![s as usize],
        }
    } else {
        Seq::empty()
    }
}

impl Structure {
    /// Every scope but the root has an earlier parent; the root has none;
    /// every fact names an existing scope; path uses are ordered by start.
    pub open spec fn wf(&self) -> bool {
        &&& self.scopes@.len() > 0
        &&& self.scopes@[0].parent is None
        &&& forall|i: int| 1 <= i < self.scopes@.len() ==>
            ((#[trigger] self.scopes@[i]).parent matches Some(p) && p < i)
        &&& forall|i: int| 0 <= i < self.path_uses@.len() ==> (#[trigger] self.path_uses@[i]).scope < self.scopes@.len()
        &&& forall|i: int, j: int| 0 <= i <= j < self.path_uses@.len() ==>
            (#[trigger] self.path_uses@[i]).span.start_byte <= (#[trigger] self.path_uses@[j]).span.start_byte
        &&& forall|i: int| 0 <= i < self.assigns@.len() ==> (#[trigger] self.assigns@[i]).scope < self.scopes@.len()
        &&& forall|i: int| 0 <= i < self.params@.len() ==> (#[trigger] self.params@[i]).scope < self.scopes@.len()
        &&& forall|i: int| 0 <= i < self.returns@.len() ==> (#[trigger] self.returns@[i]).scope < self.scopes@.len()
    }

    /// Scope chain from `scope` to the root, innermost first.
    pub fn chain(&self, scope: usize) -> (out: Vec<usize>)
        requires
            self.wf(),
            scope < self.scopes@.len(),
        ensures
            out@ == scope_chain(self.scopes@, scope as int),
    {
        let mut out: Vec<usize> = Vec::new();
        let mut cur = scope;
        loop
            invariant
                self.wf(),
                cur < self.scopes@.len(),
                out@ + scope_chain(self.scopes@, cur as int) == scope_chain(self.scopes@, scope as int),
            decreases cur,
        {
            out.push(cur);
            match self.scopes[cur].parent {
                Some(p) => {
                    assert(cur > 0);
                    assert(out@ + scope_chain(self.scopes@, p as int) =~= scope_chain(self.scopes@, scope as int));
                    cur = p;
                },
                None => {
                    assert(out@ =~= scope_chain(self.scopes@, scope as int));
                    return out;
                },
            }
        }
    }

    /// Path uses whose span lies within `span`, as the index range
    /// `lo..hi`: `lo` is the first use starting at or after `span`, and the
    /// range extends while uses end inside `span`.
    pub fn uses_within(&self, span: &Span) -> (r: (usize, usize))
        requires
            self.wf(),
        ensures
            r.0 <= r.1 <= self.path_uses@.len(),
            forall|i: int| 0 <= i < r.0 ==> (#[trigger] self.path_uses@[i]).span.start_byte < span.start_byte,
            r.0 < self.path_uses@.len() ==> self.path_uses@[r.0 as int].span.start_byte >= span.start_byte,
            forall|i: int| r.0 <= i < r.1 ==> (#[trigger] self.path_uses@[i]).span.end_byte <= span.end_byte,
            r.1 < self.path_uses@.len() ==> self.path_uses@[r.1 as int].span.end_byte > span.end_byte,
    {
        let n = self.path_uses.len();
        let mut lo: usize = 0;
        let mut hi: usize = n;
        while lo < hi
            invariant
                self.wf(),
                n == self.path_uses@.len(),
                lo <= hi <= n,
                forall|i: int| 0 <= i < lo ==> (#[trigger] self.path_uses@[i]).span.start_byte < span.start_byte,
                forall|i: int| hi <= i < n ==> (#[trigger] self.path_uses@[i]).span.start_byte >= span.start_byte,
            decreases hi - lo,
        {
            let mid = lo + (hi - lo) / 2;
            if self.path_uses[mid].span.start_byte < span.start_byte {
                lo = mid + 1;
            } else {
                hi = mid;
            }
        }
        let mut end = lo;
        while end < n && self.path_uses[end].span.end_byte <= span.end_byte
            invariant
                lo <= end <= n,
                n == self.path_uses@.len(),
                forall|i: int| lo <= i < end ==> (#[trigger] self.path_uses@[i]).span.end_byte <= span.end_byte,
            decreases n - end,
        {
            end = end + 1;
        }
        (lo, end)
    }
}

/// The content of a scope.
pub struct ScopeV {
    pub span: Span,
    pub parent: Option<usize>,
    pub name: Option<Seq<char>>,
}

impl View for Scope {
    type V = ScopeV;

    open spec fn view(&self) -> ScopeV {
        ScopeV { span: self.span, parent: self.parent, name: opt_view(self.name) }
    }
}

/// Ordering key of a span: start ascending, then end descending (outer
/// spans before the spans they contain).
pub open spec fn outer_first_key(sp: Span) -> u64 {
    (sp.start_byte as int * 4294967296 + (4294967295 - sp.end_byte)) as u64
}

pub(crate) fn outer_first(sp: &Span) -> (r: u64)
    ensures
        r == outer_first_key(*sp),
{
    (sp.start_byte as u64) * 4294967296u64 + ((4294967295u32 - sp.end_byte) as u64)
}

impl Located for Scope {
    open spec fn loc_of(v: ScopeV) -> Span {
        v.span
    }

    open spec fn key_of(v: ScopeV) -> u64 {
        outer_first_key(v.span)
    }

    fn loc(&self) -> (r: Span) {
        self.span
    }

    fn key(&self) -> (r: u64) {
        outer_first(&self.span)
    }
}

/// The query matches a taint profile yields on one file, per fact kind.
#[derive(Debug)]
pub struct ProfileMatches {
    pub functions: Vec<QueryMatch>,
    pub assignments: Vec<QueryMatch>,
    pub params: Vec<QueryMatch>,
    pub calls: Vec<QueryMatch>,
    pub returns: Vec<QueryMatch>,
}

/// Every capture of every match names a node of a tree with `n` nodes.
pub open spec fn matches_fit(ms: Seq<QueryMatch>, n: int) -> bool {
    forall|i: int, j: int| 0 <= i < ms.len() && 0 <= j < ms[i].captures@.len() ==>
        (#[trigger] ms[i].captures@[j]).node < n
}

pub fn check_fit(ms: &Vec<QueryMatch>, n: usize) -> (r: bool)
    ensures
        r == matches_fit(ms@, n as int),
{
    let k = ms.len();
    for i in 0..k
        invariant
            k == ms@.len(),
            forall|a: int, j: int| 0 <= a < i && 0 <= j < ms@[a].captures@.len() ==> (#[trigger] ms@[a].captures@[j]).node < n,
    {
        let cs = &ms[i].captures;
        let m = cs.len();
        for j in 0..m
            invariant
                k == ms@.len(),
                i < k,
                m == cs@.len(),
                *cs == ms@[i as int].captures,
                forall|jj: int| 0 <= jj < j ==> (#[trigger] cs@[jj]).node < n,
        {
            if cs[j].node >= n {
                assert(ms@[i as int].captures@[j as int] == cs@[j as int]);
                return false;
            }
        }
    }
    true
}

impl ProfileMatches {
    pub open spec fn fits(&self, t: SyntaxTree) -> bool {
        let n = t.nodes@.len() as int;
        &&& matches_fit(self.functions@, n)
        &&& matches_fit(self.assignments@, n)
        &&& matches_fit(self.params@, n)
        &&& matches_fit(self.calls@, n)
        &&& matches_fit(self.returns@, n)
    }

    /// Check `fits`.
    pub fn fits_tree(&self, t: &SyntaxTree) -> (r: bool)
        ensures
            r == self.fits(*t),
    {
        let n = t.nodes.len();
        check_fit(&self.functions, n) && check_fit(&self.assignments, n) && check_fit(&self.params, n)
            && check_fit(&self.calls, n) && check_fit(&self.returns, n)
    }
}

pub open spec fn node_span(t: SyntaxTree, n: usize) -> Span {
    t.nodes@[n as int].span
}

pub open spec fn node_text(t: SyntaxTree, n: usize) -> Seq<char> {
    t.nodes@[n as int].text@
}

/// The scopes the function matches declare, in match order.
pub open spec fn function_scopes(t: SyntaxTree, ms: Seq<QueryMatch>) -> Seq<ScopeV>
    decreases ms.len(),
{
    if ms.len() == 0 {
        Seq::empty()
    } else {
        let prev = function_scopes(t, ms.drop_last());
        let cs = ms.last().captures@;
        match capture_spec(cs, "function"@) {
            Some(f) => prev.push(ScopeV {
                span: node_span(t, f),
                parent: None,
                name: match capture_spec(cs, "name"@) {
                    Some(n) => Some(node_text(t, n)),
                    None => None,
                },
            }),
            None => prev,
        }
    }
}

/// Merge adjacent scopes with the same span: the first is kept, taking the
/// later one's name if it has none.
pub open spec fn merge_scopes(s: Seq<ScopeV>) -> Seq<ScopeV>
    decreases s.len(),
{
    if s.len() == 0 {
        s
    } else {
        let d = merge_scopes(s.drop_last());
        if d.len() > 0 && d.last().span == s.last().span {
            if d.last().name is None {
                d.update(d.len() - 1, ScopeV { span: d.last().span, parent: d.last().parent, name: s.last().name })
            } else {
                d
            }
        } else {
            d.push(s.last())
        }
    }
}

/// The nearest scope before `j` containing scope `i`, else the root.
pub open spec fn container(s: Seq<ScopeV>, i: int, j: int) -> usize
    decreases j,
{
    if j <= 0 {
        0
    } else if s[j - 1].span.covers(s[i].span) {
        (j - 1) as usize
    } else {
        container(s, i, j - 1)
    }
}

/// Every scope but the first gets its parent: the nearest earlier scope
/// containing it, else the first.
pub open spec fn with_parents(s: Seq<ScopeV>) -> Seq<ScopeV> {
    Seq::new(s.len(), |i: int| if i == 0 { s[0] } else { ScopeV { span: s[i].span, parent: Some(container(s, i, i)), name: s[i].name } })
}

proof fn lemma_container(s: Seq<ScopeV>, i: int, j: int)
    requires
        0 < j <= s.len(),
        0 <= i < s.len(),
        s.len() <= usize::MAX,
    ensures
        0 <= container(s, i, j) < j,
        container(s, i, j) == 0 || s[container(s, i, j) as int].span.covers(s[i].span),
        forall|k: int| container(s, i, j) < k < j ==> !(#[trigger] s[k].span).covers(s[i].span),
    decreases j,
{
    if !s[j - 1].span.covers(s[i].span) {
        if j > 1 {
            lemma_container(s, i, j - 1);
        } else {
            assert(container(s, i, 0) == 0);
        }
    }
}

/// Scopes nest: every scope but the first has as parent an earlier scope,
/// the nearest earlier one whose span contains it (the first scope when
/// none does), and keeps its span and name.
pub proof fn lemma_scopes_nest(s: Seq<ScopeV>, i: int)
    requires
        0 < i < s.len(),
        s.len() <= usize::MAX,
    ensures
        with_parents(s).len() == s.len(),
        with_parents(s)[i].span == s[i].span,
        with_parents(s)[i].name == s[i].name,
        with_parents(s)[i].parent matches Some(p) && {
            &&& p < i
            &&& (p == 0 || s[p as int].span.covers(s[i].span))
            &&& forall|k: int| p < k < i ==> !(#[trigger] s[k].span).covers(s[i].span)
        },
{
    lemma_container(s, i, i);
}

/// The scopes of a file: the whole file plus every function, ordered outer
/// first, merged by span, with parents.
pub open spec fn scopes_spec(t: SyntaxTree, ms: Seq<QueryMatch>) -> Seq<ScopeV> {
    let root = ScopeV { span: node_span(t, 0), parent: None, name: None };
    with_parents(merge_scopes(ssort::<Scope>(seq![root] + function_scopes(t, ms))))
}

/// The scopes of a file nest: each but the first has as parent an earlier
/// scope, the nearest earlier one whose span contains it (the first scope
/// when none does).
pub proof fn lemma_file_scopes_nest(t: SyntaxTree, ms: Seq<QueryMatch>, i: int)
    requires
        0 < i < scopes_spec(t, ms).len(),
        scopes_spec(t, ms).len() <= usize::MAX,
    ensures
        scopes_spec(t, ms)[i].parent matches Some(p) && {
            &&& p < i
            &&& (p == 0 || scopes_spec(t, ms)[p as int].span.covers(scopes_spec(t, ms)[i].span))
            &&& forall|k: int| p < k < i ==> !(#[trigger] scopes_spec(t, ms)[k].span).covers(scopes_spec(t, ms)[i].span)
        },
{
    let root = ScopeV { span: node_span(t, 0), parent: None, name: None };
    let m = merge_scopes(ssort::<Scope>(seq![root] + function_scopes(t, ms)));
    lemma_scopes_nest(m, i);
    let sc = scopes_spec(t, ms);
    let p = sc[i].parent->0;
    assert(sc[p as int].span == m[p as int].span);
    assert forall|k: int| p < k < i implies !(#[trigger] sc[k].span).covers(sc[i].span) by {
        assert(sc[k].span == m[k].span);
    }
}

/// Every node's span lies within its parent's, as in a tree-sitter parse.
pub open spec fn nested(t: SyntaxTree) -> bool {
    forall|k: int| 0 < k < t.nodes@.len() ==>
        ((#[trigger] t.nodes@[k]).parent matches Some(p) && t.nodes@[p as int].span.covers(t.nodes@[k].span))
}

proof fn lemma_root_covers(t: SyntaxTree, k: int)
    requires
        t.wf(),
        nested(t),
        0 <= k < t.nodes@.len(),
    ensures
        t.nodes@[0].span.covers(t.nodes@[k].span),
    decreases k,
{
    if k > 0 {
        let p = t.nodes@[k].parent->0;
        lemma_root_covers(t, p as int);
    }
}

proof fn lemma_capture_in(cs: Seq<crate::syntax::Capture>, name: Seq<char>)
    ensures
        capture_spec(cs, name) matches Some(f) ==> exists|j: int| 0 <= j < cs.len() && (#[trigger] cs[j]).node == f,
    decreases cs.len(),
{
    if cs.len() > 0 && cs[0].name@ != name {
        lemma_capture_in(cs.drop_first(), name);
        if capture_spec(cs, name) is Some {
            let f = capture_spec(cs, name)->0;
            let j = choose|j: int| 0 <= j < cs.drop_first().len() && (#[trigger] cs.drop_first()[j]).node == f;
            assert(cs[j + 1] == cs.drop_first()[j]);
        }
    }
}

proof fn lemma_function_scopes_covered(t: SyntaxTree, ms: Seq<QueryMatch>)
    requires
        t.wf(),
        nested(t),
        matches_fit(ms, t.nodes@.len() as int),
    ensures
        forall|i: int| 0 <= i < function_scopes(t, ms).len() ==> node_span(t, 0).covers((#[trigger] function_scopes(t, ms)[i]).span),
    decreases ms.len(),
{
    if ms.len() > 0 {
        let pre = ms.drop_last();
        assert(matches_fit(pre, t.nodes@.len() as int)) by {
            assert forall|i: int, j: int| 0 <= i < pre.len() && 0 <= j < pre[i].captures@.len() implies
                (#[trigger] pre[i].captures@[j]).node < t.nodes@.len() by {
                assert(pre[i] == ms[i]);
            }
        }
        lemma_function_scopes_covered(t, pre);
        let cs = ms.last().captures@;
        lemma_capture_in(cs, "function"@);
        if capture_spec(cs, "function"@) is Some {
            let f = capture_spec(cs, "function"@)->0;
            let j = choose|j: int| 0 <= j < cs.len() && (#[trigger] cs[j]).node == f;
            assert(ms[ms.len() - 1].captures@[j].node < t.nodes@.len());
            lemma_root_covers(t, f as int);
        }
        let fs = function_scopes(t, ms);
        assert forall|i: int| 0 <= i < fs.len() implies node_span(t, 0).covers((#[trigger] fs[i]).span) by {
            if i < function_scopes(t, pre).len() {
                assert(fs[i] == function_scopes(t, pre)[i]);
            }
        }
    }
}

proof fn lemma_ssort_keeps<T: Located>(s: Seq<T::V>)
    ensures
        forall|j: int| 0 <= j < s.len() ==> exists|i: int| 0 <= i < ssort::<T>(s).len() && ssort::<T>(s)[i] == #[trigger] s[j],
    decreases s.len(),
{
    if s.len() > 0 {
        let t = ssort::<T>(s.drop_last());
        lemma_ssort_keeps::<T>(s.drop_last());
        crate::sorting::lemma_ins_pos_bounds::<T>(t, s.last());
        let q = ins_pos::<T>(t, s.last());
        t.insert_ensures(q, s.last());
        let r = t.insert(q, s.last());
        assert(r == ssort::<T>(s));
        assert forall|j: int| 0 <= j < s.len() implies exists|i: int| 0 <= i < r.len() && r[i] == #[trigger] s[j] by {
            if j == s.len() - 1 {
                assert(r[q] == s[j]);
            } else {
                assert(s.drop_last()[j] == s[j]);
                let i = choose|i: int| 0 <= i < t.len() && t[i] == #[trigger] s.drop_last()[j];
                if i < q { assert(r[i] == t[i]); } else { assert(r[i + 1] == t[i]); }
            }
        }
    }
}

proof fn lemma_merge_spans(s: Seq<ScopeV>)
    ensures
        merge_scopes(s).len() <= s.len(),
        s.len() > 0 ==> merge_scopes(s).len() > 0 && merge_scopes(s)[0].span == s[0].span,
        forall|i: int| 0 <= i < merge_scopes(s).len() ==> exists|j: int| 0 <= j < s.len() && (#[trigger] merge_scopes(s)[i]).span == s[j].span,
    decreases s.len(),
{
    if s.len() > 0 {
        let pre = s.drop_last();
        lemma_merge_spans(pre);
        let d = merge_scopes(pre);
        let m = merge_scopes(s);
        assert forall|i: int| 0 <= i < m.len() implies exists|j: int| 0 <= j < s.len() && (#[trigger] m[i]).span == s[j].span by {
            if i < d.len() {
                assert(m[i].span == d[i].span);
                let j = choose|j: int| 0 <= j < pre.len() && (#[trigger] d[i]).span == pre[j].span;
                assert(pre[j] == s[j]);
            } else {
                assert(m[i].span == s[s.len() - 1].span);
            }
        }
        if pre.len() > 0 {
            assert(pre[0] == s[0]);
            assert(m[0].span == d[0].span);
        }
    }
}

/// Sorting scopes that a span covers, the first of which has that span,
/// puts first a scope with that span's bytes.
proof fn lemma_sorted_head(all: Seq<ScopeV>, outer: Span)
    requires
        all.len() > 0,
        all[0].span == outer,
        forall|j: int| 0 <= j < all.len() ==> outer.covers((#[trigger] all[j]).span),
    ensures
        ssort::<Scope>(all).len() == all.len(),
        ssort::<Scope>(all)[0].span.start_byte == outer.start_byte,
        ssort::<Scope>(all)[0].span.end_byte == outer.end_byte,
        forall|k: int| 0 <= k < ssort::<Scope>(all).len() ==> outer.covers((#[trigger] ssort::<Scope>(all)[k]).span),
{
    let srt = ssort::<Scope>(all);
    crate::sorting::lemma_ssort::<Scope>(all);
    lemma_ssort_keeps::<Scope>(all);
    assert forall|k: int| 0 <= k < srt.len() implies outer.covers((#[trigger] srt[k]).span) by {
        let j = choose|j: int| 0 <= j < all.len() && #[trigger] srt[k] == all[j];
    }
    let i0 = choose|k: int| 0 <= k < srt.len() && srt[k] == #[trigger] all[0];
    let e0 = srt[0].span;
    assert(outer.covers(e0));
    assert(outer_first_key(e0) <= outer_first_key(srt[i0].span));
    let a = e0.start_byte as int;
    let b = outer.start_byte as int;
    assert(outer_first_key(e0) as int == a * 4294967296 + (4294967295 - e0.end_byte));
    assert(outer_first_key(outer) as int == b * 4294967296 + (4294967295 - outer.end_byte));
}

/// Where every node lies within its parent (as in a parse), the first
/// scope, the file's, covers every other scope.
pub proof fn lemma_file_scope_covers(t: SyntaxTree, ms: Seq<QueryMatch>, i: int)
    requires
        t.wf(),
        nested(t),
        matches_fit(ms, t.nodes@.len() as int),
        0 < i < scopes_spec(t, ms).len(),
        scopes_spec(t, ms).len() <= usize::MAX,
    ensures
        scopes_spec(t, ms)[0].span.covers(scopes_spec(t, ms)[i].span),
{
    let root = ScopeV { span: node_span(t, 0), parent: None, name: None };
    let all = seq![root] + function_scopes(t, ms);
    let srt = ssort::<Scope>(all);
    let m = merge_scopes(srt);
    let sc = scopes_spec(t, ms);
    assert forall|j: int| 0 <= j < all.len() implies root.span.covers((#[trigger] all[j]).span) by {
        lemma_function_scopes_covered(t, ms);
        if j > 0 { assert(all[j] == function_scopes(t, ms)[j - 1]); }
    }
    lemma_sorted_head(all, root.span);
    lemma_merge_spans(srt);
    lemma_scopes_nest(m, i);
    assert(sc[0].span == m[0].span);
    let k = choose|j: int| 0 <= j < srt.len() && (#[trigger] m[i]).span == srt[j].span;
    assert(root.span.covers(srt[k].span));
}

pub open spec fn span_size(sp: Span) -> int {
    sp.end_byte - sp.start_byte
}

/// The smallest of the first `k` scopes containing `sp` (the last one on
/// ties), else the root.
pub open spec fn innermost_upto(s: Seq<ScopeV>, sp: Span, k: int) -> usize
    decreases k,
{
    if k <= 0 {
        0
    } else {
        let b = innermost_upto(s, sp, k - 1);
        if s[k - 1].span.covers(sp) && span_size(s[k - 1].span) <= span_size(s[b as int].span) {
            (k - 1) as usize
        } else {
            b
        }
    }
}

/// The innermost scope containing `sp`.
pub open spec fn innermost(s: Seq<ScopeV>, sp: Span) -> usize {
    innermost_upto(s, sp, s.len() as int)
}

/// A span whose end is not before its start.
pub open spec fn span_ok(sp: Span) -> bool {
    sp.start_byte <= sp.end_byte
}

pub open spec fn scope_spans_ok(s: Seq<ScopeV>) -> bool {
    forall|i: int| 0 <= i < s.len() ==> span_ok(#[trigger] s[i].span)
}

/// Merging keeps well-formed spans, keeps scopes parentless, and keeps at
/// least one scope.
proof fn lemma_merge_scopes(s: Seq<ScopeV>)
    requires
        forall|i: int| 0 <= i < s.len() ==> span_ok(#[trigger] s[i].span) && s[i].parent is None,
    ensures
        forall|i: int| 0 <= i < merge_scopes(s).len() ==> span_ok(#[trigger] merge_scopes(s)[i].span) && merge_scopes(s)[i].parent is None,
        s.len() > 0 ==> merge_scopes(s).len() > 0,
    decreases s.len(),
{
    if s.len() > 0 {
        let pre = s.drop_last();
        assert forall|i: int| 0 <= i < pre.len() implies span_ok(#[trigger] pre[i].span) && pre[i].parent is None by {
            assert(pre[i] == s[i]);
        }
        lemma_merge_scopes(pre);
        let d = merge_scopes(pre);
        let m = merge_scopes(s);
        assert(span_ok(s[s.len() - 1].span) && s[s.len() - 1].parent is None);
        assert forall|i: int| 0 <= i < m.len() implies span_ok(#[trigger] m[i].span) && m[i].parent is None by {
            if i < d.len() {
                assert(m[i].span == d[i].span && m[i].parent == d[i].parent);
            }
        }
    }
}

/// Root scope and the function scopes, in match order.
fn collect_scopes(t: &SyntaxTree, ms: &Vec<QueryMatch>) -> (r: Vec<Scope>)
    requires
        t.wf(),
        matches_fit(ms@, t.nodes@.len() as int),
    ensures
        views(r@) == seq![ScopeV { span: node_span(*t, 0), parent: None, name: None }] + function_scopes(*t, ms@),
        forall|i: int| 0 <= i < r@.len() ==> span_ok((#[trigger] r@[i]).span) && r@[i].parent is None,
{
    let ghost root = ScopeV { span: node_span(*t, 0), parent: None, name: None };
    let mut r: Vec<Scope> = Vec::new();
    assert(span_ok(t.nodes@[0].span));
    r.push(Scope { span: t.nodes[0].span, parent: None, name: None });
    assert(views(r@) =~= seq![root] + function_scopes(*t, ms@.take(0)));
    let n = ms.len();
    for i in 0..n
        invariant
            t.wf(),
            matches_fit(ms@, t.nodes@.len() as int),
            n == ms@.len(),
            views(r@) == seq![root] + function_scopes(*t, ms@.take(i as int)),
            forall|k: int| 0 <= k < r@.len() ==> span_ok((#[trigger] r@[k]).span) && r@[k].parent is None,
    {
        let m = &ms[i];
        assert(ms@.take(i + 1).drop_last() =~= ms@.take(i as int));
        assert(ms@.take(i + 1).last() == *m);
        match capture_named(m, "function") {
            Some(f) => {
                proof {
                    let j = choose|j: int| 0 <= j < m.captures@.len() && (#[trigger] m.captures@[j]).node == f;
                    assert(ms@[i as int].captures@[j] == m.captures@[j]);
                }
                let name = match capture_named(m, "name") {
                    Some(nn) => {
                        proof {
                            let j2 = choose|j2: int| 0 <= j2 < m.captures@.len() && (#[trigger] m.captures@[j2]).node == nn;
                            assert(ms@[i as int].captures@[j2] == m.captures@[j2]);
                        }
                        Some(t.nodes[nn].text.clone())
                    },
                    None => None,
                };
                let sc = Scope { span: t.nodes[f].span, parent: None, name };
                assert(span_ok(t.nodes@[f as int].span));
                let ghost before = views(r@);
                let ghost rb = r@;
                let ghost scv = sc;
                r.push(sc);
                assert(views(r@) =~= before.push(sc@));
                assert forall|k: int| 0 <= k < r@.len() implies span_ok((#[trigger] r@[k]).span) && r@[k].parent is None by {
                    if k < rb.len() {
                        assert(r@[k] == rb[k]);
                    } else {
                        assert(r@[k] == scv);
                    }
                }
            },
            None => {},
        }
    }
    assert(ms@.take(n as int) =~= ms@);
    r
}

/// Merge adjacent scopes with the same span.
fn merge_scope_list(v: Vec<Scope>) -> (r: Vec<Scope>)
    ensures
        views(r@) == merge_scopes(views(v@)),
{
    let ghost orig = views(v@);
    let mut v = v;
    let mut out: Vec<Scope> = Vec::new();
    let n = v.len();
    let mut i: usize = 0;
    while v.len() > 0
        invariant
            i + v@.len() == n,
            orig.len() == n,
            views(v@) == orig.skip(i as int),
            views(out@) == merge_scopes(orig.take(i as int)),
        decreases v@.len(),
    {
        let ghost rest = views(v@);
        let ghost vv = v@;
        let x = v.remove(0);
        assert(views(v@) =~= rest.drop_first());
        assert(rest[0] == vv[0]@);
        assert(x@ == orig[i as int]);
        assert(orig.take(i + 1).drop_last() =~= orig.take(i as int));
        assert(orig.take(i + 1).last() == x@);
        let ghost d = views(out@);
        if out.len() > 0 && out[out.len() - 1].span == x.span {
            let last = out.len() - 1;
            assert(d.last() == out@[last as int]@);
            if out[last].name.is_none() {
                let sp = out[last].span;
                let par = out[last].parent;
                let sc = Scope { span: sp, parent: par, name: x.name };
                out.set(last, sc);
                assert(views(out@) =~= d.update(last as int, ScopeV { span: d.last().span, parent: d.last().parent, name: x@.name }));
            }
        } else {
            out.push(x);
            assert(views(out@) =~= d.push(x@));
        }
        assert(orig.skip(i + 1) =~= orig.skip(i as int).drop_first());
        i += 1;
    }
    assert(orig.take(n as int) =~= orig);
    out
}

/// Give every scope but the first its parent.
fn link_parents(v: Vec<Scope>) -> (r: Vec<Scope>)
    ensures
        views(r@) == with_parents(views(v@)),
{
    let ghost d = views(v@);
    let mut v = v;
    let mut out: Vec<Scope> = Vec::new();
    let n = v.len();
    let mut i: usize = 0;
    while v.len() > 0
        invariant
            i + v@.len() == n,
            d.len() == n,
            views(v@) == d.skip(i as int),
            out@.len() == i,
            forall|k: int| 0 <= k < i ==> (#[trigger] out@[k])@ == with_parents(d)[k],
        decreases v@.len(),
    {
        let ghost rest = views(v@);
        let ghost vv = v@;
        let x = v.remove(0);
        assert(views(v@) =~= rest.drop_first());
        assert(rest[0] == vv[0]@);
        assert(x@ == d[i as int]);
        let ghost ob = out@;
        let ghost xv = x@;
        if i == 0 {
            out.push(x);
        } else {
            let mut j = i;
            let mut p: usize = 0;
            let mut found = false;
            while j > 0 && !found
                invariant
                    0 < i,
                    i < n,
                    j <= i,
                    out@.len() == i,
                    x@ == d[i as int],
                    d.len() == n,
                    forall|k: int| 0 <= k < i ==> (#[trigger] out@[k])@ == with_parents(d)[k],
                    !found ==> container(d, i as int, i as int) == container(d, i as int, j as int),
                    found ==> p == container(d, i as int, i as int),
                    !found ==> p == 0,
                decreases j + (if found { 0int } else { 1int }),
            {
                assert(out@[j - 1]@ == with_parents(d)[j - 1]);
                if out[j - 1].span.contains(&x.span) {
                    p = j - 1;
                    found = true;
                } else {
                    j -= 1;
                }
            }
            if !found {
                assert(container(d, i as int, 0) == 0);
            }
            assert(p == container(d, i as int, i as int));
            assert(with_parents(d)[i as int] == ScopeV { span: d[i as int].span, parent: Some(container(d, i as int, i as int)), name: d[i as int].name });
            let sc = Scope { span: x.span, parent: Some(p), name: x.name };
            assert(sc@.span == xv.span);
            assert(sc@.name == xv.name);
            assert(sc@ == with_parents(d)[i as int]);
            out.push(sc);
        }
        assert(out@[i as int]@ == with_parents(d)[i as int]);
        assert forall|k: int| 0 <= k < i + 1 implies (#[trigger] out@[k])@ == with_parents(d)[k] by {
            if k < i {
                assert(out@[k] == ob[k]);
            }
        }
        assert(d.skip(i + 1) =~= d.skip(i as int).drop_first());
        i += 1;
    }
    assert(views(out@) =~= with_parents(d));
    out
}

/// The scopes of a file, with parents.
fn build_scopes(t: &SyntaxTree, ms: &Vec<QueryMatch>) -> (r: Vec<Scope>)
    requires
        t.wf(),
        matches_fit(ms@, t.nodes@.len() as int),
    ensures
        views(r@) == scopes_spec(*t, ms@),
        r@.len() > 0,
        scope_spans_ok(views(r@)),
        r@[0].parent is None,
        forall|i: int| 1 <= i < r@.len() ==> ((#[trigger] r@[i]).parent matches Some(p) && p < i),
{
    let raw = collect_scopes(t, ms);
    let ghost rv = views(raw@);
    assert forall|i: int| 0 <= i < rv.len() implies span_ok(#[trigger] rv[i].span) && rv[i].parent is None by {
        assert(rv[i] == raw@[i]@);
    }
    let sorted = stable_sort(raw);
    proof {
        crate::sorting::lemma_ssort::<Scope>(rv);
        let ss = ssort::<Scope>(rv);
        assert forall|i: int| 0 <= i < ss.len() implies span_ok(#[trigger] ss[i].span) && ss[i].parent is None by {
            let j = choose|j: int| 0 <= j < rv.len() && ss[i] == rv[j];
        }
        lemma_merge_scopes(ss);
    }
    let merged = merge_scope_list(sorted);
    let r = link_parents(merged);
    proof {
        let d = merge_scopes(ssort::<Scope>(rv));
        assert(views(r@) == with_parents(d));
        assert forall|i: int| 0 <= i < r@.len() implies span_ok(#[trigger] views(r@)[i].span) by {
            assert(views(r@)[i] == with_parents(d)[i]);
        }
        assert(views(r@)[0] == with_parents(d)[0]);
        assert forall|i: int| 1 <= i < r@.len() implies ((#[trigger] r@[i]).parent matches Some(p) && p < i) by {
            assert(views(r@)[i] == with_parents(d)[i]);
            lemma_container_lt(d, i, i);
        }
    }
    r
}

proof fn lemma_container_lt(s: Seq<ScopeV>, i: int, j: int)
    requires
        0 < j,
    ensures
        container(s, i, j) < j,
    decreases j,
{
    if j > 1 {
        if !s[j - 1].span.covers(s[i].span) {
            lemma_container_lt(s, i, j - 1);
        }
    } else {
        assert(container(s, i, 0) == 0);
    }
}

/// The innermost scope containing `sp`.
fn innermost_scope(scopes: &Vec<Scope>, sp: &Span) -> (r: usize)
    requires
        scopes@.len() > 0,
        scope_spans_ok(views(scopes@)),
    ensures
        r == innermost(views(scopes@), *sp),
        r < scopes@.len(),
{
    let ghost d = views(scopes@);
    let n = scopes.len();
    let mut best: usize = 0;
    for i in 0..n
        invariant
            n == scopes@.len(),
            n > 0,
            d == views(scopes@),
            scope_spans_ok(d),
            best == innermost_upto(d, *sp, i as int),
            best < n,
            i > 0 ==> best < i,
            i == 0 ==> best == 0,
    {
        let s = &scopes[i];
        assert(d[i as int] == s@);
        assert(d[best as int] == scopes@[best as int]@);
        assert(span_ok(d[i as int].span));
        assert(span_ok(d[best as int].span));
        let b = &scopes[best];
        if s.span.contains(sp) && (s.span.end_byte - s.span.start_byte) <= (b.span.end_byte - b.span.start_byte) {
            best = i;
        }
    }
    best
}

/// The content of a path use.
pub struct PathUseV {
    pub path: PathView,
    pub span: Span,
    pub scope: usize,
}

impl View for PathUse {
    type V = PathUseV;

    open spec fn view(&self) -> PathUseV {
        PathUseV { path: self.path@, span: self.span, scope: self.scope }
    }
}

impl Located for PathUse {
    open spec fn loc_of(v: PathUseV) -> Span {
        v.span
    }

    open spec fn key_of(v: PathUseV) -> u64 {
        v.span.start_byte as u64
    }

    fn loc(&self) -> (r: Span) {
        self.span
    }

    fn key(&self) -> (r: u64) {
        self.span.start_byte as u64
    }
}

/// A candidate path use: the maximal chain grown from one identifier.
pub struct RawUse {
    pub span: Span,
    pub path: AccessPath,
}

pub struct RawUseV {
    pub span: Span,
    pub path: PathView,
}

impl View for RawUse {
    type V = RawUseV;

    open spec fn view(&self) -> RawUseV {
        RawUseV { span: self.span, path: self.path@ }
    }
}

impl Located for RawUse {
    open spec fn loc_of(v: RawUseV) -> Span {
        v.span
    }

    open spec fn key_of(v: RawUseV) -> u64 {
        outer_first_key(v.span)
    }

    fn loc(&self) -> (r: Span) {
        self.span
    }

    fn key(&self) -> (r: u64) {
        outer_first(&self.span)
    }
}

/// `k` is one of `kinds`.
pub open spec fn is_kind_in(kinds: Seq<String>, k: Seq<char>) -> bool {
    exists|i: int| 0 <= i < kinds.len() && (#[trigger] kinds[i])@ == k
}

fn kind_in(kinds: &Vec<String>, k: &String) -> (r: bool)
    ensures
        r == is_kind_in(kinds@, k@),
{
    let n = kinds.len();
    for i in 0..n
        invariant
            n == kinds@.len(),
            forall|j: int| 0 <= j < i ==> (#[trigger] kinds@[j])@ != k@,
    {
        if kinds[i] == *k {
            assert(kinds@[i as int]@ == k@);
            return true;
        }
    }
    false
}

/// The outermost ancestor of `n` reached by climbing parents that start at
/// the same byte and whose text is still a pure `ident(.ident)*` chain.
pub open spec fn climb_top(t: SyntaxTree, n: int) -> int
    decreases n,
{
    if 0 <= n < t.nodes@.len() {
        match t.nodes@[n].parent {
            Some(p) => if p < n && t.nodes@[p as int].span.start_byte == t.nodes@[n].span.start_byte
                && parse_path(t.nodes@[p as int].text@) is Some {
                climb_top(t, p as int)
            } else {
                n
            },
            None => n,
        }
    } else {
        n
    }
}

/// The path of a chain node: its parsed text, else an empty base-only path.
pub open spec fn chain_path(t: SyntaxTree, n: int) -> PathView {
    match parse_path(t.nodes@[n].text@) {
        Some(p) => p,
        None => crate::solve::base_path(Seq::empty()),
    }
}

/// The candidate uses grown from the identifier nodes among the first `k`
/// nodes.
pub open spec fn raw_uses(t: SyntaxTree, kinds: Seq<String>, k: int) -> Seq<RawUseV>
    decreases k,
{
    if k <= 0 {
        Seq::empty()
    } else {
        let prev = raw_uses(t, kinds, k - 1);
        if is_kind_in(kinds, t.nodes@[k - 1].kind@) {
            let top = climb_top(t, k - 1);
            prev.push(RawUseV { span: t.nodes@[top].span, path: chain_path(t, top) })
        } else {
            prev
        }
    }
}

/// Keep the candidates that end past every candidate kept before (in
/// outer-first order this drops the chains another one contains), with the
/// largest end kept.
pub open spec fn keep_maximal(s: Seq<RawUseV>) -> (Seq<RawUseV>, u32)
    decreases s.len(),
{
    if s.len() == 0 {
        (Seq::empty(), 0)
    } else {
        let (k, m) = keep_maximal(s.drop_last());
        if s.last().span.end_byte <= m {
            (k, m)
        } else {
            (k.push(s.last()), s.last().span.end_byte)
        }
    }
}

/// The path uses of a file: maximal dotted chains rooted at identifiers,
/// each in its innermost scope, ordered by start.
pub open spec fn uses_spec(t: SyntaxTree, kinds: Seq<String>, scopes: Seq<ScopeV>) -> Seq<PathUseV> {
    let kept = keep_maximal(ssort::<RawUse>(raw_uses(t, kinds, t.nodes@.len() as int))).0;
    ssort::<PathUse>(kept.map_values(|r: RawUseV| PathUseV { path: r.path, span: r.span, scope: innermost(scopes, r.span) }))
}

/// The top of the chain climbed from node `n`.
fn climb(t: &SyntaxTree, n: usize) -> (r: usize)
    requires
        t.wf(),
        n < t.nodes@.len(),
    ensures
        r == climb_top(*t, n as int),
        r < t.nodes@.len(),
{
    let start = t.nodes[n].span.start_byte;
    let mut cur = n;
    loop
        invariant
            t.wf(),
            cur < t.nodes@.len(),
            t.nodes@[cur as int].span.start_byte == start,
            climb_top(*t, n as int) == climb_top(*t, cur as int),
        decreases cur,
    {
        match t.nodes[cur].parent {
            Some(p) => {
                if p < cur && t.nodes[p].span.start_byte == start && AccessPath::parse(t.nodes[p].text.as_str()).is_some() {
                    cur = p;
                } else {
                    return cur;
                }
            },
            None => return cur,
        }
    }
}

/// The candidate uses, in node order.
fn collect_raw_uses(t: &SyntaxTree, kinds: &Vec<String>) -> (r: Vec<RawUse>)
    requires
        t.wf(),
    ensures
        views(r@) == raw_uses(*t, kinds@, t.nodes@.len() as int),
{
    let mut r: Vec<RawUse> = Vec::new();
    let n = t.nodes.len();
    for k in 0..n
        invariant
            t.wf(),
            n == t.nodes@.len(),
            views(r@) == raw_uses(*t, kinds@, k as int),
    {
        if kind_in(kinds, &t.nodes[k].kind) {
            let top = climb(t, k);
            let path = match AccessPath::parse(t.nodes[top].text.as_str()) {
                Some(p) => p,
                None => AccessPath::base_only(String::new()),
            };
            let ru = RawUse { span: t.nodes[top].span, path };
            assert(ru@.path == chain_path(*t, top as int));
            let ghost before = views(r@);
            r.push(ru);
            assert(views(r@) =~= before.push(ru@));
        }
    }
    r
}

/// Keep the maximal candidates.
pub(crate) fn keep_maximal_uses(v: Vec<RawUse>) -> (r: Vec<RawUse>)
    ensures
        views(r@) == keep_maximal(views(v@)).0,
{
    let ghost orig = views(v@);
    let mut v = v;
    let mut out: Vec<RawUse> = Vec::new();
    let mut max_end: u32 = 0;
    let n = v.len();
    let mut i: usize = 0;
    while v.len() > 0
        invariant
            i + v@.len() == n,
            orig.len() == n,
            views(v@) == orig.skip(i as int),
            views(out@) == keep_maximal(orig.take(i as int)).0,
            max_end == keep_maximal(orig.take(i as int)).1,
        decreases v@.len(),
    {
        let ghost rest = views(v@);
        let ghost vv = v@;
        let x = v.remove(0);
        assert(views(v@) =~= rest.drop_first());
        assert(rest[0] == vv[0]@);
        assert(x@ == orig[i as int]);
        assert(orig.take(i + 1).drop_last() =~= orig.take(i as int));
        assert(orig.take(i + 1).last() == x@);
        if x.span.end_byte > max_end {
            max_end = x.span.end_byte;
            let ghost before = views(out@);
            let ghost xv = x@;
            out.push(x);
            assert(views(out@) =~= before.push(xv));
        }
        assert(orig.skip(i + 1) =~= orig.skip(i as int).drop_first());
        i += 1;
    }
    assert(orig.take(n as int) =~= orig);
    out
}

/// The path uses of a file.
fn build_uses(t: &SyntaxTree, kinds: &Vec<String>, scopes: &Vec<Scope>) -> (r: Vec<PathUse>)
    requires
        t.wf(),
        scopes@.len() > 0,
        scope_spans_ok(views(scopes@)),
    ensures
        views(r@) == uses_spec(*t, kinds@, views(scopes@)),
        forall|i: int| 0 <= i < r@.len() ==> (#[trigger] r@[i]).scope < scopes@.len(),
        forall|i: int, j: int| 0 <= i <= j < r@.len() ==> (#[trigger] r@[i]).span.start_byte <= (#[trigger] r@[j]).span.start_byte,
{
    let raw = collect_raw_uses(t, kinds);
    let sorted = stable_sort(raw);
    let kept = keep_maximal_uses(sorted);
    let ghost kv = views(kept@);
    let ghost sv = views(scopes@);
    let ghost f = |r: RawUseV| PathUseV { path: r.path, span: r.span, scope: innermost(sv, r.span) };
    let mut kept = kept;
    let mut uses: Vec<PathUse> = Vec::new();
    let n = kept.len();
    let mut i: usize = 0;
    while kept.len() > 0
        invariant
            i + kept@.len() == n,
            kv.len() == n,
            views(kept@) == kv.skip(i as int),
            sv == views(scopes@),
            scopes@.len() > 0,
            scope_spans_ok(sv),
            f == (|r: RawUseV| PathUseV { path: r.path, span: r.span, scope: innermost(sv, r.span) }),
            views(uses@) == kv.take(i as int).map_values(f),
            forall|k: int| 0 <= k < uses@.len() ==> (#[trigger] uses@[k]).scope < scopes@.len(),
        decreases kept@.len(),
    {
        let ghost rest = views(kept@);
        let ghost vv = kept@;
        let x = kept.remove(0);
        assert(views(kept@) =~= rest.drop_first());
        assert(rest[0] == vv[0]@);
        assert(x@ == kv[i as int]);
        let scope = innermost_scope(scopes, &x.span);
        let u = PathUse { path: x.path, span: x.span, scope };
        let ghost before = views(uses@);
        let ghost ub = uses@;
        let ghost uv = u;
        uses.push(u);
        assert(views(uses@) =~= before.push(uv@));
        assert(kv.take(i + 1).map_values(f) =~= kv.take(i as int).map_values(f).push(f(kv[i as int])));
        assert forall|k: int| 0 <= k < uses@.len() implies (#[trigger] uses@[k]).scope < scopes@.len() by {
            if k < ub.len() {
                assert(uses@[k] == ub[k]);
            } else {
                assert(uses@[k] == uv);
            }
        }
        assert(kv.skip(i + 1) =~= kv.skip(i as int).drop_first());
        i += 1;
    }
    assert(kv.take(n as int) =~= kv);
    let ghost pre = views(uses@);
    proof {
        assert forall|k: int| 0 <= k < pre.len() implies (#[trigger] pre[k]).scope < scopes@.len() by {
            assert(pre[k] == uses@[k]@);
        }
        crate::sorting::lemma_ssort::<PathUse>(pre);
    }
    let r = stable_sort(uses);
    proof {
        let ss = ssort::<PathUse>(pre);
        assert forall|i: int| 0 <= i < r@.len() implies (#[trigger] r@[i]).scope < scopes@.len() by {
            assert(ss[i] == r@[i]@);
            let j = choose|j: int| 0 <= j < pre.len() && ss[i] == pre[j];
        }
        assert forall|i: int, j: int| 0 <= i <= j < r@.len() implies (#[trigger] r@[i]).span.start_byte <= (#[trigger] r@[j]).span.start_byte by {
            assert(ss[i] == r@[i]@);
            assert(ss[j] == r@[j]@);
        }
    }
    r
}

/// The first identifier node in `n`'s subtree, searching named children
/// depth-first in document order.
pub open spec fn first_ident(t: SyntaxTree, kinds: Seq<String>, n: usize) -> Option<usize>
    decreases t.nodes@.len() - n, 1int, 0int,
{
    if n >= t.nodes@.len() {
        None
    } else if is_kind_in(kinds, t.nodes@[n as int].kind@) {
        Some(n)
    } else {
        first_ident_list(t, kinds, n, t.nodes@[n as int].children@)
    }
}

/// `first_ident` over the named nodes of `l`, children of `parent`.
pub open spec fn first_ident_list(t: SyntaxTree, kinds: Seq<String>, parent: usize, l: Seq<usize>) -> Option<usize>
    decreases t.nodes@.len() - parent, 0int, l.len(),
{
    if l.len() == 0 || parent >= t.nodes@.len() {
        None
    } else if !(parent < l[0] && l[0] < t.nodes@.len()) {
        None
    } else if !t.nodes@[l[0] as int].named {
        first_ident_list(t, kinds, parent, l.drop_first())
    } else {
        match first_ident(t, kinds, l[0]) {
            Some(x) => Some(x),
            None => first_ident_list(t, kinds, parent, l.drop_first()),
        }
    }
}

/// The access path written by an assignment target: its text as a pure
/// chain, else a base-only path on its first identifier.
pub open spec fn path_of_node(t: SyntaxTree, kinds: Seq<String>, n: usize) -> Option<PathView> {
    match parse_path(node_text(t, n)) {
        Some(p) => Some(p),
        None => match first_ident(t, kinds, n) {
            Some(i) => Some(crate::solve::base_path(node_text(t, i))),
            None => None,
        },
    }
}

fn find_first_ident(t: &SyntaxTree, kinds: &Vec<String>, n: usize) -> (r: Option<usize>)
    requires
        t.wf(),
        n < t.nodes@.len(),
    ensures
        r == first_ident(*t, kinds@, n),
        r matches Some(x) ==> x < t.nodes@.len(),
    decreases t.nodes@.len() - n,
{
    if kind_in(kinds, &t.nodes[n].kind) {
        return Some(n);
    }
    let children = &t.nodes[n].children;
    let ghost l = children@;
    let m = children.len();
    assert(l.skip(0) =~= l);
    for i in 0..m
        invariant
            t.wf(),
            n < t.nodes@.len(),
            m == l.len(),
            l == t.nodes@[n as int].children@,
            *children == t.nodes@[n as int].children,
            !is_kind_in(kinds@, t.nodes@[n as int].kind@),
            first_ident(*t, kinds@, n) == first_ident_list(*t, kinds@, n, l.skip(i as int)),
    {
        let c = children[i];
        assert(l.skip(i as int)[0] == c);
        assert(l.skip(i as int).drop_first() =~= l.skip(i + 1));
        assert(n < c < t.nodes@.len()) by {
            assert(t.nodes@[n as int].children@[i as int] == c);
        }
        if t.nodes[c].named {
            match find_first_ident(t, kinds, c) {
                Some(x) => return Some(x),
                None => {},
            }
        }
    }
    assert(l.skip(m as int).len() == 0);
    None
}

fn node_path(t: &SyntaxTree, kinds: &Vec<String>, n: usize) -> (r: Option<AccessPath>)
    requires
        t.wf(),
        n < t.nodes@.len(),
    ensures
        match r {
            Some(p) => path_of_node(*t, kinds@, n) == Some(p@),
            None => path_of_node(*t, kinds@, n) is None,
        },
{
    match AccessPath::parse(t.nodes[n].text.as_str()) {
        Some(p) => Some(p),
        None => match find_first_ident(t, kinds, n) {
            Some(i) => {
                let p = AccessPath::base_only(t.nodes[i].text.clone());
                assert(p@ == crate::solve::base_path(node_text(*t, i)));
                Some(p)
            },
            None => None,
        },
    }
}

/// The content of an assignment.
pub struct AssignV {
    pub path: PathView,
    pub lhs_span: Span,
    pub rhs_span: Span,
    pub scope: usize,
    pub write_byte: u32,
}

impl View for Assign {
    type V = AssignV;

    open spec fn view(&self) -> AssignV {
        AssignV { path: self.path@, lhs_span: self.lhs_span, rhs_span: self.rhs_span, scope: self.scope, write_byte: self.write_byte }
    }
}

impl Located for Assign {
    open spec fn loc_of(v: AssignV) -> Span {
        v.lhs_span
    }

    open spec fn key_of(v: AssignV) -> u64 {
        v.lhs_span.start_byte as u64
    }

    fn loc(&self) -> (r: Span) {
        self.lhs_span
    }

    fn key(&self) -> (r: u64) {
        self.lhs_span.start_byte as u64
    }
}

/// The assignments the matches declare, in match order.
pub open spec fn assigns_raw(t: SyntaxTree, kinds: Seq<String>, scopes: Seq<ScopeV>, ms: Seq<QueryMatch>) -> Seq<AssignV>
    decreases ms.len(),
{
    if ms.len() == 0 {
        Seq::empty()
    } else {
        let prev = assigns_raw(t, kinds, scopes, ms.drop_last());
        let cs = ms.last().captures@;
        match (capture_spec(cs, "lhs"@), capture_spec(cs, "rhs"@)) {
            (Some(l), Some(r)) => match path_of_node(t, kinds, l) {
                Some(p) => prev.push(AssignV {
                    path: p,
                    lhs_span: node_span(t, l),
                    rhs_span: node_span(t, r),
                    scope: innermost(scopes, node_span(t, l)),
                    write_byte: node_span(t, l).start_byte,
                }),
                None => prev,
            },
            _ => prev,
        }
    }
}

/// The content of a parameter.
pub struct ParamV {
    pub name: Seq<char>,
    pub span: Span,
    pub scope: usize,
    pub index: usize,
}

impl View for Param {
    type V = ParamV;

    open spec fn view(&self) -> ParamV {
        ParamV { name: self.name@, span: self.span, scope: self.scope, index: self.index }
    }
}

impl Located for Param {
    open spec fn loc_of(v: ParamV) -> Span {
        v.span
    }

    open spec fn key_of(v: ParamV) -> u64 {
        v.span.start_byte as u64
    }

    fn loc(&self) -> (r: Span) {
        self.span
    }

    fn key(&self) -> (r: u64) {
        self.span.start_byte as u64
    }
}

/// The parameters the matches declare, in match order.
pub open spec fn params_raw(t: SyntaxTree, scopes: Seq<ScopeV>, ms: Seq<QueryMatch>) -> Seq<ParamV>
    decreases ms.len(),
{
    if ms.len() == 0 {
        Seq::empty()
    } else {
        let prev = params_raw(t, scopes, ms.drop_last());
        match capture_spec(ms.last().captures@, "param"@) {
            Some(p) => prev.push(ParamV { name: node_text(t, p), span: node_span(t, p), scope: innermost(scopes, node_span(t, p)), index: 0 }),
            None => prev,
        }
    }
}

/// How many of `s` belong to `scope`.
pub open spec fn count_scope(s: Seq<ParamV>, scope: usize) -> nat
    decreases s.len(),
{
    if s.len() == 0 {
        0
    } else {
        count_scope(s.drop_last(), scope) + if s.last().scope == scope { 1nat } else { 0nat }
    }
}

/// Each parameter's position among the earlier parameters of its scope.
pub open spec fn numbered(s: Seq<ParamV>) -> Seq<ParamV> {
    Seq::new(s.len(), |i: int| ParamV { name: s[i].name, span: s[i].span, scope: s[i].scope, index: count_scope(s.take(i), s[i].scope) as usize })
}

/// The content of a call site.
pub struct CallSiteV {
    pub span: Span,
    pub callee: Option<Seq<char>>,
    pub args: Seq<Span>,
}

impl View for CallSite {
    type V = CallSiteV;

    open spec fn view(&self) -> CallSiteV {
        CallSiteV { span: self.span, callee: opt_view(self.callee), args: self.args@ }
    }
}

impl Located for CallSite {
    open spec fn loc_of(v: CallSiteV) -> Span {
        v.span
    }

    open spec fn key_of(v: CallSiteV) -> u64 {
        v.span.start_byte as u64
    }

    fn loc(&self) -> (r: Span) {
        self.span
    }

    fn key(&self) -> (r: u64) {
        self.span.start_byte as u64
    }
}

/// The spans of the named nodes of `l`.
pub open spec fn named_spans(t: SyntaxTree, l: Seq<usize>) -> Seq<Span>
    decreases l.len(),
{
    if l.len() == 0 {
        Seq::empty()
    } else {
        let prev = named_spans(t, l.drop_last());
        if t.nodes@[l.last() as int].named { prev.push(node_span(t, l.last())) } else { prev }
    }
}

/// The call sites the matches declare, in match order.
pub open spec fn calls_raw(t: SyntaxTree, ms: Seq<QueryMatch>) -> Seq<CallSiteV>
    decreases ms.len(),
{
    if ms.len() == 0 {
        Seq::empty()
    } else {
        let prev = calls_raw(t, ms.drop_last());
        let cs = ms.last().captures@;
        match capture_spec(cs, "call"@) {
            Some(c) => prev.push(CallSiteV {
                span: node_span(t, c),
                callee: match capture_spec(cs, "callee"@) {
                    Some(x) => Some(node_text(t, x)),
                    None => None,
                },
                args: match capture_spec(cs, "args"@) {
                    Some(a) => named_spans(t, t.nodes@[a as int].children@),
                    None => Seq::empty(),
                },
            }),
            None => prev,
        }
    }
}

/// The returns the matches declare, in match order.
pub open spec fn returns_raw(t: SyntaxTree, scopes: Seq<ScopeV>, ms: Seq<QueryMatch>) -> Seq<Return>
    decreases ms.len(),
{
    if ms.len() == 0 {
        Seq::empty()
    } else {
        let prev = returns_raw(t, scopes, ms.drop_last());
        match capture_spec(ms.last().captures@, "value"@) {
            Some(v) => prev.push(Return { value_span: node_span(t, v), scope: innermost(scopes, node_span(t, v)) }),
            None => prev,
        }
    }
}

/// A node captured in a match of `ms` is a node of the tree.
pub(crate) proof fn lemma_capture_fits(ms: Seq<QueryMatch>, i: int, name: Seq<char>, n: int)
    requires
        matches_fit(ms, n),
        0 <= i < ms.len(),
    ensures
        capture_spec(ms[i].captures@, name) matches Some(x) ==> x < n,
{
    lemma_capture_spec_in(ms[i].captures@, name);
    if capture_spec(ms[i].captures@, name) is Some {
        let j = choose|j: int| 0 <= j < ms[i].captures@.len() && (#[trigger] ms[i].captures@[j]).node == capture_spec(ms[i].captures@, name)->0;
    }
}

proof fn lemma_capture_spec_in(cs: Seq<crate::syntax::Capture>, name: Seq<char>)
    ensures
        capture_spec(cs, name) matches Some(x) ==> exists|j: int| 0 <= j < cs.len() && (#[trigger] cs[j]).node == x,
    decreases cs.len(),
{
    if cs.len() > 0 && cs[0].name@ != name {
        lemma_capture_spec_in(cs.drop_first(), name);
        if capture_spec(cs, name) is Some {
            let j = choose|j: int| 0 <= j < cs.drop_first().len() && (#[trigger] cs.drop_first()[j]).node == capture_spec(cs, name)->0;
            assert(cs[j + 1] == cs.drop_first()[j]);
        }
    } else if cs.len() > 0 {
        assert(cs[0].node == cs[0].node);
    }
}

/// The assignments of a file, ordered by target start.
fn build_assigns(t: &SyntaxTree, kinds: &Vec<String>, scopes: &Vec<Scope>, ms: &Vec<QueryMatch>) -> (r: Vec<Assign>)
    requires
        t.wf(),
        matches_fit(ms@, t.nodes@.len() as int),
        scopes@.len() > 0,
        scope_spans_ok(views(scopes@)),
    ensures
        views(r@) == ssort::<Assign>(assigns_raw(*t, kinds@, views(scopes@), ms@)),
        forall|i: int| 0 <= i < r@.len() ==> (#[trigger] r@[i]).scope < scopes@.len(),
{
    let ghost sv = views(scopes@);
    let mut v: Vec<Assign> = Vec::new();
    let n = ms.len();
    for i in 0..n
        invariant
            t.wf(),
            matches_fit(ms@, t.nodes@.len() as int),
            n == ms@.len(),
            sv == views(scopes@),
            scopes@.len() > 0,
            scope_spans_ok(sv),
            views(v@) == assigns_raw(*t, kinds@, sv, ms@.take(i as int)),
            forall|k: int| 0 <= k < v@.len() ==> (#[trigger] v@[k]).scope < scopes@.len(),
    {
        let m = &ms[i];
        assert(ms@.take(i + 1).drop_last() =~= ms@.take(i as int));
        assert(ms@.take(i + 1).last() == *m);
        proof {
            lemma_capture_fits(ms@, i as int, "lhs"@, t.nodes@.len() as int);
            lemma_capture_fits(ms@, i as int, "rhs"@, t.nodes@.len() as int);
        }
        match (capture_named(m, "lhs"), capture_named(m, "rhs")) {
            (Some(l), Some(rh)) => {
                match node_path(t, kinds, l) {
                    Some(path) => {
                        let lhs_span = t.nodes[l].span;
                        let a = Assign {
                            path,
                            lhs_span,
                            rhs_span: t.nodes[rh].span,
                            scope: innermost_scope(scopes, &lhs_span),
                            write_byte: lhs_span.start_byte,
                        };
                        let ghost before = views(v@);
                        let ghost vb = v@;
                        let ghost av = a;
                        v.push(a);
                        assert(views(v@) =~= before.push(av@));
                        assert forall|k: int| 0 <= k < v@.len() implies (#[trigger] v@[k]).scope < scopes@.len() by {
                            if k < vb.len() { assert(v@[k] == vb[k]); } else { assert(v@[k] == av); }
                        }
                    },
                    None => {},
                }
            },
            _ => {},
        }
    }
    assert(ms@.take(n as int) =~= ms@);
    let ghost pre = views(v@);
    proof {
        assert forall|k: int| 0 <= k < pre.len() implies (#[trigger] pre[k]).scope < scopes@.len() by {
            assert(pre[k] == v@[k]@);
        }
        crate::sorting::lemma_ssort::<Assign>(pre);
    }
    let r = stable_sort(v);
    proof {
        let ss = ssort::<Assign>(pre);
        assert forall|i: int| 0 <= i < r@.len() implies (#[trigger] r@[i]).scope < scopes@.len() by {
            assert(ss[i] == r@[i]@);
            let j = choose|j: int| 0 <= j < pre.len() && ss[i] == pre[j];
        }
    }
    r
}

proof fn lemma_count_scope_le(s: Seq<ParamV>, scope: usize)
    ensures
        count_scope(s, scope) <= s.len(),
    decreases s.len(),
{
    if s.len() > 0 {
        lemma_count_scope_le(s.drop_last(), scope);
    }
}

/// Number each parameter within its scope.
fn number_params(v: Vec<Param>, nscopes: usize) -> (r: Vec<Param>)
    requires
        forall|i: int| 0 <= i < v@.len() ==> (#[trigger] v@[i]).scope < nscopes,
    ensures
        views(r@) == numbered(views(v@)),
        forall|i: int| 0 <= i < r@.len() ==> (#[trigger] r@[i]).scope < nscopes,
{
    let ghost d = views(v@);
    let mut counts: Vec<usize> = Vec::new();
    for k in 0..nscopes
        invariant
            counts@.len() == k,
            forall|s: int| 0 <= s < k ==> counts@[s] == 0,
    {
        counts.push(0);
    }
    let mut v = v;
    let mut out: Vec<Param> = Vec::new();
    let n = v.len();
    let mut i: usize = 0;
    while v.len() > 0
        invariant
            i + v@.len() == n,
            d.len() == n,
            views(v@) == d.skip(i as int),
            counts@.len() == nscopes,
            forall|s: int| 0 <= s < nscopes ==> #[trigger] counts@[s] == count_scope(d.take(i as int), s as usize),
            forall|k: int| 0 <= k < v@.len() ==> (#[trigger] v@[k]).scope < nscopes,
            views(out@) == numbered(d).take(i as int),
            forall|k: int| 0 <= k < out@.len() ==> (#[trigger] out@[k]).scope < nscopes,
        decreases v@.len(),
    {
        let ghost rest = views(v@);
        let ghost vv = v@;
        let x = v.remove(0);
        assert(views(v@) =~= rest.drop_first());
        assert(rest[0] == vv[0]@);
        assert(x@ == d[i as int]);
        assert(vv[0].scope < nscopes);
        assert forall|k: int| 0 <= k < v@.len() implies (#[trigger] v@[k]).scope < nscopes by {
            assert(v@[k] == vv[k + 1]);
        }
        let sc = x.scope;
        let idx = counts[sc];
        proof { lemma_count_scope_le(d.take(i as int), sc); }
        counts.set(sc, idx + 1);
        assert(d.take(i + 1).drop_last() =~= d.take(i as int));
        assert(d.take(i + 1).last() == d[i as int]);
        assert forall|s: int| 0 <= s < nscopes implies #[trigger] counts@[s] == count_scope(d.take(i + 1), s as usize) by {
        }
        let p = Param { name: x.name, span: x.span, scope: sc, index: idx };
        assert(p@ == numbered(d)[i as int]);
        let ghost ob = out@;
        let ghost before = views(out@);
        let ghost pv = p;
        out.push(p);
        assert(views(out@) =~= before.push(pv@));
        assert(numbered(d).take(i + 1) =~= numbered(d).take(i as int).push(numbered(d)[i as int]));
        assert(views(out@) =~= numbered(d).take(i + 1));
        assert forall|k: int| 0 <= k < out@.len() implies (#[trigger] out@[k]).scope < nscopes by {
            if k < ob.len() { assert(out@[k] == ob[k]); } else { assert(out@[k] == pv); }
        }
        assert(d.skip(i + 1) =~= d.skip(i as int).drop_first());
        i += 1;
    }
    assert(numbered(d).take(n as int) =~= numbered(d));
    out
}

/// The parameters of a file: ordered by start, one per span, numbered
/// within their scope.
fn build_params(t: &SyntaxTree, scopes: &Vec<Scope>, ms: &Vec<QueryMatch>) -> (r: Vec<Param>)
    requires
        t.wf(),
        matches_fit(ms@, t.nodes@.len() as int),
        scopes@.len() > 0,
        scope_spans_ok(views(scopes@)),
    ensures
        views(r@) == numbered(dedup_loc::<Param>(ssort::<Param>(params_raw(*t, views(scopes@), ms@)))),
        forall|i: int| 0 <= i < r@.len() ==> (#[trigger] r@[i]).scope < scopes@.len(),
{
    let ghost sv = views(scopes@);
    let mut v: Vec<Param> = Vec::new();
    let n = ms.len();
    for i in 0..n
        invariant
            t.wf(),
            matches_fit(ms@, t.nodes@.len() as int),
            n == ms@.len(),
            sv == views(scopes@),
            scopes@.len() > 0,
            scope_spans_ok(sv),
            views(v@) == params_raw(*t, sv, ms@.take(i as int)),
            forall|k: int| 0 <= k < v@.len() ==> (#[trigger] v@[k]).scope < scopes@.len(),
    {
        let m = &ms[i];
        assert(ms@.take(i + 1).drop_last() =~= ms@.take(i as int));
        assert(ms@.take(i + 1).last() == *m);
        proof { lemma_capture_fits(ms@, i as int, "param"@, t.nodes@.len() as int); }
        match capture_named(m, "param") {
            Some(pn) => {
                let span = t.nodes[pn].span;
                let p = Param { name: t.nodes[pn].text.clone(), span, scope: innermost_scope(scopes, &span), index: 0 };
                let ghost before = views(v@);
                let ghost vb = v@;
                let ghost pv = p;
                v.push(p);
                assert(views(v@) =~= before.push(pv@));
                assert forall|k: int| 0 <= k < v@.len() implies (#[trigger] v@[k]).scope < scopes@.len() by {
                    if k < vb.len() { assert(v@[k] == vb[k]); } else { assert(v@[k] == pv); }
                }
            },
            None => {},
        }
    }
    assert(ms@.take(n as int) =~= ms@);
    let ghost pre = views(v@);
    proof {
        assert forall|k: int| 0 <= k < pre.len() implies (#[trigger] pre[k]).scope < scopes@.len() by {
            assert(pre[k] == v@[k]@);
        }
        crate::sorting::lemma_ssort::<Param>(pre);
        crate::sorting::lemma_dedup_loc::<Param>(ssort::<Param>(pre));
    }
    let sorted = stable_sort(v);
    let deduped = dedup_located(sorted);
    proof {
        let ss = ssort::<Param>(pre);
        let dd = dedup_loc::<Param>(ss);
        assert forall|i: int| 0 <= i < deduped@.len() implies (#[trigger] deduped@[i]).scope < scopes@.len() by {
            assert(dd[i] == deduped@[i]@);
            let j = choose|j: int| 0 <= j < ss.len() && dd[i] == ss[j];
            let k = choose|k: int| 0 <= k < pre.len() && ss[j] == pre[k];
        }
    }
    number_params(deduped, scopes.len())
}

/// The spans of the named children of node `a`.
pub(crate) fn named_child_spans(t: &SyntaxTree, a: usize) -> (r: Vec<Span>)
    requires
        t.wf(),
        a < t.nodes@.len(),
    ensures
        r@ == named_spans(*t, t.nodes@[a as int].children@),
{
    let children = &t.nodes[a].children;
    let ghost l = children@;
    let mut r: Vec<Span> = Vec::new();
    let m = children.len();
    for i in 0..m
        invariant
            t.wf(),
            a < t.nodes@.len(),
            m == l.len(),
            l == t.nodes@[a as int].children@,
            *children == t.nodes@[a as int].children,
            r@ == named_spans(*t, l.take(i as int)),
    {
        let c = children[i];
        assert(t.nodes@[a as int].children@[i as int] == c);
        assert(l.take(i + 1).drop_last() =~= l.take(i as int));
        assert(l.take(i + 1).last() == c);
        if t.nodes[c].named {
            r.push(t.nodes[c].span);
        }
    }
    assert(l.take(m as int) =~= l);
    r
}

/// The call sites of a file: ordered by start, one per span.
fn build_calls(t: &SyntaxTree, ms: &Vec<QueryMatch>) -> (r: Vec<CallSite>)
    requires
        t.wf(),
        matches_fit(ms@, t.nodes@.len() as int),
    ensures
        views(r@) == dedup_loc::<CallSite>(ssort::<CallSite>(calls_raw(*t, ms@))),
{
    let mut v: Vec<CallSite> = Vec::new();
    let n = ms.len();
    for i in 0..n
        invariant
            t.wf(),
            matches_fit(ms@, t.nodes@.len() as int),
            n == ms@.len(),
            views(v@) == calls_raw(*t, ms@.take(i as int)),
    {
        let m = &ms[i];
        assert(ms@.take(i + 1).drop_last() =~= ms@.take(i as int));
        assert(ms@.take(i + 1).last() == *m);
        proof {
            lemma_capture_fits(ms@, i as int, "call"@, t.nodes@.len() as int);
            lemma_capture_fits(ms@, i as int, "callee"@, t.nodes@.len() as int);
            lemma_capture_fits(ms@, i as int, "args"@, t.nodes@.len() as int);
        }
        match capture_named(m, "call") {
            Some(c) => {
                let callee = match capture_named(m, "callee") {
                    Some(x) => Some(t.nodes[x].text.clone()),
                    None => None,
                };
                let args = match capture_named(m, "args") {
                    Some(a) => named_child_spans(t, a),
                    None => Vec::new(),
                };
                let cs = CallSite { span: t.nodes[c].span, callee, args };
                let ghost before = views(v@);
                let ghost cv = cs;
                v.push(cs);
                assert(views(v@) =~= before.push(cv@));
            },
            None => {},
        }
    }
    assert(ms@.take(n as int) =~= ms@);
    let sorted = stable_sort(v);
    dedup_located(sorted)
}

/// The returns of a file, in match order.
fn build_returns(t: &SyntaxTree, scopes: &Vec<Scope>, ms: &Vec<QueryMatch>) -> (r: Vec<Return>)
    requires
        t.wf(),
        matches_fit(ms@, t.nodes@.len() as int),
        scopes@.len() > 0,
        scope_spans_ok(views(scopes@)),
    ensures
        r@ == returns_raw(*t, views(scopes@), ms@),
        forall|i: int| 0 <= i < r@.len() ==> (#[trigger] r@[i]).scope < scopes@.len(),
{
    let ghost sv = views(scopes@);
    let mut v: Vec<Return> = Vec::new();
    let n = ms.len();
    for i in 0..n
        invariant
            t.wf(),
            matches_fit(ms@, t.nodes@.len() as int),
            n == ms@.len(),
            sv == views(scopes@),
            scopes@.len() > 0,
            scope_spans_ok(sv),
            v@ == returns_raw(*t, sv, ms@.take(i as int)),
            forall|k: int| 0 <= k < v@.len() ==> (#[trigger] v@[k]).scope < scopes@.len(),
    {
        let m = &ms[i];
        assert(ms@.take(i + 1).drop_last() =~= ms@.take(i as int));
        assert(ms@.take(i + 1).last() == *m);
        proof { lemma_capture_fits(ms@, i as int, "value"@, t.nodes@.len() as int); }
        match capture_named(m, "value") {
            Some(x) => {
                let value_span = t.nodes[x].span;
                let rt = Return { value_span, scope: innermost_scope(scopes, &value_span) };
                v.push(rt);
            },
            None => {},
        }
    }
    assert(ms@.take(n as int) =~= ms@);
    v
}

/// `s` holds the structural facts of tree `t` under `ids` and `m`.
pub open spec fn built_from(s: Structure, t: SyntaxTree, ids: Seq<String>, m: ProfileMatches) -> bool {
    &&& s.wf()
    &&& views(s.scopes@) == scopes_spec(t, m.functions@)
    &&& views(s.path_uses@) == uses_spec(t, ids, views(s.scopes@))
    &&& views(s.assigns@) == ssort::<Assign>(assigns_raw(t, ids, views(s.scopes@), m.assignments@))
    &&& views(s.params@) == numbered(dedup_loc::<Param>(ssort::<Param>(params_raw(t, views(s.scopes@), m.params@))))
    &&& views(s.calls@) == dedup_loc::<CallSite>(ssort::<CallSite>(calls_raw(t, m.calls@)))
    &&& s.returns@ == returns_raw(t, views(s.scopes@), m.returns@)
}

proof fn lemma_calls_raw_len(t: SyntaxTree, ms: Seq<QueryMatch>)
    ensures
        calls_raw(t, ms).len() <= ms.len(),
    decreases ms.len(),
{
    if ms.len() > 0 {
        lemma_calls_raw_len(t, ms.drop_last());
    }
}

/// A file has no more call sites than call matches.
pub proof fn lemma_calls_bounded(s: Structure, t: SyntaxTree, ids: Seq<String>, m: ProfileMatches)
    requires
        built_from(s, t, ids, m),
    ensures
        s.calls@.len() <= m.calls@.len(),
{
    lemma_calls_raw_len(t, m.calls@);
    crate::sorting::lemma_ssort::<CallSite>(calls_raw(t, m.calls@));
    crate::sorting::lemma_dedup_loc::<CallSite>(ssort::<CallSite>(calls_raw(t, m.calls@)));
    assert(views(s.calls@).len() == s.calls@.len());
}

impl Structure {
    /// Structural facts of one file: scopes (the file and each function,
    /// with parents), path uses (maximal dotted chains rooted at
    /// identifiers), assignments, parameters (numbered per scope), call
    /// sites and returns, each fact in its innermost scope.
    pub fn build(tree: &SyntaxTree, identifiers: &Vec<String>, matches: &ProfileMatches) -> (r: Structure)
        requires
            tree.wf(),
            matches.fits(*tree),
        ensures
            built_from(r, *tree, identifiers@, *matches),
            r.wf(),
            views(r.scopes@) == scopes_spec(*tree, matches.functions@),
            views(r.path_uses@) == uses_spec(*tree, identifiers@, views(r.scopes@)),
            views(r.assigns@) == ssort::<Assign>(assigns_raw(*tree, identifiers@, views(r.scopes@), matches.assignments@)),
            views(r.params@) == numbered(dedup_loc::<Param>(ssort::<Param>(params_raw(*tree, views(r.scopes@), matches.params@)))),
            views(r.calls@) == dedup_loc::<CallSite>(ssort::<CallSite>(calls_raw(*tree, matches.calls@))),
            r.returns@ == returns_raw(*tree, views(r.scopes@), matches.returns@),
    {
        let scopes = build_scopes(tree, &matches.functions);
        let path_uses = build_uses(tree, identifiers, &scopes);
        let assigns = build_assigns(tree, identifiers, &scopes, &matches.assignments);
        let params = build_params(tree, &scopes, &matches.params);
        let calls = build_calls(tree, &matches.calls);
        let rets = build_returns(tree, &scopes, &matches.returns);
        Structure { scopes, path_uses, assigns, params, calls, returns: rets }
    }
}

} // verus!
